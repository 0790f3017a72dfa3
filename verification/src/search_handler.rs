//! The answer to a request for a search.

use crate::location_json::LocJson;
use crate::locations_db::LocationsDb;
use crate::intern::Sym;
use crate::search::{
    kept_distance, opt_text, parsed, terms_of, MatchDef, Offset, QueryView, Score, SearchTerm, Term,
};
use crate::unicode::{texts, word_segments};
use crate::normalized;
use vstd::prelude::*;

verus! {

/// What a request for a search holds: the query, and where they are given
/// the number of results wanted, the code of a country, and the edit
/// distance.
#[derive(Debug)]
pub struct SearchParams {
    pub q: String,
    pub limit: Option<usize>,
    pub state: Option<String>,
    pub ld: Option<u32>,
}

/// One result of a search.
#[derive(Debug)]
pub struct SearchResult {
    pub loc: LocJson,
    pub score: i64,
    pub offset: Offset,
}

/// A parsed query as an answer shows it: the terms without their places.
#[derive(Debug)]
pub struct SearchTermJson {
    pub raw: String,
    pub normalized: String,
    pub stop_words: Vec<String>,
    pub codes: Vec<String>,
    pub exact_matches: Vec<String>,
    pub not_exact_matches: Vec<String>,
    pub state_filter: Option<String>,
    pub limit: usize,
    pub levenshtein_distance: usize,
}

/// The answer to a request for a search, with the time it took.
#[derive(Debug)]
pub struct SearchResults {
    pub time: String,
    pub query: SearchTermJson,
    pub results: Vec<SearchResult>,
}

/// The texts of terms.
pub open spec fn term_texts(terms: Seq<Term>) -> Seq<Seq<char>> {
    terms.map_values(|t: Term| t.term)
}

/// The texts of the terms of a list.
fn texts_of(terms: &Vec<MatchDef<String>>) -> (r: Vec<String>)
    ensures
        texts(r@) == term_texts(terms_of(terms@)),
{
    let mut r: Vec<String> = Vec::new();
    let mut i: usize = 0;
    while i < terms.len()
        invariant
            i <= terms@.len(),
            r@.len() == i,
            forall|j: int| 0 <= j < i ==> (#[trigger] r@[j])@ == terms@[j].term@,
        decreases terms.len() - i,
    {
        r.push(terms[i].term.clone());
        i += 1;
    }
    assert(texts(r@) =~= term_texts(terms_of(terms@)));
    r
}

impl SearchParams {
    /// The number of results wanted: the one given, else one.
    pub open spec fn wanted(&self) -> usize {
        match self.limit {
            Some(n) => n,
            None => 1,
        }
    }

    /// The edit distance asked for: the one given, else two.
    pub open spec fn distance(&self) -> u32 {
        match self.ld {
            Some(d) => d,
            None => 2,
        }
    }

    /// The number of results wanted: the one given, else one.
    pub fn get_limit(&self) -> (r: usize)
        ensures
            r == self.wanted(),
    {
        match self.limit {
            Some(n) => n,
            None => 1,
        }
    }

    /// The edit distance to search with: the one given, and 2 where none
    /// or more is given.
    pub fn get_distance(&self) -> (r: u32)
        ensures
            r == kept_distance(self.distance()),
    {
        match self.ld {
            None => 2,
            Some(ld) => if ld > 2 {
                2
            } else {
                ld
            },
        }
    }
}

impl SearchTermJson {
    /// Whether `self` shows the query.
    pub open spec fn shows(&self, q: QueryView) -> bool {
        &&& self.raw@ == q.raw
        &&& self.normalized@ == q.normalized
        &&& texts(self.stop_words@) == q.stop_words
        &&& texts(self.codes@) == term_texts(q.codes)
        &&& texts(self.exact_matches@) == term_texts(q.exact_matches)
        &&& texts(self.not_exact_matches@) == term_texts(q.not_exact_matches)
        &&& opt_text(self.state_filter) == q.state_filter
        &&& self.limit == q.limit
        &&& self.levenshtein_distance == q.lev_dist
    }

    /// Shows a parsed query.
    pub fn from_search_term(t: SearchTerm) -> (r: SearchTermJson)
        ensures
            r.shows(t@),
    {
        let codes = texts_of(&t.codes);
        let exact_matches = texts_of(&t.exact_matches);
        let not_exact_matches = texts_of(&t.not_exact_matches);
        SearchTermJson {
            raw: t.raw,
            normalized: t.normalized,
            stop_words: t.stop_words,
            codes,
            exact_matches,
            not_exact_matches,
            state_filter: t.state_filter,
            limit: t.limit,
            levenshtein_distance: t.lev_dist as usize,
        }
    }
}

/// Whether the results show the ranking: each the entity of the key, its
/// score and its offset.
pub open spec fn show_ranking(
    results: Seq<SearchResult>,
    db: &LocationsDb,
    ranking: Seq<(Sym, Score)>,
) -> bool {
    &&& results.len() == ranking.len()
    &&& forall|i: int|
        0 <= i < results.len() ==> {
            &&& db.all@.contains_key(ranking[i].0)
            &&& (#[trigger] results[i]).loc.shows(db, &db.all@[ranking[i].0])
            &&& results[i].score == ranking[i].1.score
            &&& results[i].offset == ranking[i].1.offset
        }
}

/// One result as a search shows it.
fn show_one(db: &LocationsDb, key: Sym, score: Score) -> (r: SearchResult)
    requires
        db.wf(),
        db.all@.contains_key(key),
    ensures
        r.loc.shows(db, &db.all@[key]),
        r.score == score.score,
        r.offset == score.offset,
{
    let found = db.all.get(&key);
    assert(found is Some);
    let loc = found.unwrap();
    assert(db.entity_ok(key));
    SearchResult { loc: LocJson::from_location(db, loc), score: score.score, offset: score.offset }
}

/// The results as a search shows them.
fn show_all(db: &LocationsDb, ranking: &Vec<(Sym, Score)>) -> (results: Vec<SearchResult>)
    requires
        db.wf(),
        forall|j: int| 0 <= j < ranking@.len() ==> db.all@.contains_key((#[trigger] ranking@[j]).0),
    ensures
        show_ranking(results@, db, ranking@),
{
    let mut results: Vec<SearchResult> = Vec::new();
    let mut i: usize = 0;
    while i < ranking.len()
        invariant
            db.wf(),
            i <= ranking@.len(),
            forall|j: int|
                0 <= j < ranking@.len() ==> db.all@.contains_key((#[trigger] ranking@[j]).0),
            results@.len() == i,
            forall|j: int|
                0 <= j < i ==> {
                    &&& (#[trigger] results@[j]).loc.shows(db, &db.all@[ranking@[j].0])
                    &&& results@[j].score == ranking@[j].1.score
                    &&& results@[j].offset == ranking@[j].1.offset
                },
        decreases ranking.len() - i,
    {
        let (key, score) = ranking[i];
        assert(db.all@.contains_key(ranking@[i as int].0));
        let shown = show_one(db, key, score);
        results.push(shown);
        i += 1;
    }
    results
}

impl SearchParams {
    /// The query that the request asks for, as it is parsed against the
    /// texts of a corpus.
    pub open spec fn asked(&self, pool: Seq<Seq<char>>) -> QueryView {
        parsed(
            self.q@,
            normalized(self.q@),
            word_segments(normalized(self.q@)),
            pool,
            opt_text(self.state),
            self.wanted(),
            kept_distance(self.distance()),
        )
    }

    /// Parses the query of the request.
    pub fn parse(self, db: &LocationsDb) -> (st: SearchTerm)
        requires
            db.pool.wf(),
        ensures
            st@ == self.asked(db.pool@),
    {
        let limit = self.get_limit();
        let distance = self.get_distance();
        SearchTerm::from_raw_query(self.q, self.state, limit, distance, &db.pool)
    }
}

impl SearchResults {
    /// Whether `self` shows the query `q` and a ranking that a search for
    /// it gives.
    pub open spec fn shows(&self, db: &LocationsDb, q: QueryView) -> bool {
        &&& self.query.shows(q)
        &&& exists|ranking: Seq<(Sym, Score)>|
            db.answers(q, ranking) && #[trigger] show_ranking(self.results@, db, ranking)
    }

    /// Whether `self` answers the request: it shows the query as it is
    /// parsed, and the ranking that a search for it gives.
    pub open spec fn answers(&self, db: &LocationsDb, params: &SearchParams) -> bool {
        self.shows(db, params.asked(db.pool@))
    }

    /// The answer to a parsed query. The time is left empty.
    pub fn answer_query(db: &LocationsDb, st: SearchTerm) -> (r: SearchResults)
        requires
            db.wf(),
        ensures
            r.shows(db, st@),
            r.time@.len() == 0,
    {
        let ranking = db.search(&st);
        proof {
            db.lemma_results_exist(st@, ranking@);
        }
        let results = show_all(db, &ranking);
        let r = SearchResults {
            time: String::new(),
            query: SearchTermJson::from_search_term(st),
            results,
        };
        assert(db.answers(st@, ranking@) && show_ranking(r.results@, db, ranking@));
        r
    }

    /// Answers a request for a search. The time is left empty.
    pub fn answer(db: &LocationsDb, params: SearchParams) -> (r: SearchResults)
        requires
            db.wf(),
        ensures
            r.answers(db, &params),
            r.time@.len() == 0,
    {
        let st = params.parse(db);
        SearchResults::answer_query(db, st)
    }
}

} // verus!
