//! A parsed query, and the score that it gives to a name or a code.

use crate::distance::{edit_distance, lemma_edit_distance_bound, levenshtein};
use crate::intern::Interner;
use crate::text::{
    byte_len, bytes_of, find, first_occurrence, is_prefix, join, joined,
    lemma_first_occurrence_from, starts_with, str_eq,
};
use crate::unicode::{texts, unicode_words, word_segments};
use crate::{normalize, normalized, SCORE_SOFT_MAX};
use vstd::prelude::*;
use vstd::string::{StrSliceExecFns, StringSliceAdditionalSpecFns};

verus! {

/// The bytes `[start, end)` of the normalized query that a term covers.
#[derive(Debug, Clone, Copy, PartialEq, Eq, Structural)]
pub struct Offset {
    pub start: usize,
    pub end: usize,
}

/// How well a query matches, and where in the query the match stands.
#[derive(Debug, Clone, Copy, PartialEq, Eq, Structural)]
pub struct Score {
    pub score: i64,
    pub offset: Offset,
}

/// A term of the query with the place where it stands.
#[derive(Debug)]
pub struct MatchDef<T> {
    pub term: T,
    pub offset: Offset,
}

/// A term as a specification sees it: its text and its place.
pub type Term = MatchDef<Seq<char>>;

impl<T: View> View for MatchDef<T> {
    type V = MatchDef<T::V>;

    open spec fn view(&self) -> MatchDef<T::V> {
        MatchDef { term: self.term@, offset: self.offset }
    }
}

/// The terms that a vector of matches holds.
pub open spec fn terms_of(v: Seq<MatchDef<String>>) -> Seq<Term> {
    v.map_values(|m: MatchDef<String>| m@)
}

/// Whether `a` ranks strictly above `b`: by the higher score, then by the
/// earlier start, then by the shorter span.
pub open spec fn outranks(a: Score, b: Score) -> bool {
    ||| a.score > b.score
    ||| a.score == b.score && a.offset.start < b.offset.start
    ||| a.score == b.score && a.offset.start == b.offset.start && a.offset.end < b.offset.end
}

/// The one of two optional scores that ranks higher. A score ranks above
/// none.
pub open spec fn better(a: Option<Score>, b: Option<Score>) -> Option<Score> {
    match (a, b) {
        (None, _) => b,
        (_, None) => a,
        (Some(x), Some(y)) => if outranks(y, x) {
            b
        } else {
            a
        },
    }
}

/// An integer brought into the range of `i64`.
pub open spec fn clamp_score(x: int) -> i64 {
    if x > i64::MAX {
        i64::MAX
    } else if x < i64::MIN {
        i64::MIN
    } else {
        x as i64
    }
}

/// The score of a term that is the subject itself.
pub open spec fn exact_score(subject: Seq<char>) -> i64 {
    clamp_score(SCORE_SOFT_MAX + bytes_of(subject).len())
}

/// A thousand times the share of `longest` characters that `distance`
/// edits leave untouched, rounded down; a thousand where there is no
/// character at all.
pub open spec fn kept_share(distance: int, longest: int) -> int {
    if longest == 0 {
        SCORE_SOFT_MAX as int
    } else {
        (SCORE_SOFT_MAX * (longest - distance)) / longest
    }
}

/// A thousand times the share of the longer text that the edits from one
/// text to the other leave untouched, rounded down.
pub open spec fn similarity(a: Seq<char>, b: Seq<char>) -> int {
    let longest = if a.len() >= b.len() {
        a.len()
    } else {
        b.len()
    };
    kept_share(edit_distance(a, b) as int, longest as int)
}

/// The score that a term of the query gives to a subject that it is not
/// equal to.
pub open spec fn fuzzy_score(subject: Seq<char>, term: Seq<char>) -> i64 {
    let tl = bytes_of(term).len();
    let sl = bytes_of(subject).len();
    if tl > 3 && is_prefix(bytes_of(term), bytes_of(subject)) {
        clamp_score(SCORE_SOFT_MAX + 2 * tl)
    } else if tl <= sl + 1 && sl <= tl + 1 {
        clamp_score(similarity(subject, term))
    } else {
        0
    }
}

/// The best score among the terms that are the subject itself.
pub open spec fn best_exact(terms: Seq<Term>, subject: Seq<char>) -> Option<Score>
    decreases terms.len(),
{
    if terms.len() == 0 {
        None
    } else {
        let rest = best_exact(terms.drop_last(), subject);
        let t = terms.last();
        if t.term == subject {
            better(rest, Some(Score { score: exact_score(subject), offset: t.offset }))
        } else {
            rest
        }
    }
}

/// The best score above zero that the terms give to the subject.
pub open spec fn best_fuzzy(terms: Seq<Term>, subject: Seq<char>) -> Option<Score>
    decreases terms.len(),
{
    if terms.len() == 0 {
        None
    } else {
        let rest = best_fuzzy(terms.drop_last(), subject);
        let t = terms.last();
        if fuzzy_score(subject, t.term) > 0 {
            better(rest, Some(Score { score: fuzzy_score(subject, t.term), offset: t.offset }))
        } else {
            rest
        }
    }
}

/// The score of a subject: that of an exact term where there is one, else
/// the best that the other terms give.
pub open spec fn match_score(exact: Seq<Term>, not_exact: Seq<Term>, subject: Seq<char>) -> Option<
    Score,
> {
    match best_exact(exact, subject) {
        Some(s) => Some(s),
        None => best_fuzzy(not_exact, subject),
    }
}

/// The best of `score` at the places of the codes that are among the
/// subject's codes.
pub open spec fn best_code(codes: Seq<Term>, subject_codes: Seq<Seq<char>>, score: i64) -> Option<
    Score,
>
    decreases codes.len(),
{
    if codes.len() == 0 {
        None
    } else {
        let rest = best_code(codes.drop_last(), subject_codes, score);
        let t = codes.last();
        if subject_codes.contains(t.term) {
            better(rest, Some(Score { score, offset: t.offset }))
        } else {
            rest
        }
    }
}

/// Whether no term of the list is longer than `max_len` bytes.
pub open spec fn terms_within(terms: Seq<Term>, max_len: nat) -> bool {
    forall|i: int| 0 <= i < terms.len() ==> bytes_of((#[trigger] terms[i]).term).len() <= max_len
}

/// The share of a thousand that `similarity` gives is never more than a
/// thousand.
pub proof fn lemma_similarity_bound(a: Seq<char>, b: Seq<char>)
    ensures
        similarity(a, b) <= SCORE_SOFT_MAX,
{
    let m: int = if a.len() >= b.len() {
        a.len() as int
    } else {
        b.len() as int
    };
    let d: int = edit_distance(a, b) as int;
    if m > 0 {
        assert((1000 * (m - d)) / m <= 1000) by (nonlinear_arith)
            requires
                m > 0,
                d >= 0,
        ;
    }
    assert(similarity(a, b) == kept_share(d, m));
}

/// The score of an exact term lies above zero and within the soft
/// maximum and twice the length of the longest term.
pub proof fn lemma_best_exact_bounds(terms: Seq<Term>, subject: Seq<char>, max_len: nat)
    requires
        terms_within(terms, max_len),
    ensures
        best_exact(terms, subject) matches Some(s) ==> SCORE_SOFT_MAX <= s.score <= SCORE_SOFT_MAX
            + 2 * max_len,
    decreases terms.len(),
{
    if terms.len() > 0 {
        assert(terms_within(terms.drop_last(), max_len)) by {
            assert forall|i: int| 0 <= i < terms.drop_last().len() implies bytes_of(
                (#[trigger] terms.drop_last()[i]).term,
            ).len() <= max_len by {
                assert(terms.drop_last()[i] == terms[i]);
            }
        }
        lemma_best_exact_bounds(terms.drop_last(), subject, max_len);
        let t = terms.last();
        assert(t == terms[terms.len() - 1]);
    }
}

/// The score that the terms give to a subject they are not equal to lies
/// above zero and within the soft maximum and twice the length of the
/// longest term.
pub proof fn lemma_best_fuzzy_bounds(terms: Seq<Term>, subject: Seq<char>, max_len: nat)
    requires
        terms_within(terms, max_len),
    ensures
        best_fuzzy(terms, subject) matches Some(s) ==> 0 < s.score <= SCORE_SOFT_MAX + 2 * max_len,
    decreases terms.len(),
{
    if terms.len() > 0 {
        assert(terms_within(terms.drop_last(), max_len)) by {
            assert forall|i: int| 0 <= i < terms.drop_last().len() implies bytes_of(
                (#[trigger] terms.drop_last()[i]).term,
            ).len() <= max_len by {
                assert(terms.drop_last()[i] == terms[i]);
            }
        }
        lemma_best_fuzzy_bounds(terms.drop_last(), subject, max_len);
        let t = terms.last();
        assert(t == terms[terms.len() - 1]);
        lemma_similarity_bound(subject, t.term);
    }
}

/// A score that `match_str` returns lies above zero and is never more than
/// the soft maximum and twice the length of the longest term of the query.
pub proof fn lemma_match_score_bounds(
    exact: Seq<Term>,
    not_exact: Seq<Term>,
    subject: Seq<char>,
    max_len: nat,
)
    requires
        terms_within(exact, max_len),
        terms_within(not_exact, max_len),
    ensures
        match_score(exact, not_exact, subject) matches Some(s) ==> 0 < s.score <= SCORE_SOFT_MAX
            + 2 * max_len,
{
    lemma_best_exact_bounds(exact, subject, max_len);
    lemma_best_fuzzy_bounds(not_exact, subject, max_len);
}

/// A score that `match_str` returns lies above zero.
pub proof fn lemma_match_score_positive(exact: Seq<Term>, not_exact: Seq<Term>, subject: Seq<char>)
    ensures
        match_score(exact, not_exact, subject) matches Some(s) ==> 0 < s.score,
{
    lemma_best_exact_positive(exact, subject);
    lemma_best_fuzzy_positive(not_exact, subject);
}

/// The score of an exact term is the soft maximum at least.
pub proof fn lemma_best_exact_positive(terms: Seq<Term>, subject: Seq<char>)
    ensures
        best_exact(terms, subject) matches Some(s) ==> SCORE_SOFT_MAX <= s.score,
    decreases terms.len(),
{
    if terms.len() > 0 {
        lemma_best_exact_positive(terms.drop_last(), subject);
    }
}

/// The score that the terms give to a subject they are not equal to lies
/// above zero.
pub proof fn lemma_best_fuzzy_positive(terms: Seq<Term>, subject: Seq<char>)
    ensures
        best_fuzzy(terms, subject) matches Some(s) ==> 0 < s.score,
    decreases terms.len(),
{
    if terms.len() > 0 {
        lemma_best_fuzzy_positive(terms.drop_last(), subject);
    }
}

impl Score {
    /// Whether `self` ranks strictly above `other`.
    pub fn outranks(&self, other: &Score) -> (r: bool)
        ensures
            r == outranks(*self, *other),
    {
        self.score > other.score || (self.score == other.score && (self.offset.start
            < other.offset.start || (self.offset.start == other.offset.start && self.offset.end
            < other.offset.end)))
    }

    /// The one of two optional scores that ranks higher.
    pub fn better(a: Option<Score>, b: Option<Score>) -> (r: Option<Score>)
        ensures
            r == better(a, b),
    {
        match (a, b) {
            (None, _) => b,
            (_, None) => a,
            (Some(x), Some(y)) => if y.outranks(&x) {
                b
            } else {
                a
            },
        }
    }
}

/// The sum of two scores, brought into the range of `i64`.
pub fn clamped_sum(a: i64, b: i64) -> (r: i64)
    ensures
        r == clamp_score(a + b),
{
    let wide: i128 = a as i128 + b as i128;
    if wide > 0x7fff_ffff_ffff_ffffi128 {
        i64::MAX
    } else if wide < -0x8000_0000_0000_0000i128 {
        i64::MIN
    } else {
        wide as i64
    }
}

/// `SCORE_SOFT_MAX` and `factor` times a length, brought into range.
fn soft_score(len: usize, factor: u8) -> (r: i64)
    requires
        factor == 1 || factor == 2,
    ensures
        r == clamp_score(SCORE_SOFT_MAX + factor * len),
{
    let units: i128 = len as i128;
    let wide: i128 = if factor == 1 {
        1000 + units
    } else {
        1000 + 2 * units
    };
    if wide > 0x7fff_ffff_ffff_ffffi128 {
        i64::MAX
    } else {
        wide as i64
    }
}

/// A thousand times the share of `longest` characters that `distance`
/// edits leave untouched, rounded down.
pub fn share_kept(distance: usize, longest: usize) -> (r: i64)
    requires
        distance <= longest,
    ensures
        r == kept_share(distance as int, longest as int),
        0 <= r <= SCORE_SOFT_MAX,
{
    if longest == 0 {
        return SCORE_SOFT_MAX;
    }
    let kept: u128 = (longest - distance) as u128;
    let q: u128 = (1000u128 * kept) / (longest as u128);
    proof {
        assert(1000 * kept <= 1000 * longest) by (nonlinear_arith)
            requires
                kept <= longest,
        ;
        assert((1000 * kept) / (longest as int) <= 1000) by (nonlinear_arith)
            requires
                1000 * kept <= 1000 * longest,
                longest > 0,
                kept >= 0,
        ;
        assert((1000 * kept) / (longest as int) >= 0) by (nonlinear_arith)
            requires
                longest > 0,
                kept >= 0,
        ;
    }
    q as i64
}

/// A thousand times the share of the longer text that the edits from one
/// text to the other leave untouched, rounded down.
fn similarity_score(a: &str, b: &str) -> (r: i64)
    ensures
        r == similarity(a@, b@),
        0 <= r <= SCORE_SOFT_MAX,
{
    let la: usize = a.unicode_len();
    let lb: usize = b.unicode_len();
    let longest: usize = if la >= lb {
        la
    } else {
        lb
    };
    let distance: usize = levenshtein(a, b);
    proof {
        lemma_edit_distance_bound(a@, b@);
    }
    share_kept(distance, longest)
}

/// The score that a term of the query gives to a subject that it is not
/// equal to.
fn fuzzy(subject: &str, term: &str) -> (r: i64)
    ensures
        r == fuzzy_score(subject@, term@),
{
    let tl: usize = byte_len(term);
    let sl: usize = byte_len(subject);
    if tl > 3 && starts_with(subject, term) {
        soft_score(tl, 2)
    } else if (tl <= sl && sl - tl <= 1) || (sl < tl && tl - sl <= 1) {
        similarity_score(subject, term)
    } else {
        0
    }
}

/// A parsed query.
#[derive(Debug)]
pub struct SearchTerm {
    /// The query as it was given.
    pub raw: String,
    /// The query in normal form; every offset is an index into its bytes.
    pub normalized: String,
    /// The words of the query that are known stop words.
    pub stop_words: Vec<String>,
    /// The known words of two or three bytes.
    pub codes: Vec<MatchDef<String>>,
    /// The known words, pairs and triples of words, longest first, each once.
    pub exact_matches: Vec<MatchDef<String>>,
    /// The unknown words and pairs of words.
    pub not_exact_matches: Vec<MatchDef<String>>,
    /// The country code that a result must have, if any.
    pub state_filter: Option<String>,
    /// The most results that are wanted.
    pub limit: usize,
    /// The edit distance within which a word of the corpus is recalled.
    pub lev_dist: u32,
}

/// A parsed query as a specification sees it.
pub struct QueryView {
    pub raw: Seq<char>,
    pub normalized: Seq<char>,
    pub stop_words: Seq<Seq<char>>,
    pub codes: Seq<Term>,
    pub exact_matches: Seq<Term>,
    pub not_exact_matches: Seq<Term>,
    pub state_filter: Option<Seq<char>>,
    pub limit: usize,
    pub lev_dist: u32,
}

/// The text of an optional string.
pub open spec fn opt_text(s: Option<String>) -> Option<Seq<char>> {
    match s {
        Some(t) => Some(t@),
        None => None,
    }
}

impl View for SearchTerm {
    type V = QueryView;

    open spec fn view(&self) -> QueryView {
        QueryView {
            raw: self.raw@,
            normalized: self.normalized@,
            stop_words: texts(self.stop_words@),
            codes: terms_of(self.codes@),
            exact_matches: terms_of(self.exact_matches@),
            not_exact_matches: terms_of(self.not_exact_matches@),
            state_filter: opt_text(self.state_filter),
            limit: self.limit,
            lev_dist: self.lev_dist,
        }
    }
}

/// Whether a text stands somewhere in the normalized query.
pub open spec fn located(normalized: Seq<char>, text: Seq<char>) -> bool {
    first_occurrence(bytes_of(normalized), bytes_of(text)) is Some
}

/// The term for a text: the text with the place where it first stands in
/// the normalized query.
pub open spec fn term_at(normalized: Seq<char>, text: Seq<char>) -> Term {
    let start = first_occurrence(bytes_of(normalized), bytes_of(text)).unwrap();
    MatchDef {
        term: text,
        offset: Offset { start: start as usize, end: (start + bytes_of(text).len()) as usize },
    }
}

/// Whether a term with this text is in the list.
pub open spec fn has_term(list: Seq<Term>, text: Seq<char>) -> bool {
    exists|k: int| 0 <= k < list.len() && (#[trigger] list[k]).term == text
}

/// The first index at or after `k` whose term is shorter than `len` bytes.
pub open spec fn rank_from(list: Seq<Term>, len: nat, k: int) -> int
    decreases list.len() - k,
{
    if k < 0 || k >= list.len() || bytes_of(list[k].term).len() < len {
        k
    } else {
        rank_from(list, len, k + 1)
    }
}

/// The list with the term added, unless its text is there already: it goes
/// behind the terms that are at least as long and before the shorter ones.
pub open spec fn with_exact(list: Seq<Term>, t: Term) -> Seq<Term> {
    if has_term(list, t.term) {
        list
    } else {
        list.insert(rank_from(list, bytes_of(t.term).len(), 0), t)
    }
}

/// The query with a code added at the end of its codes.
pub open spec fn code_added(q: QueryView, text: Seq<char>) -> QueryView {
    QueryView { codes: q.codes.push(term_at(q.normalized, text)), ..q }
}

/// The query with an exact term added in its place.
pub open spec fn exact_added(q: QueryView, text: Seq<char>) -> QueryView {
    QueryView { exact_matches: with_exact(q.exact_matches, term_at(q.normalized, text)), ..q }
}

/// The query with a term added at the end of those that are not exact.
pub open spec fn not_exact_added(q: QueryView, text: Seq<char>) -> QueryView {
    QueryView { not_exact_matches: q.not_exact_matches.push(term_at(q.normalized, text)), ..q }
}

/// Pushing a match pushes its term.
proof fn lemma_terms_push(v: Seq<MatchDef<String>>, m: MatchDef<String>)
    ensures
        terms_of(v.push(m)) == terms_of(v).push(m@),
{
    assert(terms_of(v.push(m)) =~= terms_of(v).push(m@));
}

/// Inserting a match inserts its term.
proof fn lemma_terms_insert(v: Seq<MatchDef<String>>, k: int, m: MatchDef<String>)
    requires
        0 <= k <= v.len(),
    ensures
        terms_of(v.insert(k, m)) == terms_of(v).insert(k, m@),
{
    assert(terms_of(v.insert(k, m)) =~= terms_of(v).insert(k, m@));
}

/// Whether a text is one of the words that carry no meaning in a query.
pub open spec fn is_stop_text(t: Seq<char>) -> bool {
    ||| t == "at"@
    ||| t == "to"@
    ||| t == "in"@
    ||| t == "on"@
    ||| t == "of"@
    ||| t == "for"@
    ||| t == "by"@
    ||| t == "and"@
    ||| t == "was"@
    ||| t == "did"@
    ||| t == "the"@
}

/// Whether a text is a stop word: one of the words without meaning that
/// the corpus knows.
pub open spec fn is_stop_word(pool: Seq<Seq<char>>, t: Seq<char>) -> bool {
    pool.contains(t) && is_stop_text(t)
}

/// The stop words among the first `n` words, in their order.
pub open spec fn stop_words_upto(pool: Seq<Seq<char>>, words: Seq<Seq<char>>, n: int) -> Seq<
    Seq<char>,
>
    decreases n,
{
    if n <= 0 {
        Seq::empty()
    } else {
        let before = stop_words_upto(pool, words, n - 1);
        if is_stop_word(pool, words[n - 1]) {
            before.push(words[n - 1])
        } else {
            before
        }
    }
}

/// The pair of the words at `i` and behind it.
pub open spec fn pair_at(words: Seq<Seq<char>>, i: int) -> Seq<char> {
    joined(words[i], words[i + 1])
}

/// The triple of the words at `i` and behind it.
pub open spec fn triple_at(words: Seq<Seq<char>>, i: int) -> Seq<char> {
    joined(pair_at(words, i), words[i + 2])
}

/// The query after the pair at `i` was looked at. A pair that is not made
/// of stop words alone and stands in the query is an exact term if the
/// corpus knows it, else a term that is not exact.
pub open spec fn with_pair(q: QueryView, pool: Seq<Seq<char>>, words: Seq<Seq<char>>, i: int)
    -> QueryView {
    if 0 <= i && i + 1 < words.len() {
        let pair = pair_at(words, i);
        if is_stop_word(pool, words[i]) && is_stop_word(pool, words[i + 1]) {
            q
        } else if !located(q.normalized, pair) {
            q
        } else if pool.contains(pair) {
            exact_added(q, pair)
        } else {
            not_exact_added(q, pair)
        }
    } else {
        q
    }
}

/// The query after the triple at `i` was looked at. A triple that is not
/// made of stop words alone, stands in the query and is known to the corpus
/// is an exact term.
pub open spec fn with_triple(q: QueryView, pool: Seq<Seq<char>>, words: Seq<Seq<char>>, i: int)
    -> QueryView {
    if 0 <= i && i + 2 < words.len() {
        let triple = triple_at(words, i);
        if is_stop_word(pool, words[i]) && is_stop_word(pool, words[i + 1]) && is_stop_word(
            pool,
            words[i + 2],
        ) {
            q
        } else if located(q.normalized, triple) && pool.contains(triple) {
            exact_added(q, triple)
        } else {
            q
        }
    } else {
        q
    }
}

/// The query after the word at `i` was looked at. A word of fewer than two
/// bytes is dropped. An unknown word is a term that is not exact. A known
/// word is dropped if it is a stop word, else it is an exact term, and a
/// code too if it has two or three bytes.
pub open spec fn with_word(q: QueryView, pool: Seq<Seq<char>>, words: Seq<Seq<char>>, i: int)
    -> QueryView {
    let word = words[i];
    let len = bytes_of(word).len();
    if len < 2 || !located(q.normalized, word) {
        q
    } else if !pool.contains(word) {
        not_exact_added(q, word)
    } else if is_stop_text(word) {
        q
    } else if len <= 3 {
        exact_added(code_added(q, word), word)
    } else {
        exact_added(q, word)
    }
}

/// The query after the pair, the triple and the word at `i` were looked at.
pub open spec fn with_position(q: QueryView, pool: Seq<Seq<char>>, words: Seq<Seq<char>>, i: int)
    -> QueryView {
    with_word(with_triple(with_pair(q, pool, words, i), pool, words, i), pool, words, i)
}

/// The query after the first `n` positions were looked at.
pub open spec fn with_positions(
    q: QueryView,
    pool: Seq<Seq<char>>,
    words: Seq<Seq<char>>,
    n: int,
) -> QueryView
    decreases n,
{
    if n <= 0 {
        q
    } else {
        with_position(with_positions(q, pool, words, n - 1), pool, words, n - 1)
    }
}

/// The state filter that a query keeps: the one given, if the corpus knows
/// it.
pub open spec fn kept_filter(pool: Seq<Seq<char>>, filter: Option<Seq<char>>) -> Option<
    Seq<char>,
> {
    match filter {
        Some(t) => if pool.contains(t) {
            Some(t)
        } else {
            None
        },
        None => None,
    }
}

/// The edit distance that a query keeps: the one given, and 2 if more is
/// given.
pub open spec fn kept_distance(lev_dist: u32) -> u32 {
    if lev_dist > 2 {
        2
    } else {
        lev_dist
    }
}

/// The query before any term is added.
pub open spec fn blank_query(
    raw: Seq<char>,
    normalized: Seq<char>,
    words: Seq<Seq<char>>,
    pool: Seq<Seq<char>>,
    filter: Option<Seq<char>>,
    limit: usize,
    lev_dist: u32,
) -> QueryView {
    QueryView {
        raw,
        normalized,
        stop_words: stop_words_upto(pool, words, words.len() as int),
        codes: Seq::empty(),
        exact_matches: Seq::empty(),
        not_exact_matches: Seq::empty(),
        state_filter: kept_filter(pool, filter),
        limit,
        lev_dist: kept_distance(lev_dist),
    }
}

/// The parsed form of a query, given its normal form and the words of
/// that.
pub open spec fn parsed(
    raw: Seq<char>,
    normalized: Seq<char>,
    words: Seq<Seq<char>>,
    pool: Seq<Seq<char>>,
    filter: Option<Seq<char>>,
    limit: usize,
    lev_dist: u32,
) -> QueryView {
    with_positions(
        blank_query(raw, normalized, words, pool, filter, limit, lev_dist),
        pool,
        words,
        words.len() as int,
    )
}

/// Whether two queries differ in their terms at most: the texts, the stop
/// words, the filter, the limit and the distance are the same.
pub open spec fn same_frame(a: QueryView, b: QueryView) -> bool {
    &&& a.raw == b.raw
    &&& a.normalized == b.normalized
    &&& a.stop_words == b.stop_words
    &&& a.state_filter == b.state_filter
    &&& a.limit == b.limit
    &&& a.lev_dist == b.lev_dist
}

/// Looking at the positions of a query changes its terms and nothing
/// else.
pub proof fn lemma_positions_keep_frame(
    q: QueryView,
    pool: Seq<Seq<char>>,
    words: Seq<Seq<char>>,
    n: int,
)
    ensures
        same_frame(with_positions(q, pool, words, n), q),
    decreases n,
{
    if n > 0 {
        lemma_positions_keep_frame(q, pool, words, n - 1);
    }
}

/// A parsed query holds the query as it was given, and its normal form; it
/// keeps the limit; and its edit distance is the given one, or 2 where more
/// was given.
pub proof fn lemma_parsed_frame(
    raw: Seq<char>,
    normalized: Seq<char>,
    words: Seq<Seq<char>>,
    pool: Seq<Seq<char>>,
    filter: Option<Seq<char>>,
    limit: usize,
    lev_dist: u32,
)
    ensures
        ({
            let q = parsed(raw, normalized, words, pool, filter, limit, lev_dist);
            &&& q.raw == raw
            &&& q.normalized == normalized
            &&& q.limit == limit
            &&& q.lev_dist <= 2
            &&& lev_dist <= 2 ==> q.lev_dist == lev_dist
            &&& lev_dist > 2 ==> q.lev_dist == 2
            &&& q.state_filter == kept_filter(pool, filter)
            &&& q.stop_words == stop_words_upto(pool, words, words.len() as int)
        }),
{
    lemma_positions_keep_frame(
        blank_query(raw, normalized, words, pool, filter, limit, lev_dist),
        pool,
        words,
        words.len() as int,
    );
}

/// Whether the text is the word at `i`, or the pair or the triple that
/// begins there, and is not made of stop words alone.
pub open spec fn span_at(pool: Seq<Seq<char>>, words: Seq<Seq<char>>, i: int, text: Seq<char>)
    -> bool {
    ||| text == words[i] && !is_stop_word(pool, words[i])
    ||| i + 1 < words.len() && text == pair_at(words, i) && !(is_stop_word(pool, words[i])
        && is_stop_word(pool, words[i + 1]))
    ||| i + 2 < words.len() && text == triple_at(words, i) && !(is_stop_word(pool, words[i])
        && is_stop_word(pool, words[i + 1]) && is_stop_word(pool, words[i + 2]))
}

/// Whether the text is a word, a pair or a triple of the words that is
/// not made of stop words alone.
pub open spec fn is_span(pool: Seq<Seq<char>>, words: Seq<Seq<char>>, text: Seq<char>) -> bool {
    exists|i: int| 0 <= i < words.len() && #[trigger] span_at(pool, words, i, text)
}

/// Whether each term is a word, a pair or a triple of the words that is
/// not made of stop words alone.
pub open spec fn terms_are_spans(pool: Seq<Seq<char>>, words: Seq<Seq<char>>, terms: Seq<Term>)
    -> bool {
    forall|j: int| 0 <= j < terms.len() ==> is_span(pool, words, (#[trigger] terms[j]).term)
}

/// Whether each code and each term of the query, exact or not, is a word,
/// a pair or a triple of the words that is not made of stop words alone.
pub open spec fn free_of_stop_words(pool: Seq<Seq<char>>, words: Seq<Seq<char>>, q: QueryView)
    -> bool {
    &&& terms_are_spans(pool, words, q.codes)
    &&& terms_are_spans(pool, words, q.exact_matches)
    &&& terms_are_spans(pool, words, q.not_exact_matches)
}

/// An exact term that is added is in the list afterwards, and so is every
/// term that was there.
pub proof fn lemma_with_exact_holds(list: Seq<Term>, t: Term)
    ensures
        has_term(with_exact(list, t), t.term),
        forall|text: Seq<char>| has_term(list, text) ==> has_term(with_exact(list, t), text),
        forall|j: int|
            0 <= j < with_exact(list, t).len() ==> (#[trigger] with_exact(list, t)[j]) == t
                || list.contains(with_exact(list, t)[j]),
{
    lemma_rank_from_bounds(list, bytes_of(t.term).len(), 0);
    let at = rank_from(list, bytes_of(t.term).len(), 0);
    let out = with_exact(list, t);
    if !has_term(list, t.term) {
        assert(out[at] == t);
        assert forall|text: Seq<char>| has_term(list, text) implies has_term(out, text) by {
            let k = choose|k: int| 0 <= k < list.len() && (#[trigger] list[k]).term == text;
            if k < at {
                assert(out[k] == list[k]);
            } else {
                assert(out[k + 1] == list[k]);
            }
        }
        assert forall|j: int| 0 <= j < out.len() implies (#[trigger] out[j]) == t || list.contains(
            out[j],
        ) by {
            if j < at {
                assert(out[j] == list[j]);
            } else if j > at {
                assert(out[j] == list[j - 1]);
            }
        }
    }
}

/// The place of a new term lies within the list.
pub proof fn lemma_rank_from_bounds(list: Seq<Term>, len: nat, k: int)
    requires
        0 <= k <= list.len(),
    ensures
        k <= rank_from(list, len, k) <= list.len(),
    decreases list.len() - k,
{
    if k < list.len() && bytes_of(list[k].term).len() >= len {
        lemma_rank_from_bounds(list, len, k + 1);
    }
}

/// Adding a term that is a span to terms that are spans gives terms that
/// are spans.
proof fn lemma_spans_with_exact(
    pool: Seq<Seq<char>>,
    words: Seq<Seq<char>>,
    list: Seq<Term>,
    t: Term,
)
    requires
        terms_are_spans(pool, words, list),
        is_span(pool, words, t.term),
    ensures
        terms_are_spans(pool, words, with_exact(list, t)),
        terms_are_spans(pool, words, list.push(t)),
{
    lemma_with_exact_holds(list, t);
    let out = with_exact(list, t);
    assert forall|j: int| 0 <= j < out.len() implies is_span(
        pool,
        words,
        (#[trigger] out[j]).term,
    ) by {
        if out[j] != t {
            let k = choose|k: int| 0 <= k < list.len() && list[k] == out[j];
            assert(is_span(pool, words, list[k].term));
        }
    }
    assert forall|j: int| 0 <= j < list.push(t).len() implies is_span(
        pool,
        words,
        (#[trigger] list.push(t)[j]).term,
    ) by {
        if j < list.len() {
            assert(list.push(t)[j] == list[j]);
        }
    }
}

/// Stop words never contribute to a query: looking at a position adds
/// only words, pairs and triples that are not made of stop words alone.
pub proof fn lemma_position_free_of_stop_words(
    q: QueryView,
    pool: Seq<Seq<char>>,
    words: Seq<Seq<char>>,
    i: int,
)
    requires
        0 <= i < words.len(),
        free_of_stop_words(pool, words, q),
    ensures
        free_of_stop_words(pool, words, with_position(q, pool, words, i)),
{
    let q1 = with_pair(q, pool, words, i);
    if q1 != q {
        let pair = pair_at(words, i);
        assert(span_at(pool, words, i, pair));
        let t = term_at(q.normalized, pair);
        lemma_spans_with_exact(pool, words, q.exact_matches, t);
        lemma_spans_with_exact(pool, words, q.not_exact_matches, t);
    }
    assert(free_of_stop_words(pool, words, q1));
    let q2 = with_triple(q1, pool, words, i);
    if q2 != q1 {
        let triple = triple_at(words, i);
        assert(span_at(pool, words, i, triple));
        let t = term_at(q1.normalized, triple);
        lemma_spans_with_exact(pool, words, q1.exact_matches, t);
    }
    assert(free_of_stop_words(pool, words, q2));
    let q3 = with_word(q2, pool, words, i);
    if q3 != q2 {
        let word = words[i];
        assert(span_at(pool, words, i, word));
        let t = term_at(q2.normalized, word);
        lemma_spans_with_exact(pool, words, q2.exact_matches, t);
        lemma_spans_with_exact(pool, words, q2.not_exact_matches, t);
        lemma_spans_with_exact(pool, words, q2.codes, t);
        lemma_spans_with_exact(pool, words, q2.codes.push(t), t);
    }
}

/// Stop words never contribute to the terms of a query that is looked at
/// position by position.
pub proof fn lemma_positions_free_of_stop_words(
    q: QueryView,
    pool: Seq<Seq<char>>,
    words: Seq<Seq<char>>,
    n: int,
)
    requires
        n <= words.len(),
        free_of_stop_words(pool, words, q),
    ensures
        free_of_stop_words(pool, words, with_positions(q, pool, words, n)),
    decreases n,
{
    if n > 0 {
        lemma_positions_free_of_stop_words(q, pool, words, n - 1);
        lemma_position_free_of_stop_words(
            with_positions(q, pool, words, n - 1),
            pool,
            words,
            n - 1,
        );
    }
}

/// Stop words never contribute to a parsed query: each of its codes and
/// terms, exact or not, is a word, a pair or a triple of the words of the
/// query that is not made of stop words alone.
pub proof fn lemma_parsed_free_of_stop_words(
    raw: Seq<char>,
    normalized: Seq<char>,
    words: Seq<Seq<char>>,
    pool: Seq<Seq<char>>,
    filter: Option<Seq<char>>,
    limit: usize,
    lev_dist: u32,
)
    ensures
        free_of_stop_words(
            pool,
            words,
            parsed(raw, normalized, words, pool, filter, limit, lev_dist),
        ),
{
    lemma_positions_free_of_stop_words(
        blank_query(raw, normalized, words, pool, filter, limit, lev_dist),
        pool,
        words,
        words.len() as int,
    );
}

/// Looking at a position keeps the exact terms that a query has.
pub proof fn lemma_position_keeps_exact(
    q: QueryView,
    pool: Seq<Seq<char>>,
    words: Seq<Seq<char>>,
    i: int,
    text: Seq<char>,
)
    requires
        has_term(q.exact_matches, text),
    ensures
        has_term(with_position(q, pool, words, i).exact_matches, text),
{
    let q1 = with_pair(q, pool, words, i);
    if 0 <= i && i + 1 < words.len() {
        lemma_with_exact_holds(q.exact_matches, term_at(q.normalized, pair_at(words, i)));
    }
    assert(has_term(q1.exact_matches, text));
    let q2 = with_triple(q1, pool, words, i);
    if 0 <= i && i + 2 < words.len() {
        lemma_with_exact_holds(q1.exact_matches, term_at(q1.normalized, triple_at(words, i)));
    }
    assert(has_term(q2.exact_matches, text));
    lemma_with_exact_holds(q2.exact_matches, term_at(q2.normalized, words[i]));
    lemma_with_exact_holds(
        code_added(q2, words[i]).exact_matches,
        term_at(q2.normalized, words[i]),
    );
}

/// A text stands in itself, at the start.
pub proof fn lemma_located_in_itself(text: Seq<char>)
    ensures
        located(text, text),
{
    let b = bytes_of(text);
    assert(b.subrange(0, b.len() as int) == b);
}

/// Whether the words make up the whole of a normalized query that is a
/// term of its own: one word of two bytes or more, or two or three words
/// with single spaces between them, and not stop words alone.
pub open spec fn is_whole(pool: Seq<Seq<char>>, words: Seq<Seq<char>>, normalized: Seq<char>)
    -> bool {
    ||| words.len() == 1 && normalized == words[0] && bytes_of(words[0]).len() >= 2
        && !is_stop_text(words[0])
    ||| words.len() == 2 && normalized == pair_at(words, 0) && !(is_stop_word(pool, words[0])
        && is_stop_word(pool, words[1]))
    ||| words.len() == 3 && normalized == triple_at(words, 0) && !(is_stop_word(pool, words[0])
        && is_stop_word(pool, words[1]) && is_stop_word(pool, words[2]))
}

/// A query that is, as a whole, a text that the corpus knows has that text
/// among its exact terms.
pub proof fn lemma_whole_query_is_exact(
    raw: Seq<char>,
    normalized: Seq<char>,
    words: Seq<Seq<char>>,
    pool: Seq<Seq<char>>,
    filter: Option<Seq<char>>,
    limit: usize,
    lev_dist: u32,
)
    requires
        is_whole(pool, words, normalized),
        pool.contains(normalized),
    ensures
        has_term(
            parsed(raw, normalized, words, pool, filter, limit, lev_dist).exact_matches,
            normalized,
        ),
{
    let blank = blank_query(raw, normalized, words, pool, filter, limit, lev_dist);
    lemma_located_in_itself(normalized);
    let q1 = with_pair(blank, pool, words, 0);
    let q2 = with_triple(q1, pool, words, 0);
    let q3 = with_word(q2, pool, words, 0);
    assert(with_positions(blank, pool, words, 0) == blank);
    assert(with_positions(blank, pool, words, 1) == q3);
    if words.len() == 1 {
        lemma_with_exact_holds(q2.exact_matches, term_at(normalized, words[0]));
        lemma_with_exact_holds(
            code_added(q2, words[0]).exact_matches,
            term_at(normalized, words[0]),
        );
    } else if words.len() == 2 {
        lemma_with_exact_holds(blank.exact_matches, term_at(normalized, pair_at(words, 0)));
        assert(has_term(q1.exact_matches, normalized));
        lemma_with_exact_holds(q2.exact_matches, term_at(q2.normalized, words[0]));
        lemma_with_exact_holds(
            code_added(q2, words[0]).exact_matches,
            term_at(q2.normalized, words[0]),
        );
    } else {
        lemma_with_exact_holds(blank.exact_matches, term_at(normalized, pair_at(words, 0)));
        lemma_with_exact_holds(q1.exact_matches, term_at(normalized, triple_at(words, 0)));
        assert(has_term(q2.exact_matches, normalized));
        lemma_with_exact_holds(q2.exact_matches, term_at(q2.normalized, words[0]));
        lemma_with_exact_holds(
            code_added(q2, words[0]).exact_matches,
            term_at(q2.normalized, words[0]),
        );
    }
    assert(has_term(q3.exact_matches, normalized));
    lemma_positions_keep_exact(blank, pool, words, 1, words.len() as int, normalized);
}

/// Looking at further positions keeps the exact terms that a query has
/// after the first `from` positions.
pub proof fn lemma_positions_keep_exact(
    q: QueryView,
    pool: Seq<Seq<char>>,
    words: Seq<Seq<char>>,
    from: int,
    n: int,
    text: Seq<char>,
)
    requires
        0 <= from <= n,
        has_term(with_positions(q, pool, words, from).exact_matches, text),
    ensures
        has_term(with_positions(q, pool, words, n).exact_matches, text),
    decreases n - from,
{
    if from < n {
        lemma_positions_keep_exact(q, pool, words, from, n - 1, text);
        lemma_position_keeps_exact(with_positions(q, pool, words, n - 1), pool, words, n - 1, text);
    }
}

/// A subject that is among the exact terms of a query has the score of an
/// exact match, which is the soft maximum at least.
pub proof fn lemma_exact_term_scores(exact: Seq<Term>, not_exact: Seq<Term>, subject: Seq<char>)
    requires
        has_term(exact, subject),
    ensures
        match_score(exact, not_exact, subject) matches Some(s) && s.score == exact_score(subject)
            && s.score >= SCORE_SOFT_MAX,
{
    lemma_best_exact_score(exact, subject);
}

/// The best score of the exact terms that are the subject is the score of
/// an exact match, and there is one where such a term is.
pub proof fn lemma_best_exact_score(terms: Seq<Term>, subject: Seq<char>)
    ensures
        best_exact(terms, subject) matches Some(s) ==> s.score == exact_score(subject),
        has_term(terms, subject) ==> best_exact(terms, subject) is Some,
    decreases terms.len(),
{
    if terms.len() > 0 {
        lemma_best_exact_score(terms.drop_last(), subject);
        if has_term(terms, subject) && terms.last().term != subject {
            let k = choose|k: int| 0 <= k < terms.len() && (#[trigger] terms[k]).term == subject;
            assert(terms.drop_last()[k] == terms[k]);
        }
    }
}

/// The best score at the places of the codes is the score that was asked
/// for, where there is one.
pub proof fn lemma_best_code_score(codes: Seq<Term>, subject_codes: Seq<Seq<char>>, score: i64)
    ensures
        best_code(codes, subject_codes, score) matches Some(s) ==> s.score == score,
    decreases codes.len(),
{
    if codes.len() > 0 {
        lemma_best_code_score(codes.drop_last(), subject_codes, score);
    }
}

/// Whether the offset of a term is the place of its text in the
/// normalized query: the bytes from `start` up to `end` are the bytes of
/// the term.
pub open spec fn covers(normalized: Seq<char>, t: Term) -> bool {
    &&& t.offset.start <= t.offset.end <= bytes_of(normalized).len()
    &&& bytes_of(normalized).subrange(t.offset.start as int, t.offset.end as int) == bytes_of(
        t.term,
    )
}

/// Whether the offset of each term is the place of its text.
pub open spec fn all_cover(normalized: Seq<char>, terms: Seq<Term>) -> bool {
    forall|j: int| 0 <= j < terms.len() ==> covers(normalized, #[trigger] terms[j])
}

/// Whether the offset of each code and each term of a query, exact or not,
/// is the place of its text in the normalized query.
pub open spec fn offsets_cover(q: QueryView) -> bool {
    &&& all_cover(q.normalized, q.codes)
    &&& all_cover(q.normalized, q.exact_matches)
    &&& all_cover(q.normalized, q.not_exact_matches)
}

/// The term for a text that stands in the query has the place of the text
/// as its offset, if the query is no longer than a machine word counts.
pub proof fn lemma_term_at_covers(normalized: Seq<char>, text: Seq<char>)
    requires
        located(normalized, text),
        bytes_of(normalized).len() <= usize::MAX,
    ensures
        covers(normalized, term_at(normalized, text)),
{
    lemma_first_occurrence_from(bytes_of(normalized), bytes_of(text), 0);
}

/// Adding a term whose offset is the place of its text keeps every offset
/// the place of its text.
proof fn lemma_cover_with(normalized: Seq<char>, list: Seq<Term>, t: Term)
    requires
        all_cover(normalized, list),
        covers(normalized, t),
    ensures
        all_cover(normalized, with_exact(list, t)),
        all_cover(normalized, list.push(t)),
{
    lemma_with_exact_holds(list, t);
    let out = with_exact(list, t);
    assert forall|j: int| 0 <= j < out.len() implies covers(normalized, #[trigger] out[j]) by {
        if out[j] != t {
            let k = choose|k: int| 0 <= k < list.len() && list[k] == out[j];
            assert(covers(normalized, list[k]));
        }
    }
    assert forall|j: int| 0 <= j < list.push(t).len() implies covers(
        normalized,
        #[trigger] list.push(t)[j],
    ) by {
        if j < list.len() {
            assert(list.push(t)[j] == list[j]);
        }
    }
}

/// Looking at a position keeps every offset the place of its text.
pub proof fn lemma_position_offsets_cover(
    q: QueryView,
    pool: Seq<Seq<char>>,
    words: Seq<Seq<char>>,
    i: int,
)
    requires
        0 <= i < words.len(),
        bytes_of(q.normalized).len() <= usize::MAX,
        offsets_cover(q),
    ensures
        offsets_cover(with_position(q, pool, words, i)),
{
    let q1 = with_pair(q, pool, words, i);
    if q1 != q {
        let t = term_at(q.normalized, pair_at(words, i));
        lemma_term_at_covers(q.normalized, pair_at(words, i));
        lemma_cover_with(q.normalized, q.exact_matches, t);
        lemma_cover_with(q.normalized, q.not_exact_matches, t);
    }
    assert(offsets_cover(q1));
    let q2 = with_triple(q1, pool, words, i);
    if q2 != q1 {
        let t = term_at(q1.normalized, triple_at(words, i));
        lemma_term_at_covers(q1.normalized, triple_at(words, i));
        lemma_cover_with(q1.normalized, q1.exact_matches, t);
    }
    assert(offsets_cover(q2));
    let q3 = with_word(q2, pool, words, i);
    if q3 != q2 {
        let t = term_at(q2.normalized, words[i]);
        lemma_term_at_covers(q2.normalized, words[i]);
        lemma_cover_with(q2.normalized, q2.exact_matches, t);
        lemma_cover_with(q2.normalized, q2.not_exact_matches, t);
        lemma_cover_with(q2.normalized, q2.codes, t);
        lemma_cover_with(q2.normalized, q2.codes.push(t), t);
    }
}

/// Looking at the first `n` positions keeps every offset the place of its
/// text.
pub proof fn lemma_positions_offsets_cover(
    q: QueryView,
    pool: Seq<Seq<char>>,
    words: Seq<Seq<char>>,
    n: int,
)
    requires
        n <= words.len(),
        bytes_of(q.normalized).len() <= usize::MAX,
        offsets_cover(q),
    ensures
        offsets_cover(with_positions(q, pool, words, n)),
    decreases n,
{
    if n > 0 {
        lemma_positions_offsets_cover(q, pool, words, n - 1);
        lemma_positions_keep_frame(q, pool, words, n - 1);
        lemma_position_offsets_cover(with_positions(q, pool, words, n - 1), pool, words, n - 1);
    }
}

/// The offset of each code and each term of a parsed query is the place
/// where its text first stands in the normalized query, if that is no
/// longer than a machine word counts.
pub proof fn lemma_parsed_offsets_cover(
    raw: Seq<char>,
    normalized: Seq<char>,
    words: Seq<Seq<char>>,
    pool: Seq<Seq<char>>,
    filter: Option<Seq<char>>,
    limit: usize,
    lev_dist: u32,
)
    requires
        bytes_of(normalized).len() <= usize::MAX,
    ensures
        offsets_cover(parsed(raw, normalized, words, pool, filter, limit, lev_dist)),
{
    lemma_positions_offsets_cover(
        blank_query(raw, normalized, words, pool, filter, limit, lev_dist),
        pool,
        words,
        words.len() as int,
    );
}

/// Whether no text stands twice in the list and no term is longer than
/// one before it.
pub open spec fn longest_first(list: Seq<Term>) -> bool {
    &&& forall|i: int, j: int|
        0 <= i < j < list.len() ==> (#[trigger] list[i]).term != (#[trigger] list[j]).term
    &&& forall|i: int, j: int|
        0 <= i < j < list.len() ==> bytes_of((#[trigger] list[i]).term).len() >= bytes_of(
            (#[trigger] list[j]).term,
        ).len()
}

/// The place of a new term: every term before it is at least as long, and
/// the term at it, if there is one, is shorter.
pub proof fn lemma_rank_from_splits(list: Seq<Term>, len: nat, k: int)
    requires
        0 <= k <= list.len(),
    ensures
        forall|j: int|
            k <= j < rank_from(list, len, k) ==> bytes_of((#[trigger] list[j]).term).len() >= len,
        rank_from(list, len, k) < list.len() ==> bytes_of(
            list[rank_from(list, len, k)].term,
        ).len() < len,
    decreases list.len() - k,
{
    lemma_rank_from_bounds(list, len, k);
    if k < list.len() && bytes_of(list[k].term).len() >= len {
        lemma_rank_from_splits(list, len, k + 1);
    }
}

/// Adding an exact term keeps the list without repeats and the longest
/// first.
pub proof fn lemma_with_exact_longest_first(list: Seq<Term>, t: Term)
    requires
        longest_first(list),
    ensures
        longest_first(with_exact(list, t)),
{
    let len = bytes_of(t.term).len();
    let at = rank_from(list, len, 0);
    lemma_rank_from_bounds(list, len, 0);
    lemma_rank_from_splits(list, len, 0);
    let out = with_exact(list, t);
    if !has_term(list, t.term) {
        assert forall|i: int, j: int| 0 <= i < j < out.len() implies (#[trigger] out[i]).term != (
        #[trigger] out[j]).term && bytes_of(out[i].term).len() >= bytes_of(out[j].term).len() by {
            let a = if i < at {
                i
            } else {
                i - 1
            };
            let b = if j < at {
                j
            } else {
                j - 1
            };
            if i == at {
                assert(out[j] == list[b]);
                assert(list[b].term != t.term);
                if at < b {
                    assert(bytes_of(list[at].term).len() >= bytes_of(list[b].term).len());
                }
            } else if j == at {
                assert(out[i] == list[a]);
                assert(list[a].term != t.term);
            } else {
                assert(out[i] == list[a]);
                assert(out[j] == list[b]);
            }
        }
    }
}

/// Looking at a position keeps the exact terms without repeats and the
/// longest first.
pub proof fn lemma_position_longest_first(
    q: QueryView,
    pool: Seq<Seq<char>>,
    words: Seq<Seq<char>>,
    i: int,
)
    requires
        longest_first(q.exact_matches),
    ensures
        longest_first(with_position(q, pool, words, i).exact_matches),
{
    let q1 = with_pair(q, pool, words, i);
    if 0 <= i && i + 1 < words.len() {
        lemma_with_exact_longest_first(q.exact_matches, term_at(q.normalized, pair_at(words, i)));
    }
    let q2 = with_triple(q1, pool, words, i);
    if 0 <= i && i + 2 < words.len() {
        lemma_with_exact_longest_first(
            q1.exact_matches,
            term_at(q1.normalized, triple_at(words, i)),
        );
    }
    lemma_with_exact_longest_first(q2.exact_matches, term_at(q2.normalized, words[i]));
}

/// The exact terms of a parsed query stand each once and the longest
/// first.
pub proof fn lemma_parsed_longest_first(
    raw: Seq<char>,
    normalized: Seq<char>,
    words: Seq<Seq<char>>,
    pool: Seq<Seq<char>>,
    filter: Option<Seq<char>>,
    limit: usize,
    lev_dist: u32,
)
    ensures
        longest_first(parsed(raw, normalized, words, pool, filter, limit, lev_dist).exact_matches),
{
    lemma_positions_longest_first(
        blank_query(raw, normalized, words, pool, filter, limit, lev_dist),
        pool,
        words,
        words.len() as int,
    );
}

/// Looking at the first `n` positions keeps the exact terms without
/// repeats and the longest first.
pub proof fn lemma_positions_longest_first(
    q: QueryView,
    pool: Seq<Seq<char>>,
    words: Seq<Seq<char>>,
    n: int,
)
    requires
        longest_first(q.exact_matches),
    ensures
        longest_first(with_positions(q, pool, words, n).exact_matches),
    decreases n,
{
    if n > 0 {
        lemma_positions_longest_first(q, pool, words, n - 1);
        lemma_position_longest_first(with_positions(q, pool, words, n - 1), pool, words, n - 1);
    }
}

/// A query whose words are all stop words has no codes and no terms.
pub proof fn lemma_stop_words_alone_give_no_terms(
    raw: Seq<char>,
    normalized: Seq<char>,
    words: Seq<Seq<char>>,
    pool: Seq<Seq<char>>,
    filter: Option<Seq<char>>,
    limit: usize,
    lev_dist: u32,
)
    requires
        forall|i: int| 0 <= i < words.len() ==> is_stop_word(pool, #[trigger] words[i]),
    ensures
        ({
            let q = parsed(raw, normalized, words, pool, filter, limit, lev_dist);
            &&& q.codes.len() == 0
            &&& q.exact_matches.len() == 0
            &&& q.not_exact_matches.len() == 0
        }),
{
    let q = parsed(raw, normalized, words, pool, filter, limit, lev_dist);
    lemma_parsed_free_of_stop_words(raw, normalized, words, pool, filter, limit, lev_dist);
    assert forall|terms: Seq<Term>| #[trigger]
        terms_are_spans(pool, words, terms) implies terms.len() == 0 by {
        if terms.len() > 0 {
            assert(is_span(pool, words, terms[0].term));
            let i = choose|i: int|
                0 <= i < words.len() && #[trigger] span_at(pool, words, i, terms[0].term);
            assert(is_stop_word(pool, words[i]));
            if i + 1 < words.len() {
                assert(is_stop_word(pool, words[i + 1]));
            }
            if i + 2 < words.len() {
                assert(is_stop_word(pool, words[i + 2]));
            }
        }
    }
    assert(terms_are_spans(pool, words, q.codes));
    assert(terms_are_spans(pool, words, q.exact_matches));
    assert(terms_are_spans(pool, words, q.not_exact_matches));
}

/// A query of two known words of two or three bytes each, neither a stop
/// word, that do not stand in it with one space between them (as in a
/// code written with a hyphen), has the two as its codes, in their order,
/// and both among its exact terms, and no term that is not exact.
pub proof fn lemma_two_codes(
    raw: Seq<char>,
    normalized: Seq<char>,
    words: Seq<Seq<char>>,
    pool: Seq<Seq<char>>,
    filter: Option<Seq<char>>,
    limit: usize,
    lev_dist: u32,
)
    requires
        words.len() == 2,
        pool.contains(words[0]),
        pool.contains(words[1]),
        2 <= bytes_of(words[0]).len() <= 3,
        2 <= bytes_of(words[1]).len() <= 3,
        !is_stop_text(words[0]),
        !is_stop_text(words[1]),
        located(normalized, words[0]),
        located(normalized, words[1]),
        !located(normalized, pair_at(words, 0)),
    ensures
        ({
            let q = parsed(raw, normalized, words, pool, filter, limit, lev_dist);
            &&& q.codes == seq![term_at(normalized, words[0]), term_at(normalized, words[1])]
            &&& has_term(q.exact_matches, words[0])
            &&& has_term(q.exact_matches, words[1])
            &&& q.not_exact_matches.len() == 0
        }),
{
    let blank = blank_query(raw, normalized, words, pool, filter, limit, lev_dist);
    let q0 = with_positions(blank, pool, words, 0);
    let q1 = with_positions(blank, pool, words, 1);
    let q2 = with_positions(blank, pool, words, 2);
    assert(q0 == blank);
    assert(q1 == with_position(q0, pool, words, 0));
    assert(q2 == with_position(q1, pool, words, 1));
    let first = term_at(normalized, words[0]);
    let second = term_at(normalized, words[1]);
    assert(with_pair(blank, pool, words, 0) == blank);
    assert(with_triple(blank, pool, words, 0) == blank);
    assert(q1 == exact_added(code_added(blank, words[0]), words[0]));
    lemma_with_exact_holds(blank.exact_matches, first);
    assert(q1.codes =~= seq![first]);
    assert(with_pair(q1, pool, words, 1) == q1);
    assert(with_triple(q1, pool, words, 1) == q1);
    assert(q2 == exact_added(code_added(q1, words[1]), words[1]));
    lemma_with_exact_holds(q1.exact_matches, second);
    assert(q2.codes =~= seq![first, second]);
}

/// Whether a text is one of the words that carry no meaning in a query.
pub fn is_stop(word: &str) -> (r: bool)
    ensures
        r == is_stop_text(word@),
{
    str_eq(word, "at") || str_eq(word, "to") || str_eq(word, "in") || str_eq(word, "on")
        || str_eq(word, "of") || str_eq(word, "for") || str_eq(word, "by") || str_eq(word, "and")
        || str_eq(word, "was") || str_eq(word, "did") || str_eq(word, "the")
}

impl SearchTerm {
    /// The place where a text first stands in the normalized query.
    fn locate(&self, text: &str) -> (r: Option<Offset>)
        ensures
            match r {
                Some(o) => located(self@.normalized, text@) && o == term_at(
                    self@.normalized,
                    text@,
                ).offset,
                None => !located(self@.normalized, text@),
            },
    {
        match find(self.normalized.as_str(), text) {
            Some(start) => {
                proof {
                    lemma_first_occurrence_from(bytes_of(self.normalized@), bytes_of(text@), 0);
                }
                // taken for the proof: a length fits a machine word
                let n: usize = byte_len(self.normalized.as_str());
                Some(Offset { start, end: start + byte_len(text) })
            },
            None => None,
        }
    }

    /// Adds a term at the end of the codes.
    fn push_code(&mut self, term: String, offset: Offset)
        requires
            located(old(self)@.normalized, term@),
            offset == term_at(old(self)@.normalized, term@).offset,
        ensures
            final(self)@ == code_added(old(self)@, term@),
    {
        proof {
            lemma_terms_push(self.codes@, MatchDef { term, offset });
        }
        self.codes.push(MatchDef { term, offset });
    }

    /// Adds a term at the end of those that are not exact.
    fn push_not_exact(&mut self, term: String, offset: Offset)
        requires
            located(old(self)@.normalized, term@),
            offset == term_at(old(self)@.normalized, term@).offset,
        ensures
            final(self)@ == not_exact_added(old(self)@, term@),
    {
        proof {
            lemma_terms_push(self.not_exact_matches@, MatchDef { term, offset });
        }
        self.not_exact_matches.push(MatchDef { term, offset });
    }

    /// Adds an exact term in its place, unless its text is there already.
    fn insert_exact(&mut self, term: String, offset: Offset)
        requires
            located(old(self)@.normalized, term@),
            offset == term_at(old(self)@.normalized, term@).offset,
        ensures
            final(self)@ == exact_added(old(self)@, term@),
    {
        let n: usize = self.exact_matches.len();
        let len: usize = byte_len(term.as_str());
        let ghost list = terms_of(self.exact_matches@);
        let mut k: usize = 0;
        while k < n
            invariant
                k <= n,
                n == self.exact_matches@.len(),
                list == terms_of(self.exact_matches@),
                forall|j: int| 0 <= j < k ==> (#[trigger] list[j]).term != term@,
            decreases n - k,
        {
            if str_eq(self.exact_matches[k].term.as_str(), term.as_str()) {
                assert(list[k as int].term == term@);
                return ;
            }
            k += 1;
        }
        assert(!has_term(list, term@));
        let mut at: usize = 0;
        while at < n && byte_len(self.exact_matches[at].term.as_str()) >= len
            invariant
                at <= n,
                n == self.exact_matches@.len(),
                list == terms_of(self.exact_matches@),
                len == bytes_of(term@).len(),
                rank_from(list, len as nat, 0) == rank_from(list, len as nat, at as int),
            decreases n - at,
        {
            assert(list[at as int].term == self.exact_matches@[at as int].term@);
            at += 1;
        }
        proof {
            if at < n {
                assert(list[at as int].term == self.exact_matches@[at as int].term@);
            }
            lemma_terms_insert(self.exact_matches@, at as int, MatchDef { term, offset });
        }
        self.exact_matches.insert(at, MatchDef { term, offset });
    }

    /// Records a known word of two or three bytes as a code.
    pub fn add_code(&mut self, term: String)
        requires
            located(old(self)@.normalized, term@),
        ensures
            final(self)@ == code_added(old(self)@, term@),
    {
        let at = self.locate(term.as_str());
        self.push_code(term, at.unwrap());
    }

    /// Records a known word, pair or triple of words.
    pub fn add_exact(&mut self, term: String)
        requires
            located(old(self)@.normalized, term@),
        ensures
            final(self)@ == exact_added(old(self)@, term@),
    {
        let at = self.locate(term.as_str());
        self.insert_exact(term, at.unwrap());
    }

    /// Records an unknown word or pair of words.
    pub fn add_not_exact(&mut self, term: String)
        requires
            located(old(self)@.normalized, term@),
        ensures
            final(self)@ == not_exact_added(old(self)@, term@),
    {
        let at = self.locate(term.as_str());
        self.push_not_exact(term, at.unwrap());
    }

    /// The best score at the places of the query's codes that are among
    /// the subject's codes.
    pub fn codes_match(&self, subject_codes: &[String], score: i64) -> (r: Option<Score>)
        ensures
            r == best_code(self@.codes, texts(subject_codes@), score),
    {
        let ghost codes = terms_of(self.codes@);
        let ghost wanted = texts(subject_codes@);
        let mut best: Option<Score> = None;
        let mut i: usize = 0;
        while i < self.codes.len()
            invariant
                i <= self.codes@.len(),
                codes == terms_of(self.codes@),
                wanted == texts(subject_codes@),
                best == best_code(codes.subrange(0, i as int), wanted, score),
            decreases self.codes.len() - i,
        {
            let code = &self.codes[i];
            let mut found = false;
            let mut j: usize = 0;
            while j < subject_codes.len()
                invariant
                    j <= subject_codes@.len(),
                    wanted == texts(subject_codes@),
                    found == wanted.subrange(0, j as int).contains(code.term@),
                decreases subject_codes.len() - j,
            {
                let same = str_eq(subject_codes[j].as_str(), code.term.as_str());
                proof {
                    let a = wanted.subrange(0, j as int);
                    let b = wanted.subrange(0, j as int + 1);
                    assert(b == a.push(wanted[j as int]));
                    assert(b.drop_last() == a);
                    if a.contains(code.term@) {
                        let k = choose|k: int| 0 <= k < a.len() && a[k] == code.term@;
                        assert(b[k] == code.term@);
                    }
                    if b.contains(code.term@) && !same {
                        let k = choose|k: int| 0 <= k < b.len() && b[k] == code.term@;
                        assert(a[k] == code.term@);
                    }
                    if same {
                        assert(b[j as int] == code.term@);
                    }
                }
                if same {
                    found = true;
                }
                j += 1;
            }
            proof {
                assert(wanted.subrange(0, wanted.len() as int) == wanted);
                assert(codes.subrange(0, i + 1).drop_last() == codes.subrange(0, i as int));
                assert(codes.subrange(0, i + 1).last() == code@);
            }
            if found {
                best = Score::better(best, Some(Score { score, offset: code.offset }));
            }
            i += 1;
        }
        proof {
            assert(codes.subrange(0, codes.len() as int) == codes);
        }
        best
    }

    /// The score that the query gives to a subject: that of an exact term
    /// where there is one, else the best that the other terms give.
    pub fn match_str(&self, subject: &str) -> (r: Option<Score>)
        ensures
            r == match_score(self@.exact_matches, self@.not_exact_matches, subject@),
            r matches Some(s) ==> 0 < s.score,
    {
        proof {
            lemma_match_score_positive(
                self@.exact_matches,
                self@.not_exact_matches,
                subject@,
            );
        }
        let ghost exact = terms_of(self.exact_matches@);
        let mut best: Option<Score> = None;
        let mut i: usize = 0;
        while i < self.exact_matches.len()
            invariant
                i <= self.exact_matches@.len(),
                exact == terms_of(self.exact_matches@),
                best == best_exact(exact.subrange(0, i as int), subject@),
            decreases self.exact_matches.len() - i,
        {
            let m = &self.exact_matches[i];
            proof {
                assert(exact.subrange(0, i + 1).drop_last() == exact.subrange(0, i as int));
                assert(exact.subrange(0, i + 1).last() == m@);
            }
            if str_eq(m.term.as_str(), subject) {
                let score = soft_score(byte_len(subject), 1);
                best = Score::better(best, Some(Score { score, offset: m.offset }));
            }
            i += 1;
        }
        proof {
            assert(exact.subrange(0, exact.len() as int) == exact);
        }
        if best.is_some() {
            return best;
        }
        let ghost rest = terms_of(self.not_exact_matches@);
        let mut i: usize = 0;
        while i < self.not_exact_matches.len()
            invariant
                i <= self.not_exact_matches@.len(),
                rest == terms_of(self.not_exact_matches@),
                best == best_fuzzy(rest.subrange(0, i as int), subject@),
            decreases self.not_exact_matches.len() - i,
        {
            let m = &self.not_exact_matches[i];
            proof {
                assert(rest.subrange(0, i + 1).drop_last() == rest.subrange(0, i as int));
                assert(rest.subrange(0, i + 1).last() == m@);
            }
            let score = fuzzy(subject, m.term.as_str());
            if score > 0 {
                best = Score::better(best, Some(Score { score, offset: m.offset }));
            }
            i += 1;
        }
        proof {
            assert(rest.subrange(0, rest.len() as int) == rest);
        }
        best
    }
    /// Looks at the pair of the words at `i` and behind it.
    fn consider_pair(&mut self, pool: &Interner, words: &Vec<String>, stops: &Vec<bool>, i: usize)
        requires
            pool.wf(),
            i < words@.len(),
            stops@.len() == words@.len(),
            forall|k: int|
                0 <= k < words@.len() ==> #[trigger] stops@[k] == is_stop_word(
                    pool@,
                    texts(words@)[k],
                ),
        ensures
            final(self)@ == with_pair(old(self)@, pool@, texts(words@), i as int),
    {
        let n: usize = words.len();
        if i + 1 < n {
            if !(stops[i] && stops[i + 1]) {
                let pair = join(words[i].as_str(), words[i + 1].as_str());
                match self.locate(pair.as_str()) {
                    Some(at) => {
                        if pool.from_existing(pair.as_str()).is_some() {
                            self.insert_exact(pair, at);
                        } else {
                            self.push_not_exact(pair, at);
                        }
                    },
                    None => {},
                }
            }
        }
    }

    /// Looks at the triple of the words at `i` and behind it.
    fn consider_triple(
        &mut self,
        pool: &Interner,
        words: &Vec<String>,
        stops: &Vec<bool>,
        i: usize,
    )
        requires
            pool.wf(),
            i < words@.len(),
            stops@.len() == words@.len(),
            forall|k: int|
                0 <= k < words@.len() ==> #[trigger] stops@[k] == is_stop_word(
                    pool@,
                    texts(words@)[k],
                ),
        ensures
            final(self)@ == with_triple(old(self)@, pool@, texts(words@), i as int),
    {
        let n: usize = words.len();
        if i + 1 < n && i + 2 < n {
            if !(stops[i] && stops[i + 1] && stops[i + 2]) {
                let pair = join(words[i].as_str(), words[i + 1].as_str());
                let triple = join(pair.as_str(), words[i + 2].as_str());
                match self.locate(triple.as_str()) {
                    Some(at) => {
                        if pool.from_existing(triple.as_str()).is_some() {
                            self.insert_exact(triple, at);
                        }
                    },
                    None => {},
                }
            }
        }
    }

    /// Looks at the word at `i`.
    fn consider_word(&mut self, pool: &Interner, words: &Vec<String>, i: usize)
        requires
            pool.wf(),
            i < words@.len(),
        ensures
            final(self)@ == with_word(old(self)@, pool@, texts(words@), i as int),
    {
        let word = words[i].as_str();
        let len: usize = byte_len(word);
        if len < 2 {
            return ;
        }
        match self.locate(word) {
            Some(at) => {
                if pool.from_existing(word).is_none() {
                    self.push_not_exact(word.to_owned(), at);
                } else if is_stop(word) {
                } else if len <= 3 {
                    self.push_code(word.to_owned(), at);
                    self.insert_exact(word.to_owned(), at);
                } else {
                    self.insert_exact(word.to_owned(), at);
                }
            },
            None => {},
        }
    }

    /// Parses a query whose normal form and words are at hand.
    pub fn from_tokens(
        raw: String,
        normalized: String,
        words: Vec<String>,
        state_filter: Option<String>,
        limit: usize,
        lev_dist: u32,
        pool: &Interner,
    ) -> (st: SearchTerm)
        requires
            pool.wf(),
        ensures
            st@ == parsed(
                raw@,
                normalized@,
                texts(words@),
                pool@,
                opt_text(state_filter),
                limit,
                lev_dist,
            ),
    {
        let ghost texts_of_words = texts(words@);
        let n: usize = words.len();
        let mut stop_words: Vec<String> = Vec::new();
        let mut stops: Vec<bool> = Vec::new();
        let mut i: usize = 0;
        while i < n
            invariant
                pool.wf(),
                i <= n,
                n == words@.len(),
                texts_of_words == texts(words@),
                stops@.len() == i,
                forall|k: int|
                    0 <= k < i ==> #[trigger] stops@[k] == is_stop_word(pool@, texts_of_words[k]),
                texts(stop_words@) == stop_words_upto(pool@, texts_of_words, i as int),
            decreases n - i,
        {
            let word = words[i].as_str();
            let stop = pool.from_existing(word).is_some() && is_stop(word);
            stops.push(stop);
            if stop {
                let copy = word.to_owned();
                proof {
                    assert(texts(stop_words@.push(copy)) =~= texts(stop_words@).push(word@));
                }
                stop_words.push(copy);
            }
            i += 1;
        }
        let filter: Option<String> = match state_filter {
            Some(code) => {
                if pool.from_existing(code.as_str()).is_some() {
                    Some(code)
                } else {
                    None
                }
            },
            None => None,
        };
        let mut st = SearchTerm {
            raw,
            normalized,
            stop_words,
            codes: Vec::new(),
            exact_matches: Vec::new(),
            not_exact_matches: Vec::new(),
            state_filter: filter,
            limit,
            lev_dist: if lev_dist > 2 {
                2
            } else {
                lev_dist
            },
        };
        let ghost blank = st@;
        assert(blank.codes =~= Seq::empty());
        assert(blank.exact_matches =~= Seq::empty());
        assert(blank.not_exact_matches =~= Seq::empty());
        assert(blank.state_filter == kept_filter(pool@, opt_text(state_filter)));
        assert(blank == blank_query(
            raw@,
            normalized@,
            texts_of_words,
            pool@,
            opt_text(state_filter),
            limit,
            lev_dist,
        ));
        let mut i: usize = 0;
        while i < n
            invariant
                pool.wf(),
                i <= n,
                n == words@.len(),
                texts_of_words == texts(words@),
                stops@.len() == n,
                forall|k: int|
                    0 <= k < n ==> #[trigger] stops@[k] == is_stop_word(pool@, texts_of_words[k]),
                st@ == with_positions(blank, pool@, texts_of_words, i as int),
            decreases n - i,
        {
            st.consider_pair(pool, &words, &stops, i);
            st.consider_triple(pool, &words, &stops, i);
            st.consider_word(pool, &words, i);
            i += 1;
        }
        st
    }

    /// Parses a query: normalizes it, splits it into words, and files each
    /// word, pair and triple of words as a code, an exact term or a term
    /// that is not exact, by what the corpus knows.
    pub fn from_raw_query(
        raw: String,
        state_filter: Option<String>,
        limit: usize,
        lev_dist: u32,
        pool: &Interner,
    ) -> (st: SearchTerm)
        requires
            pool.wf(),
        ensures
            st@ == parsed(
                raw@,
                normalized(raw@),
                word_segments(normalized(raw@)),
                pool@,
                opt_text(state_filter),
                limit,
                lev_dist,
            ),
    {
        let normal = normalize(raw.as_str());
        let words = unicode_words(normal.as_str());
        SearchTerm::from_tokens(raw, normal, words, state_filter, limit, lev_dist, pool)
    }
}

} // verus!