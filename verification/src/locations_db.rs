//! The corpus: its entities, the index of their words, and the search.

use crate::graph::{reranks, ResultsGraph};
use crate::intern::{is_sym_of, Interner, Sym};
use crate::coordinates::Coordinates;
use crate::location::{LocData, Location, Locode};
use crate::order::{indexes, ranked, sorted_order, Ranked};
use crate::search::{outranks, QueryView, Score, SearchTerm};
use crate::text::{byte_len, bytes_of, lemma_bytes_injective, lemma_lex_antisymmetric, lex_lt};
use crate::unicode::texts;
use crate::word_index::{
    ascending, build_index, fst_entries, holds_words, lookup, term_recalls,
};
use crate::SEARCH_INCLUSION_THRESHOLD;
use std::collections::{HashMap, HashSet};
use vstd::prelude::*;

verus! {

broadcast use vstd::std_specs::hash::group_hash_axioms;

/// The corpus.
pub struct LocationsDb {
    /// Every text of the corpus, each under its number.
    pub pool: Interner,
    /// The entities, each under the number of its key.
    pub all: HashMap<Sym, Location>,
    /// The numbers of the keys, in the order in which they came.
    pub keys: Vec<Sym>,
    /// The names of the countries, each under the number of its code.
    pub state_by_code: HashMap<Sym, String>,
    /// The names of the subdivisions, each under the number of its id.
    pub subdiv_by_code: HashMap<Sym, String>,
    /// For each word, under its number, the keys of the entities that
    /// have it.
    pub by_word_map: HashMap<Sym, Vec<Sym>>,
    /// The words in the order of the dictionary, each with the keys of
    /// the entities that have it.
    pub by_word_vec: Vec<(String, Vec<Sym>)>,
    /// The words, each with its index in `by_word_vec`.
    pub fst: fst::Map<Vec<u8>>,
}

/// The words of the rows of a word index.
pub open spec fn row_words(rows: Seq<(String, Vec<Sym>)>) -> Seq<Seq<char>> {
    rows.map_values(|row: (String, Vec<Sym>)| row.0@)
}

/// Adds each of the strings to the table.
fn intern_all(pool: &mut Interner, strings: &Vec<String>)
    requires
        old(pool).wf(),
    ensures
        final(pool).wf(),
        final(pool).extends(old(pool)),
        forall|t: Seq<char>| #[trigger]
            final(pool).knows(t) <==> old(pool).knows(t) || texts(strings@).contains(t),
{
    let ghost all = texts(strings@);
    let ghost start = *pool;
    let mut i: usize = 0;
    while i < strings.len()
        invariant
            i <= strings@.len(),
            all == texts(strings@),
            pool.wf(),
            pool.extends(&start),
            forall|t: Seq<char>| #[trigger]
                pool.knows(t) <==> start.knows(t) || all.subrange(0, i as int).contains(t),
        decreases strings.len() - i,
    {
        let ghost before = *pool;
        pool.intern(strings[i].as_str());
        proof {
            let s = strings@[i as int]@;
            assert(all[i as int] == s);
            assert forall|t: Seq<char>| #[trigger]
                pool.knows(t) <==> start.knows(t) || all.subrange(0, i + 1).contains(t) by {
                let a = all.subrange(0, i as int);
                let b = all.subrange(0, i + 1);
                assert(before.knows(t) <==> start.knows(t) || a.contains(t));
                if a.contains(t) {
                    let k = choose|k: int| 0 <= k < a.len() && a[k] == t;
                    assert(b[k] == t);
                }
                if t == s {
                    assert(b[i as int] == t);
                }
                if b.contains(t) {
                    let k = choose|k: int| 0 <= k < b.len() && b[k] == t;
                    if k < i {
                        assert(a[k] == t);
                    }
                }
            }
        }
        i += 1;
    }
    proof {
        assert(all.subrange(0, all.len() as int) == all);
    }
}

/// Whether each number of the list is below the next.
pub open spec fn increasing(v: Seq<usize>) -> bool {
    forall|i: int, j: int| 0 <= i < j < v.len() ==> #[trigger] v[i] < #[trigger] v[j]
}

/// Whether each number of the list is below the bound.
pub open spec fn below(v: Seq<usize>, bound: int) -> bool {
    forall|i: int| 0 <= i < v.len() ==> #[trigger] v[i] < bound
}

/// Whether the list of the word `w` names the position `q`.
pub open spec fn placed(lists: Map<Sym, Vec<usize>>, w: Sym, q: usize) -> bool {
    lists.contains_key(w) && lists[w]@.contains(q)
}

/// Whether the lists are in order: `syms` names each word that has a list
/// once, and each list rises and stays below the bound.
pub open spec fn lists_ok(lists: Map<Sym, Vec<usize>>, syms: Seq<Sym>, bound: int) -> bool {
    &&& syms.no_duplicates()
    &&& forall|w: Sym| #[trigger] lists.contains_key(w) <==> syms.contains(w)
    &&& forall|w: Sym| #[trigger] lists.contains_key(w) ==> increasing(lists[w]@)
    &&& forall|w: Sym| #[trigger] lists.contains_key(w) ==> below(lists[w]@, bound)
    &&& forall|w: Sym| #[trigger] lists.contains_key(w) ==> lists[w]@.len() > 0
}

/// Files the position `p` under the word `w`, unless it is filed there.
fn file_word(lists: &mut HashMap<Sym, Vec<usize>>, syms: &mut Vec<Sym>, w: Sym, p: usize)
    requires
        lists_ok(old(lists)@, old(syms)@, p + 1),
    ensures
        lists_ok(final(lists)@, final(syms)@, p + 1),
        forall|v: Sym, q: usize| #[trigger]
            placed(final(lists)@, v, q) <==> placed(old(lists)@, v, q) || (v == w && q == p),
{
    let ghost before = lists@;
    let ghost before_syms = syms@;
    match lists.remove(&w) {
        Some(mut list) => {
            let ghost old_list = list@;
            assert(before.contains_key(w) && before[w] == list);
            let n: usize = list.len();
            if n == 0 || list[n - 1] != p {
                list.push(p);
                proof {
                    assert forall|i: int, j: int| 0 <= i < j < list@.len() implies #[trigger] list@[i]
                        < #[trigger] list@[j] by {
                        if j < n {
                            assert(old_list[i] < old_list[j]);
                        } else if n > 0 {
                            assert(old_list[n - 1] < p + 1);
                            if i < n - 1 {
                                assert(old_list[i] < old_list[n - 1]);
                            }
                        }
                    }
                }
            }
            let ghost new_list = list@;
            lists.insert(w, list);
            proof {
                assert(lists@.dom() =~= before.dom());
                assert forall|q: usize| new_list.contains(q) <==> old_list.contains(q) || q
                    == p by {
                    if old_list.contains(q) {
                        let i = choose|i: int| 0 <= i < old_list.len() && old_list[i] == q;
                        assert(new_list[i] == q);
                    }
                    if new_list.contains(q) {
                        let i = choose|i: int| 0 <= i < new_list.len() && new_list[i] == q;
                        if i < old_list.len() {
                            assert(old_list[i] == q);
                        }
                    }
                    if q == p {
                        if new_list.len() == old_list.len() {
                            assert(new_list[n - 1] == p);
                        } else {
                            assert(new_list[n as int] == p);
                        }
                    }
                }
                assert forall|v: Sym, q: usize| #[trigger]
                    placed(lists@, v, q) <==> placed(before, v, q) || (v == w && q == p) by {
                    if v != w {
                        assert(lists@.contains_key(v) == before.contains_key(v));
                    }
                }
                assert forall|v: Sym| #[trigger] lists@.contains_key(v) implies increasing(
                    lists@[v]@,
                ) by {
                    if v != w {
                        assert(before.contains_key(v));
                    }
                }
                assert forall|v: Sym| #[trigger] lists@.contains_key(v) implies below(
                    lists@[v]@,
                    p + 1,
                ) by {
                    if v != w {
                        assert(before.contains_key(v));
                    } else {
                        assert forall|i: int| 0 <= i < new_list.len() implies #[trigger] new_list[i]
                            < p + 1 by {
                            if i < old_list.len() {
                                assert(old_list[i] < p + 1);
                            }
                        }
                    }
                }
            }
        },
        None => {
            assert(!before.contains_key(w));
            let mut list: Vec<usize> = Vec::new();
            list.push(p);
            lists.insert(w, list);
            syms.push(w);
            proof {
                assert(lists@[w]@[0] == p);
                assert forall|v: Sym| #[trigger] lists@.contains_key(v) <==> syms@.contains(v) by {
                    if before_syms.contains(v) {
                        let i = choose|i: int| 0 <= i < before_syms.len() && before_syms[i] == v;
                        assert(syms@[i] == v);
                    }
                    if v == w {
                        assert(syms@[before_syms.len() as int] == w);
                    }
                    if syms@.contains(v) && v != w {
                        let i = choose|i: int| 0 <= i < syms@.len() && syms@[i] == v;
                        assert(before_syms[i] == v);
                    }
                }
                assert(syms@.no_duplicates()) by {
                    assert(!before_syms.contains(w));
                }
                assert forall|v: Sym, q: usize| #[trigger]
                    placed(lists@, v, q) <==> placed(before, v, q) || (v == w && q == p) by {
                    if v != w {
                        assert(lists@.contains_key(v) == before.contains_key(v));
                    }
                }
                assert forall|v: Sym| #[trigger] lists@.contains_key(v) implies increasing(
                    lists@[v]@,
                ) by {
                    if v != w {
                        assert(before.contains_key(v));
                    }
                }
                assert forall|v: Sym| #[trigger] lists@.contains_key(v) implies below(
                    lists@[v]@,
                    p + 1,
                ) by {
                    if v != w {
                        assert(before.contains_key(v));
                    }
                }
            }
        },
    }
}

/// A copy of a list of numbers.
fn copy_syms(v: &Vec<Sym>) -> (r: Vec<Sym>)
    ensures
        r@ == v@,
{
    let mut r: Vec<Sym> = Vec::new();
    let mut i: usize = 0;
    while i < v.len()
        invariant
            i <= v@.len(),
            r@ == v@.subrange(0, i as int),
        decreases v.len() - i,
    {
        r.push(v[i]);
        assert(r@ =~= v@.subrange(0, i + 1));
        i += 1;
    }
    assert(v@.subrange(0, v@.len() as int) == v@);
    r
}

/// Adds the numbers of a list to the candidates, each once.
fn add_all(out: &mut Vec<Sym>, seen: &mut HashSet<Sym>, list: &Vec<Sym>)
    requires
        old(out)@.no_duplicates(),
        forall|k: Sym| old(seen)@.contains(k) <==> #[trigger] old(out)@.contains(k),
    ensures
        final(out)@.no_duplicates(),
        forall|k: Sym| final(seen)@.contains(k) <==> #[trigger] final(out)@.contains(k),
        forall|k: Sym| #[trigger]
            final(out)@.contains(k) <==> old(out)@.contains(k) || list@.contains(k),
{
    let ghost start = out@;
    let mut i: usize = 0;
    while i < list.len()
        invariant
            i <= list@.len(),
            out@.no_duplicates(),
            forall|k: Sym| seen@.contains(k) <==> #[trigger] out@.contains(k),
            forall|k: Sym| #[trigger]
                out@.contains(k) <==> start.contains(k) || list@.subrange(0, i as int).contains(k),
        decreases list.len() - i,
    {
        let x = list[i];
        let ghost before = out@;
        let fresh = seen.insert(x);
        if fresh {
            out.push(x);
        }
        proof {
            let a = list@.subrange(0, i as int);
            let b = list@.subrange(0, i + 1);
            assert forall|k: Sym| b.contains(k) <==> a.contains(k) || k == x by {
                if a.contains(k) {
                    let j = choose|j: int| 0 <= j < a.len() && a[j] == k;
                    assert(b[j] == k);
                }
                if k == x {
                    assert(b[i as int] == k);
                }
                if b.contains(k) {
                    let j = choose|j: int| 0 <= j < b.len() && b[j] == k;
                    if j < i {
                        assert(a[j] == k);
                    }
                }
            }
            assert forall|k: Sym| #[trigger] out@.contains(k) <==> before.contains(k) || k
                == x by {
                if before.contains(k) {
                    let j = choose|j: int| 0 <= j < before.len() && before[j] == k;
                    assert(out@[j] == k);
                }
                if out@.contains(k) {
                    let j = choose|j: int| 0 <= j < out@.len() && out@[j] == k;
                    if j < before.len() {
                        assert(before[j] == k);
                    }
                }
                if k == x && fresh {
                    assert(out@[before.len() as int] == x);
                }
            }
            if fresh {
                assert(!before.contains(x));
                assert forall|p: int, q: int|
                    0 <= p < out@.len() && 0 <= q < out@.len() && p != q implies out@[p]
                    != out@[q] by {
                    if p < before.len() && q < before.len() {
                        assert(before[p] != before[q]);
                    } else if p < before.len() {
                        assert(before.contains(before[p]));
                    } else {
                        assert(before.contains(before[q]));
                    }
                }
            }
        }
        i += 1;
    }
    proof {
        assert(list@.subrange(0, list@.len() as int) == list@);
    }
}

/// Whether `r` is the ranking of the scores, cut at the limit: each entry
/// is a key with its score, no key stands twice, no entry ranks above one
/// before it, and a key is left out only where the list is full and the
/// key ranks above none of its entries.
pub open spec fn ranks(r: Seq<(Sym, Score)>, scores: Map<Sym, Score>, limit: usize) -> bool {
    &&& r.len() <= limit
    &&& forall|i: int|
        0 <= i < r.len() ==> scores.contains_key((#[trigger] r[i]).0) && scores[r[i].0] == r[i].1
    &&& forall|i: int, j: int|
        0 <= i < j < r.len() ==> (#[trigger] r[i]).0 != (#[trigger] r[j]).0
    &&& forall|i: int, j: int|
        0 <= i < j < r.len() ==> !outranks((#[trigger] r[j]).1, (#[trigger] r[i]).1)
    &&& forall|k: Sym| #[trigger]
        scores.contains_key(k) && !listed(r, k) ==> r.len() == limit && tops(r, scores[k])
}

/// Whether the key stands in the list.
pub open spec fn listed(r: Seq<(Sym, Score)>, k: Sym) -> bool {
    exists|i: int| 0 <= i < r.len() && (#[trigger] r[i]).0 == k
}

/// Whether no entry of the list is outranked by the score.
pub open spec fn tops(r: Seq<(Sym, Score)>, s: Score) -> bool {
    forall|i: int| 0 <= i < r.len() ==> !outranks(s, (#[trigger] r[i]).1)
}

/// Whether the key `k` stands high in the results with the score `s`: the
/// score is the soft maximum at least, and the key stands in the results
/// with it, or the results are as many as the limit and none of them ranks
/// below it.
pub open spec fn stands_high(r: Seq<(Sym, Score)>, limit: usize, k: Sym, s: Score) -> bool {
    &&& s.score >= crate::SCORE_SOFT_MAX
    &&& (r.contains((k, s)) || (r.len() == limit && tops(r, s)))
}

/// The keys with their scores, best first, cut at the limit.
pub fn top_ranked(keys: &Vec<Sym>, scores: &HashMap<Sym, Score>, limit: usize) -> (r: Vec<
    (Sym, Score),
>)
    requires
        keys@.no_duplicates(),
        forall|k: Sym| #[trigger] scores@.contains_key(k) <==> keys@.contains(k),
    ensures
        ranks(r@, scores@, limit),
{
    let n: usize = keys.len();
    let mut values: Vec<Score> = Vec::new();
    let mut i: usize = 0;
    while i < n
        invariant
            i <= n,
            n == keys@.len(),
            forall|k: Sym| #[trigger] scores@.contains_key(k) <==> keys@.contains(k),
            values@.len() == i,
            forall|a: int| 0 <= a < i ==> #[trigger] values@[a] == scores@[keys@[a]],
        decreases n - i,
    {
        let k = keys[i];
        assert(keys@.contains(k));
        let found = scores.get(&k);
        assert(found is Some);
        values.push(*found.unwrap());
        i += 1;
    }
    let order = sorted_order(&values);
    let cut: usize = if limit < n {
        limit
    } else {
        n
    };
    let mut r: Vec<(Sym, Score)> = Vec::new();
    let mut j: usize = 0;
    while j < cut
        invariant
            j <= cut,
            cut <= n,
            n == keys@.len(),
            n == values@.len(),
            n == order@.len(),
            indexes(values@, order@),
            r@.len() == j,
            forall|a: int|
                0 <= a < j ==> #[trigger] r@[a] == (
                    keys@[order@[a] as int],
                    values@[order@[a] as int],
                ),
        decreases cut - j,
    {
        let x = order[j];
        r.push((keys[x], values[x]));
        j += 1;
    }
    proof {
        assert forall|a: int| 0 <= a < r@.len() implies scores@.contains_key(
            (#[trigger] r@[a]).0,
        ) && scores@[r@[a].0] == r@[a].1 by {
            let x = order@[a] as int;
            assert(keys@.contains(keys@[x]));
            assert(values@[x] == scores@[keys@[x]]);
        }
        assert forall|a: int, b: int| 0 <= a < b < r@.len() implies (#[trigger] r@[a]).0 != (
        #[trigger] r@[b]).0 by {
            assert(order@[a] != order@[b]);
        }
        assert forall|a: int, b: int| 0 <= a < b < r@.len() implies !outranks(
            (#[trigger] r@[b]).1,
            (#[trigger] r@[a]).1,
        ) by {
            assert(values@[order@[a] as int].precedes(&values@[order@[b] as int]));
        }
        assert forall|k: Sym| #[trigger]
            scores@.contains_key(k) && !listed(r@, k) implies r@.len() == limit && tops(
            r@,
            scores@[k],
        ) by {
            assert(keys@.contains(k));
            let x = choose|x: int| 0 <= x < keys@.len() && keys@[x] == k;
            assert(order@.contains(x as usize));
            let b = choose|b: int| 0 <= b < order@.len() && order@[b] == x as usize;
            if b < cut {
                assert(r@[b].0 == k);
            }
            assert forall|a: int| 0 <= a < r@.len() implies !outranks(
                scores@[k],
                (#[trigger] r@[a]).1,
            ) by {
                assert(values@[order@[a] as int].precedes(&values@[order@[b] as int]));
                assert(values@[x] == scores@[keys@[x]]);
            }
        }
    }
    r
}

/// Whether `r` is the name that a map of names holds for a text: the name
/// under the number of the text, or nothing where the text has no number
/// or the map has no name under it.
pub open spec fn is_name_of(
    pool: Seq<Seq<char>>,
    names: Map<Sym, String>,
    t: Seq<char>,
    r: Option<Seq<char>>,
) -> bool {
    match r {
        Some(name) => exists|c: Sym|
            c < pool.len() && pool[c as int] == t && #[trigger] names.contains_key(c)
                && names[c]@ == name,
        None => forall|c: Sym|
            c < pool.len() && pool[c as int] == t ==> !#[trigger] names.contains_key(c),
    }
}

/// Whether `after` is the map of names `before` with the name put under
/// the number of the code, and every other name as it was.
pub open spec fn named_under(
    pool: Seq<Seq<char>>,
    before: Map<Sym, String>,
    after: Map<Sym, String>,
    code: Seq<char>,
    name: String,
) -> bool {
    exists|c: Sym| is_sym_of(pool, Some(c), code) && #[trigger] before.insert(c, name) == after
}

/// Whether each name of a map of names stands under the number of a text
/// of the table.
pub open spec fn names_filed(pool: Seq<Seq<char>>, names: Map<Sym, String>) -> bool {
    forall|c: Sym| #[trigger] names.contains_key(c) ==> c < pool.len()
}

/// Whether the texts `after` are the texts `before` and more behind them,
/// and no text stands twice in them.
pub open spec fn grown(before: Seq<Seq<char>>, after: Seq<Seq<char>>) -> bool {
    &&& before.len() <= after.len()
    &&& forall|i: int| 0 <= i < before.len() ==> #[trigger] after[i] == before[i]
    &&& forall|i: int, j: int|
        0 <= i < after.len() && 0 <= j < after.len() && i != j ==> #[trigger] after[i]
            != #[trigger] after[j]
}

/// A map of names holds for a text what it held before the table grew.
pub proof fn lemma_names_kept(
    before: Seq<Seq<char>>,
    after: Seq<Seq<char>>,
    names: Map<Sym, String>,
    t: Seq<char>,
    r: Option<Seq<char>>,
)
    requires
        grown(before, after),
        names_filed(before, names),
        is_name_of(before, names, t, r),
    ensures
        is_name_of(after, names, t, r),
{
    match r {
        Some(name) => {
            let c = choose|c: Sym|
                c < before.len() && before[c as int] == t && #[trigger] names.contains_key(c)
                    && names[c]@ == name;
            assert(after[c as int] == t && names.contains_key(c));
        },
        None => {
            assert forall|c: Sym| c < after.len() && after[c as int] == t implies !#[trigger] names.contains_key(
                c,
            ) by {
                if names.contains_key(c) {
                    assert(c < before.len());
                    assert(after[c as int] == before[c as int]);
                }
            }
        },
    }
}

/// After a name is put under a code, the map of names holds that name for
/// the code, and for every other text what it held before.
pub proof fn lemma_names_put(
    before: Seq<Seq<char>>,
    after: Seq<Seq<char>>,
    names: Map<Sym, String>,
    put: Map<Sym, String>,
    code: Seq<char>,
    name: String,
    t: Seq<char>,
    r: Option<Seq<char>>,
)
    requires
        grown(before, after),
        names_filed(before, names),
        named_under(after, names, put, code, name),
        is_name_of(before, names, t, r),
    ensures
        names_filed(after, put),
        is_name_of(
            after,
            put,
            t,
            if t == code {
                Some(name@)
            } else {
                r
            },
        ),
{
    let c = choose|c: Sym| is_sym_of(after, Some(c), code) && #[trigger] names.insert(c, name) == put;
    lemma_names_kept(before, after, names, t, r);
    if t == code {
        assert(put.contains_key(c) && put[c]@ == name@);
    } else {
        match r {
            Some(held) => {
                let d = choose|d: Sym|
                    d < after.len() && after[d as int] == t && #[trigger] names.contains_key(d)
                        && names[d]@ == held;
                assert(d != c);
                assert(put.contains_key(d) && put[d]@ == held);
            },
            None => {
                assert forall|d: Sym| d < after.len() && after[d as int] == t implies !#[trigger] put.contains_key(
                    d,
                ) by {
                    if put.contains_key(d) {
                        assert(d != c);
                        assert(names.contains_key(d));
                    }
                }
            },
        }
    }
    assert forall|d: Sym| #[trigger] put.contains_key(d) implies d < after.len() by {
        if d != c {
            assert(names.contains_key(d));
        }
    }
}

/// The name that a map of names holds for a text.
pub fn name_of<'a>(pool: &Interner, names: &'a HashMap<Sym, String>, text: &str) -> (r: Option<
    &'a String,
>)
    requires
        pool.wf(),
    ensures
        is_name_of(
            pool@,
            names@,
            text@,
            match r {
                Some(name) => Some(name@),
                None => None,
            },
        ),
{
    proof {
        pool.lemma_distinct();
    }
    match pool.from_existing(text) {
        Some(c) => match names.get(&c) {
            Some(name) => {
                assert(names@.contains_key(c) && names@[c]@ == name@);
                Some(name)
            },
            None => None,
        },
        None => None,
    }
}

impl LocationsDb {
    /// Whether the entity under `k` stands under the number of its key, is
    /// well formed, and has each of its texts in the table.
    pub open spec fn entity_ok(&self, k: Sym) -> bool {
        &&& k < self.pool@.len()
        &&& self.pool@[k as int] == self.all@[k].key@
        &&& self.all@[k].wf()
        &&& forall|i: int|
            0 <= i < self.all@[k].texts().len() ==> self.pool@.contains(
                #[trigger] self.all@[k].texts()[i],
            )
    }

    /// Whether a row of the word index is the entry of the word map for
    /// the number of its word.
    pub open spec fn row_ok(&self, i: int) -> bool {
        exists|w: Sym|
            {
                &&& w < self.pool@.len()
                &&& self.pool@[w as int] == self.by_word_vec@[i].0@
                &&& #[trigger] self.by_word_map@.contains_key(w)
                &&& self.by_word_map@[w]@ == self.by_word_vec@[i].1@
            }
    }

    /// Whether the word under the number `w` has a row in the word index.
    pub open spec fn word_ok(&self, w: Sym) -> bool {
        &&& w < self.pool@.len()
        &&& exists|i: int|
            0 <= i < self.by_word_vec@.len() && (#[trigger] self.by_word_vec@[i]).0@
                == self.pool@[w as int]
    }

    /// Whether the entities are in order: the list of keys names each
    /// entity once, and each entity is as `entity_ok` says.
    pub open spec fn entities_ok(&self) -> bool {
        &&& self.keys@.no_duplicates()
        &&& forall|k: Sym| #[trigger] self.all@.contains_key(k) <==> self.keys@.contains(k)
        &&& forall|k: Sym| #[trigger] self.all@.contains_key(k) ==> self.entity_ok(k)
    }

    /// Whether the word index is in order: every key in it is the key of
    /// an entity, the rows and the word map hold the same, the rows stand
    /// in the order of the dictionary, and the transducer holds the words
    /// of the rows, each with the index of its row.
    pub open spec fn index_ok(&self) -> bool {
        &&& forall|w: Sym, i: int|
            self.by_word_map@.contains_key(w) && 0 <= i < self.by_word_map@[w]@.len()
                ==> self.all@.contains_key(#[trigger] self.by_word_map@[w]@[i])
        &&& forall|i: int| 0 <= i < self.by_word_vec@.len() ==> #[trigger] self.row_ok(i)
        &&& forall|w: Sym| #[trigger] self.by_word_map@.contains_key(w) ==> self.word_ok(w)
        &&& ascending(row_words(self.by_word_vec@))
        &&& holds_words(fst_entries(self.fst), row_words(self.by_word_vec@))
    }

    /// The invariant of the corpus.
    pub open spec fn wf(&self) -> bool {
        &&& self.pool.wf()
        &&& self.entities_ok()
        &&& self.index_ok()
        &&& names_filed(self.pool@, self.state_by_code@)
        &&& names_filed(self.pool@, self.subdiv_by_code@)
    }

    /// An empty corpus.
    pub fn new() -> (db: LocationsDb)
        ensures
            db.wf(),
            db.pool@.len() == 0,
            db.all@.len() == 0,
            db.keys@.len() == 0,
            db.state_by_code@.dom() == Set::<Sym>::empty(),
            db.subdiv_by_code@.dom() == Set::<Sym>::empty(),
            db.by_word_map@.len() == 0,
            db.by_word_vec@.len() == 0,
    {
        let words: Vec<String> = Vec::new();
        let index = build_index(&words);
        assert(texts(words@) =~= Seq::empty());
        let db = LocationsDb {
            pool: Interner::new(),
            all: HashMap::new(),
            keys: Vec::new(),
            state_by_code: HashMap::new(),
            subdiv_by_code: HashMap::new(),
            by_word_map: HashMap::new(),
            by_word_vec: Vec::new(),
            fst: index.unwrap(),
        };
        assert(row_words(db.by_word_vec@) =~= Seq::empty());
        db
    }

    /// Adds an entity under its key. An entity that stood under that key
    /// gives way. The name of a country is put under its code and the name
    /// of a subdivision under its id, and every other name stays. The word
    /// index stays as it is until `mk_fst` builds it anew.
    pub fn insert(&mut self, l: Location)
        requires
            old(self).wf(),
            l.wf(),
        ensures
            final(self).wf(),
            final(self).pool.extends(&old(self).pool),
            forall|t: Seq<char>| #[trigger]
                final(self).pool.knows(t) <==> old(self).pool.knows(t) || l.texts().contains(t),
            exists|k: Sym|
                is_sym_of(final(self).pool@, Some(k), l.key@) && #[trigger] final(self).all@
                    == old(self).all@.insert(k, l),
            final(self).by_word_map == old(self).by_word_map,
            final(self).by_word_vec == old(self).by_word_vec,
            final(self).fst == old(self).fst,
            match l.data {
                LocData::St(s) => named_under(
                    final(self).pool@,
                    old(self).state_by_code@,
                    final(self).state_by_code@,
                    s.alpha2@,
                    s.name,
                ),
                _ => final(self).state_by_code == old(self).state_by_code,
            },
            match l.data {
                LocData::Subdv(sd) => named_under(
                    final(self).pool@,
                    old(self).subdiv_by_code@,
                    final(self).subdiv_by_code@,
                    l.id@,
                    sd.name,
                ),
                _ => final(self).subdiv_by_code == old(self).subdiv_by_code,
            },
    {
        let ghost before = *self;
        let strings = l.all_texts();
        intern_all(&mut self.pool, &strings);
        proof {
            assert(l.texts()[0] == l.key@);
            assert(l.texts()[2] == l.id@);
            assert(self.pool.knows(l.key@));
            assert(self.pool.knows(l.id@));
        }
        let k: Sym = self.pool.from_existing(l.key.as_str()).unwrap();
        match &l.data {
            LocData::St(s) => {
                proof {
                    assert(l.data.payload_texts()[2] == s.alpha2@);
                    assert(l.texts()[3 + l.words@.len() as int + 2] == s.alpha2@);
                    assert(self.pool.knows(s.alpha2@));
                }
                let c: Sym = self.pool.from_existing(s.alpha2.as_str()).unwrap();
                self.state_by_code.insert(c, s.name.clone());
                assert(self.state_by_code@ == before.state_by_code@.insert(c, s.name));
            },
            LocData::Subdv(sd) => {
                let c: Sym = self.pool.from_existing(l.id.as_str()).unwrap();
                self.subdiv_by_code.insert(c, sd.name.clone());
                assert(self.subdiv_by_code@ == before.subdiv_by_code@.insert(c, sd.name));
            },
            LocData::Locd(_) => {},
            LocData::Airp(_) => {},
        }
        let ghost entity = l;
        if !self.all.contains_key(&k) {
            self.keys.push(k);
        }
        self.all.insert(k, l);
        proof {
            assert(self.all@ == before.all@.insert(k, entity));
            assert forall|j: Sym| #[trigger] self.all@.contains_key(j) <==> self.keys@.contains(
                j,
            ) by {
                if before.all@.contains_key(k) {
                    assert(self.keys@ == before.keys@);
                    assert(before.keys@.contains(k));
                } else {
                    assert(self.keys@ == before.keys@.push(k));
                    if before.keys@.contains(j) {
                        let p = choose|p: int| 0 <= p < before.keys@.len() && before.keys@[p] == j;
                        assert(self.keys@[p] == j);
                    }
                    if j == k {
                        assert(self.keys@[before.keys@.len() as int] == k);
                    }
                }
            }
            assert(self.keys@.no_duplicates());
            assert forall|j: Sym| #[trigger] self.all@.contains_key(j) implies self.entity_ok(
                j,
            ) by {
                if j != k {
                    assert(before.entity_ok(j));
                    assert(self.pool@[j as int] == before.pool@[j as int]);
                    assert forall|i: int|
                        0 <= i < self.all@[j].texts().len() implies self.pool@.contains(
                        #[trigger] self.all@[j].texts()[i],
                    ) by {
                        assert(before.pool.knows(before.all@[j].texts()[i]));
                        assert(self.pool.knows(self.all@[j].texts()[i]));
                    }
                } else {
                    assert forall|i: int|
                        0 <= i < entity.texts().len() implies self.pool@.contains(
                        #[trigger] entity.texts()[i],
                    ) by {
                        assert(self.pool.knows(entity.texts()[i]));
                    }
                }
            }
            assert forall|i: int| 0 <= i < self.by_word_vec@.len() implies #[trigger] self.row_ok(
                i,
            ) by {
                assert(before.row_ok(i));
                let w = choose|w: Sym|
                    {
                        &&& w < before.pool@.len()
                        &&& before.pool@[w as int] == before.by_word_vec@[i].0@
                        &&& #[trigger] before.by_word_map@.contains_key(w)
                        &&& before.by_word_map@[w]@ == before.by_word_vec@[i].1@
                    };
                assert(self.pool@[w as int] == before.pool@[w as int]);
                assert(self.by_word_map@.contains_key(w));
            }
            assert forall|w: Sym| #[trigger]
                self.by_word_map@.contains_key(w) implies self.word_ok(w) by {
                assert(before.word_ok(w));
                assert(self.pool@[w as int] == before.pool@[w as int]);
                let i = choose|i: int|
                    0 <= i < before.by_word_vec@.len() && (#[trigger] before.by_word_vec@[i]).0@
                        == before.pool@[w as int];
                assert(self.by_word_vec@[i].0@ == self.pool@[w as int]);
            }
        }
    }

    /// Whether the entity at position `q` of the keys is filed under the
    /// word with the number `w`.
    pub open spec fn position_has(&self, q: usize, w: Sym) -> bool {
        &&& q < self.keys@.len()
        &&& w < self.pool@.len()
        &&& self.all@[self.keys@[q as int]].index_words().contains(self.pool@[w as int])
    }

    /// For each word of the table, the positions of the entities that are
    /// filed under it, and the words that have such a list.
    fn collect_words(&self) -> (r: (HashMap<Sym, Vec<usize>>, Vec<Sym>))
        requires
            self.wf(),
        ensures
            lists_ok(r.0@, r.1@, self.keys@.len() as int),
            forall|w: Sym, q: usize| #[trigger] placed(r.0@, w, q) <==> self.position_has(q, w),
    {
        let mut lists: HashMap<Sym, Vec<usize>> = HashMap::new();
        let mut syms: Vec<Sym> = Vec::new();
        let n: usize = self.keys.len();
        let mut p: usize = 0;
        while p < n
            invariant
                self.wf(),
                n == self.keys@.len(),
                p <= n,
                lists_ok(lists@, syms@, p as int),
                forall|w: Sym, q: usize| #[trigger]
                    placed(lists@, w, q) <==> q < p && self.position_has(q, w),
            decreases n - p,
        {
            let k = self.keys[p];
            assert(self.keys@.contains(k));
            assert(self.all@.contains_key(k));
            let words = self.all.get(&k).unwrap().get_index_words();
            let ghost filed = texts(words@);
            assert(filed == self.all@[k].index_words());
            proof {
                assert forall|w: Sym| #[trigger] lists@.contains_key(w) implies below(
                    lists@[w]@,
                    p + 1,
                ) by {
                    assert(below(lists@[w]@, p as int));
                }
            }
            let mut j: usize = 0;
            while j < words.len()
                invariant
                    self.wf(),
                    n == self.keys@.len(),
                    p < n,
                    k == self.keys@[p as int],
                    j <= words@.len(),
                    filed == texts(words@),
                    filed == self.all@[k].index_words(),
                    lists_ok(lists@, syms@, p + 1),
                    forall|w: Sym, q: usize| #[trigger]
                        placed(lists@, w, q) <==> (q < p && self.position_has(q, w)) || (q == p
                            && w < self.pool@.len() && filed.subrange(0, j as int).contains(
                            self.pool@[w as int],
                        )),
                decreases words.len() - j,
            {
                let ghost before = lists@;
                let found = self.pool.from_existing(words[j].as_str());
                let ghost t = words@[j as int]@;
                assert(filed[j as int] == t);
                match found {
                    Some(w) => {
                        file_word(&mut lists, &mut syms, w, p);
                    },
                    None => {},
                }
                proof {
                    self.pool.lemma_distinct();
                    let a = filed.subrange(0, j as int);
                    let b = filed.subrange(0, j + 1);
                    assert forall|v: Sym, q: usize| #[trigger]
                        placed(lists@, v, q) <==> (q < p && self.position_has(q, v)) || (q == p
                            && v < self.pool@.len() && b.contains(self.pool@[v as int])) by {
                        if v < self.pool@.len() {
                            let x = self.pool@[v as int];
                            if a.contains(x) {
                                let i = choose|i: int| 0 <= i < a.len() && a[i] == x;
                                assert(b[i] == x);
                            }
                            if x == t {
                                assert(b[j as int] == x);
                            }
                            if b.contains(x) {
                                let i = choose|i: int| 0 <= i < b.len() && b[i] == x;
                                if i < j {
                                    assert(a[i] == x);
                                }
                            }
                            assert(b.contains(x) <==> a.contains(x) || x == t);
                            match found {
                                Some(w) => {
                                    assert(self.pool@[w as int] == t);
                                    assert(x == t <==> v == w);
                                },
                                None => {
                                    assert(self.pool@.contains(x));
                                    assert(x != t);
                                },
                            }
                        }
                        assert(placed(before, v, q) <==> (q < p && self.position_has(q, v)) || (q
                            == p && v < self.pool@.len() && a.contains(self.pool@[v as int])));
                        match found {
                            Some(w) => {
                                assert(placed(lists@, v, q) <==> placed(before, v, q) || (v == w
                                    && q == p));
                            },
                            None => {},
                        }
                    }
                }
                j += 1;
            }
            proof {
                assert(filed.subrange(0, filed.len() as int) == filed);
            }
            p += 1;
        }
        (lists, syms)
    }

    /// The keys at the positions.
    fn keys_at(&self, positions: &Vec<usize>) -> (r: Vec<Sym>)
        requires
            below(positions@, self.keys@.len() as int),
        ensures
            r@.len() == positions@.len(),
            forall|i: int|
                0 <= i < r@.len() ==> #[trigger] r@[i] == self.keys@[positions@[i] as int],
    {
        let mut r: Vec<Sym> = Vec::new();
        let mut i: usize = 0;
        while i < positions.len()
            invariant
                i <= positions@.len(),
                below(positions@, self.keys@.len() as int),
                r@.len() == i,
                forall|j: int| 0 <= j < i ==> #[trigger] r@[j] == self.keys@[positions@[j] as int],
            decreases positions.len() - i,
        {
            r.push(self.keys[positions[i]]);
            i += 1;
        }
        r
    }

    /// Whether the word map files the key `k` under the word with the
    /// number `w`.
    pub open spec fn files(&self, w: Sym, k: Sym) -> bool {
        self.by_word_map@.contains_key(w) && self.by_word_map@[w]@.contains(k)
    }

    /// Whether an entity stands under `k` and is filed under the text.
    pub open spec fn has_word(&self, k: Sym, t: Seq<char>) -> bool {
        self.all@.contains_key(k) && self.all@[k].index_words().contains(t)
    }

    /// Whether the word index is that of the entities: it files each
    /// entity once under each of its words, codes and names, and files
    /// nothing else; no word stands in it that no entity has, and it has
    /// one row for each word of the word map.
    pub open spec fn indexed(&self) -> bool {
        &&& forall|w: Sym, k: Sym| #[trigger]
            self.files(w, k) <==> w < self.pool@.len() && self.has_word(
                k,
                self.pool@[w as int],
            )
        &&& forall|w: Sym| #[trigger]
            self.by_word_map@.contains_key(w) ==> self.by_word_map@[w]@.no_duplicates()
        &&& forall|w: Sym| #[trigger]
            self.by_word_map@.contains_key(w) ==> self.by_word_map@[w]@.len() > 0
        &&& self.by_word_vec@.len() == self.by_word_map@.len()
    }

    /// The word and the keys of each word that has a list, in the order of
    /// `syms`.
    fn unsorted_rows(&self, lists: &HashMap<Sym, Vec<usize>>, syms: &Vec<Sym>) -> (r: (
        Vec<String>,
        Vec<Vec<Sym>>,
    ))
        requires
            self.wf(),
            lists_ok(lists@, syms@, self.keys@.len() as int),
            forall|w: Sym, q: usize| #[trigger] placed(lists@, w, q) <==> self.position_has(q, w),
        ensures
            r.0@.len() == syms@.len(),
            r.1@.len() == syms@.len(),
            forall|i: int|
                0 <= i < syms@.len() ==> {
                    let w = #[trigger] syms@[i];
                    &&& w < self.pool@.len()
                    &&& r.0@[i]@ == self.pool@[w as int]
                    &&& r.1@[i]@.len() == lists@[w]@.len()
                    &&& forall|j: int|
                        0 <= j < r.1@[i]@.len() ==> #[trigger] r.1@[i]@[j]
                            == self.keys@[lists@[w]@[j] as int]
                },
    {
        let mut names: Vec<String> = Vec::new();
        let mut keylists: Vec<Vec<Sym>> = Vec::new();
        let n: usize = syms.len();
        let mut i: usize = 0;
        while i < n
            invariant
                self.wf(),
                lists_ok(lists@, syms@, self.keys@.len() as int),
                forall|w: Sym, q: usize| #[trigger]
                    placed(lists@, w, q) <==> self.position_has(q, w),
                n == syms@.len(),
                i <= n,
                names@.len() == i,
                keylists@.len() == i,
                forall|a: int|
                    0 <= a < i ==> {
                        let w = #[trigger] syms@[a];
                        &&& w < self.pool@.len()
                        &&& names@[a]@ == self.pool@[w as int]
                        &&& keylists@[a]@.len() == lists@[w]@.len()
                        &&& forall|j: int|
                            0 <= j < keylists@[a]@.len() ==> #[trigger] keylists@[a]@[j]
                                == self.keys@[lists@[w]@[j] as int]
                    },
            decreases n - i,
        {
            let w = syms[i];
            assert(syms@.contains(w));
            assert(lists@.contains_key(w));
            proof {
                let q = lists@[w]@[0];
                assert(placed(lists@, w, q));
                assert(self.position_has(q, w));
            }
            let found = lists.get(&w);
            assert(found is Some);
            let positions = found.unwrap();
            assert(below(positions@, self.keys@.len() as int));
            let keys = self.keys_at(positions);
            names.push(self.pool.text(w).clone());
            keylists.push(keys);
            i += 1;
        }
        (names, keylists)
    }

    /// Builds the word index anew from the entities: the word map, the
    /// rows in the order of the dictionary, and the transducer over the
    /// words of the rows.
    pub fn mk_fst(self) -> (db: LocationsDb)
        requires
            self.wf(),
        ensures
            db.wf(),
            db.indexed(),
            db.pool == self.pool,
            db.all == self.all,
            db.keys == self.keys,
            db.state_by_code == self.state_by_code,
            db.subdiv_by_code == self.subdiv_by_code,
    {
        // taken for the proof: a length fits a machine word
        let count: usize = self.keys.len();
        let (lists, syms) = self.collect_words();
        let (names, keylists) = self.unsorted_rows(&lists, &syms);
        let order = sorted_order(&names);
        let n: usize = order.len();
        let mut rows: Vec<(String, Vec<Sym>)> = Vec::new();
        let mut sorted: Vec<String> = Vec::new();
        let mut map: HashMap<Sym, Vec<Sym>> = HashMap::new();
        let mut r: usize = 0;
        while r < n
            invariant
                r <= n,
                n == order@.len(),
                n == names@.len(),
                n == keylists@.len(),
                n == syms@.len(),
                indexes(names@, order@),
                order@.no_duplicates(),
                syms@.no_duplicates(),
                rows@.len() == r,
                sorted@.len() == r,
                forall|a: int|
                    0 <= a < r ==> (#[trigger] rows@[a]).0@ == names@[order@[a] as int]@
                        && rows@[a].1@ == keylists@[order@[a] as int]@,
                forall|a: int|
                    0 <= a < r ==> (#[trigger] sorted@[a])@ == names@[order@[a] as int]@,
                forall|a: int|
                    0 <= a < r ==> map@.contains_key(syms@[#[trigger] order@[a] as int])
                        && map@[syms@[order@[a] as int]]@ == keylists@[order@[a] as int]@,
                forall|w: Sym| #[trigger]
                    map@.contains_key(w) ==> exists|a: int|
                        0 <= a < r && syms@[#[trigger] order@[a] as int] == w,
                map@.dom().finite(),
                map@.len() == r,
            decreases n - r,
        {
            let i = order[r];
            let ghost old_map = map@;
            rows.push((names[i].clone(), copy_syms(&keylists[i])));
            sorted.push(names[i].clone());
            map.insert(syms[i], copy_syms(&keylists[i]));
            proof {
                // the word is new to the map: no earlier row has it
                if old_map.contains_key(syms@[i as int]) {
                    let a = choose|a: int|
                        0 <= a < r && syms@[#[trigger] order@[a] as int] == syms@[i as int];
                    assert(order@[a] != order@[r as int]);
                }
                assert(map@.dom() =~= old_map.dom().insert(syms@[i as int]));
                assert forall|a: int| 0 <= a < r + 1 implies map@.contains_key(
                    syms@[#[trigger] order@[a] as int],
                ) && map@[syms@[order@[a] as int]]@ == keylists@[order@[a] as int]@ by {
                    if a < r {
                        assert(order@[a] != order@[r as int]);
                        assert(syms@[order@[a] as int] != syms@[order@[r as int] as int]);
                        assert(old_map.contains_key(syms@[order@[a] as int]));
                    }
                }
                assert forall|w: Sym| #[trigger] map@.contains_key(w) implies exists|a: int|
                    0 <= a < r + 1 && syms@[#[trigger] order@[a] as int] == w by {
                    if w == syms@[i as int] {
                        assert(syms@[order@[r as int] as int] == w);
                    } else {
                        assert(old_map.contains_key(w));
                        let a = choose|a: int|
                            0 <= a < r && syms@[#[trigger] order@[a] as int] == w;
                        assert(0 <= a < r + 1 && syms@[order@[a] as int] == w);
                    }
                }
            }
            r += 1;
        }
        proof {
            self.pool.lemma_distinct();
            assert(texts(sorted@) =~= row_words(rows@));
            assert forall|a: int| 0 <= a && a + 1 < n implies lex_lt(
                bytes_of(#[trigger] row_words(rows@)[a]),
                bytes_of(row_words(rows@)[a + 1]),
            ) by {
                let i = order@[a];
                let j = order@[a + 1];
                let cur = names@[i as int];
                let next = names@[j as int];
                assert(row_words(rows@)[a] == cur@);
                assert(row_words(rows@)[a + 1] == next@);
                assert(i != j);
                assert(syms@[i as int] != syms@[j as int]);
                assert(cur.precedes(&next));
                if !lex_lt(bytes_of(cur@), bytes_of(next@)) {
                    lemma_lex_antisymmetric(bytes_of(cur@), bytes_of(next@), 0);
                    lemma_bytes_injective(cur@, next@);
                    assert(self.pool@[syms@[i as int] as int] == self.pool@[syms@[j as int] as int]);
                }
            }
            assert(ascending(row_words(rows@)));
        }
        let index = build_index(&sorted);
        let db = LocationsDb {
            pool: self.pool,
            all: self.all,
            keys: self.keys,
            state_by_code: self.state_by_code,
            subdiv_by_code: self.subdiv_by_code,
            by_word_map: map,
            by_word_vec: rows,
            fst: index.unwrap(),
        };
        proof {
            // every key of the word map is the key of an entity
            assert forall|w: Sym, x: int|
                db.by_word_map@.contains_key(w) && 0 <= x < db.by_word_map@[w]@.len()
                implies db.all@.contains_key(#[trigger] db.by_word_map@[w]@[x]) by {
                let a = choose|a: int| 0 <= a < n && syms@[#[trigger] order@[a] as int] == w;
                let i = order@[a] as int;
                assert(syms@[i] == w);
                assert(syms@.contains(w));
                assert(lists@.contains_key(w));
                let q = lists@[w]@[x];
                assert(keylists@[i]@[x] == db.keys@[q as int]);
                assert(q < db.keys@.len());
                assert(db.keys@.contains(db.keys@[q as int]));
            }
            assert forall|a: int| 0 <= a < db.by_word_vec@.len() implies #[trigger] db.row_ok(
                a,
            ) by {
                let w = syms@[order@[a] as int];
                assert(db.by_word_map@.contains_key(w));
            }
            assert forall|w: Sym| #[trigger] db.by_word_map@.contains_key(w) implies db.word_ok(
                w,
            ) by {
                let a = choose|a: int| 0 <= a < n && syms@[#[trigger] order@[a] as int] == w;
                assert(syms@[order@[a] as int] == w);
                assert(db.by_word_vec@[a].0@ == db.pool@[w as int]);
            }
            assert forall|w: Sym, k: Sym| #[trigger]
                db.files(w, k) <==> w < db.pool@.len() && db.has_word(
                    k,
                    db.pool@[w as int],
                ) by {
                if db.files(w, k) {
                    let a = choose|a: int| 0 <= a < n && syms@[#[trigger] order@[a] as int] == w;
                    let i = order@[a] as int;
                    assert(syms@[i] == w);
                    assert(syms@.contains(w));
                    assert(lists@.contains_key(w));
                    let x = choose|x: int|
                        0 <= x < db.by_word_map@[w]@.len() && db.by_word_map@[w]@[x] == k;
                    let q = lists@[w]@[x];
                    assert(keylists@[i]@[x] == db.keys@[q as int]);
                    assert(placed(lists@, w, q));
                    assert(self.position_has(q, w));
                    assert(db.keys@.contains(db.keys@[q as int]));
                }
                if w < db.pool@.len() && db.has_word(k, db.pool@[w as int]) {
                    assert(db.keys@.contains(k));
                    let q = choose|q: int| 0 <= q < db.keys@.len() && db.keys@[q] == k;
                    assert(q < count);
                    assert(self.position_has(q as usize, w));
                    assert(placed(lists@, w, q as usize));
                    assert(syms@.contains(w));
                    let i = choose|i: int| 0 <= i < syms@.len() && syms@[i] == w;
                    assert(order@.contains(i as usize));
                    let a = choose|a: int| 0 <= a < order@.len() && order@[a] == i as usize;
                    assert(db.by_word_map@.contains_key(syms@[order@[a] as int]));
                    let x = choose|x: int|
                        0 <= x < lists@[w]@.len() && lists@[w]@[x] == q as usize;
                    assert(keylists@[i]@[x] == db.keys@[lists@[w]@[x] as int]);
                    assert(db.by_word_map@[syms@[order@[a] as int]]@ == keylists@[order@[a] as int]@);
                    assert(db.by_word_map@[w]@[x] == k);
                }
            }
            assert forall|w: Sym| #[trigger]
                db.by_word_map@.contains_key(w) implies db.by_word_map@[w]@.len() > 0 by {
                let a = choose|a: int| 0 <= a < n && syms@[#[trigger] order@[a] as int] == w;
                let i = order@[a] as int;
                assert(syms@[i] == w);
                assert(syms@.contains(w));
                assert(lists@.contains_key(w));
                assert(keylists@[i]@.len() == lists@[w]@.len());
            }
            assert forall|w: Sym| #[trigger]
                db.by_word_map@.contains_key(w) implies db.by_word_map@[w]@.no_duplicates() by {
                let a = choose|a: int| 0 <= a < n && syms@[#[trigger] order@[a] as int] == w;
                let i = order@[a] as int;
                assert(syms@[i] == w);
                assert(syms@.contains(w));
                assert(lists@.contains_key(w));
                let list = db.by_word_map@[w]@;
                assert forall|x: int, y: int|
                    0 <= x < list.len() && 0 <= y < list.len() && x != y implies list[x]
                    != list[y] by {
                    assert(keylists@[i]@[x] == db.keys@[lists@[w]@[x] as int]);
                    assert(keylists@[i]@[y] == db.keys@[lists@[w]@[y] as int]);
                    if x < y {
                        assert(lists@[w]@[x] < lists@[w]@[y]);
                    } else {
                        assert(lists@[w]@[y] < lists@[w]@[x]);
                    }
                }
            }
        }
        db
    }

    /// Whether the row with the index `x` files the key `k`.
    pub open spec fn row_files(&self, x: u64, k: Sym) -> bool {
        x < self.by_word_vec@.len() && self.by_word_vec@[x as int].1@.contains(k)
    }

    /// Whether the exact term `i` of the query is the word with the
    /// number `w`, under which the word map files the key `k`.
    pub open spec fn exact_hit(&self, q: QueryView, i: int, w: Sym, k: Sym) -> bool {
        &&& 0 <= i < q.exact_matches.len()
        &&& w < self.pool@.len()
        &&& self.pool@[w as int] == q.exact_matches[i].term
        &&& self.files(w, k)
    }

    /// Whether the term `i` of those that are not exact is longer than
    /// three bytes and recalls the row `x`, which files the key `k`.
    pub open spec fn fuzzy_hit(&self, q: QueryView, i: int, x: u64, k: Sym) -> bool {
        &&& 0 <= i < q.not_exact_matches.len()
        &&& bytes_of(q.not_exact_matches[i].term).len() > 3
        &&& term_recalls(fst_entries(self.fst), q.not_exact_matches[i].term, q.lev_dist, x)
        &&& self.row_files(x, k)
    }

    /// Whether one of the first `n` exact terms recalls the key `k`.
    pub open spec fn exact_recalls(&self, q: QueryView, n: int, k: Sym) -> bool {
        exists|i: int, w: Sym| i < n && #[trigger] self.exact_hit(q, i, w, k)
    }

    /// Whether one of the first `n` terms that are not exact recalls the
    /// key `k`.
    pub open spec fn fuzzy_recalls(&self, q: QueryView, n: int, k: Sym) -> bool {
        exists|i: int, x: u64| i < n && #[trigger] self.fuzzy_hit(q, i, x, k)
    }

    /// Whether the query recalls the key `k`: an exact term is a word
    /// under which `k` is filed, or a term that is not exact and longer
    /// than three bytes recalls a word under which `k` is filed.
    pub open spec fn recalls(&self, q: QueryView, k: Sym) -> bool {
        self.exact_recalls(q, q.exact_matches.len() as int, k) || self.fuzzy_recalls(
            q,
            q.not_exact_matches.len() as int,
            k,
        )
    }

    /// Adds the keys that the exact terms recall.
    fn recall_exact(&self, st: &SearchTerm, out: &mut Vec<Sym>, seen: &mut HashSet<Sym>)
        requires
            self.wf(),
            old(out)@.len() == 0,
            old(seen)@ == Set::<Sym>::empty(),
        ensures
            final(out)@.no_duplicates(),
            forall|k: Sym| final(seen)@.contains(k) <==> #[trigger] final(out)@.contains(k),
            forall|k: Sym| #[trigger]
                final(out)@.contains(k) <==> self.exact_recalls(
                    st@,
                    st@.exact_matches.len() as int,
                    k,
                ),
    {
        let ghost q = st@;
        let n: usize = st.exact_matches.len();
        let mut i: usize = 0;
        while i < n
            invariant
                self.wf(),
                q == st@,
                n == st.exact_matches@.len(),
                i <= n,
                out@.no_duplicates(),
                forall|k: Sym| seen@.contains(k) <==> #[trigger] out@.contains(k),
                forall|k: Sym| #[trigger] out@.contains(k) <==> self.exact_recalls(q, i as int, k),
            decreases n - i,
        {
            let term = st.exact_matches[i].term.as_str();
            assert(q.exact_matches[i as int].term == term@);
            let ghost before = out@;
            let found = self.pool.from_existing(term);
            let ghost mut added: Seq<Sym> = Seq::empty();
            match found {
                Some(w) => match self.by_word_map.get(&w) {
                    Some(list) => {
                        proof {
                            added = list@;
                        }
                        add_all(out, seen, list);
                    },
                    None => {},
                },
                None => {},
            }
            proof {
                self.pool.lemma_distinct();
                assert forall|k: Sym| #[trigger] out@.contains(k) <==> self.exact_recalls(
                    q,
                    i + 1,
                    k,
                ) by {
                    assert(out@.contains(k) <==> before.contains(k) || added.contains(k));
                    assert(before.contains(k) <==> self.exact_recalls(q, i as int, k));
                    if self.exact_recalls(q, i as int, k) {
                        let (j, w) = choose|j: int, w: Sym|
                            j < i && #[trigger] self.exact_hit(q, j, w, k);
                        assert(j < i + 1 && self.exact_hit(q, j, w, k));
                    }
                    if added.contains(k) {
                        let w = found.unwrap();
                        assert(self.exact_hit(q, i as int, w, k));
                    }
                    if self.exact_recalls(q, i + 1, k) && !self.exact_recalls(q, i as int, k) {
                        let (j, w) = choose|j: int, w: Sym|
                            j < i + 1 && #[trigger] self.exact_hit(q, j, w, k);
                        assert(j == i);
                        assert(found == Some(w));
                    }
                }
            }
            i += 1;
        }
    }

    /// Whether one of the rows with these indexes files the key `k`.
    pub open spec fn rows_file(&self, values: Seq<u64>, k: Sym) -> bool {
        exists|a: int| 0 <= a < values.len() && self.row_files(#[trigger] values[a], k)
    }

    /// Adds to the candidates the keys that the rows with these indexes
    /// file, each once. An index that is the index of no row adds nothing.
    pub fn add_rows(&self, values: &Vec<u64>, out: &mut Vec<Sym>, seen: &mut HashSet<Sym>)
        requires
            old(out)@.no_duplicates(),
            forall|k: Sym| old(seen)@.contains(k) <==> #[trigger] old(out)@.contains(k),
        ensures
            final(out)@.no_duplicates(),
            forall|k: Sym| final(seen)@.contains(k) <==> #[trigger] final(out)@.contains(k),
            forall|k: Sym| #[trigger]
                final(out)@.contains(k) <==> old(out)@.contains(k) || self.rows_file(values@, k),
    {
        let ghost before = out@;
        let rows: usize = self.by_word_vec.len();
        let mut j: usize = 0;
        while j < values.len()
            invariant
                rows == self.by_word_vec@.len(),
                j <= values@.len(),
                out@.no_duplicates(),
                forall|k: Sym| seen@.contains(k) <==> #[trigger] out@.contains(k),
                forall|k: Sym| #[trigger]
                    out@.contains(k) <==> before.contains(k) || self.rows_file(
                        values@.subrange(0, j as int),
                        k,
                    ),
            decreases values.len() - j,
        {
            let x = values[j];
            let ghost inner = out@;
            if x < rows as u64 {
                add_all(out, seen, &self.by_word_vec[x as usize].1);
            }
            proof {
                let a = values@.subrange(0, j as int);
                let b = values@.subrange(0, j + 1);
                assert forall|k: Sym| #[trigger]
                    out@.contains(k) <==> before.contains(k) || self.rows_file(b, k) by {
                    assert(out@.contains(k) <==> inner.contains(k) || self.row_files(x, k));
                    if self.rows_file(a, k) {
                        let i = choose|i: int| 0 <= i < a.len() && self.row_files(#[trigger] a[i], k);
                        assert(self.row_files(b[i], k));
                    }
                    if self.row_files(x, k) {
                        assert(self.row_files(b[j as int], k));
                    }
                    if self.rows_file(b, k) {
                        let i = choose|i: int| 0 <= i < b.len() && self.row_files(#[trigger] b[i], k);
                        if i < j {
                            assert(self.row_files(a[i], k));
                        }
                    }
                }
            }
            j += 1;
        }
        proof {
            assert(values@.subrange(0, values@.len() as int) == values@);
        }
    }

    /// Adds the keys that the terms recall that are not exact.
    fn recall_fuzzy(&self, st: &SearchTerm, out: &mut Vec<Sym>, seen: &mut HashSet<Sym>)
        requires
            self.wf(),
            old(out)@.no_duplicates(),
            forall|k: Sym| old(seen)@.contains(k) <==> #[trigger] old(out)@.contains(k),
        ensures
            final(out)@.no_duplicates(),
            forall|k: Sym| final(seen)@.contains(k) <==> #[trigger] final(out)@.contains(k),
            forall|k: Sym| #[trigger]
                final(out)@.contains(k) <==> old(out)@.contains(k) || self.fuzzy_recalls(
                    st@,
                    st@.not_exact_matches.len() as int,
                    k,
                ),
    {
        let ghost q = st@;
        let ghost start = out@;
        let n: usize = st.not_exact_matches.len();
        let rows: usize = self.by_word_vec.len();
        let mut i: usize = 0;
        while i < n
            invariant
                self.wf(),
                q == st@,
                n == st.not_exact_matches@.len(),
                rows == self.by_word_vec@.len(),
                i <= n,
                out@.no_duplicates(),
                forall|k: Sym| seen@.contains(k) <==> #[trigger] out@.contains(k),
                forall|k: Sym| #[trigger]
                    out@.contains(k) <==> start.contains(k) || self.fuzzy_recalls(q, i as int, k),
            decreases n - i,
        {
            let term = st.not_exact_matches[i].term.as_str();
            assert(q.not_exact_matches[i as int].term == term@);
            let ghost before = out@;
            let ghost mut found: Seq<u64> = Seq::empty();
            if byte_len(term) > 3 {
                let values = lookup(&self.fst, term, st.lev_dist);
                proof {
                    found = values@;
                }
                self.add_rows(&values, out, seen);
            }
            proof {
                let entries = fst_entries(self.fst);
                assert forall|k: Sym| #[trigger]
                    out@.contains(k) <==> start.contains(k) || self.fuzzy_recalls(q, i + 1, k) by {
                    assert(before.contains(k) <==> start.contains(k) || self.fuzzy_recalls(
                        q,
                        i as int,
                        k,
                    ));
                    if self.fuzzy_recalls(q, i as int, k) {
                        let (a, x) = choose|a: int, x: u64|
                            a < i && #[trigger] self.fuzzy_hit(q, a, x, k);
                        assert(a < i + 1 && self.fuzzy_hit(q, a, x, k));
                    }
                    assert(out@.contains(k) <==> before.contains(k) || (bytes_of(term@).len() > 3
                        && self.rows_file(found, k)));
                    if out@.contains(k) && !before.contains(k) {
                        let a = choose|a: int|
                            0 <= a < found.len() && self.row_files(#[trigger] found[a], k);
                        assert(found.contains(found[a]));
                        assert(self.fuzzy_hit(q, i as int, found[a], k));
                    }
                    if self.fuzzy_recalls(q, i + 1, k) && !self.fuzzy_recalls(q, i as int, k) {
                        let (a, x) = choose|a: int, x: u64|
                            a < i + 1 && #[trigger] self.fuzzy_hit(q, a, x, k);
                        assert(a == i);
                        assert(found.contains(x));
                        let b = choose|b: int| 0 <= b < found.len() && found[b] == x;
                        assert(self.row_files(found[b], k));
                    }
                }
            }
            i += 1;
        }
    }

    /// The keys that the query recalls, each once.
    pub fn recall(&self, st: &SearchTerm) -> (r: Vec<Sym>)
        requires
            self.wf(),
        ensures
            r@.no_duplicates(),
            forall|k: Sym| #[trigger] r@.contains(k) <==> self.recalls(st@, k),
            forall|k: Sym| #[trigger] r@.contains(k) ==> self.all@.contains_key(k),
    {
        let mut out: Vec<Sym> = Vec::new();
        let mut seen: HashSet<Sym> = HashSet::new();
        self.recall_exact(st, &mut out, &mut seen);
        self.recall_fuzzy(st, &mut out, &mut seen);
        proof {
            assert forall|k: Sym| #[trigger] out@.contains(k) implies self.all@.contains_key(
                k,
            ) by {
                let q = st@;
                if self.exact_recalls(q, q.exact_matches.len() as int, k) {
                    let (i, w) = choose|i: int, w: Sym|
                        i < q.exact_matches.len() && #[trigger] self.exact_hit(q, i, w, k);
                    let x = choose|x: int|
                        0 <= x < self.by_word_map@[w]@.len() && self.by_word_map@[w]@[x] == k;
                    assert(self.all@.contains_key(self.by_word_map@[w]@[x]));
                } else {
                    let (i, v) = choose|i: int, v: u64|
                        i < q.not_exact_matches.len() && #[trigger] self.fuzzy_hit(q, i, v, k);
                    assert(self.row_ok(v as int));
                    let w = choose|w: Sym|
                        {
                            &&& w < self.pool@.len()
                            &&& self.pool@[w as int] == self.by_word_vec@[v as int].0@
                            &&& #[trigger] self.by_word_map@.contains_key(w)
                            &&& self.by_word_map@[w]@ == self.by_word_vec@[v as int].1@
                        };
                    let x = choose|x: int|
                        0 <= x < self.by_word_map@[w]@.len() && self.by_word_map@[w]@[x] == k;
                    assert(self.all@.contains_key(self.by_word_map@[w]@[x]));
                }
            }
        }
        out
    }

    /// The score that the query gives to the entity under `k`, if it is
    /// above the threshold of inclusion.
    pub open spec fn kept_score(&self, q: QueryView, k: Sym) -> Option<Score> {
        match self.all@[k].search_score(q) {
            Some(s) => if s.score > SEARCH_INCLUSION_THRESHOLD {
                Some(s)
            } else {
                None
            },
            None => None,
        }
    }

    /// Whether `scores` holds the candidates of the query before they are
    /// lifted: each key that the query recalls and that scores above the
    /// threshold, with its score.
    pub open spec fn preranks(&self, q: QueryView, scores: Map<Sym, Score>) -> bool {
        &&& forall|k: Sym| #[trigger]
            scores.contains_key(k) <==> self.recalls(q, k) && self.kept_score(q, k) is Some
        &&& forall|k: Sym| #[trigger]
            scores.contains_key(k) ==> Some(scores[k]) == self.kept_score(q, k)
    }

    /// Whether `r` is what a search for the query gives: the candidates
    /// `before`, lifted to `after` and ranked, cut at the limit of the
    /// query.
    pub open spec fn search_steps(
        &self,
        q: QueryView,
        before: Map<Sym, Score>,
        after: Map<Sym, Score>,
        r: Seq<(Sym, Score)>,
    ) -> bool {
        &&& self.preranks(q, before)
        &&& reranks(self, before, after)
        &&& ranks(r, after, q.limit)
    }

    /// Whether `r` is what a search for the query gives.
    pub open spec fn answers(&self, q: QueryView, r: Seq<(Sym, Score)>) -> bool {
        exists|before: Map<Sym, Score>, after: Map<Sym, Score>| #[trigger]
            self.search_steps(q, before, after, r)
    }

    /// The score of each candidate that scores above the threshold, and
    /// the candidates that do, in their order.
    pub fn score_all(&self, st: &SearchTerm, candidates: &Vec<Sym>) -> (r: (
        Vec<Sym>,
        HashMap<Sym, Score>,
    ))
        requires
            self.wf(),
            candidates@.no_duplicates(),
            forall|k: Sym| #[trigger] candidates@.contains(k) ==> self.all@.contains_key(k),
        ensures
            r.0@.no_duplicates(),
            forall|k: Sym| #[trigger] r.1@.contains_key(k) <==> r.0@.contains(k),
            forall|k: Sym| #[trigger]
                r.1@.contains_key(k) <==> candidates@.contains(k) && self.kept_score(st@, k)
                    is Some,
            forall|k: Sym| #[trigger]
                r.1@.contains_key(k) ==> Some(r.1@[k]) == self.kept_score(st@, k),
    {
        let mut kept: Vec<Sym> = Vec::new();
        let mut scores: HashMap<Sym, Score> = HashMap::new();
        let n: usize = candidates.len();
        let mut i: usize = 0;
        while i < n
            invariant
                self.wf(),
                n == candidates@.len(),
                i <= n,
                candidates@.no_duplicates(),
                forall|k: Sym| #[trigger] candidates@.contains(k) ==> self.all@.contains_key(k),
                kept@.no_duplicates(),
                forall|k: Sym| #[trigger] scores@.contains_key(k) <==> kept@.contains(k),
                forall|k: Sym| #[trigger]
                    scores@.contains_key(k) <==> candidates@.subrange(0, i as int).contains(k)
                        && self.kept_score(st@, k) is Some,
                forall|k: Sym| #[trigger]
                    scores@.contains_key(k) ==> Some(scores@[k]) == self.kept_score(st@, k),
            decreases n - i,
        {
            let k = candidates[i];
            assert(candidates@.contains(k));
            let ghost before = scores@;
            let ghost before_kept = kept@;
            let ghost a = candidates@.subrange(0, i as int);
            let ghost b = candidates@.subrange(0, i + 1);
            let found = match self.all.get(&k) {
                Some(loc) => loc.search(st),
                None => None,
            };
            proof {
                assert forall|c: Sym| b.contains(c) <==> a.contains(c) || c == k by {
                    if a.contains(c) {
                        let j = choose|j: int| 0 <= j < a.len() && a[j] == c;
                        assert(b[j] == c);
                    }
                    if c == k {
                        assert(b[i as int] == c);
                    }
                    if b.contains(c) {
                        let j = choose|j: int| 0 <= j < b.len() && b[j] == c;
                        if j < i {
                            assert(a[j] == c);
                        }
                    }
                }
                if a.contains(k) {
                    let j = choose|j: int| 0 <= j < a.len() && a[j] == k;
                    assert(candidates@[j] == k);
                }
                assert(!a.contains(k));
                assert(!before.contains_key(k));
            }
            match found {
                Some(s) => {
                    if s.score > SEARCH_INCLUSION_THRESHOLD {
                        scores.insert(k, s);
                        kept.push(k);
                        proof {
                            assert(!before_kept.contains(k));
                            assert forall|c: Sym| #[trigger] scores@.contains_key(c)
                                <==> kept@.contains(c) by {
                                if before_kept.contains(c) {
                                    let j = choose|j: int|
                                        0 <= j < before_kept.len() && before_kept[j] == c;
                                    assert(kept@[j] == c);
                                }
                                if c == k {
                                    assert(kept@[before_kept.len() as int] == c);
                                }
                                if kept@.contains(c) && c != k {
                                    let j = choose|j: int| 0 <= j < kept@.len() && kept@[j] == c;
                                    assert(before_kept[j] == c);
                                }
                            }
                            assert forall|x: int, y: int|
                                0 <= x < kept@.len() && 0 <= y < kept@.len() && x != y
                                implies kept@[x] != kept@[y] by {
                                if x < before_kept.len() && y < before_kept.len() {
                                    assert(before_kept[x] != before_kept[y]);
                                } else if x < before_kept.len() {
                                    assert(before_kept.contains(before_kept[x]));
                                } else {
                                    assert(before_kept.contains(before_kept[y]));
                                }
                            }
                        }
                    }
                },
                None => {},
            }
            i += 1;
        }
        proof {
            assert(candidates@.subrange(0, n as int) == candidates@);
        }
        (kept, scores)
    }

    /// Searches the corpus: recalls the candidates of the query, scores
    /// them, drops those at or below the threshold, lifts each by the
    /// candidates it lies in, and gives the best of them, as many as the
    /// query asks for.
    pub fn search(&self, st: &SearchTerm) -> (r: Vec<(Sym, Score)>)
        requires
            self.wf(),
        ensures
            self.answers(st@, r@),
    {
        let candidates = self.recall(st);
        let (kept, scores) = self.score_all(st, &candidates);
        let ghost before = scores@;
        let graph = ResultsGraph::from_results(&kept, scores, self);
        proof {
            assert(graph.scores@.dom() == before.dom());
            assert forall|k: Sym| #[trigger] graph.scores@.contains_key(k) <==> kept@.contains(
                k,
            ) by {
                assert(before.contains_key(k) <==> kept@.contains(k));
            }
        }
        let r = top_ranked(&kept, &graph.scores, st.limit);
        proof {
            assert(self.preranks(st@, before));
            assert(self.search_steps(st@, before, graph.scores@, r@));
        }
        r
    }

    /// Every key that the word map files is the key of an entity.
    pub proof fn lemma_filed_keys_exist(&self)
        requires
            self.wf(),
        ensures
            forall|w: Sym, k: Sym| #[trigger] self.files(w, k) ==> self.all@.contains_key(k),
    {
        assert forall|w: Sym, k: Sym| #[trigger] self.files(w, k) implies self.all@.contains_key(
            k,
        ) by {
            let x = choose|x: int|
                0 <= x < self.by_word_map@[w]@.len() && self.by_word_map@[w]@[x] == k;
            assert(self.all@.contains_key(self.by_word_map@[w]@[x]));
        }
    }

    /// The keys of the transducer are the words of the word map: a byte
    /// sequence is a key of the transducer if and only if it holds a word
    /// that has an entry in the word map.
    pub proof fn lemma_transducer_holds_words(&self)
        requires
            self.wf(),
        ensures
            forall|key: Seq<u8>| #[trigger]
                fst_entries(self.fst).contains_key(key) <==> exists|w: Sym|
                    w < self.pool@.len() && #[trigger] self.by_word_map@.contains_key(w)
                        && bytes_of(self.pool@[w as int]) == key,
    {
        let entries = fst_entries(self.fst);
        let words = row_words(self.by_word_vec@);
        assert forall|key: Seq<u8>| #[trigger] entries.contains_key(key) <==> exists|w: Sym|
            w < self.pool@.len() && #[trigger] self.by_word_map@.contains_key(w) && bytes_of(
                self.pool@[w as int],
            ) == key by {
            if entries.contains_key(key) {
                let i = choose|i: int| 0 <= i < words.len() && bytes_of(#[trigger] words[i]) == key;
                assert(self.row_ok(i));
                let w = choose|w: Sym|
                    {
                        &&& w < self.pool@.len()
                        &&& self.pool@[w as int] == self.by_word_vec@[i].0@
                        &&& #[trigger] self.by_word_map@.contains_key(w)
                        &&& self.by_word_map@[w]@ == self.by_word_vec@[i].1@
                    };
                assert(self.by_word_map@.contains_key(w) && bytes_of(self.pool@[w as int]) == key);
            }
            if exists|w: Sym|
                w < self.pool@.len() && #[trigger] self.by_word_map@.contains_key(w) && bytes_of(
                    self.pool@[w as int],
                ) == key {
                let w = choose|w: Sym|
                    w < self.pool@.len() && #[trigger] self.by_word_map@.contains_key(w)
                        && bytes_of(self.pool@[w as int]) == key;
                assert(self.word_ok(w));
                let i = choose|i: int|
                    0 <= i < self.by_word_vec@.len() && (#[trigger] self.by_word_vec@[i]).0@
                        == self.pool@[w as int];
                assert(words[i] == self.pool@[w as int]);
                assert(entries.contains_key(bytes_of(words[i])));
            }
        }
    }

    /// A term of three bytes or fewer recalls nothing through the
    /// transducer: where no term that is not exact is longer, the
    /// transducer recalls no key.
    pub proof fn lemma_short_terms_recall_nothing(&self, q: QueryView, k: Sym)
        requires
            forall|i: int|
                0 <= i < q.not_exact_matches.len() ==> bytes_of(
                    (#[trigger] q.not_exact_matches[i]).term,
                ).len() <= 3,
        ensures
            !self.fuzzy_recalls(q, q.not_exact_matches.len() as int, k),
    {
        if self.fuzzy_recalls(q, q.not_exact_matches.len() as int, k) {
            let (i, x) = choose|i: int, x: u64|
                i < q.not_exact_matches.len() && #[trigger] self.fuzzy_hit(q, i, x, k);
            assert(bytes_of(q.not_exact_matches[i].term).len() <= 3);
        }
    }

    /// With distance zero the transducer recalls a key for a term only
    /// through a word that begins with the term.
    pub proof fn lemma_zero_distance_recall(&self, q: QueryView, i: int, x: u64, k: Sym)
        requires
            q.lev_dist == 0,
            self.fuzzy_hit(q, i, x, k),
        ensures
            crate::word_index::prefixed_value(
                fst_entries(self.fst),
                q.not_exact_matches[i].term,
                x,
            ),
    {
        crate::word_index::lemma_zero_distance_is_prefix(
            fst_entries(self.fst),
            q.not_exact_matches[i].term,
            x,
        );
    }

    /// Every result of a search scores above the threshold of inclusion,
    /// the results stand by falling rank, and no key stands twice.
    pub proof fn lemma_results_ranked(&self, q: QueryView, r: Seq<(Sym, Score)>)
        requires
            self.answers(q, r),
        ensures
            r.len() <= q.limit,
            forall|i: int|
                0 <= i < r.len() ==> (#[trigger] r[i]).1.score > SEARCH_INCLUSION_THRESHOLD,
            forall|i: int, j: int|
                0 <= i < j < r.len() ==> !outranks((#[trigger] r[j]).1, (#[trigger] r[i]).1),
            forall|i: int, j: int|
                0 <= i < j < r.len() ==> (#[trigger] r[i]).0 != (#[trigger] r[j]).0,
    {
        let (before, after) = choose|before: Map<Sym, Score>, after: Map<Sym, Score>| #[trigger]
            self.search_steps(q, before, after, r);
        assert forall|i: int| 0 <= i < r.len() implies (#[trigger] r[i]).1.score
            > SEARCH_INCLUSION_THRESHOLD by {
            let k = r[i].0;
            assert(after.contains_key(k));
            assert(before.contains_key(k));
            assert(crate::graph::rerank_ok(self, before, k, after[k]));
            assert(Some(before[k]) == self.kept_score(q, k));
        }
    }

    /// Every key in the results of a search is the key of an entity.
    pub proof fn lemma_results_exist(&self, q: QueryView, r: Seq<(Sym, Score)>)
        requires
            self.wf(),
            self.answers(q, r),
        ensures
            forall|i: int| 0 <= i < r.len() ==> self.all@.contains_key((#[trigger] r[i]).0),
    {
        let (before, after) = choose|before: Map<Sym, Score>, after: Map<Sym, Score>| #[trigger]
            self.search_steps(q, before, after, r);
        self.lemma_filed_keys_exist();
        assert forall|i: int| 0 <= i < r.len() implies self.all@.contains_key(
            (#[trigger] r[i]).0,
        ) by {
            let k = r[i].0;
            assert(after.contains_key(k));
            assert(before.contains_key(k));
            assert(self.recalls(q, k));
            self.lemma_recalled_exists(q, k);
        }
    }

    /// Every key that a query recalls is the key of an entity.
    pub proof fn lemma_recalled_exists(&self, q: QueryView, k: Sym)
        requires
            self.wf(),
            self.recalls(q, k),
        ensures
            self.all@.contains_key(k),
    {
        if self.exact_recalls(q, q.exact_matches.len() as int, k) {
            let (i, w) = choose|i: int, w: Sym|
                i < q.exact_matches.len() && #[trigger] self.exact_hit(q, i, w, k);
            let x = choose|x: int|
                0 <= x < self.by_word_map@[w]@.len() && self.by_word_map@[w]@[x] == k;
            assert(self.all@.contains_key(self.by_word_map@[w]@[x]));
        } else {
            let (i, v) = choose|i: int, v: u64|
                i < q.not_exact_matches.len() && #[trigger] self.fuzzy_hit(q, i, v, k);
            assert(self.row_ok(v as int));
            let w = choose|w: Sym|
                {
                    &&& w < self.pool@.len()
                    &&& self.pool@[w as int] == self.by_word_vec@[v as int].0@
                    &&& #[trigger] self.by_word_map@.contains_key(w)
                    &&& self.by_word_map@[w]@ == self.by_word_vec@[v as int].1@
                };
            let x = choose|x: int|
                0 <= x < self.by_word_map@[w]@.len() && self.by_word_map@[w]@[x] == k;
            assert(self.all@.contains_key(self.by_word_map@[w]@[x]));
        }
    }

    /// A query without terms finds nothing.
    pub proof fn lemma_no_terms_no_results(&self, q: QueryView, r: Seq<(Sym, Score)>)
        requires
            q.exact_matches.len() == 0,
            q.not_exact_matches.len() == 0,
            self.answers(q, r),
        ensures
            r.len() == 0,
    {
        let (before, after) = choose|before: Map<Sym, Score>, after: Map<Sym, Score>| #[trigger]
            self.search_steps(q, before, after, r);
        if r.len() > 0 {
            let k = r[0].0;
            assert(after.contains_key(k));
            assert(before.contains_key(k));
            assert(self.recalls(q, k));
            if self.exact_recalls(q, 0, k) {
                let (i, w) = choose|i: int, w: Sym| i < 0 && #[trigger] self.exact_hit(q, i, w, k);
            } else {
                let (i, x) = choose|i: int, x: u64| i < 0 && #[trigger] self.fuzzy_hit(q, i, x, k);
            }
        }
    }

    /// The key of every entity of the corpus parses back to the schema and
    /// the id of the entity.
    pub proof fn lemma_keys_parse_back(&self)
        requires
            self.wf(),
        ensures
            forall|k: Sym| #[trigger]
                self.all@.contains_key(k) ==> crate::location::key_parts(self.all@[k].key@)
                    == Some((self.all@[k].encoding@, self.all@[k].id@)),
    {
        assert forall|k: Sym| #[trigger]
            self.all@.contains_key(k) implies crate::location::key_parts(self.all@[k].key@)
            == Some((self.all@[k].encoding@, self.all@[k].id@)) by {
            assert(self.entity_ok(k));
            self.all@[k].lemma_key_parses_back();
        }
    }

    /// The name of an entity is a text of the table, and the word map of
    /// an indexed corpus files the entity under it.
    pub proof fn lemma_name_filed(&self, k: Sym) -> (w: Sym)
        requires
            self.pool.wf(),
            self.indexed(),
            self.all@.contains_key(k),
            self.entity_ok(k),
        ensures
            w < self.pool@.len(),
            self.pool@[w as int] == self.all@[k].data.name(),
            self.files(w, k),
    {
        let loc = self.all@[k];
        let name = loc.data.name();
        loc.lemma_index_words_in_texts();
        let at = loc.words@.len() + loc.data.codes().len();
        assert(loc.index_words()[at as int] == name);
        assert(loc.texts().contains(name));
        let j = choose|j: int| 0 <= j < loc.texts().len() && loc.texts()[j] == name;
        assert(self.pool@.contains(loc.texts()[j]));
        let x = choose|x: int| 0 <= x < self.pool@.len() && self.pool@[x] == name;
        self.pool.lemma_len_fits();
        let w = x as usize;
        assert(self.has_word(k, self.pool@[w as int]));
        w
    }

    /// A query that has the name of an entity among its exact terms
    /// recalls the entity, if the corpus is indexed.
    pub proof fn lemma_name_recalled(&self, q: QueryView, k: Sym)
        requires
            self.pool.wf(),
            self.indexed(),
            self.all@.contains_key(k),
            self.entity_ok(k),
            crate::search::has_term(q.exact_matches, self.all@[k].data.name()),
        ensures
            self.recalls(q, k),
    {
        let w = self.lemma_name_filed(k);
        let name = self.all@[k].data.name();
        let i = choose|i: int|
            0 <= i < q.exact_matches.len() && (#[trigger] q.exact_matches[i]).term == name;
        assert(self.exact_hit(q, i, w, k));
    }

    /// A candidate that scores the soft maximum at least stands high in
    /// the results.
    pub proof fn lemma_high_score_found(
        &self,
        q: QueryView,
        before: Map<Sym, Score>,
        after: Map<Sym, Score>,
        r: Seq<(Sym, Score)>,
        k: Sym,
    )
        requires
            before.contains_key(k),
            before[k].score >= crate::SCORE_SOFT_MAX,
            reranks(self, before, after),
            ranks(r, after, q.limit),
        ensures
            exists|s: Score| #[trigger] stands_high(r, q.limit, k, s),
    {
        assert(after.contains_key(k));
        assert(crate::graph::rerank_ok(self, before, k, after[k]));
        let s = after[k];
        if listed(r, k) {
            let x = choose|x: int| 0 <= x < r.len() && (#[trigger] r[x]).0 == k;
            assert(r[x] == (k, s));
            assert(r.contains((k, s)));
        } else {
            assert(r.len() == q.limit && tops(r, s));
        }
        assert(stands_high(r, q.limit, k, s));
    }

    /// The steps of a search for a query that has the name of an entity
    /// among its exact terms put the entity high in the results.
    pub proof fn lemma_named_steps(
        &self,
        q: QueryView,
        before: Map<Sym, Score>,
        after: Map<Sym, Score>,
        r: Seq<(Sym, Score)>,
        k: Sym,
    )
        requires
            self.pool.wf(),
            self.indexed(),
            self.all@.contains_key(k),
            self.entity_ok(k),
            crate::search::has_term(q.exact_matches, self.all@[k].data.name()),
            q.state_filter is None || q.state_filter == Some(self.all@[k].data.state_code()),
            self.preranks(q, before),
            reranks(self, before, after),
            ranks(r, after, q.limit),
        ensures
            exists|s: Score| #[trigger] stands_high(r, q.limit, k, s),
    {
        self.lemma_name_recalled(q, k);
        self.all@[k].lemma_named_scores_high(q);
        assert(self.kept_score(q, k) is Some);
        assert(before.contains_key(k));
        assert(Some(before[k]) == self.kept_score(q, k));
        self.lemma_high_score_found(q, before, after, r, k);
    }

    /// A query that has the name of an entity among its exact terms finds
    /// the entity with the soft maximum at least, unless it asks for
    /// another country: the entity stands in the results with such a
    /// score, or the results are as many as were asked for and none of
    /// them ranks below it.
    pub proof fn lemma_named_entity_found(&self, q: QueryView, r: Seq<(Sym, Score)>, k: Sym)
        requires
            self.wf(),
            self.indexed(),
            self.all@.contains_key(k),
            crate::search::has_term(q.exact_matches, self.all@[k].data.name()),
            q.state_filter is None || q.state_filter == Some(self.all@[k].data.state_code()),
            self.answers(q, r),
        ensures
            exists|s: Score| #[trigger] stands_high(r, q.limit, k, s),
    {
        let (before, after) = choose|before: Map<Sym, Score>, after: Map<Sym, Score>| #[trigger]
            self.search_steps(q, before, after, r);
        assert(self.entity_ok(k));
        self.lemma_named_steps(q, before, after, r, k);
    }

    /// Whether `after` is the entity `before` with other coordinates.
    pub open spec fn moved(before: Location, after: Location, coordinates: Option<Coordinates>)
        -> bool {
        &&& after.key == before.key
        &&& after.encoding == before.encoding
        &&& after.id == before.id
        &&& after.words == before.words
        &&& before.data matches LocData::Locd(old)
        &&& after.data matches LocData::Locd(new)
        &&& new == (Locode { coordinates, ..old })
    }

    /// Whether the entities are the same but for the one under `k`.
    pub open spec fn same_but(before: Map<Sym, Location>, after: Map<Sym, Location>, k: Sym)
        -> bool {
        forall|j: Sym| j != k && before.contains_key(j) ==> #[trigger] after[j] == before[j]
    }

    /// Whether the corpus has a place with the key.
    pub open spec fn has_place(&self, key: Seq<char>) -> bool {
        exists|k: Sym| #[trigger]
            self.all@.contains_key(k) && self.all@[k].key@ == key && self.all@[k].data is Locd
    }

    /// Gives the place with a key its coordinates. Says whether the corpus
    /// has a place with that key; where it has none, nothing changes.
    pub fn set_coordinates(&mut self, key: &str, coordinates: Option<Coordinates>) -> (found: bool)
        requires
            old(self).wf(),
        ensures
            final(self).wf(),
            final(self).indexed() == old(self).indexed(),
            final(self).pool == old(self).pool,
            final(self).keys == old(self).keys,
            final(self).state_by_code == old(self).state_by_code,
            final(self).subdiv_by_code == old(self).subdiv_by_code,
            final(self).by_word_map == old(self).by_word_map,
            final(self).by_word_vec == old(self).by_word_vec,
            final(self).fst == old(self).fst,
            final(self).all@.dom() == old(self).all@.dom(),
            found <==> old(self).has_place(key@),
            match found {
                true => exists|k: Sym|
                    {
                        &&& is_sym_of(old(self).pool@, Some(k), key@)
                        &&& #[trigger] old(self).all@.contains_key(k)
                        &&& Self::moved(old(self).all@[k], final(self).all@[k], coordinates)
                        &&& Self::same_but(old(self).all@, final(self).all@, k)
                    },
                false => final(self).all == old(self).all,
            },
    {
        let ghost before = *self;
        proof {
            self.pool.lemma_distinct();
            assert forall|j: Sym| #[trigger] self.all@.contains_key(j) implies self.entity_ok(
                j,
            ) by {
            }
        }
        let k: Sym = match self.pool.from_existing(key) {
            Some(k) => k,
            None => {
                proof {
                    if self.has_place(key@) {
                        let j = choose|j: Sym| #[trigger]
                            self.all@.contains_key(j) && self.all@[j].key@ == key@
                                && self.all@[j].data is Locd;
                        assert(self.entity_ok(j));
                        assert(self.pool@.contains(self.pool@[j as int]));
                    }
                }
                return false;
            },
        };
        let is_place = match self.all.get(&k) {
            Some(loc) => match &loc.data {
                LocData::Locd(_) => true,
                _ => false,
            },
            None => false,
        };
        if !is_place {
            proof {
                if self.has_place(key@) {
                    let j = choose|j: Sym| #[trigger]
                        self.all@.contains_key(j) && self.all@[j].key@ == key@
                            && self.all@[j].data is Locd;
                    assert(self.entity_ok(j));
                    assert(j == k);
                }
            }
            return false;
        }
        proof {
            assert(before.entity_ok(k));
            assert(before.all@.contains_key(k) && before.all@[k].key@ == key@
                && before.all@[k].data is Locd);
        }
        let loc = self.all.remove(&k).unwrap();
        let ghost old_loc = loc;
        let Location { key: name, encoding, id, words, data } = loc;
        let place = match data {
            LocData::Locd(d) => Locode { coordinates, ..d },
            _ => {
                proof {
                    assert(false);
                }
                return false;
            },
        };
        let new_loc = Location { key: name, encoding, id, words, data: LocData::Locd(place) };
        self.all.insert(k, new_loc);
        proof {
            assert(self.all@.dom() =~= before.all@.dom());
            assert(Self::moved(old_loc, self.all@[k], coordinates));
            assert(before.entity_ok(k));
            assert(self.all@[k].texts() == old_loc.texts());
            assert(self.all@[k].index_words() == old_loc.index_words());
            assert forall|j: Sym| #[trigger] self.all@.contains_key(j) implies self.entity_ok(
                j,
            ) by {
                assert(before.entity_ok(j));
            }
            assert forall|i: int| 0 <= i < self.by_word_vec@.len() implies #[trigger] self.row_ok(
                i,
            ) by {
                assert(before.row_ok(i));
                let w = choose|w: Sym|
                    {
                        &&& w < before.pool@.len()
                        &&& before.pool@[w as int] == before.by_word_vec@[i].0@
                        &&& #[trigger] before.by_word_map@.contains_key(w)
                        &&& before.by_word_map@[w]@ == before.by_word_vec@[i].1@
                    };
                assert(self.by_word_map@.contains_key(w));
            }
            assert forall|w: Sym| #[trigger]
                self.by_word_map@.contains_key(w) implies self.word_ok(w) by {
                assert(before.word_ok(w));
            }
            assert forall|c: Sym, t: Seq<char>| #[trigger]
                self.has_word(c, t) == before.has_word(c, t) by {
                if self.all@.contains_key(c) && c != k {
                    assert(self.all@[c] == before.all@[c]);
                }
            }
            if before.indexed() {
                assert forall|w: Sym, c: Sym| #[trigger]
                    self.files(w, c) <==> w < self.pool@.len() && self.has_word(
                        c,
                        self.pool@[w as int],
                    ) by {
                    assert(before.files(w, c) <==> w < before.pool@.len() && before.has_word(
                        c,
                        before.pool@[w as int],
                    ));
                }
            }
            if self.indexed() {
                assert forall|w: Sym, c: Sym| #[trigger]
                    before.files(w, c) <==> w < before.pool@.len() && before.has_word(
                        c,
                        before.pool@[w as int],
                    ) by {
                    assert(self.files(w, c) <==> w < self.pool@.len() && self.has_word(
                        c,
                        self.pool@[w as int],
                    ));
                }
            }
            assert(self.indexed() == before.indexed());
        }
        true
    }

    /// The name of the country with a code.
    pub fn state_name(&self, code: &str) -> (r: Option<&String>)
        requires
            self.wf(),
        ensures
            is_name_of(
                self.pool@,
                self.state_by_code@,
                code@,
                match r {
                    Some(name) => Some(name@),
                    None => None,
                },
            ),
    {
        name_of(&self.pool, &self.state_by_code, code)
    }

    /// The name of the subdivision with a code in the country with a code:
    /// the name under the id that is made of both with a colon between
    /// them.
    pub fn subdiv_name(&self, state: &str, subdiv: &str) -> (r: Option<&String>)
        requires
            self.wf(),
        ensures
            is_name_of(
                self.pool@,
                self.subdiv_by_code@,
                state@ + seq![':'] + subdiv@,
                match r {
                    Some(name) => Some(name@),
                    None => None,
                },
            ),
    {
        let head = crate::text::append(state, ":");
        let id = crate::text::append(head.as_str(), subdiv);
        proof {
            reveal_strlit(":");
            assert(id@ =~= state@ + seq![':'] + subdiv@);
        }
        name_of(&self.pool, &self.subdiv_by_code, id.as_str())
    }

    /// A query that is, as a whole, the name of an entity finds the entity
    /// with the soft maximum at least: where the normal form of the query
    /// is the name, is made of one word of two bytes or more or of two or
    /// three words with single spaces between them, not stop words alone,
    /// and the query does not ask for another country, the entity stands
    /// in the results with such a score, or the results are as many as
    /// were asked for and none of them ranks below it.
    pub proof fn lemma_query_for_name_finds_entity(
        &self,
        raw: Seq<char>,
        normalized: Seq<char>,
        words: Seq<Seq<char>>,
        filter: Option<Seq<char>>,
        limit: usize,
        lev_dist: u32,
        r: Seq<(Sym, Score)>,
        k: Sym,
    )
        requires
            self.wf(),
            self.indexed(),
            self.all@.contains_key(k),
            normalized == self.all@[k].data.name(),
            crate::search::is_whole(self.pool@, words, normalized),
            crate::search::kept_filter(self.pool@, filter) is None || crate::search::kept_filter(
                self.pool@,
                filter,
            ) == Some(self.all@[k].data.state_code()),
            self.answers(
                crate::search::parsed(raw, normalized, words, self.pool@, filter, limit, lev_dist),
                r,
            ),
        ensures
            exists|s: Score| #[trigger] stands_high(r, limit, k, s),
    {
        let q = crate::search::parsed(raw, normalized, words, self.pool@, filter, limit, lev_dist);
        assert(self.entity_ok(k));
        let w = self.lemma_name_filed(k);
        assert(self.pool@.contains(self.pool@[w as int]));
        crate::search::lemma_whole_query_is_exact(
            raw,
            normalized,
            words,
            self.pool@,
            filter,
            limit,
            lev_dist,
        );
        crate::search::lemma_parsed_frame(raw, normalized, words, self.pool@, filter, limit, lev_dist);
        self.lemma_named_entity_found(q, r, k);
    }

    /// The entity with a key.
    pub fn retrieve(&self, key: &str) -> (r: Option<&Location>)
        requires
            self.wf(),
        ensures
            match r {
                Some(l) => l.key@ == key@ && exists|k: Sym| #[trigger]
                    self.all@.contains_key(k) && self.all@[k] == *l,
                None => forall|k: Sym| #[trigger]
                    self.all@.contains_key(k) ==> self.all@[k].key@ != key@,
            },
    {
        match self.pool.from_existing(key) {
            Some(k) => match self.all.get(&k) {
                Some(l) => {
                    assert(self.entity_ok(k));
                    Some(l)
                },
                None => {
                    proof {
                        self.pool.lemma_distinct();
                        assert forall|j: Sym| #[trigger]
                            self.all@.contains_key(j) implies self.all@[j].key@ != key@ by {
                            assert(self.entity_ok(j));
                        }
                    }
                    None
                },
            },
            None => {
                proof {
                    assert forall|j: Sym| #[trigger]
                        self.all@.contains_key(j) implies self.all@[j].key@ != key@ by {
                        assert(self.entity_ok(j));
                    }
                }
                None
            },
        }
    }
}

} // verus!
