//! The graph of the candidates of a search, in which a country or a
//! subdivision lifts the score of what lies in it.

use crate::intern::Sym;
use crate::locations_db::LocationsDb;
use crate::order::{indexes, sorted_order};
use crate::search::{clamp_score, clamped_sum, Score};
use crate::GRAPH_EDGE_THRESHOLD;
use std::collections::HashMap;
use vstd::prelude::*;

verus! {

broadcast use vstd::std_specs::hash::group_hash_axioms;

/// The type `petgraph::Directed`, which marks a graph as directed.
#[verifier::external_type_specification]
#[verifier::external_body]
pub struct ExDirected(petgraph::Directed);

/// The type `petgraph::graphmap::GraphMap`: a graph whose nodes are the
/// values of `N`. Nothing is said of what is inside.
#[verifier::external_type_specification]
#[verifier::external_body]
#[verifier::reject_recursive_types(N)]
#[verifier::reject_recursive_types(E)]
#[verifier::reject_recursive_types(Ty)]
#[verifier::reject_recursive_types(S)]
pub struct ExGraphMap<N, E, Ty, S: std::hash::BuildHasher>(
    petgraph::graphmap::GraphMap<N, E, Ty, S>,
);

/// The weight of an edge: the score of the parent and that of the child.
pub type Weight = (i64, i64);

/// A graph of candidates, each under its number.
pub type ScoreGraph = petgraph::graphmap::DiGraphMap<usize, Weight>;

/// The edges that a graph of the crate petgraph holds, each from a parent
/// to a child, with its weight.
pub uninterp spec fn graph_edges(g: ScoreGraph) -> Map<(usize, usize), Weight>;

/// The edges of a graph without edges.
pub open spec fn no_edges() -> Map<(usize, usize), Weight> {
    Map::empty()
}

/// Calls `GraphMap::new`, which gives a graph without nodes and edges.
#[verifier::external_body]
pub(crate) fn new_graph() -> (graph: ScoreGraph)
    ensures
        graph_edges(graph) == no_edges(),
{
    petgraph::graphmap::GraphMap::new()
}

/// Calls `GraphMap::add_node`, which leaves the edges as they are.
#[verifier::external_body]
pub(crate) fn add_node(g: &mut ScoreGraph, n: usize)
    ensures
        graph_edges(*final(g)) == graph_edges(*old(g)),
{
    g.add_node(n);
}

/// Calls `GraphMap::add_edge`, which adds the edge from `a` to `b`, or
/// gives it the new weight if it is there already.
#[verifier::external_body]
pub(crate) fn add_edge(g: &mut ScoreGraph, a: usize, b: usize, weight: Weight)
    ensures
        graph_edges(*final(g)) == graph_edges(*old(g)).insert((a, b), weight),
{
    g.add_edge(a, b, weight);
}

/// Whether the list holds each edge once, with its ends and its weight.
pub open spec fn lists_edges(
    list: Seq<(usize, usize, Weight)>,
    edges: Map<(usize, usize), Weight>,
) -> bool {
    &&& forall|i: int|
        0 <= i < list.len() ==> edges.contains_key(((#[trigger] list[i]).0, list[i].1))
            && edges[(list[i].0, list[i].1)] == list[i].2
    &&& forall|i: int, j: int|
        0 <= i < j < list.len() ==> ((#[trigger] list[i]).0, list[i].1) != (
            (#[trigger] list[j]).0,
            list[j].1,
        )
    &&& forall|a: usize, b: usize| #[trigger]
        edges.contains_key((a, b)) ==> exists|i: int|
            0 <= i < list.len() && (#[trigger] list[i]).0 == a && list[i].1 == b
}

/// Calls `GraphMap::all_edges` and copies what it yields: each edge once,
/// in an order that the crate leaves open.
#[verifier::external_body]
pub(crate) fn all_edges(g: &ScoreGraph) -> (list: Vec<(usize, usize, Weight)>)
    ensures
        lists_edges(list@, graph_edges(*g)),
{
    g.all_edges().map(|(a, b, w)| (a, b, *w)).collect()
}

/// The scores of the candidates of a search after each was lifted by the
/// candidates that it lies in.
pub struct ResultsGraph {
    pub scores: HashMap<Sym, Score>,
}

/// Whether the entity under `p` is the country or the subdivision that
/// the entity under `k` lies in.
pub open spec fn is_parent(db: &LocationsDb, p: Sym, k: Sym) -> bool {
    let t = db.all@[k].data.parent_texts();
    &&& p < db.pool@.len()
    &&& (t.0 == Some(db.pool@[p as int]) || t.1 == Some(db.pool@[p as int]))
}

/// Whether the candidate `p` lifts the candidate `k`: it is a parent of
/// it, and both scores are above the threshold.
pub open spec fn lifts(db: &LocationsDb, results: Map<Sym, Score>, p: Sym, k: Sym) -> bool {
    &&& results.contains_key(k)
    &&& results.contains_key(p)
    &&& is_parent(db, p, k)
    &&& results[p].score > GRAPH_EDGE_THRESHOLD
    &&& results[k].score > GRAPH_EDGE_THRESHOLD
}

/// The score to which the candidate `p` lifts the candidate `k`: the
/// share of its own score that its shape gives, on top of the score of
/// `k`.
pub open spec fn lifted(db: &LocationsDb, results: Map<Sym, Score>, p: Sym, k: Sym) -> i64 {
    clamp_score(db.all@[p].data.boost(results[p].score) + results[k].score)
}

/// Whether `s` is the score of the candidate `k` after it was lifted: it
/// has the offset of before, and its score is the greatest of the score
/// of before and the scores to which the parents lift it.
pub open spec fn rerank_ok(db: &LocationsDb, results: Map<Sym, Score>, k: Sym, s: Score) -> bool {
    &&& s.offset == results[k].offset
    &&& s.score >= results[k].score
    &&& forall|p: Sym| #[trigger] lifts(db, results, p, k) ==> s.score >= lifted(db, results, p, k)
    &&& (s.score == results[k].score || exists|p: Sym| #[trigger]
        lifts(db, results, p, k) && s.score == lifted(db, results, p, k))
}

/// Whether `out` holds the candidates of `results`, each lifted by its
/// parents.
pub open spec fn reranks(db: &LocationsDb, results: Map<Sym, Score>, out: Map<Sym, Score>)
    -> bool {
    &&& out.dom() == results.dom()
    &&& forall|k: Sym| #[trigger] results.contains_key(k) ==> rerank_ok(db, results, k, out[k])
}

/// A candidate that a parent lifts has the score to which that parent
/// lifts it at least, and keeps its offset.
pub proof fn lemma_lifted_at_least(
    db: &LocationsDb,
    results: Map<Sym, Score>,
    out: Map<Sym, Score>,
    p: Sym,
    k: Sym,
)
    requires
        reranks(db, results, out),
        lifts(db, results, p, k),
    ensures
        out[k].score >= lifted(db, results, p, k),
        out[k].score >= results[k].score,
        out[k].offset == results[k].offset,
{
    assert(rerank_ok(db, results, k, out[k]));
}

/// A candidate that one parent alone lifts has the greater of its own
/// score and the score to which that parent lifts it.
pub proof fn lemma_lifted_by_one(
    db: &LocationsDb,
    results: Map<Sym, Score>,
    out: Map<Sym, Score>,
    p: Sym,
    k: Sym,
)
    requires
        reranks(db, results, out),
        lifts(db, results, p, k),
        forall|other: Sym| #[trigger] lifts(db, results, other, k) ==> other == p,
    ensures
        out[k].score == if lifted(db, results, p, k) > results[k].score {
            lifted(db, results, p, k)
        } else {
            results[k].score
        },
{
    assert(rerank_ok(db, results, k, out[k]));
}

/// A candidate that no parent lifts stays as it is.
pub proof fn lemma_unlifted_stays(
    db: &LocationsDb,
    results: Map<Sym, Score>,
    out: Map<Sym, Score>,
    k: Sym,
)
    requires
        reranks(db, results, out),
        results.contains_key(k),
        forall|p: Sym| !#[trigger] lifts(db, results, p, k),
    ensures
        out[k] == results[k],
{
    assert(rerank_ok(db, results, k, out[k]));
}

/// Whether the graph has an edge for each pair of a candidate and a
/// parent that lifts it, among the candidates in `done`, and no other
/// edge; the weight of an edge is the scores of the two.
pub open spec fn edges_ok(
    db: &LocationsDb,
    results: Map<Sym, Score>,
    edges: Map<(usize, usize), Weight>,
    done: Seq<Sym>,
) -> bool {
    &&& forall|p: Sym, k: Sym| #[trigger]
        edges.contains_key((p, k)) <==> lifts(db, results, p, k) && done.contains(k)
    &&& forall|p: Sym, k: Sym| #[trigger]
        edges.contains_key((p, k)) ==> edges[(p, k)] == (results[p].score, results[k].score)
}

/// Adds the edge from a parent to a candidate if both scores are above
/// the threshold.
fn link(g: &mut ScoreGraph, results: &HashMap<Sym, Score>, parent: Option<Sym>, k: Sym)
    requires
        results@.contains_key(k),
    ensures
        match parent {
            Some(p) => if results@.contains_key(p) && results@[p].score > GRAPH_EDGE_THRESHOLD
                && results@[k].score > GRAPH_EDGE_THRESHOLD {
                graph_edges(*final(g)) == graph_edges(*old(g)).insert(
                    (p, k),
                    (results@[p].score, results@[k].score),
                )
            } else {
                graph_edges(*final(g)) == graph_edges(*old(g))
            },
            None => graph_edges(*final(g)) == graph_edges(*old(g)),
        },
{
    let score = results.get(&k).unwrap().score;
    match parent {
        Some(p) => match results.get(&p) {
            Some(ps) => {
                if ps.score > GRAPH_EDGE_THRESHOLD && score > GRAPH_EDGE_THRESHOLD {
                    add_edge(g, p, k, (ps.score, score));
                }
            },
            None => {},
        },
        None => {},
    }
}

/// The graph of the candidates: an edge from each parent to each
/// candidate that it lifts.
fn build_graph(keys: &Vec<Sym>, results: &HashMap<Sym, Score>, db: &LocationsDb) -> (g: ScoreGraph)
    requires
        db.wf(),
        forall|k: Sym| #[trigger] results@.contains_key(k) <==> keys@.contains(k),
        forall|k: Sym| #[trigger] results@.contains_key(k) ==> db.all@.contains_key(k),
    ensures
        edges_ok(db, results@, graph_edges(g), keys@),
{
    let mut g = new_graph();
    let mut i: usize = 0;
    while i < keys.len()
        invariant
            db.wf(),
            forall|k: Sym| #[trigger] results@.contains_key(k) <==> keys@.contains(k),
            forall|k: Sym| #[trigger] results@.contains_key(k) ==> db.all@.contains_key(k),
            i <= keys@.len(),
            edges_ok(db, results@, graph_edges(g), keys@.subrange(0, i as int)),
        decreases keys.len() - i,
    {
        let k = keys[i];
        assert(keys@.contains(k));
        assert(results@.contains_key(k));
        assert(db.all@.contains_key(k));
        let ghost before = graph_edges(g);
        let ghost done = keys@.subrange(0, i as int);
        let ghost next = keys@.subrange(0, i + 1);
        add_node(&mut g, k);
        assert(db.entity_ok(k));
        let parents = db.all.get(&k).unwrap().get_parents(&db.pool);
        link(&mut g, results, parents.0, k);
        link(&mut g, results, parents.1, k);
        proof {
            db.pool.lemma_distinct();
            let after = graph_edges(g);
            let t = db.all@[k].data.parent_texts();
            assert forall|c: Sym| next.contains(c) <==> done.contains(c) || c == k by {
                if done.contains(c) {
                    let j = choose|j: int| 0 <= j < done.len() && done[j] == c;
                    assert(next[j] == c);
                }
                if c == k {
                    assert(next[i as int] == k);
                }
                if next.contains(c) {
                    let j = choose|j: int| 0 <= j < next.len() && next[j] == c;
                    if j < i {
                        assert(done[j] == c);
                    }
                }
            }
            assert forall|p: Sym, c: Sym| #[trigger]
                after.contains_key((p, c)) <==> lifts(db, results@, p, c) && next.contains(
                    c,
                ) by {
                assert(before.contains_key((p, c)) <==> lifts(db, results@, p, c)
                    && done.contains(c));
                if c == k && lifts(db, results@, p, k) {
                    if t.0 == Some(db.pool@[p as int]) {
                        assert(parents.0 == Some(p));
                    } else {
                        assert(parents.1 == Some(p));
                    }
                }
            }
            assert forall|p: Sym, c: Sym| #[trigger] after.contains_key((p, c)) implies after[(
                p,
                c,
            )] == (results@[p].score, results@[c].score) by {
                if before.contains_key((p, c)) {
                    assert(before[(p, c)] == (results@[p].score, results@[c].score));
                }
            }
        }
        i += 1;
    }
    proof {
        assert(keys@.subrange(0, keys@.len() as int) == keys@);
    }
    g
}

/// The score to which an edge lifts its child.
pub open spec fn edge_value(db: &LocationsDb, e: (usize, usize, Weight)) -> i64 {
    clamp_score(db.all@[e.0].data.boost(e.2.0) + e.2.1)
}

/// Whether `s` is the score of the candidate `k` after the first `n`
/// edges of the order were applied.
pub open spec fn applied_ok(
    db: &LocationsDb,
    start: Map<Sym, Score>,
    edges: Seq<(usize, usize, Weight)>,
    order: Seq<usize>,
    n: int,
    k: Sym,
    s: Score,
) -> bool {
    &&& s.offset == start[k].offset
    &&& s.score >= start[k].score
    &&& forall|j: int|
        0 <= j < n && edges[#[trigger] order[j] as int].1 == k ==> s.score >= edge_value(
            db,
            edges[order[j] as int],
        )
    &&& (s.score == start[k].score || exists|j: int|
        0 <= j < n && edges[#[trigger] order[j] as int].1 == k && s.score == edge_value(
            db,
            edges[order[j] as int],
        ))
}

impl ResultsGraph {
    /// Lifts the scores of the candidates. `keys` names the candidates of
    /// `results`. Where a candidate lies in another and both scores are
    /// above the threshold, the score of the first becomes the share of
    /// the parent's score on top of its own, if that is more. The edges
    /// are taken by falling weight.
    pub fn from_results(keys: &Vec<Sym>, results: HashMap<Sym, Score>, db: &LocationsDb) -> (r:
        ResultsGraph)
        requires
            db.wf(),
            forall|k: Sym| #[trigger] results@.contains_key(k) <==> keys@.contains(k),
            forall|k: Sym| #[trigger] results@.contains_key(k) ==> db.all@.contains_key(k),
        ensures
            reranks(db, results@, r.scores@),
    {
        let g = build_graph(keys, &results, db);
        let edges = all_edges(&g);
        let order = sorted_order(&edges);
        let ghost start = results@;
        let ghost graph = graph_edges(g);
        let mut scores = results;
        let n: usize = order.len();
        let mut i: usize = 0;
        while i < n
            invariant
                db.wf(),
                forall|k: Sym| #[trigger] start.contains_key(k) ==> db.all@.contains_key(k),
                edges_ok(db, start, graph, keys@),
                lists_edges(edges@, graph),
                indexes(edges@, order@),
                n == order@.len(),
                i <= n,
                scores@.dom() == start.dom(),
                forall|k: Sym| #[trigger]
                    start.contains_key(k) ==> applied_ok(
                        db,
                        start,
                        edges@,
                        order@,
                        i as int,
                        k,
                        scores@[k],
                    ),
            decreases n - i,
        {
            let e = edges[order[i]];
            let ghost before = scores@;
            assert(graph.contains_key((e.0, e.1)));
            assert(lifts(db, start, e.0, e.1));
            let boost = db.all.get(&e.0).unwrap().parent_boost(e.2.0);
            let total = clamped_sum(boost, e.2.1);
            assert(total == edge_value(db, e));
            let old = *scores.get(&e.1).unwrap();
            let lifted_score = if total > old.score {
                total
            } else {
                old.score
            };
            scores.insert(e.1, Score { offset: old.offset, score: lifted_score });
            proof {
                assert(scores@.dom() =~= start.dom());
                assert forall|k: Sym| #[trigger] start.contains_key(k) implies applied_ok(
                    db,
                    start,
                    edges@,
                    order@,
                    i + 1,
                    k,
                    scores@[k],
                ) by {
                    assert(applied_ok(db, start, edges@, order@, i as int, k, before[k]));
                    let s = scores@[k];
                    if k == e.1 {
                        if s.score != start[k].score {
                            if s.score == total {
                                assert(edges@[order@[i as int] as int].1 == k && s.score
                                    == edge_value(db, edges@[order@[i as int] as int]));
                            } else {
                                let j = choose|j: int|
                                    0 <= j < i && edges@[#[trigger] order@[j] as int].1 == k
                                        && before[k].score == edge_value(
                                        db,
                                        edges@[order@[j] as int],
                                    );
                                assert(0 <= j < i + 1 && edges@[order@[j] as int].1 == k);
                            }
                        }
                    } else {
                        if s.score != start[k].score {
                            let j = choose|j: int|
                                0 <= j < i && edges@[#[trigger] order@[j] as int].1 == k
                                    && before[k].score == edge_value(db, edges@[order@[j] as int]);
                            assert(0 <= j < i + 1 && edges@[order@[j] as int].1 == k);
                        }
                    }
                }
            }
            i += 1;
        }
        proof {
            assert forall|k: Sym| #[trigger] start.contains_key(k) implies rerank_ok(
                db,
                start,
                k,
                scores@[k],
            ) by {
                let s = scores@[k];
                assert(applied_ok(db, start, edges@, order@, n as int, k, s));
                assert forall|p: Sym| #[trigger] lifts(db, start, p, k) implies s.score >= lifted(
                    db,
                    start,
                    p,
                    k,
                ) by {
                    assert(keys@.contains(k));
                    assert(graph.contains_key((p, k)));
                    let x = choose|x: int|
                        0 <= x < edges@.len() && (#[trigger] edges@[x]).0 == p && edges@[x].1 == k;
                    assert(order@.contains(x as usize));
                    let j = choose|j: int| 0 <= j < order@.len() && order@[j] == x as usize;
                    assert(edges@[order@[j] as int].1 == k);
                    assert(graph[(p, k)] == edges@[x].2);
                }
                if s.score != start[k].score {
                    let j = choose|j: int|
                        0 <= j < n && edges@[#[trigger] order@[j] as int].1 == k && s.score
                            == edge_value(db, edges@[order@[j] as int]);
                    let e = edges@[order@[j] as int];
                    assert(graph.contains_key((e.0, e.1)));
                    assert(lifts(db, start, e.0, k));
                    assert(graph[(e.0, e.1)] == e.2);
                    assert(s.score == lifted(db, start, e.0, k));
                }
            }
        }
        ResultsGraph { scores }
    }
}

} // verus!
