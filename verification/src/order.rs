//! Sorting by a ranking.

use crate::graph::Weight;
use crate::search::{outranks, Score};
use crate::text::{
    bytes_lt, bytes_of, lemma_lex_asymmetric, lemma_lex_transitive, lex_lt,
};
use vstd::multiset::Multiset;
use vstd::prelude::*;
use vstd::seq_lib::{
    lemma_multiset_commutative, to_multiset_build, to_multiset_contains, to_multiset_len,
};

verus! {

/// A type whose values are ranked: of any two, one may stand before the
/// other, and what may stand before a second that may stand before a third
/// may stand before the third.
pub trait Ranked {
    /// Whether `self` may stand before `other`.
    spec fn precedes(&self, other: &Self) -> bool;

    /// Whether `self` may stand before `other`.
    fn before(&self, other: &Self) -> (r: bool)
        ensures
            r == self.precedes(other),
    ;

    /// Of any two values one may stand before the other.
    proof fn lemma_total(a: &Self, b: &Self)
        ensures
            a.precedes(b) || b.precedes(a),
    ;

    /// The ranking is transitive.
    proof fn lemma_transitive(a: &Self, b: &Self, c: &Self)
        requires
            a.precedes(b),
            b.precedes(c),
        ensures
            a.precedes(c),
    ;
}

impl Ranked for String {
    /// A string may stand before another unless the other stands before it
    /// in the order of the dictionary, byte by byte.
    open spec fn precedes(&self, other: &Self) -> bool {
        !lex_lt(bytes_of(other@), bytes_of(self@))
    }

    fn before(&self, other: &Self) -> (r: bool) {
        !bytes_lt(other.as_str(), self.as_str())
    }

    proof fn lemma_total(a: &Self, b: &Self) {
        lemma_lex_asymmetric(bytes_of(a@), bytes_of(b@), 0);
    }

    proof fn lemma_transitive(a: &Self, b: &Self, c: &Self) {
        lemma_lex_transitive(bytes_of(a@), bytes_of(b@), bytes_of(c@), 0);
    }
}

impl Ranked for Score {
    /// A score may stand before another unless the other ranks above it.
    open spec fn precedes(&self, other: &Self) -> bool {
        !outranks(*other, *self)
    }

    fn before(&self, other: &Self) -> (r: bool) {
        !other.outranks(self)
    }

    proof fn lemma_total(a: &Self, b: &Self) {
    }

    proof fn lemma_transitive(a: &Self, b: &Self, c: &Self) {
    }
}

impl Ranked for (usize, usize, Weight) {
    /// An edge may stand before another unless its weight is the smaller
    /// one: the weights are held against each other by the score of the
    /// parent, then by that of the child.
    open spec fn precedes(&self, other: &Self) -> bool {
        self.2.0 > other.2.0 || (self.2.0 == other.2.0 && self.2.1 >= other.2.1)
    }

    fn before(&self, other: &Self) -> (r: bool) {
        self.2.0 > other.2.0 || (self.2.0 == other.2.0 && self.2.1 >= other.2.1)
    }

    proof fn lemma_total(a: &Self, b: &Self) {
    }

    proof fn lemma_transitive(a: &Self, b: &Self, c: &Self) {
    }
}

/// The numbers from 0 up to `n`, in their order.
pub open spec fn numbers(n: nat) -> Seq<usize> {
    Seq::new(n, |i: int| i as usize)
}

/// Whether every number in `order` is an index into `items`.
pub open spec fn indexes<T>(items: Seq<T>, order: Seq<usize>) -> bool {
    forall|i: int| 0 <= i < order.len() ==> (#[trigger] order[i]) < items.len()
}

/// Whether the items, taken in this order, stand by rank.
pub open spec fn ranked<T: Ranked>(items: Seq<T>, order: Seq<usize>) -> bool {
    forall|i: int, j: int|
        #![trigger order[i], order[j]]
        0 <= i < j < order.len() ==> items[order[i] as int].precedes(&items[order[j] as int])
}

/// Merges two orders that stand by rank into one.
fn merge<T: Ranked>(items: &Vec<T>, a: &Vec<usize>, b: &Vec<usize>) -> (r: Vec<usize>)
    requires
        indexes(items@, a@),
        indexes(items@, b@),
        ranked(items@, a@),
        ranked(items@, b@),
    ensures
        indexes(items@, r@),
        ranked(items@, r@),
        r@.to_multiset() == a@.to_multiset().add(b@.to_multiset()),
{
    let mut out: Vec<usize> = Vec::new();
    let mut i: usize = 0;
    let mut j: usize = 0;
    proof {
        assert(a@.subrange(0, 0).to_multiset() =~= Multiset::empty()) by {
            to_multiset_len(a@.subrange(0, 0));
        }
        assert(b@.subrange(0, 0).to_multiset() =~= Multiset::empty()) by {
            to_multiset_len(b@.subrange(0, 0));
        }
        assert(out@.to_multiset() =~= Multiset::empty()) by {
            to_multiset_len(out@);
        }
        assert(Multiset::<usize>::empty().add(Multiset::empty()) =~= Multiset::empty());
    }
    while i < a.len() || j < b.len()
        invariant
            i <= a@.len(),
            j <= b@.len(),
            indexes(items@, a@),
            indexes(items@, b@),
            ranked(items@, a@),
            ranked(items@, b@),
            indexes(items@, out@),
            ranked(items@, out@),
            out@.to_multiset() == a@.subrange(0, i as int).to_multiset().add(
                b@.subrange(0, j as int).to_multiset(),
            ),
            forall|k: int|
                0 <= k < out@.len() && i < a@.len() ==> items@[(#[trigger] out@[k]) as int].precedes(
                    &items@[a@[i as int] as int],
                ),
            forall|k: int|
                0 <= k < out@.len() && j < b@.len() ==> items@[(#[trigger] out@[k]) as int].precedes(
                    &items@[b@[j as int] as int],
                ),
        decreases a.len() - i + b.len() - j,
    {
        let take_left = if j >= b.len() {
            true
        } else if i >= a.len() {
            false
        } else {
            items[a[i]].before(&items[b[j]])
        };
        let ghost old_out = out@;
        if take_left {
            let x = a[i];
            out.push(x);
            proof {
                to_multiset_build(old_out, x);
                to_multiset_build(a@.subrange(0, i as int), x);
                assert(a@.subrange(0, i + 1) == a@.subrange(0, i as int).push(x));
                assert(out@.to_multiset() =~= a@.subrange(0, i + 1).to_multiset().add(
                    b@.subrange(0, j as int).to_multiset(),
                ));
                assert forall|p: int, q: int|
                    #![trigger out@[p], out@[q]]
                    0 <= p < q < out@.len() implies items@[out@[p] as int].precedes(
                    &items@[out@[q] as int],
                ) by {
                    if q < old_out.len() {
                        assert(old_out[p] == out@[p] && old_out[q] == out@[q]);
                    } else {
                        assert(old_out[p] == out@[p]);
                    }
                }
                assert forall|k: int| 0 <= k < out@.len() && i + 1 < a@.len() implies items@[(
                #[trigger] out@[k]) as int].precedes(&items@[a@[i + 1] as int]) by {
                    assert(items@[a@[i as int] as int].precedes(&items@[a@[i + 1] as int]));
                    if k < old_out.len() {
                        assert(old_out[k] == out@[k]);
                        T::lemma_transitive(
                            &items@[out@[k] as int],
                            &items@[a@[i as int] as int],
                            &items@[a@[i + 1] as int],
                        );
                    }
                }
                assert forall|k: int| 0 <= k < out@.len() && j < b@.len() implies items@[(
                #[trigger] out@[k]) as int].precedes(&items@[b@[j as int] as int]) by {
                    if k < old_out.len() {
                        assert(old_out[k] == out@[k]);
                    }
                }
            }
            i += 1;
        } else {
            let x = b[j];
            out.push(x);
            proof {
                to_multiset_build(old_out, x);
                to_multiset_build(b@.subrange(0, j as int), x);
                assert(b@.subrange(0, j + 1) == b@.subrange(0, j as int).push(x));
                assert(out@.to_multiset() =~= a@.subrange(0, i as int).to_multiset().add(
                    b@.subrange(0, j + 1).to_multiset(),
                ));
                assert forall|p: int, q: int|
                    #![trigger out@[p], out@[q]]
                    0 <= p < q < out@.len() implies items@[out@[p] as int].precedes(
                    &items@[out@[q] as int],
                ) by {
                    if q < old_out.len() {
                        assert(old_out[p] == out@[p] && old_out[q] == out@[q]);
                    } else {
                        assert(old_out[p] == out@[p]);
                    }
                }
                assert forall|k: int| 0 <= k < out@.len() && j + 1 < b@.len() implies items@[(
                #[trigger] out@[k]) as int].precedes(&items@[b@[j + 1] as int]) by {
                    assert(items@[b@[j as int] as int].precedes(&items@[b@[j + 1] as int]));
                    if k < old_out.len() {
                        assert(old_out[k] == out@[k]);
                        T::lemma_transitive(
                            &items@[out@[k] as int],
                            &items@[b@[j as int] as int],
                            &items@[b@[j + 1] as int],
                        );
                    }
                }
                assert forall|k: int| 0 <= k < out@.len() && i < a@.len() implies items@[(
                #[trigger] out@[k]) as int].precedes(&items@[a@[i as int] as int]) by {
                    if k < old_out.len() {
                        assert(old_out[k] == out@[k]);
                    } else {
                        T::lemma_total(&items@[a@[i as int] as int], &items@[b@[j as int] as int]);
                    }
                }
            }
            j += 1;
        }
    }
    proof {
        assert(a@.subrange(0, a@.len() as int) == a@);
        assert(b@.subrange(0, b@.len() as int) == b@);
    }
    out
}

/// Puts an order by rank.
fn merge_sort<T: Ranked>(items: &Vec<T>, order: Vec<usize>) -> (r: Vec<usize>)
    requires
        indexes(items@, order@),
    ensures
        indexes(items@, r@),
        ranked(items@, r@),
        r@.to_multiset() == order@.to_multiset(),
    decreases order@.len(),
{
    let n: usize = order.len();
    if n <= 1 {
        return order;
    }
    let mid: usize = n / 2;
    let mut left: Vec<usize> = Vec::new();
    let mut right: Vec<usize> = Vec::new();
    let mut i: usize = 0;
    while i < n
        invariant
            i <= n,
            n == order@.len(),
            mid == n / 2,
            left@ == order@.subrange(0, if i < mid { i as int } else { mid as int }),
            right@ == order@.subrange(mid as int, if i < mid { mid as int } else { i as int }),
        decreases n - i,
    {
        if i < mid {
            left.push(order[i]);
        } else {
            right.push(order[i]);
        }
        i += 1;
    }
    proof {
        assert(order@ == left@ + right@);
        lemma_multiset_commutative(left@, right@);
    }
    let a = merge_sort(items, left);
    let b = merge_sort(items, right);
    merge(items, &a, &b)
}

/// The indexes of the items in an order in which the items stand by rank.
pub fn sorted_order<T: Ranked>(items: &Vec<T>) -> (order: Vec<usize>)
    ensures
        order@.len() == items@.len(),
        indexes(items@, order@),
        ranked(items@, order@),
        order@.no_duplicates(),
        forall|k: usize| k < items@.len() ==> #[trigger] order@.contains(k),
{
    let n: usize = items.len();
    let mut start: Vec<usize> = Vec::new();
    let mut i: usize = 0;
    while i < n
        invariant
            i <= n,
            n == items@.len(),
            start@ == numbers(i as nat),
        decreases n - i,
    {
        start.push(i);
        assert(start@ =~= numbers((i + 1) as nat));
        i += 1;
    }
    let order = merge_sort(items, start);
    proof {
        let all = numbers(n as nat);
        to_multiset_len(all);
        to_multiset_len(order@);
        assert(all.no_duplicates());
        all.lemma_multiset_has_no_duplicates();
        order@.lemma_multiset_has_no_duplicates_conv();
        assert forall|k: usize| k < n implies #[trigger] order@.contains(k) by {
            assert(all[k as int] == k);
            to_multiset_contains(all, k);
            to_multiset_contains(order@, k);
        }
    }
    order
}

} // verus!
