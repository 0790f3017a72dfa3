//! Removal of repeated items from a vector.

use vstd::prelude::*;
use vstd::std_specs::cmp::PartialEqSpec;

verus! {

/// Whether some item of `s` compares equal to `x`.
pub open spec fn has_equal<T: PartialEq>(s: Seq<T>, x: T) -> bool {
    exists|j: int| 0 <= j < s.len() && (#[trigger] s[j]).eq_spec(&x)
}

/// `s` without the items that compare equal to an earlier one.
pub open spec fn first_occurrences<T: PartialEq>(s: Seq<T>) -> Seq<T>
    decreases s.len(),
{
    if s.len() == 0 {
        Seq::empty()
    } else {
        let init = first_occurrences(s.drop_last());
        if has_equal(init, s.last()) {
            init
        } else {
            init.push(s.last())
        }
    }
}

/// No two items of `first_occurrences(s)` compare equal, and each of them is
/// an item of `s`.
pub proof fn lemma_first_occurrences<T: PartialEq>(s: Seq<T>)
    ensures
        ({
            let r = first_occurrences(s);
            &&& forall|i: int, j: int|
                #![trigger r[i], r[j]]
                0 <= i < j < r.len() ==> !r[i].eq_spec(&r[j])
            &&& forall|i: int| 0 <= i < r.len() ==> s.contains(#[trigger] r[i])
            &&& r.len() <= s.len()
        }),
    decreases s.len(),
{
    if s.len() > 0 {
        let init = first_occurrences(s.drop_last());
        let r = first_occurrences(s);
        lemma_first_occurrences(s.drop_last());
        assert forall|i: int| 0 <= i < r.len() implies s.contains(#[trigger] r[i]) by {
            let x = r[i];
            if i < init.len() {
                assert(s.drop_last().contains(x));
                let k = choose|k: int| 0 <= k < s.drop_last().len() && s.drop_last()[k] == x;
                assert(s[k] == x);
            } else {
                assert(s[s.len() - 1] == x);
            }
        }
        assert forall|i: int, j: int|
            #![trigger r[i], r[j]]
            0 <= i < j < r.len() implies !r[i].eq_spec(&r[j]) by {
            if j == init.len() {
                assert(!has_equal(init, s.last()));
                assert(init[i] == r[i]);
            }
        }
    }
}

/// Keeps the first of each group of equal items, in their order.
pub fn dedup<T: Eq>(vec: Vec<T>) -> (r: Vec<T>)
    ensures
        T::obeys_eq_spec() ==> r@ == first_occurrences(vec@),
{
    let mut out: Vec<T> = Vec::new();
    let ghost all = vec@;
    for x in it: vec
        invariant
            it.seq() == all,
            T::obeys_eq_spec() ==> out@ == first_occurrences(all.subrange(0, it.index() as int)),
    {
        let mut seen = false;
        let mut j: usize = 0;
        while j < out.len()
            invariant
                j <= out.len(),
                T::obeys_eq_spec() ==> (seen <==> has_equal(out@.subrange(0, j as int), x)),
            decreases out.len() - j,
        {
            let e = out[j] == x;
            proof {
                if T::obeys_eq_spec() {
                    let a = out@.subrange(0, j as int);
                    let b = out@.subrange(0, j as int + 1);
                    assert(b[j as int] == out@[j as int]);
                    if has_equal(b, x) && !has_equal(a, x) {
                        let k = choose|k: int| 0 <= k < b.len() && (#[trigger] b[k]).eq_spec(&x);
                        if k < j {
                            assert(a[k] == b[k]);
                        }
                    }
                    if has_equal(a, x) {
                        let k = choose|k: int| 0 <= k < a.len() && (#[trigger] a[k]).eq_spec(&x);
                        assert(b[k] == a[k]);
                    }
                }
            }
            if e {
                seen = true;
            }
            j += 1;
        }
        proof {
            let i = it.index() as int;
            assert(out@.subrange(0, out@.len() as int) == out@);
            assert(all.subrange(0, i + 1).drop_last() == all.subrange(0, i));
            assert(all.subrange(0, i + 1).last() == x);
        }
        if !seen {
            out.push(x);
        }
    }
    proof {
        assert(all.subrange(0, all.len() as int) == all);
    }
    out
}

} // verus!
