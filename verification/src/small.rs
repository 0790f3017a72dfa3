//! Short lists of strings, held in place while they are short.

use smallvec::SmallVec;
use vstd::prelude::*;

verus! {

/// A list of strings: the names, the codes or the words of an entity. It
/// is held in a `smallvec::SmallVec`, which keeps up to three of them in
/// place.
#[derive(Debug)]
#[verifier::external_body]
pub struct ShortList {
    items: SmallVec<[String; 3]>,
}

/// The strings that the `SmallVec` of a short list holds, in their order.
pub uninterp spec fn short_items(list: ShortList) -> Seq<String>;

impl View for ShortList {
    type V = Seq<String>;

    open spec fn view(&self) -> Seq<String> {
        short_items(*self)
    }
}

/// Calls `SmallVec::new`, which gives an empty vector.
#[verifier::external_body]
fn empty_list() -> (list: ShortList)
    ensures
        short_items(list).len() == 0,
{
    ShortList { items: SmallVec::new() }
}

/// Calls `SmallVec::push`, which appends an item.
#[verifier::external_body]
fn push_item(list: &mut ShortList, item: String)
    ensures
        short_items(*final(list)) == short_items(*old(list)).push(item),
{
    list.items.push(item);
}

/// Calls `SmallVec::as_slice`, which gives the items as a slice.
#[verifier::external_body]
pub(crate) fn items_of(list: &ShortList) -> (r: &[String])
    ensures
        r@ == short_items(*list),
{
    list.items.as_slice()
}

impl ShortList {
    /// An empty list.
    pub fn new() -> (r: ShortList)
        ensures
            r@.len() == 0,
    {
        empty_list()
    }

    /// Appends a string.
    pub fn push(&mut self, item: String)
        ensures
            final(self)@ == old(self)@.push(item),
    {
        push_item(self, item);
    }

    /// The list of the strings of a vector.
    pub fn from_vec(v: Vec<String>) -> (r: ShortList)
        ensures
            r@ == v@,
    {
        let mut r = empty_list();
        let ghost all = v@;
        for item in it: v
            invariant
                it.seq() == all,
                r@ == all.subrange(0, it.index() as int),
        {
            push_item(&mut r, item);
            assert(r@ =~= all.subrange(0, it.index() + 1));
        }
        assert(all.subrange(0, all.len() as int) == all);
        r
    }

    /// The number of strings.
    pub fn len(&self) -> (n: usize)
        ensures
            n == self@.len(),
    {
        items_of(self).len()
    }

    /// The string at an index.
    pub fn get(&self, i: usize) -> (r: &String)
        requires
            i < self@.len(),
        ensures
            *r == self@[i as int],
    {
        &items_of(self)[i]
    }

    /// A copy of the strings, as a vector.
    pub fn to_vec(&self) -> (r: Vec<String>)
        ensures
            r@ == self@,
    {
        let items = items_of(self);
        let mut r: Vec<String> = Vec::new();
        let mut i: usize = 0;
        while i < items.len()
            invariant
                i <= items@.len(),
                r@ == items@.subrange(0, i as int),
            decreases items.len() - i,
        {
            r.push(items[i].clone());
            assert(r@ =~= items@.subrange(0, i + 1));
            i += 1;
        }
        assert(items@.subrange(0, items@.len() as int) == items@);
        r
    }
}

} // verus!
