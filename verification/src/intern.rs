//! A table of the strings that the corpus holds, each under a number.

use crate::text::{bytes_of, str_eq};
use crate::unicode::texts;
use std::collections::HashMap;
use vstd::prelude::*;

verus! {

broadcast use vstd::std_specs::hash::group_hash_axioms;

/// The number under which a string stands in an `Interner`.
pub type Sym = usize;

/// One step of the hash: a byte folded into the state.
pub open spec fn mix(h: u64, b: u8) -> u64 {
    vstd::wrapping::u64_specs::wrapping_mul(h ^ (b as u64), 0x100000001b3u64)
}

/// The 64-bit FNV-1a hash of a byte sequence.
pub open spec fn fnv(bytes: Seq<u8>) -> u64
    decreases bytes.len(),
{
    if bytes.len() == 0 {
        0xcbf29ce484222325u64
    } else {
        mix(fnv(bytes.drop_last()), bytes.last())
    }
}

/// The hash under which a text is filed.
pub open spec fn hash_of(t: Seq<char>) -> u64 {
    fnv(bytes_of(t))
}

/// The 64-bit FNV-1a hash of a text's bytes.
fn hash_str(s: &str) -> (h: u64)
    ensures
        h == hash_of(s@),
{
    let b = s.as_bytes();
    let mut h: u64 = 0xcbf29ce484222325u64;
    let mut i: usize = 0;
    while i < b.len()
        invariant
            i <= b@.len(),
            h == fnv(b@.subrange(0, i as int)),
        decreases b.len() - i,
    {
        proof {
            assert(b@.subrange(0, i + 1).drop_last() == b@.subrange(0, i as int));
        }
        h = (h ^ (b[i] as u64)).wrapping_mul(0x100000001b3u64);
        i += 1;
    }
    proof {
        assert(b@.subrange(0, b@.len() as int) == b@);
    }
    h
}

/// Whether `r` is what a table with these texts answers when it is asked
/// for a text: its number, or nothing when it is not there.
pub open spec fn is_sym_of(pool: Seq<Seq<char>>, r: Option<Sym>, t: Seq<char>) -> bool {
    match r {
        Some(id) => id < pool.len() && pool[id as int] == t,
        None => !pool.contains(t),
    }
}

/// A table of distinct strings. A string, once added, keeps its number,
/// and no string is ever removed.
pub struct Interner {
    strings: Vec<String>,
    buckets: HashMap<u64, Vec<Sym>>,
}

impl View for Interner {
    type V = Seq<Seq<char>>;

    /// The texts of the table, each at its number.
    closed spec fn view(&self) -> Seq<Seq<char>> {
        texts(self.strings@)
    }
}

impl Interner {
    /// Whether the text under `i` is filed under its hash.
    spec fn filed(&self, i: int) -> bool {
        let h = hash_of(self.strings@[i]@);
        self.buckets@.contains_key(h) && self.buckets@[h]@.contains(i as usize)
    }

    /// Whether entry `k` of the bucket `h` is the number of a text with
    /// that hash.
    spec fn entry_ok(&self, h: u64, k: int) -> bool {
        let id = self.buckets@[h]@[k];
        id < self.strings@.len() && hash_of(self.strings@[id as int]@) == h
    }

    /// Whether the texts under `i` and `j` differ.
    spec fn differ(&self, i: int, j: int) -> bool {
        self.strings@[i]@ != self.strings@[j]@
    }

    /// The table's invariant: no text stands twice, and each text is filed
    /// under its hash.
    pub closed spec fn wf(&self) -> bool {
        &&& forall|i: int| 0 <= i < self.strings@.len() ==> #[trigger] self.filed(i)
        &&& forall|h: u64, k: int|
            self.buckets@.contains_key(h) && 0 <= k < self.buckets@[h]@.len()
                ==> #[trigger] self.entry_ok(h, k)
        &&& forall|i: int, j: int|
            0 <= i < j < self.strings@.len() ==> #[trigger] self.differ(i, j)
        &&& self.strings@.len() <= usize::MAX
    }

    /// Whether the table holds a text.
    pub open spec fn knows(&self, t: Seq<char>) -> bool {
        self@.contains(t)
    }

    /// Whether `self` holds all of `other`, each text under the number it
    /// has there.
    pub open spec fn extends(&self, other: &Interner) -> bool {
        &&& other@.len() <= self@.len()
        &&& forall|i: int| 0 <= i < other@.len() ==> #[trigger] self@[i] == other@[i]
    }

    /// No text stands twice in a table.
    pub proof fn lemma_distinct(&self)
        requires
            self.wf(),
        ensures
            forall|i: int, j: int|
                0 <= i < self@.len() && 0 <= j < self@.len() && i != j ==> #[trigger] self@[i]
                    != #[trigger] self@[j],
    {
        assert forall|i: int, j: int|
            0 <= i < self@.len() && 0 <= j < self@.len() && i != j implies #[trigger] self@[i]
            != #[trigger] self@[j] by {
            if i < j {
                assert(self.differ(i, j));
            } else {
                assert(self.differ(j, i));
            }
        }
    }

    /// A table has no more texts than a machine word counts.
    pub proof fn lemma_len_fits(&self)
        requires
            self.wf(),
        ensures
            self@.len() <= usize::MAX,
    {
    }

    /// An empty table.
    pub fn new() -> (r: Interner)
        ensures
            r.wf(),
            r@.len() == 0,
    {
        let strings: Vec<String> = Vec::new();
        // taken for the proof: a length fits a machine word
        let count: usize = strings.len();
        Interner { strings, buckets: HashMap::new() }
    }

    /// The number of strings in the table.
    pub fn len(&self) -> (n: usize)
        ensures
            n == self@.len(),
    {
        self.strings.len()
    }

    /// The string that stands under `id`.
    pub fn text(&self, id: Sym) -> (r: &String)
        requires
            id < self@.len(),
        ensures
            r@ == self@[id as int],
    {
        &self.strings[id]
    }

    /// The first number in `ids` whose string is `s`.
    fn scan(&self, ids: &Vec<Sym>, s: &str) -> (r: Option<Sym>)
        requires
            forall|j: int| 0 <= j < ids@.len() ==> #[trigger] ids@[j] < self.strings@.len(),
        ensures
            match r {
                Some(id) => ids@.contains(id) && self.strings@[id as int]@ == s@,
                None => forall|j: int|
                    0 <= j < ids@.len() ==> self.strings@[#[trigger] ids@[j] as int]@ != s@,
            },
    {
        let mut k: usize = 0;
        while k < ids.len()
            invariant
                k <= ids@.len(),
                forall|j: int| 0 <= j < ids@.len() ==> #[trigger] ids@[j] < self.strings@.len(),
                forall|j: int| 0 <= j < k ==> self.strings@[#[trigger] ids@[j] as int]@ != s@,
            decreases ids.len() - k,
        {
            let id = ids[k];
            if str_eq(self.strings[id].as_str(), s) {
                return Some(id);
            }
            k += 1;
        }
        None
    }

    /// The number of a string, if the table holds it.
    pub fn from_existing(&self, s: &str) -> (r: Option<Sym>)
        requires
            self.wf(),
        ensures
            is_sym_of(self@, r, s@),
    {
        let h = hash_str(s);
        // taken for the proof: a length fits a machine word
        let n: usize = self.strings.len();
        match self.buckets.get(&h) {
            None => {
                proof {
                    if self.knows(s@) {
                        let i = choose|i: int| 0 <= i < self@.len() && self@[i] == s@;
                        assert(self@[i] == self.strings@[i]@);
                        assert(self.filed(i));
                    }
                }
                None
            },
            Some(ids) => {
                proof {
                    assert forall|j: int| 0 <= j < ids@.len() implies #[trigger] ids@[j]
                        < self.strings@.len() by {
                        assert(self.entry_ok(h, j));
                    }
                }
                match self.scan(ids, s) {
                    Some(id) => {
                        proof {
                            let j = choose|j: int| 0 <= j < ids@.len() && ids@[j] == id;
                            assert(ids@[j] < self.strings@.len());
                            assert(self@[id as int] == self.strings@[id as int]@);
                        }
                        Some(id)
                    },
                    None => {
                        proof {
                            if self.knows(s@) {
                                let i = choose|i: int| 0 <= i < self@.len() && self@[i] == s@;
                                assert(self@[i] == self.strings@[i]@);
                                assert(self.filed(i));
                                assert(self.buckets@[h] == *ids);
                                assert(ids@.contains(i as usize));
                                let j = choose|j: int|
                                    0 <= j < ids@.len() && ids@[j] == i as usize;
                                assert(self.strings@[ids@[j] as int]@ != s@);
                            }
                        }
                        None
                    },
                }
            },
        }
    }

    /// The number of a string, which is added to the table if it is not
    /// there yet.
    pub fn intern(&mut self, s: &str) -> (id: Sym)
        requires
            old(self).wf(),
        ensures
            final(self).wf(),
            final(self).extends(old(self)),
            id < final(self)@.len(),
            final(self)@[id as int] == s@,
            old(self).knows(s@) ==> final(self)@ == old(self)@,
            !old(self).knows(s@) ==> final(self)@ == old(self)@.push(s@) && id == old(self)@.len(),
            forall|t: Seq<char>| #[trigger]
                final(self).knows(t) <==> old(self).knows(t) || t == s@,
    {
        match self.from_existing(s) {
            Some(id) => id,
            None => {
                let h = hash_str(s);
                let id: usize = self.strings.len();
                let ghost before = *self;
                let mut ids: Vec<Sym> = match self.buckets.remove(&h) {
                    Some(v) => v,
                    None => Vec::new(),
                };
                let ghost old_ids = ids@;
                ids.push(id);
                self.buckets.insert(h, ids);
                self.strings.push(s.to_owned());
                // taken for the proof: a length fits a machine word
                let count: usize = self.strings.len();
                proof {
                    assert(self@ =~= before@.push(s@));
                    assert forall|t: Seq<char>| #[trigger]
                        self.knows(t) <==> before.knows(t) || t == s@ by {
                        if before.knows(t) {
                            let i = choose|i: int| 0 <= i < before@.len() && before@[i] == t;
                            assert(self@[i] == t);
                        }
                        if t == s@ {
                            assert(self@[before@.len() as int] == t);
                        }
                        if self.knows(t) {
                            let i = choose|i: int| 0 <= i < self@.len() && self@[i] == t;
                            if i < before@.len() {
                                assert(before@[i] == t);
                            }
                        }
                    }
                    assert forall|i: int| 0 <= i < self.strings@.len() implies #[trigger] self.filed(
                        i,
                    ) by {
                        let g = hash_of(self.strings@[i]@);
                        if i < id {
                            assert(before.filed(i));
                            if g == h {
                                let j = choose|j: int|
                                    0 <= j < old_ids.len() && old_ids[j] == i as usize;
                                assert(self.buckets@[g]@[j] == i as usize);
                            }
                        } else {
                            assert(self.buckets@[g]@[old_ids.len() as int] == i as usize);
                        }
                    }
                    assert forall|g: u64, k: int|
                        self.buckets@.contains_key(g) && 0 <= k < self.buckets@[g]@.len()
                        implies #[trigger] self.entry_ok(g, k) by {
                        if g == h {
                            if k < old_ids.len() {
                                assert(before.entry_ok(h, k));
                            }
                        } else {
                            assert(before.entry_ok(g, k));
                        }
                    }
                    assert forall|i: int, j: int|
                        0 <= i < j < self.strings@.len() implies #[trigger] self.differ(i, j) by {
                        if j < id {
                            assert(before.differ(i, j));
                        } else {
                            assert(before@[i] == before.strings@[i]@);
                            assert(before@.contains(before@[i]));
                        }
                    }
                }
                id
            },
        }
    }
}

} // verus!
