//! Operations on text, stated over its characters and over the bytes of
//! its UTF-8 form.

use vstd::prelude::*;
use vstd::string::{StrSliceExecFns, StringExecFns, StringSliceAdditionalSpecFns};
use vstd::utf8::{encode_utf8, encode_utf8_decode_utf8, is_ascii_chars};

verus! {

/// The bytes that hold a text.
pub open spec fn bytes_of(t: Seq<char>) -> Seq<u8> {
    encode_utf8(t)
}

/// Whether `needle` stands in `hay` at byte `i`.
pub open spec fn occurs_at(hay: Seq<u8>, needle: Seq<u8>, i: int) -> bool {
    &&& 0 <= i
    &&& i + needle.len() <= hay.len()
    &&& hay.subrange(i, i + needle.len()) == needle
}

/// The first byte index at or after `from` where `needle` stands in `hay`.
pub open spec fn first_occurrence_from(hay: Seq<u8>, needle: Seq<u8>, from: int) -> Option<int>
    decreases hay.len() + 1 - from,
{
    if from < 0 || from + needle.len() > hay.len() {
        None
    } else if occurs_at(hay, needle, from) {
        Some(from)
    } else {
        first_occurrence_from(hay, needle, from + 1)
    }
}

/// The first byte index where `needle` stands in `hay`.
pub open spec fn first_occurrence(hay: Seq<u8>, needle: Seq<u8>) -> Option<int> {
    first_occurrence_from(hay, needle, 0)
}

/// Whether `hay` begins with `prefix`.
pub open spec fn is_prefix(prefix: Seq<u8>, hay: Seq<u8>) -> bool {
    occurs_at(hay, prefix, 0)
}

/// Different texts have different bytes.
pub proof fn lemma_bytes_injective(a: Seq<char>, b: Seq<char>)
    ensures
        bytes_of(a) == bytes_of(b) <==> a == b,
{
    encode_utf8_decode_utf8(a);
    encode_utf8_decode_utf8(b);
}

/// What `first_occurrence_from` finds is an occurrence, nothing stands
/// between `from` and it, and it finds one wherever one stands.
pub proof fn lemma_first_occurrence_from(hay: Seq<u8>, needle: Seq<u8>, from: int)
    requires
        0 <= from,
    ensures
        match first_occurrence_from(hay, needle, from) {
            Some(i) => from <= i && occurs_at(hay, needle, i) && forall|j: int|
                from <= j < i ==> !occurs_at(hay, needle, j),
            None => forall|j: int| from <= j ==> !occurs_at(hay, needle, j),
        },
    decreases hay.len() + 1 - from,
{
    if from + needle.len() > hay.len() {
    } else if occurs_at(hay, needle, from) {
    } else {
        lemma_first_occurrence_from(hay, needle, from + 1);
    }
}

/// Two texts with one space between them.
pub open spec fn joined(a: Seq<char>, b: Seq<char>) -> Seq<char> {
    a + seq![' '] + b
}

/// Two texts with one space between them.
pub fn join(a: &str, b: &str) -> (r: String)
    ensures
        r@ == joined(a@, b@),
{
    let mut r = a.to_owned();
    r.append(" ");
    r.append(b);
    proof {
        reveal_strlit(" ");
        assert(" "@ =~= seq![' ']);
    }
    r
}

/// The number of bytes that hold a text.
pub fn byte_len(s: &str) -> (n: usize)
    ensures
        n == bytes_of(s@).len(),
{
    s.as_bytes().len()
}

/// Whether two texts are the same.
pub fn str_eq(a: &str, b: &str) -> (r: bool)
    ensures
        r == (a@ == b@),
{
    let x = a.as_bytes();
    let y = b.as_bytes();
    proof {
        lemma_bytes_injective(a@, b@);
    }
    if x.len() != y.len() {
        return false;
    }
    let mut i: usize = 0;
    while i < x.len()
        invariant
            x@.len() == y@.len(),
            i <= x@.len(),
            forall|k: int| 0 <= k < i ==> x@[k] == y@[k],
            x@ == bytes_of(a@),
            y@ == bytes_of(b@),
            bytes_of(a@) == bytes_of(b@) <==> a@ == b@,
        decreases x.len() - i,
    {
        if x[i] != y[i] {
            return false;
        }
        i += 1;
    }
    assert(x@ =~= y@);
    true
}

/// Whether `needle` stands in `hay` at byte `at`.
fn matches_at(hay: &[u8], needle: &[u8], at: usize) -> (r: bool)
    requires
        at + needle@.len() <= hay@.len(),
    ensures
        r == occurs_at(hay@, needle@, at as int),
{
    // taken for the proof: a length fits a machine word
    let end: usize = hay.len();
    let mut k: usize = 0;
    while k < needle.len()
        invariant
            at + needle@.len() <= hay@.len(),
            hay@.len() == end,
            k <= needle@.len(),
            forall|j: int| 0 <= j < k ==> hay@[at + j] == needle@[j],
        decreases needle.len() - k,
    {
        if hay[at + k] != needle[k] {
            assert(hay@.subrange(at as int, at + needle@.len())[k as int] != needle@[k as int]);
            return false;
        }
        k += 1;
    }
    assert(hay@.subrange(at as int, at + needle@.len()) =~= needle@);
    true
}

/// The first byte index where `needle` stands in `hay`.
pub fn find(hay: &str, needle: &str) -> (r: Option<usize>)
    ensures
        match r {
            Some(i) => first_occurrence(bytes_of(hay@), bytes_of(needle@)) == Some(i as int),
            None => first_occurrence(bytes_of(hay@), bytes_of(needle@)) is None,
        },
{
    let h = hay.as_bytes();
    let n = needle.as_bytes();
    if n.len() > h.len() {
        return None;
    }
    let last: usize = h.len() - n.len();
    let mut i: usize = 0;
    while i <= last
        invariant
            last + n@.len() == h@.len(),
            i <= last + 1,
            h@ == bytes_of(hay@),
            n@ == bytes_of(needle@),
            first_occurrence(h@, n@) == first_occurrence_from(h@, n@, i as int),
        decreases last + 1 - i,
    {
        if matches_at(h, n, i) {
            return Some(i);
        }
        if i == last {
            assert(first_occurrence_from(h@, n@, i + 1) is None);
            return None;
        }
        i += 1;
    }
    None
}

/// Whether `s` begins with `prefix`.
pub fn starts_with(s: &str, prefix: &str) -> (r: bool)
    ensures
        r == is_prefix(bytes_of(prefix@), bytes_of(s@)),
{
    let h = s.as_bytes();
    let p = prefix.as_bytes();
    if p.len() > h.len() {
        return false;
    }
    matches_at(h, p, 0)
}

/// Whether a vector of strings holds a text.
pub fn contains_text(v: &Vec<String>, s: &str) -> (r: bool)
    ensures
        r == crate::unicode::texts(v@).contains(s@),
{
    let ghost all = crate::unicode::texts(v@);
    let mut i: usize = 0;
    while i < v.len()
        invariant
            i <= v@.len(),
            all == crate::unicode::texts(v@),
            forall|k: int| 0 <= k < i ==> all[k] != s@,
        decreases v.len() - i,
    {
        if str_eq(v[i].as_str(), s) {
            assert(all[i as int] == s@);
            return true;
        }
        i += 1;
    }
    false
}

/// Whether `a` stands before `b` in the order of the dictionary, looking
/// only at the bytes from `i` on.
pub open spec fn lex_lt_from(a: Seq<u8>, b: Seq<u8>, i: int) -> bool
    decreases a.len() - i,
{
    if i < 0 || i >= b.len() {
        false
    } else if i >= a.len() {
        true
    } else if a[i] != b[i] {
        a[i] < b[i]
    } else {
        lex_lt_from(a, b, i + 1)
    }
}

/// Whether `a` stands before `b` in the order of the dictionary: at the
/// first byte where they differ `a` has the smaller one, or `a` ends there
/// and `b` goes on.
pub open spec fn lex_lt(a: Seq<u8>, b: Seq<u8>) -> bool {
    lex_lt_from(a, b, 0)
}

/// Of two byte sequences at most one stands before the other.
pub proof fn lemma_lex_asymmetric(a: Seq<u8>, b: Seq<u8>, i: int)
    requires
        0 <= i,
    ensures
        !(lex_lt_from(a, b, i) && lex_lt_from(b, a, i)),
    decreases a.len() - i,
{
    if i < a.len() && i < b.len() && a[i] == b[i] {
        lemma_lex_asymmetric(a, b, i + 1);
    }
}

/// If `b` does not stand before `a` and `c` does not stand before `b`,
/// then `c` does not stand before `a`.
pub proof fn lemma_lex_transitive(a: Seq<u8>, b: Seq<u8>, c: Seq<u8>, i: int)
    requires
        0 <= i,
        !lex_lt_from(b, a, i),
        !lex_lt_from(c, b, i),
    ensures
        !lex_lt_from(c, a, i),
    decreases a.len() - i,
{
    if i < a.len() {
        if c[i] == a[i] && b[i] == a[i] {
            lemma_lex_transitive(a, b, c, i + 1);
        }
    }
}

/// Two byte sequences of which neither stands before the other are the
/// same.
pub proof fn lemma_lex_antisymmetric(a: Seq<u8>, b: Seq<u8>, i: int)
    requires
        0 <= i <= a.len(),
        i <= b.len(),
        forall|k: int| 0 <= k < i ==> a[k] == b[k],
        !lex_lt_from(a, b, i),
        !lex_lt_from(b, a, i),
    ensures
        a == b,
    decreases a.len() - i,
{
    if i < a.len() {
        lemma_lex_antisymmetric(a, b, i + 1);
    } else {
        assert(a =~= b);
    }
}

/// Whether `a` stands before `b` in the order of the dictionary, byte by
/// byte.
pub fn bytes_lt(a: &str, b: &str) -> (r: bool)
    ensures
        r == lex_lt(bytes_of(a@), bytes_of(b@)),
{
    let x = a.as_bytes();
    let y = b.as_bytes();
    let mut i: usize = 0;
    while i < x.len() && i < y.len()
        invariant
            i <= x@.len(),
            i <= y@.len(),
            x@ == bytes_of(a@),
            y@ == bytes_of(b@),
            lex_lt(x@, y@) == lex_lt_from(x@, y@, i as int),
        decreases x.len() - i,
    {
        if x[i] != y[i] {
            return x[i] < y[i];
        }
        i += 1;
    }
    i < y.len()
}

/// One text behind the other.
pub fn append(a: &str, b: &str) -> (r: String)
    ensures
        r@ == a@ + b@,
{
    let mut r = a.to_owned();
    r.append(b);
    r
}

/// The first index at or after `from` where `sep` stands in `t`, or the
/// length of `t` if it stands nowhere there.
pub open spec fn next_sep(t: Seq<char>, sep: char, from: int) -> int
    decreases t.len() - from,
{
    if from < 0 || from >= t.len() {
        t.len() as int
    } else if t[from] == sep {
        from
    } else {
        next_sep(t, sep, from + 1)
    }
}

/// The pieces of `t` from `from` on that `sep` parts, in their order: one
/// more than the number of times that `sep` stands there.
pub open spec fn segments_from(t: Seq<char>, sep: char, from: int) -> Seq<Seq<char>>
    decreases t.len() + 1 - from,
{
    if from < 0 || from > t.len() {
        Seq::empty()
    } else {
        let end = next_sep(t, sep, from);
        if from <= end < t.len() {
            seq![t.subrange(from, end)] + segments_from(t, sep, end + 1)
        } else {
            seq![t.subrange(from, t.len() as int)]
        }
    }
}

/// The pieces of `t` that `sep` parts.
pub open spec fn segments(t: Seq<char>, sep: char) -> Seq<Seq<char>> {
    segments_from(t, sep, 0)
}

/// Where the next separator stands, given that none stands before `at`.
proof fn lemma_next_sep(t: Seq<char>, sep: char, from: int, at: int)
    requires
        0 <= from <= at <= t.len(),
        forall|k: int| from <= k < at ==> t[k] != sep,
        at < t.len() ==> t[at] == sep,
    ensures
        next_sep(t, sep, from) == at,
    decreases at - from,
{
    if from < at {
        lemma_next_sep(t, sep, from + 1, at);
    }
}

/// The pieces of an ASCII text that an ASCII separator parts.
pub fn split_ascii(s: &str, sep: u8) -> (r: Vec<String>)
    requires
        is_ascii_chars(s@),
        sep < 128,
    ensures
        crate::unicode::texts(r@) == segments(s@, sep as char),
{
    broadcast use vstd::string::is_ascii_spec_bytes;

    let bytes = s.as_bytes();
    let n: usize = bytes.len();
    let ghost t = s@;
    let ghost c = sep as char;
    proof {
        assert(vstd::string::is_ascii(s));
        assert(s.spec_bytes() =~= Seq::new(t.len(), |k: int| t[k] as u8));
    }
    let mut out: Vec<String> = Vec::new();
    let mut start: usize = 0;
    let mut i: usize = 0;
    while i < n
        invariant
            is_ascii_chars(s@),
            t == s@,
            c == sep as char,
            sep < 128,
            bytes@.len() == t.len(),
            forall|k: int| 0 <= k < t.len() ==> bytes@[k] == t[k] as u8,
            n == t.len(),
            start <= i <= n,
            forall|k: int| start <= k < i ==> t[k] != c,
            segments(t, c) == crate::unicode::texts(out@) + segments_from(t, c, start as int),
        decreases n - i,
    {
        if bytes[i] == sep {
            proof {
                assert(t[i as int] == c);
                lemma_next_sep(t, c, start as int, i as int);
            }
            let piece = s.substring_ascii(start, i).to_owned();
            proof {
                assert(crate::unicode::texts(out@.push(piece)) =~= crate::unicode::texts(out@)
                    + seq![t.subrange(start as int, i as int)]);
            }
            out.push(piece);
            start = i + 1;
        } else {
            assert(t[i as int] != c);
        }
        i += 1;
    }
    proof {
        lemma_next_sep(t, c, start as int, n as int);
    }
    let piece = s.substring_ascii(start, n).to_owned();
    proof {
        assert(crate::unicode::texts(out@.push(piece)) =~= crate::unicode::texts(out@) + seq![
            t.subrange(start as int, n as int),
        ]);
    }
    out.push(piece);
    out
}

} // verus!
