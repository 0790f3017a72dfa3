//! Resolution of free-text location queries against a fixed corpus of
//! countries, subdivisions, UN/LOCODE places and IATA airports.

use vstd::prelude::*;
use vstd::utf8::is_ascii_chars;

pub mod coordinates;
pub mod dedup;
pub mod fetch_handler;
pub mod graph;
pub mod ingest;
pub mod distance;
pub mod intern;
pub mod location;
pub mod location_json;
pub mod locations_db;
pub mod number;
pub mod order;
pub mod rank;
pub mod search;
pub mod small;
pub mod search_handler;
pub mod text;
pub mod unicode;
pub mod word_index;

pub use crate::dedup::dedup;

verus! {

/// Score of a perfect match, before the length bonus.
pub const SCORE_SOFT_MAX: i64 = 1000;

/// Added to `SCORE_SOFT_MAX` when a country is matched by one of its codes.
pub const STATE_CODE_BOOST: i64 = 32;

/// Added to `SCORE_SOFT_MAX` when a subdivision is matched by its code.
pub const SUBDIV_CODE_BOOST: i64 = 16;

/// Taken off a score that was earned by a single word of a name.
pub const SINGLE_WORD_MATCH_PENALTY: i64 = 100;

/// A candidate is kept only when its score is above this.
pub const SEARCH_INCLUSION_THRESHOLD: i64 = 400;

/// A parent boosts a child only when both scores are above this.
pub const GRAPH_EDGE_THRESHOLD: i64 = 600;

/// Whether a text is in normal form: ASCII below `DEL`, without upper-case
/// letters.
pub open spec fn is_normal(t: Seq<char>) -> bool {
    &&& unicode::is_plain(t)
    &&& forall|i: int| 0 <= i < t.len() ==> !('A' <= #[trigger] t[i] && t[i] <= 'Z')
}

/// The normal form of a text: its ASCII transliteration in lower case.
pub open spec fn normalized(t: Seq<char>) -> Seq<char> {
    unicode::ascii_lowercase(unicode::transliteration(t))
}

/// What `normalize` promises of its result `r` for the text `t`.
pub open spec fn normalize_ensures(t: Seq<char>, r: Seq<char>) -> bool {
    &&& r == normalized(t)
    &&& is_normal(r)
    &&& is_normal(t) ==> r == t
}

/// A text in lower case stays as it is when it is put in lower case.
pub proof fn lemma_lowercase_of_normal(t: Seq<char>)
    requires
        is_normal(t),
    ensures
        unicode::ascii_lowercase(t) == t,
{
    assert(unicode::ascii_lowercase(t) =~= t);
}

/// The lower-case form of an ASCII text below `DEL` is in normal form.
pub proof fn lemma_lowercase_is_normal(t: Seq<char>)
    requires
        unicode::is_plain(t),
    ensures
        is_normal(unicode::ascii_lowercase(t)),
        unicode::ascii_lowercase(t).len() == t.len(),
{
    let r = unicode::ascii_lowercase(t);
    assert forall|i: int| 0 <= i < r.len() implies '\0' <= #[trigger] r[i] && r[i] < '\u{7f}'
        && !('A' <= r[i] && r[i] <= 'Z') by {
        let c = t[i];
        assert('\0' <= c && c < '\u{7f}');
        assert(r[i] == unicode::lower_char(c));
    }
}

/// Transliterates a text to ASCII and puts it in lower case.
pub fn normalize(s: &str) -> (r: String)
    ensures
        normalize_ensures(s@, r@),
{
    let ascii = unicode::transliterate(s);
    proof {
        assert forall|i: int| 0 <= i < ascii@.len() implies '\0' <= #[trigger] ascii@[i]
            && ascii@[i] <= '\u{7f}' by {
            assert(ascii@[i] < '\u{7f}');
        }
    }
    let r = unicode::lowercase(ascii.as_str());
    proof {
        lemma_lowercase_is_normal(ascii@);
        if is_normal(s@) {
            lemma_lowercase_of_normal(s@);
        }
    }
    r
}

/// Normalizing a text that is already normalized changes nothing: a
/// second pass gives what the first gave.
pub proof fn lemma_normalize_idempotent(t: Seq<char>, once: Seq<char>, twice: Seq<char>)
    requires
        normalize_ensures(t, once),
        normalize_ensures(once, twice),
    ensures
        twice == once,
{
}

} // verus!
