//! The transducer that holds the words of the corpus, and the recall of
//! words that are near a term or begin with it.

use crate::text::{bytes_of, is_prefix, lex_lt};
use crate::unicode::texts;
use vstd::prelude::*;

verus! {

/// The type `fst::Map`: a map from byte strings to numbers, held as a
/// finite-state transducer. Nothing is said of what is inside.
#[verifier::external_type_specification]
#[verifier::external_body]
#[verifier::reject_recursive_types(D)]
pub struct ExFstMap<D>(fst::Map<D>);

/// The keys that a transducer of the crate fst holds, each with its value.
pub uninterp spec fn fst_entries(index: fst::Map<Vec<u8>>) -> Map<Seq<u8>, u64>;

/// Whether `fst::automaton::Levenshtein::new` builds an automaton for a
/// term and a distance: it gives up when the automaton would have too many
/// states.
pub uninterp spec fn automaton_fits(term: Seq<char>, distance: u32) -> bool;

/// Whether the automaton that `fst::automaton::Levenshtein::new` builds for
/// a term and a distance accepts a key: whether the key is valid UTF-8 and
/// at most `distance` insertions, deletions and substitutions of
/// characters away from the term.
pub uninterp spec fn within_edits(term: Seq<char>, distance: u32, key: Seq<u8>) -> bool;

/// Whether each text stands before the next in the order of the
/// dictionary, byte by byte.
pub open spec fn ascending(words: Seq<Seq<char>>) -> bool {
    forall|i: int|
        0 <= i && i + 1 < words.len() ==> lex_lt(
            bytes_of(#[trigger] words[i]),
            bytes_of(words[i + 1]),
        )
}

/// Whether the entries are the words, each with its index.
pub open spec fn holds_words(entries: Map<Seq<u8>, u64>, words: Seq<Seq<char>>) -> bool {
    &&& forall|i: int|
        0 <= i < words.len() ==> entries.contains_key(bytes_of(#[trigger] words[i]))
            && entries[bytes_of(words[i])] == i
    &&& forall|key: Seq<u8>| #[trigger]
        entries.contains_key(key) ==> exists|i: int|
            0 <= i < words.len() && bytes_of(#[trigger] words[i]) == key
}

/// Whether a key is near a term: it is the term itself where the distance
/// is zero, and within that many edits of the term where it is more.
pub open spec fn near(term: Seq<char>, distance: u32, key: Seq<u8>) -> bool {
    (distance == 0 && key == bytes_of(term)) || (distance > 0 && within_edits(
        term,
        distance,
        key,
    ))
}

/// Whether a key is recalled for a term: it begins with the term, or is
/// near it.
pub open spec fn accepts(term: Seq<char>, distance: u32, key: Seq<u8>) -> bool {
    is_prefix(bytes_of(term), key) || near(term, distance, key)
}

/// Whether `value` is the value of a key that is recalled for the term.
pub open spec fn recalled_value(
    entries: Map<Seq<u8>, u64>,
    term: Seq<char>,
    distance: u32,
    value: u64,
) -> bool {
    exists|key: Seq<u8>| #[trigger]
        entries.contains_key(key) && entries[key] == value && accepts(term, distance, key)
}

/// Whether `value` is the value of a key that begins with the term.
pub open spec fn prefixed_value(entries: Map<Seq<u8>, u64>, term: Seq<char>, value: u64) -> bool {
    exists|key: Seq<u8>| #[trigger]
        entries.contains_key(key) && entries[key] == value && is_prefix(bytes_of(term), key)
}

/// Whether `value` is the value of a key that is recalled for the term:
/// of a key near the term or beginning with it where the automaton for the
/// term can be built, else of a key that begins with it.
pub open spec fn term_recalls(
    entries: Map<Seq<u8>, u64>,
    term: Seq<char>,
    distance: u32,
    value: u64,
) -> bool {
    if automaton_fits(term, distance) {
        recalled_value(entries, term, distance, value)
    } else {
        prefixed_value(entries, term, value)
    }
}

/// With distance zero a term recalls the keys that begin with it, and no
/// others.
pub proof fn lemma_zero_distance_is_prefix(entries: Map<Seq<u8>, u64>, term: Seq<char>, value: u64)
    ensures
        term_recalls(entries, term, 0, value) <==> prefixed_value(entries, term, value),
{
    let whole = bytes_of(term);
    assert(whole.subrange(0, whole.len() as int) == whole);
    if recalled_value(entries, term, 0, value) {
        let key = choose|key: Seq<u8>| #[trigger]
            entries.contains_key(key) && entries[key] == value && accepts(term, 0, key);
        assert(entries.contains_key(key) && entries[key] == value && is_prefix(
            bytes_of(term),
            key,
        ));
    }
    if prefixed_value(entries, term, value) {
        let key = choose|key: Seq<u8>| #[trigger]
            entries.contains_key(key) && entries[key] == value && is_prefix(bytes_of(term), key);
        assert(entries.contains_key(key) && entries[key] == value && accepts(term, 0, key));
    }
}

/// Calls `fst::Map::from_iter` on the words, each with its index. The
/// builder refuses keys that do not ascend and takes any that do; what it
/// builds holds the keys it was given.
#[verifier::external_body]
pub(crate) fn build_index(words: &Vec<String>) -> (r: Option<fst::Map<Vec<u8>>>)
    ensures
        r is Some <==> ascending(texts(words@)),
        r matches Some(index) ==> holds_words(fst_entries(index), texts(words@)),
{
    fst::Map::from_iter(words.iter().enumerate().map(|(i, w)| (w.as_str(), i as u64))).ok()
}

/// Searches the transducer with the automaton that
/// `fst::automaton::Levenshtein::new` builds for the term and the
/// distance, and gives the values of the keys found. With distance zero
/// the automaton takes the term alone. Nothing is given when the
/// automaton cannot be built.
#[verifier::external_body]
pub(crate) fn search_within(index: &fst::Map<Vec<u8>>, term: &str, distance: u32) -> (r: Option<
    Vec<u64>,
>)
    ensures
        r is Some <==> automaton_fits(term@, distance),
        r matches Some(values) ==> forall|x: u64| #[trigger]
            values@.contains(x) <==> exists|key: Seq<u8>| #[trigger]
                fst_entries(*index).contains_key(key) && fst_entries(*index)[key] == x && ((
                distance == 0 && key == bytes_of(term@)) || (distance > 0 && within_edits(
                    term@,
                    distance,
                    key,
                ))),
{
    let within = fst::automaton::Levenshtein::new(term, distance).ok()?;
    Some(fst::IntoStreamer::into_stream(index.search(within)).into_values())
}

/// Searches the transducer with the automaton of the keys that begin with
/// the term, and gives the values of the keys found.
#[verifier::external_body]
pub(crate) fn search_prefix(index: &fst::Map<Vec<u8>>, term: &str) -> (values: Vec<u64>)
    ensures
        forall|x: u64| #[trigger]
            values@.contains(x) <==> prefixed_value(fst_entries(*index), term@, x),
{
    let begins = fst::Automaton::starts_with(fst::automaton::Str::new(term));
    fst::IntoStreamer::into_stream(index.search(begins)).into_values()
}

/// The values of the keys that are recalled for a term: of those that
/// begin with it, and of those near it where the automaton for the term
/// can be built. A value may stand more than once.
pub fn lookup(index: &fst::Map<Vec<u8>>, term: &str, distance: u32) -> (values: Vec<u64>)
    ensures
        forall|x: u64| #[trigger]
            values@.contains(x) <==> term_recalls(fst_entries(*index), term@, distance, x),
{
    let mut values = search_prefix(index, term);
    let ghost begins = values@;
    let ghost entries = fst_entries(*index);
    match search_within(index, term, distance) {
        Some(mut within) => {
            let ghost found = within@;
            values.append(&mut within);
            proof {
                assert forall|x: u64| #[trigger] values@.contains(x) <==> recalled_value(
                    entries,
                    term@,
                    distance,
                    x,
                ) by {
                    if begins.contains(x) {
                        let i = choose|i: int| 0 <= i < begins.len() && begins[i] == x;
                        assert(values@[i] == x);
                        let key = choose|key: Seq<u8>| #[trigger]
                            entries.contains_key(key) && entries[key] == x && is_prefix(
                                bytes_of(term@),
                                key,
                            );
                        assert(entries.contains_key(key) && entries[key] == x && accepts(
                            term@,
                            distance,
                            key,
                        ));
                    }
                    if found.contains(x) {
                        let i = choose|i: int| 0 <= i < found.len() && found[i] == x;
                        assert(values@[begins.len() + i] == x);
                        let key = choose|key: Seq<u8>| #[trigger]
                            entries.contains_key(key) && entries[key] == x && ((distance == 0
                                && key == bytes_of(term@)) || (distance > 0 && within_edits(
                                term@,
                                distance,
                                key,
                            )));
                        assert(entries.contains_key(key) && entries[key] == x && accepts(
                            term@,
                            distance,
                            key,
                        ));
                    }
                    if values@.contains(x) {
                        let i = choose|i: int| 0 <= i < values@.len() && values@[i] == x;
                        if i < begins.len() {
                            assert(begins[i] == x);
                        } else {
                            assert(found[i - begins.len()] == x);
                        }
                    }
                    if recalled_value(entries, term@, distance, x) {
                        let key = choose|key: Seq<u8>| #[trigger]
                            entries.contains_key(key) && entries[key] == x && accepts(
                                term@,
                                distance,
                                key,
                            );
                        if is_prefix(bytes_of(term@), key) {
                            assert(prefixed_value(entries, term@, x));
                        } else {
                            assert(entries.contains_key(key) && entries[key] == x && ((distance
                                == 0 && key == bytes_of(term@)) || (distance > 0 && within_edits(
                                term@,
                                distance,
                                key,
                            ))));
                            assert(found.contains(x));
                        }
                    }
                }
            }
        },
        None => {},
    }
    values
}

} // verus!
