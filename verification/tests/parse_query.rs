use berlin_core::intern::Interner;
use berlin_core::search::{is_stop, MatchDef, Offset, SearchTerm};

fn pool_of(texts: &[&str]) -> Interner {
    let mut pool = Interner::new();
    for t in texts {
        pool.intern(t);
    }
    pool
}

fn terms(list: &Vec<MatchDef<String>>) -> Vec<(String, usize, usize)> {
    list.iter().map(|m| (m.term.clone(), m.offset.start, m.offset.end)).collect()
}

fn term(text: &str, start: usize, end: usize) -> (String, usize, usize) {
    (text.to_string(), start, end)
}

fn parse(raw: &str, pool: &Interner) -> SearchTerm {
    SearchTerm::from_raw_query(raw.to_string(), None, 5, 2, pool)
}

#[test]
fn interner_numbers_strings_in_order() {
    let mut pool = Interner::new();
    assert_eq!(pool.len(), 0);
    let a = pool.intern("gb");
    let b = pool.intern("london");
    assert_eq!(pool.intern("gb"), a);
    assert_ne!(a, b);
    assert_eq!(pool.len(), 2);
    assert_eq!(pool.text(a), "gb");
    assert_eq!(pool.text(b), "london");
    assert_eq!(pool.from_existing("london"), Some(b));
    assert_eq!(pool.from_existing("londo"), None);
    assert_eq!(pool.from_existing(""), None);
}

#[test]
fn interner_holds_many_strings() {
    let mut pool = Interner::new();
    let mut ids = Vec::new();
    for i in 0..500 {
        ids.push(pool.intern(&format!("word{}", i)));
    }
    for i in 0..500 {
        assert_eq!(pool.from_existing(&format!("word{}", i)), Some(ids[i]));
        assert_eq!(pool.text(ids[i]), &format!("word{}", i));
    }
    assert_eq!(pool.len(), 500);
    assert_eq!(pool.from_existing("word500"), None);
}

#[test]
fn stop_word_list() {
    for w in ["at", "to", "in", "on", "of", "for", "by", "and", "was", "did", "the"] {
        assert!(is_stop(w));
    }
    assert!(!is_stop("london"));
    assert!(!is_stop("The"));
    assert!(!is_stop(""));
}

#[test]
fn parse_keeps_raw_and_normalizes() {
    let pool = pool_of(&[]);
    let st = parse("  Zürich HB ", &pool);
    assert_eq!(st.raw, "  Zürich HB ");
    assert_eq!(st.normalized, "  zurich hb ");
    assert_eq!(st.limit, 5);
}

#[test]
fn parse_clamps_the_edit_distance() {
    let pool = pool_of(&[]);
    for (given, kept) in [(0u32, 0u32), (1, 1), (2, 2), (3, 2), (4_000_000_000, 2)] {
        let st = SearchTerm::from_raw_query("x".to_string(), None, 1, given, &pool);
        assert_eq!(st.lev_dist, kept);
    }
}

#[test]
fn parse_keeps_a_known_state_filter_only() {
    let pool = pool_of(&["gb"]);
    let st = SearchTerm::from_raw_query("x".to_string(), Some("gb".to_string()), 1, 2, &pool);
    assert_eq!(st.state_filter, Some("gb".to_string()));
    let st = SearchTerm::from_raw_query("x".to_string(), Some("zz".to_string()), 1, 2, &pool);
    assert_eq!(st.state_filter, None);
    let st = SearchTerm::from_raw_query("x".to_string(), None, 1, 2, &pool);
    assert_eq!(st.state_filter, None);
}

#[test]
fn all_stop_words_give_no_terms() {
    let pool = pool_of(&["the", "of", "by"]);
    let st = parse("the of by", &pool);
    assert_eq!(st.stop_words, vec!["the", "of", "by"]);
    assert!(st.codes.is_empty());
    assert!(st.exact_matches.is_empty());
    assert!(st.not_exact_matches.is_empty());
}

#[test]
fn unknown_stop_texts_are_ordinary_words() {
    let pool = pool_of(&[]);
    let st = parse("the of", &pool);
    assert!(st.stop_words.is_empty());
    assert_eq!(
        terms(&st.not_exact_matches),
        vec![term("the of", 0, 6), term("the", 0, 3), term("of", 4, 6)]
    );
}

#[test]
fn known_words_pairs_and_triples_are_exact() {
    let pool = pool_of(&["isle of man", "isle", "of", "man"]);
    let st = parse("Isle of Man", &pool);
    assert_eq!(st.stop_words, vec!["of"]);
    assert_eq!(
        terms(&st.exact_matches),
        vec![term("isle of man", 0, 11), term("isle", 0, 4), term("man", 8, 11)]
    );
    assert_eq!(terms(&st.codes), vec![term("man", 8, 11)]);
    assert_eq!(
        terms(&st.not_exact_matches),
        vec![term("isle of", 0, 7), term("of man", 5, 11)]
    );
}

#[test]
fn short_known_words_are_codes_too() {
    let pool = pool_of(&["gb", "lon"]);
    let st = parse("GB-LON", &pool);
    assert_eq!(st.normalized, "gb-lon");
    assert_eq!(terms(&st.codes), vec![term("gb", 0, 2), term("lon", 3, 6)]);
    assert_eq!(terms(&st.exact_matches), vec![term("lon", 3, 6), term("gb", 0, 2)]);
    assert!(st.not_exact_matches.is_empty());
}

#[test]
fn exact_terms_stand_once_longest_first() {
    let pool = pool_of(&["new york", "york", "new"]);
    let st = parse("york new york", &pool);
    assert_eq!(
        terms(&st.exact_matches),
        vec![term("new york", 5, 13), term("york", 0, 4), term("new", 5, 8)]
    );
    assert_eq!(terms(&st.codes), vec![term("new", 5, 8)]);
    assert_eq!(terms(&st.not_exact_matches), vec![term("york new", 0, 8)]);
}

#[test]
fn single_bytes_are_dropped() {
    let pool = pool_of(&["a"]);
    let st = parse("a b", &pool);
    assert!(st.exact_matches.is_empty());
    assert!(st.codes.is_empty());
    assert_eq!(terms(&st.not_exact_matches), vec![term("a b", 0, 3)]);
}

#[test]
fn offsets_are_first_occurrences() {
    let pool = pool_of(&[]);
    let st = parse("paris paris", &pool);
    assert_eq!(
        terms(&st.not_exact_matches),
        vec![term("paris paris", 0, 11), term("paris", 0, 5), term("paris", 0, 5)]
    );
}

#[test]
fn empty_query_has_no_terms() {
    let pool = pool_of(&["gb"]);
    let st = parse("", &pool);
    assert!(st.stop_words.is_empty());
    assert!(st.codes.is_empty());
    assert!(st.exact_matches.is_empty());
    assert!(st.not_exact_matches.is_empty());
}

#[test]
fn add_methods_locate_their_term() {
    let pool = pool_of(&[]);
    let mut st = parse("", &pool);
    st.normalized = "gb london".to_string();
    st.add_code("gb".to_string());
    st.add_exact("gb".to_string());
    st.add_exact("london".to_string());
    st.add_exact("gb".to_string());
    st.add_not_exact("lond".to_string());
    assert_eq!(terms(&st.codes), vec![term("gb", 0, 2)]);
    assert_eq!(terms(&st.exact_matches), vec![term("london", 3, 9), term("gb", 0, 2)]);
    assert_eq!(terms(&st.not_exact_matches), vec![term("lond", 3, 7)]);
    assert_eq!(st.codes[0].offset, Offset { start: 0, end: 2 });
}

#[test]
fn every_offset_is_the_place_of_its_term() {
    let pool = pool_of(&["new york", "york", "new", "gb", "of", "isle of man"]);
    for raw in ["York New York GB", "isle of man", "GB-LON x", "Zürich  HB", "the of by", "a.b c,d"] {
        let st = parse(raw, &pool);
        for list in [&st.codes, &st.exact_matches, &st.not_exact_matches] {
            for m in list.iter() {
                assert_eq!(&st.normalized[m.offset.start..m.offset.end], m.term.as_str());
                assert_eq!(st.normalized.find(m.term.as_str()), Some(m.offset.start));
            }
        }
        for pair in st.exact_matches.windows(2) {
            assert!(pair[0].term.len() >= pair[1].term.len());
            assert_ne!(pair[0].term, pair[1].term);
        }
    }
}
