use berlin_core::dedup::dedup;
use berlin_core::intern::Interner;
use berlin_core::normalize;
use berlin_core::number::parse_i16;
use berlin_core::search::SearchTerm;
use berlin_core::text::{
    append, byte_len, bytes_lt, contains_text, find, join, split_ascii, starts_with, str_eq,
};

#[test]
fn normalize_folds_diacritics_and_case() {
    assert_eq!(normalize("Zürich"), "zurich");
    assert_eq!(normalize("GB-LON"), "gb-lon");
    assert_eq!(normalize("São Tomé"), "sao tome");
}

#[test]
fn normalize_leaves_out_control_characters_of_mixed_text() {
    // a text of bytes below 0x7F stays as it is
    assert_eq!(normalize("a\tb"), "a\tb");
    // any other text loses its control characters
    assert_eq!(normalize("a\u{7f}b"), "ab");
    assert_eq!(normalize("é\tx"), "ex");
    for s in ["a\u{7f}b", "é\tx", "\u{7f}", "\t\u{1}"] {
        let once = normalize(s);
        assert_eq!(normalize(&once), once);
        assert!(once.bytes().all(|b| b < 0x7f));
    }
}

#[test]
fn normalize_puts_ascii_in_lower_case() {
    assert_eq!(normalize("ABC xyz 123"), "abc xyz 123");
}

#[test]
fn normalize_twice_is_normalize_once() {
    for s in ["Zürich", "NEW  York", "北亰", "pariss", "", "Île-de-France"] {
        let once = normalize(s);
        assert_eq!(normalize(&once), once);
    }
}

#[test]
fn dedup_keeps_first_occurrences_in_order() {
    assert_eq!(dedup(vec![3u32, 1, 3, 2, 1]), vec![3, 1, 2]);
    assert_eq!(dedup(Vec::<u8>::new()), Vec::<u8>::new());
    assert_eq!(dedup(vec![7i64, 7, 7]), vec![7]);
}

#[test]
fn find_gives_first_byte_offset() {
    assert_eq!(find("new york new", "new"), Some(0));
    assert_eq!(find("new york new", "york"), Some(4));
    assert_eq!(find("new york", "yorks"), None);
    assert_eq!(find("abc", ""), Some(0));
    assert_eq!(find("", "a"), None);
    assert_eq!(find("aab", "ab"), Some(1));
}

#[test]
fn starts_with_is_prefix_test() {
    assert!(starts_with("london", "lond"));
    assert!(starts_with("london", ""));
    assert!(!starts_with("lon", "london"));
    assert!(!starts_with("london", "ond"));
}

#[test]
fn str_eq_and_byte_len() {
    assert!(str_eq("paris", "paris"));
    assert!(!str_eq("paris", "pariss"));
    assert!(!str_eq("pariz", "paris"));
    assert_eq!(byte_len("paris"), 5);
    assert_eq!(byte_len("é"), 2);
}

#[test]
fn join_concat_and_contains() {
    assert_eq!(join("new", "york"), "new york");
    assert_eq!(append("ISO-3166-1-", "gb"), "ISO-3166-1-gb");
    let v = vec!["a".to_string(), "bc".to_string()];
    assert!(contains_text(&v, "bc"));
    assert!(!contains_text(&v, "b"));
}

#[test]
fn split_ascii_keeps_empty_pieces() {
    assert_eq!(split_ascii("isle of man", b' '), vec!["isle", "of", "man"]);
    assert_eq!(split_ascii("a  b", b' '), vec!["a", "", "b"]);
    assert_eq!(split_ascii("", b' '), vec![""]);
    assert_eq!(split_ascii("us-ny", b'-'), vec!["us", "ny"]);
    assert_eq!(split_ascii("-x-", b'-'), vec!["", "x", ""]);
}

#[test]
fn bytes_lt_is_dictionary_order() {
    assert!(bytes_lt("abc", "abd"));
    assert!(bytes_lt("ab", "abc"));
    assert!(!bytes_lt("abc", "abc"));
    assert!(!bytes_lt("b", "abc"));
    assert!(bytes_lt("", "a"));
}

#[test]
fn parse_i16_reads_signed_decimals() {
    assert_eq!(parse_i16("13"), Some(13));
    assert_eq!(parse_i16("-7"), Some(-7));
    assert_eq!(parse_i16("+42"), Some(42));
    assert_eq!(parse_i16("32767"), Some(32767));
    assert_eq!(parse_i16("-32768"), Some(-32768));
    assert_eq!(parse_i16("32768"), None);
    assert_eq!(parse_i16("-32769"), None);
    assert_eq!(parse_i16("000012"), Some(12));
    assert_eq!(parse_i16(""), None);
    assert_eq!(parse_i16("-"), None);
    assert_eq!(parse_i16("12a"), None);
    assert_eq!(parse_i16(" 12"), None);
    assert_eq!(parse_i16("99999999999999999999"), None);
}

#[test]
fn normalize_gives_plain_lower_case_for_every_character() {
    let mut code: u32 = 0;
    while code < 0x11_0000 {
        if let Some(c) = char::from_u32(code) {
            let text = format!("x{}y", c);
            let once = normalize(&text);
            assert!(once.bytes().all(|b| b < 0x7f && !b.is_ascii_uppercase()), "{:x}", code);
            if code < 0x7f {
                assert_eq!(once, text.to_ascii_lowercase(), "{:x}", code);
            }
            assert_eq!(normalize(&once), once, "{:x}", code);
        }
        // every character of the first planes, then every seventeenth
        code += if code < 0x3_0000 { 1 } else { 17 };
    }
}

#[test]
fn similarity_never_goes_below_zero() {
    let pool = Interner::new();
    let texts = ["", "a", "é", "日本語", "paris", "pariss", "zzzzzz", "añb", "ab", "ba", "abcdef"];
    for q in texts {
        let st = SearchTerm::from_raw_query(String::new(), None, 1, 2, &pool);
        let mut st = st;
        st.normalized = q.to_string();
        if !q.is_empty() {
            st.add_not_exact(q.to_string());
        }
        for subject in texts {
            if let Some(s) = st.match_str(subject) {
                assert!(s.score > 0 && s.score <= 1000 + 2 * q.len() as i64, "{} {}", q, subject);
                let d = strsim::levenshtein(subject, q);
                let longest = subject.chars().count().max(q.chars().count());
                assert!(d <= longest);
            }
        }
    }
}
