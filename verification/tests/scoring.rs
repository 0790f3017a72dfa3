use berlin_core::intern::Interner;
use berlin_core::search::{clamped_sum, share_kept, MatchDef, Offset, Score, SearchTerm};

fn pool_of(texts: &[&str]) -> Interner {
    let mut pool = Interner::new();
    for t in texts {
        pool.intern(t);
    }
    pool
}

fn parse(raw: &str, pool: &Interner) -> SearchTerm {
    SearchTerm::from_raw_query(raw.to_string(), None, 5, 2, pool)
}

fn score(score: i64, start: usize, end: usize) -> Score {
    Score { score, offset: Offset { start, end } }
}

#[test]
fn exact_match_scores_soft_max_plus_length() {
    let pool = pool_of(&["london"]);
    let st = parse("london", &pool);
    assert_eq!(st.match_str("london"), Some(score(1006, 0, 6)));
}

#[test]
fn exact_match_wins_over_other_terms() {
    let pool = pool_of(&["london"]);
    let st = parse("londonderry london", &pool);
    // the offset is where the term first stands in the query
    assert_eq!(st.match_str("london"), Some(score(1006, 0, 6)));
    let st = parse("derry london", &pool);
    assert_eq!(st.match_str("london"), Some(score(1006, 6, 12)));
}

#[test]
fn prefix_scores_soft_max_plus_twice_the_term() {
    let pool = pool_of(&[]);
    let st = parse("lond", &pool);
    assert_eq!(st.match_str("london"), Some(score(1008, 0, 4)));
    assert_eq!(st.match_str("londonderry"), Some(score(1008, 0, 4)));
}

#[test]
fn short_prefix_counts_by_similarity_only() {
    let pool = pool_of(&[]);
    let st = parse("lon", &pool);
    // "lon" against "lond": one edit in four characters
    assert_eq!(st.match_str("lond"), Some(score(750, 0, 3)));
    // the lengths differ by more than one
    assert_eq!(st.match_str("london"), None);
}

#[test]
fn similarity_is_the_share_of_a_thousand() {
    let pool = pool_of(&[]);
    let st = parse("pariss", &pool);
    // one edit in six characters
    assert_eq!(st.match_str("paris"), Some(score(833, 0, 6)));
    // one edit in six characters, same length
    assert_eq!(st.match_str("parist"), Some(score(833, 0, 6)));
    // four edits in five of six characters leave a third
    assert_eq!(st.match_str("pxxxxs"), Some(score(333, 0, 6)));
    // nothing in common
    assert_eq!(st.match_str("qqqqqq"), None);
    // too long
    assert_eq!(st.match_str("parisienne"), None);
}

#[test]
fn best_of_several_terms_is_taken() {
    let pool = pool_of(&[]);
    let st = parse("pari pariss", &pool);
    // "pari" is a prefix of "paris": 1008; "pariss": 833; "pari pariss": too long
    assert_eq!(st.match_str("paris"), Some(score(1008, 0, 4)));
}

#[test]
fn no_terms_no_score() {
    let pool = pool_of(&[]);
    let st = parse("", &pool);
    assert_eq!(st.match_str("london"), None);
    assert_eq!(st.match_str(""), None);
}

#[test]
fn codes_match_gives_the_asked_score_at_the_code() {
    let pool = pool_of(&["gb", "lon"]);
    let st = parse("lon gb", &pool);
    let codes = vec!["gb".to_string(), "gbr".to_string()];
    assert_eq!(st.codes_match(&codes, 1032), Some(score(1032, 4, 6)));
    let codes = vec!["gb".to_string(), "lon".to_string()];
    // both match: the earlier start ranks higher
    assert_eq!(st.codes_match(&codes, 1016), Some(score(1016, 0, 3)));
    let codes = vec!["fr".to_string()];
    assert_eq!(st.codes_match(&codes, 1032), None);
    assert_eq!(st.codes_match(&[], 1032), None);
}

#[test]
fn score_order_is_score_then_start_then_span() {
    let a = score(1000, 0, 5);
    assert!(score(1001, 9, 20).outranks(&a));
    assert!(!a.outranks(&score(1001, 9, 20)));
    assert!(a.outranks(&score(1000, 1, 2)));
    assert!(a.outranks(&score(1000, 0, 6)));
    assert!(!a.outranks(&a));
    assert_eq!(Score::better(None, Some(a)), Some(a));
    assert_eq!(Score::better(Some(a), None), Some(a));
    assert_eq!(Score::better(None, None), None);
    assert_eq!(Score::better(Some(a), Some(score(999, 0, 1))), Some(a));
    assert_eq!(Score::better(Some(score(1000, 3, 4)), Some(a)), Some(a));
}

#[test]
fn clamped_sum_saturates() {
    assert_eq!(clamped_sum(516, 1003), 1519);
    assert_eq!(clamped_sum(i64::MAX, 1), i64::MAX);
    assert_eq!(clamped_sum(i64::MIN, -1), i64::MIN);
    assert_eq!(clamped_sum(-5, 3), -2);
}

#[test]
fn match_score_stays_within_its_bounds() {
    let pool = pool_of(&["saint"]);
    let st = parse("saint petersbur", &pool);
    let longest = "saint petersbur".len() as i64;
    for subject in ["saint", "saint petersburg", "petersburg", "petersbur", "x", ""] {
        if let Some(s) = st.match_str(subject) {
            assert!(s.score > 0);
            assert!(s.score <= 1000 + 2 * longest);
        }
    }
    let terms: Vec<&MatchDef<String>> = st.not_exact_matches.iter().collect();
    assert_eq!(terms.len(), 2);
}

#[test]
fn share_kept_is_rounded_down() {
    assert_eq!(share_kept(0, 0), 1000);
    assert_eq!(share_kept(0, 5), 1000);
    assert_eq!(share_kept(5, 5), 0);
    assert_eq!(share_kept(1, 6), 833);
    assert_eq!(share_kept(1, 3), 666);
    assert_eq!(share_kept(2, 3), 333);
    assert_eq!(share_kept(4, 5), 200);
    assert_eq!(share_kept(1, 7), 857);
    assert_eq!(share_kept(3, 5), 400);
}

fn edits(a: &[char], b: &[char]) -> usize {
    if a.is_empty() {
        return b.len();
    }
    if b.is_empty() {
        return a.len();
    }
    let (a_init, b_init) = (&a[..a.len() - 1], &b[..b.len() - 1]);
    let matched = edits(a_init, b_init) + if a[a.len() - 1] == b[b.len() - 1] { 0 } else { 1 };
    matched.min(edits(a_init, b) + 1).min(edits(a, b_init) + 1)
}

#[test]
fn scores_follow_the_edit_distance() {
    let pool = pool_of(&[]);
    let texts = ["paris", "pariss", "pari", "sirap", "abcd", "abdc", "añb", "anb", "zzzz", "日本語x", "日本x語"];
    for q in texts {
        let mut st = parse("", &pool);
        st.normalized = q.to_string();
        st.add_not_exact(q.to_string());
        for subject in texts {
            let a: Vec<char> = subject.chars().collect();
            let b: Vec<char> = q.chars().collect();
            let d = edits(&a, &b);
            assert_eq!(d, strsim::levenshtein(subject, q), "{} {}", subject, q);
            let longest = a.len().max(b.len());
            let expected = if q.len() > 3 && subject.starts_with(q) {
                1000 + 2 * q.len() as i64
            } else if q.len() <= subject.len() + 1 && subject.len() <= q.len() + 1 {
                share_kept(d, longest)
            } else {
                0
            };
            let found = st.match_str(subject).map(|s| s.score).unwrap_or(0);
            assert_eq!(found, expected, "{} {}", subject, q);
        }
    }
}
