use berlin_core::order::sorted_order;
use berlin_core::search::{Offset, Score};

#[test]
fn sorted_order_of_strings_is_dictionary_order() {
    let words: Vec<String> =
        ["york", "new", "london", "", "lon", "londonderry", "new"].iter().map(|w| w.to_string()).collect();
    let order = sorted_order(&words);
    let sorted: Vec<&str> = order.iter().map(|i| words[*i].as_str()).collect();
    assert_eq!(sorted, vec!["", "lon", "london", "londonderry", "new", "new", "york"]);
    let mut seen = order.clone();
    seen.sort();
    assert_eq!(seen, vec![0, 1, 2, 3, 4, 5, 6]);
    // equal items keep their order
    assert_eq!(order[4], 1);
    assert_eq!(order[5], 6);
}

#[test]
fn sorted_order_of_scores_is_best_first() {
    let s = |score: i64, start: usize, end: usize| Score { score, offset: Offset { start, end } };
    let scores = vec![s(500, 0, 3), s(900, 4, 6), s(900, 0, 9), s(900, 0, 2), s(1200, 7, 8)];
    assert_eq!(sorted_order(&scores), vec![4, 3, 2, 1, 0]);
    assert_eq!(sorted_order(&Vec::<Score>::new()), Vec::<usize>::new());
}

#[test]
fn sorted_order_of_many_numbers_of_edges() {
    let mut edges: Vec<(usize, usize, (i64, i64))> = Vec::new();
    let mut x: i64 = 12345;
    for i in 0..200usize {
        x = (x * 1103515245 + 12345) % 2147483648;
        edges.push((i, i + 1, (x % 50, (x / 50) % 50)));
    }
    let order = sorted_order(&edges);
    assert_eq!(order.len(), 200);
    for w in order.windows(2) {
        assert!(edges[w[0]].2 >= edges[w[1]].2);
    }
    let mut seen = order.clone();
    seen.sort();
    assert_eq!(seen, (0..200).collect::<Vec<usize>>());
}

#[test]
fn comparison_operators_follow_the_rank() {
    let s = |score: i64, start: usize, end: usize| Score { score, offset: Offset { start, end } };
    assert!(s(1001, 5, 9) > s(1000, 0, 1));
    assert!(s(1000, 0, 5) > s(1000, 1, 2));
    assert!(s(1000, 0, 5) > s(1000, 0, 6));
    assert!(s(1000, 0, 5) >= s(1000, 0, 5));
    assert!(!(s(1000, 0, 5) > s(1000, 0, 5)));
    assert!(s(999, 0, 5) < s(1000, 9, 9));
    assert_eq!(s(7, 1, 2).partial_cmp(&s(7, 1, 2)), Some(std::cmp::Ordering::Equal));
    assert!(Offset { start: 0, end: 9 } < Offset { start: 1, end: 2 });
    assert!(Offset { start: 1, end: 2 } < Offset { start: 1, end: 3 });
    assert!(Offset { start: 1, end: 2 } <= Offset { start: 1, end: 2 });
    for a in [s(5, 0, 1), s(5, 0, 2), s(6, 3, 4)] {
        for b in [s(5, 0, 1), s(5, 0, 2), s(6, 3, 4)] {
            assert_eq!(a > b, a.outranks(&b));
        }
    }
}
