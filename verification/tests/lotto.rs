use commit_poker::bignat::Natural;
use commit_poker::bignat::permutations;
use commit_poker::lotto::{Flush, LottoResult, NOfAKind, RuleMatch, Straight};

#[test]
fn test_n_of_a_kind() {
    let commit = "aabbccddeeff";
    let rule = NOfAKind::new(commit).unwrap();
    assert_eq!(rule.name(), "6 pairs!");
    assert_eq!(rule.description(), "2 as, 2 bs, 2 cs, 2 ds, 2 es, 2 fs");
    let (num, den) = rule.probability();
    let p = num.to_u64().unwrap() as f64 / den.to_u64().unwrap() as f64;
    assert!((p - 0.00029364581882f64).abs() < 0.00000001, "{}", p);
    assert_eq!(rule.points(), 340547);
    let mut pos = rule.positions();
    pos.sort();
    assert_eq!(
        pos,
        vec![
            vec![0, 1],
            vec![2, 3],
            vec![4, 5],
            vec![6, 7],
            vec![8, 9],
            vec![10, 11]
        ]
    );
}

#[test]
fn test_flush() {
    let commit = "abcdef";
    let rule = Flush::new(commit).unwrap();
    assert_eq!(rule.name(), "Flush");
    assert_eq!(rule.description(), "all letters");
    let (num, den) = rule.probability();
    let p = num.to_u64().unwrap() as f64 / den.to_u64().unwrap() as f64;
    assert!((p - 0.05960464477f64).abs() < 0.00000001, "{}", p);
    assert_eq!(rule.points(), 1678);
    let pos = rule.positions();
    assert_eq!(pos, vec![vec![0, 1, 2, 3, 4, 5]]);
}

#[test]
fn test_straight() {
    let commit = "abcdef";
    let rule = Straight::new(commit).unwrap();
    assert_eq!(rule.name(), "Straight");
    assert_eq!(rule.description(), "abcdef");
    let (num, den) = rule.probability();
    let p = num.to_u64().unwrap() as f64 / den.to_u64().unwrap() as f64;
    assert!((p - 0.0000005960464477539063f64).abs() < 0.00000000001, "{}", p);
    assert_eq!(rule.points(), 167772160);
    let pos = rule.positions();
    assert_eq!(pos, vec![vec![0, 1, 2, 3, 4, 5]]);
}

#[test]
fn test_permutations() {
    assert_eq!(permutations(5, 3).to_u64(), Some(20));
    assert_eq!(permutations(5, 5).to_u64(), Some(1));
}

#[test]
fn distinct_symbols_never_repeat() {
    // A hash of pairwise distinct symbols gives the repeated-symbol
    // detector nothing to match.
    for hash in ["a", "ab", "0f", "0123456789abcdef", "fedcba", "05af"] {
        assert!(NOfAKind::new(hash).is_none(), "{}", hash);
    }
}

#[test]
fn repeated_symbol_names() {
    assert_eq!(NOfAKind::new("aaabc").unwrap().name(), "3 of a kind");
    assert_eq!(NOfAKind::new("aabbcc").unwrap().name(), "3 pairs!");
    assert_eq!(NOfAKind::new("aaabbb").unwrap().name(), "2 x 3 of a kind!");
    assert_eq!(NOfAKind::new("aaabb").unwrap().name(), "FULL HOUSE!!");
}

#[test]
fn flush_of_digits() {
    let rule = Flush::new("120537").unwrap();
    assert_eq!(rule.name(), "Flush");
    assert_eq!(rule.description(), "all numbers");
    assert!(Flush::new("12a").is_none());
}

#[test]
fn partial_straight_named() {
    let rule = Straight::new("012346").unwrap();
    assert_eq!(rule.name(), "Partial straight");
    assert_eq!(rule.description(), "01234");
    assert!(Straight::new("0125").is_none());
    assert_eq!(Straight::to_int('0'), 0);
    assert_eq!(Straight::to_int('9'), 9);
    assert_eq!(Straight::to_int('a'), 10);
    assert_eq!(Straight::to_int('f'), 15);
}

#[test]
fn straight_positions_use_first_occurrences() {
    // The run is b, c, d, e; each position is the symbol's first
    // occurrence in the unsorted hash.
    let rule = Straight::new("edcbb").unwrap();
    assert_eq!(rule.description(), "bcde");
    assert_eq!(rule.positions(), vec![vec![3, 2, 1, 0]]);
}

#[test]
fn ranked_result_for_abcdef() {
    let result = LottoResult::new("abcdef");
    let names: Vec<String> = result.rules.iter().map(|r| r.name()).collect();
    assert_eq!(names, vec!["Straight".to_string(), "Flush".to_string()]);
    let points: Vec<u64> = result.rules.iter().map(|r| r.points()).collect();
    assert_eq!(points, vec![167772160, 1678]);
    assert_eq!(result.total_points(), 167772160 + 1678);
    assert_eq!(result.hash, "abcdef");
}

#[test]
fn scoring_is_idempotent() {
    // Scoring the same hash twice yields identical matches, order and
    // total.
    let first = LottoResult::new("aabbccddeeff");
    let second = LottoResult::new("aabbccddeeff");
    assert_eq!(first.total_points(), second.total_points());
    let names_a: Vec<String> = first.rules.iter().map(|r| r.name()).collect();
    let names_b: Vec<String> = second.rules.iter().map(|r| r.name()).collect();
    assert_eq!(names_a, names_b);
    let pts_a: Vec<u64> = first.rules.iter().map(|r| r.points()).collect();
    let pts_b: Vec<u64> = second.rules.iter().map(|r| r.points()).collect();
    assert_eq!(pts_a, pts_b);
    let pos_a: Vec<Vec<Vec<usize>>> = first.rules.iter().map(|r| r.positions()).collect();
    let pos_b: Vec<Vec<Vec<usize>>> = second.rules.iter().map(|r| r.positions()).collect();
    assert_eq!(pos_a, pos_b);
}

#[test]
fn no_match_scores_zero() {
    // "aceg" is not hex; use a quiet valid hash: distinct, mixed classes,
    // no run of four.
    let result = LottoResult::new("0a2c");
    assert_eq!(result.rules.len(), 0);
    assert_eq!(result.total_points(), 0);
}

#[test]
fn rule_match_dispatch() {
    let result = LottoResult::new("aabbccddeeff");
    // Repeated symbols (6 pairs) and an all-letter flush match; the pairs
    // outrank the flush.
    assert_eq!(result.rules.len(), 2);
    match &result.rules[0] {
        RuleMatch::Kind(_) => {}
        _ => panic!("expected the repeated-symbol match first"),
    }
    assert_eq!(result.rules[1].name(), "Flush");
    assert_eq!(result.rules[1].description(), "all letters");
}

#[test]
fn natural_round_trips_u64() {
    assert_eq!(Natural::from_u64(0).to_u64(), Some(0));
    assert_eq!(Natural::from_u64(u64::MAX).to_u64(), Some(u64::MAX));
    assert!(Natural::from_u64(0).is_zero());
    assert!(!Natural::from_u64(7).is_zero());
    // 30!/1! is far beyond the range of u64.
    assert_eq!(permutations(30, 1).to_u64(), None);
}
