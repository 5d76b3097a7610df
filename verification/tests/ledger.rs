use commit_poker::errors::LottoError;
use commit_poker::git::Commit;
use commit_poker::highscores::{
    append_scores, decode_scores, encode_scores, query_scores, sort_scores, ScoreInfo,
};
use commit_poker::lotto::LottoResult;

fn record(repo: &str, commit: &str, score: u64, date: i64, rules: Vec<&str>) -> ScoreInfo {
    ScoreInfo {
        repo: repo.to_string(),
        commit: commit.to_string(),
        score,
        date,
        rules: rules.into_iter().map(|r| r.to_string()).collect(),
    }
}

#[test]
fn bootstrap_empty_store_reads_empty() {
    // A freshly created backing store is zero bytes long: that decodes to
    // the empty record set, not an error.
    let records = decode_scores("").unwrap();
    assert_eq!(records.len(), 0);
    let ranked = query_scores(records, &Vec::new(), None);
    assert_eq!(ranked.len(), 0);
}

#[test]
fn encode_then_decode_returns_all() {
    let records = vec![
        record("/r/alpha", "abc123", 10, 100, vec!["Flush"]),
        record("/r/alpha", "def456", 30, 200, vec!["Straight"]),
        record("/r/beta", "0a1b2c", 20, 300, vec![]),
    ];
    let text = encode_scores(&records);
    let back = decode_scores(text.as_str()).unwrap();
    assert_eq!(back.len(), 3);
    assert_eq!(back[0].repo, "/r/alpha");
    assert_eq!(back[0].commit, "abc123");
    assert_eq!(back[0].score, 10);
    assert_eq!(back[0].date, 100);
    assert_eq!(back[0].rules, vec!["Flush".to_string()]);
    assert_eq!(back[2].repo, "/r/beta");
    assert_eq!(back[2].rules.len(), 0);
}

#[test]
fn round_trip_query_sorts_descending_stable() {
    // Appending N records and querying with no filter returns all N,
    // sorted by score descending, insertion order kept on ties.
    let records = vec![
        record("/r", "first", 10, 1, vec![]),
        record("/r", "second", 30, 2, vec![]),
        record("/r", "third", 20, 3, vec![]),
        record("/r", "fourth", 30, 4, vec![]),
    ];
    let text = encode_scores(&records);
    let back = decode_scores(text.as_str()).unwrap();
    let keys: Vec<String> = back.iter().map(|r| r.repo.clone()).collect();
    let ranked = query_scores(back, &keys, None);
    let commits: Vec<&str> = ranked.iter().map(|r| r.commit.as_str()).collect();
    assert_eq!(commits, vec!["second", "fourth", "third", "first"]);
}

#[test]
fn filter_returns_only_matching_repository() {
    let records = vec![
        record("/r/alpha", "a1", 5, 1, vec![]),
        record("/r/beta", "b1", 9, 2, vec![]),
        record("/r/alpha", "a2", 7, 3, vec![]),
    ];
    let keys: Vec<String> = records.iter().map(|r| r.repo.clone()).collect();
    let filter = "/r/alpha".to_string();
    let ranked = query_scores(records, &keys, Some(&filter));
    let commits: Vec<&str> = ranked.iter().map(|r| r.commit.as_str()).collect();
    assert_eq!(commits, vec!["a2", "a1"]);
}

#[test]
fn two_appends_lose_nothing() {
    // Two read-modify-write cycles in a row, as two processes would run
    // them one after the other under the exclusive lock: both records are
    // in the store afterwards.
    let first = append_scores("", record("/r", "aaa111", 11, 1, vec!["Flush"])).unwrap();
    let second = append_scores(
        first.as_str(),
        record("/r", "bbb222", 22, 2, vec!["Straight"]),
    )
    .unwrap();
    let back = decode_scores(second.as_str()).unwrap();
    assert_eq!(back.len(), 2);
    assert_eq!(back[0].commit, "aaa111");
    assert_eq!(back[1].commit, "bbb222");
}

#[test]
fn malformed_store_is_a_hard_failure() {
    assert_eq!(
        decode_scores("not a store").unwrap_err(),
        LottoError::ApplicationDirError
    );
    assert_eq!(
        decode_scores("[").unwrap_err(),
        LottoError::ApplicationDirError
    );
    assert_eq!(
        decode_scores("[]x").unwrap_err(),
        LottoError::ApplicationDirError
    );
    let good = encode_scores(&vec![record("/r", "c", 1, 2, vec![])]);
    let mut truncated = good.clone();
    truncated.pop();
    assert!(decode_scores(truncated.as_str()).is_err());
    assert_eq!(
        append_scores("{bad}", record("/r", "c", 1, 2, vec![])).unwrap_err(),
        LottoError::ApplicationDirError
    );
}

#[test]
fn strings_with_quotes_and_backslashes_round_trip() {
    let records = vec![record(
        "C:\\repos\\\"odd\" name",
        "ff00aa",
        3,
        -7,
        vec!["a\\b", "say \"hi\""],
    )];
    let text = encode_scores(&records);
    let back = decode_scores(text.as_str()).unwrap();
    assert_eq!(back[0].repo, "C:\\repos\\\"odd\" name");
    assert_eq!(back[0].date, -7);
    assert_eq!(back[0].rules, vec!["a\\b".to_string(), "say \"hi\"".to_string()]);
}

#[test]
fn encoded_store_is_json() {
    // The stored text is ordinary JSON: an outside reader sees the same
    // records.
    let records = vec![
        record("/r/alpha", "abc123", 42, 1700000000, vec!["Flush", "Straight"]),
        record("/r/beta", "9f9f9f", 0, -3, vec![]),
    ];
    let text = encode_scores(&records);
    let value: serde_json::Value = serde_json::from_str(text.as_str()).unwrap();
    let arr = value.as_array().unwrap();
    assert_eq!(arr.len(), 2);
    assert_eq!(arr[0]["repo"], "/r/alpha");
    assert_eq!(arr[0]["commit"], "abc123");
    assert_eq!(arr[0]["score"], 42);
    assert_eq!(arr[0]["date"], 1700000000i64);
    assert_eq!(arr[0]["rules"][1], "Straight");
    assert_eq!(arr[1]["score"], 0);
    assert_eq!(arr[1]["date"], -3);
}

#[test]
fn non_canonical_numbers_are_rejected() {
    let leading_zero =
        "[{\"repo\":\"r\",\"commit\":\"c\",\"score\":01,\"date\":2,\"rules\":[]}]";
    assert!(decode_scores(leading_zero).is_err());
    let spaced = "[ ]";
    assert!(decode_scores(spaced).is_err());
    let plus_sign =
        "[{\"repo\":\"r\",\"commit\":\"c\",\"score\":1,\"date\":+2,\"rules\":[]}]";
    assert!(decode_scores(plus_sign).is_err());
}

#[test]
fn sort_scores_orders_by_score() {
    let records = vec![
        record("/r", "low", 1, 1, vec![]),
        record("/r", "high", 9, 2, vec![]),
        record("/r", "mid", 5, 3, vec![]),
    ];
    let ranked = sort_scores(records);
    let scores: Vec<u64> = ranked.iter().map(|r| r.score).collect();
    assert_eq!(scores, vec![9, 5, 1]);
}

#[test]
fn score_info_snapshots_commit_and_result() {
    let result = LottoResult::new("abcdef");
    let commit = Commit::new(
        "/r/alpha".to_string(),
        "abcdef".to_string(),
        "abcdef0123456789".to_string(),
        "1700000000".to_string(),
        Some("a summary".to_string()),
    );
    let info = ScoreInfo::new(&result, &commit);
    assert_eq!(info.repo, "/r/alpha");
    assert_eq!(info.commit, "abcdef");
    assert_eq!(info.score, 167772160 + 1678);
    assert_eq!(info.date, 1700000000);
    assert_eq!(info.rules, vec!["Straight".to_string(), "Flush".to_string()]);
}

#[test]
fn score_info_accepts_negative_dates() {
    let result = LottoResult::new("00");
    let commit = Commit::new(
        "/r".to_string(),
        "00".to_string(),
        "00ff".to_string(),
        "-62135596800".to_string(),
        None,
    );
    let info = ScoreInfo::new(&result, &commit);
    assert_eq!(info.date, -62135596800);
    // "00" is one pair and an all-number flush.
    assert_eq!(info.rules.len(), 2);
}
