use reinforcement_learning_chess::codec::{exp_file_text, parse_exp_file};
use reinforcement_learning_chess::experience::{Experience, Recollection};

fn key(text: &str) -> Vec<u8> {
    text.as_bytes().to_vec()
}

fn restore(text: &[u8]) -> Experience {
    let mut store = Experience::new("exp");
    store.merge_observation(&key("stale"), 5);
    store.long_term_recall(text);
    store
}

#[test]
fn fresh_store_yields_fresh_recollection() {
    let store = Experience::new("exp");
    let r = store.lookup(&key("a"));
    assert_eq!(r, Recollection { times_encountered: 0, average_value: 0 });
    assert_eq!(store.len(), 0);
    assert_eq!(store.long_term_memory_directory(), "exp");
}

#[test]
fn times_encountered_counts_each_observation() {
    let mut store = Experience::new("exp");
    let k = key("position");
    let observations: [i64; 6] = [250_000, -100_000, 40_000, 900_000, -300_000, 10_000];
    for (n, v) in observations.iter().enumerate() {
        store.merge_observation(&k, *v);
        assert_eq!(store.lookup(&k).times_encountered, (n + 1) as u64);
    }
    assert_eq!(store.len(), 1);
}

#[test]
fn zero_first_observation_creates_no_entry() {
    let mut store = Experience::new("exp");
    store.merge_observation(&key("quiet"), 0);
    assert_eq!(store.len(), 0);
    assert_eq!(store.lookup(&key("quiet")).times_encountered, 0);
}

#[test]
fn merge_divides_by_prior_count() {
    let mut store = Experience::new("exp");
    let k = key("p");
    store.merge_observation(&k, 500_000);
    assert_eq!(store.lookup(&k), Recollection { times_encountered: 1, average_value: 500_000 });
    store.merge_observation(&k, 300_000);
    assert_eq!(store.lookup(&k), Recollection { times_encountered: 2, average_value: 800_000 });
    store.merge_observation(&k, 100_000);
    assert_eq!(store.lookup(&k), Recollection { times_encountered: 3, average_value: 450_000 });
    store.merge_observation(&k, -7);
    // (450_000 - 7) / 3 rounds toward zero
    assert_eq!(store.lookup(&k), Recollection { times_encountered: 4, average_value: 149_997 });
}

#[test]
fn negative_average_rounds_toward_zero() {
    let mut store = Experience::new("exp");
    let k = key("n");
    store.merge_observation(&k, -5);
    store.merge_observation(&k, -2);
    store.merge_observation(&k, 0);
    // (-7 + 0) / 2 = -3.5, rounded toward zero
    assert_eq!(store.lookup(&k), Recollection { times_encountered: 3, average_value: -3 });
}

#[test]
fn zero_rule_skips_when_average_returns_to_zero() {
    let mut store = Experience::new("exp");
    let k = key("z");
    store.merge_observation(&k, 100);
    store.merge_observation(&k, -100);
    assert_eq!(store.lookup(&k), Recollection { times_encountered: 2, average_value: 0 });
    // (0 + 1) / 2 is zero and the prior average is zero: nothing is written
    store.merge_observation(&k, 1);
    assert_eq!(store.lookup(&k), Recollection { times_encountered: 2, average_value: 0 });
}

#[test]
fn merge_leaves_other_keys_alone() {
    let mut store = Experience::new("exp");
    store.merge_observation(&key("a"), 10);
    store.merge_observation(&key("b"), 20);
    store.merge_observation(&key("a"), 30);
    assert_eq!(store.lookup(&key("a")), Recollection { times_encountered: 2, average_value: 40 });
    assert_eq!(store.lookup(&key("b")), Recollection { times_encountered: 1, average_value: 20 });
    assert_eq!(store.len(), 2);
}

#[test]
fn average_saturates_at_the_bounds() {
    let mut store = Experience::new("exp");
    let k = key("big");
    store.merge_observation(&k, i64::MAX);
    store.merge_observation(&k, i64::MAX);
    assert_eq!(store.lookup(&k).average_value, i64::MAX);
}

#[test]
fn snapshot_round_trip_keeps_every_lookup() {
    let mut store = Experience::new("exp");
    let keys = ["alpha", "beta|x y", "", "gamma"];
    let values: [i64; 4] = [123_456, -987_654, i64::MIN, i64::MAX];
    for (k, v) in keys.iter().zip(values.iter()) {
        store.merge_observation(&key(k), *v);
    }
    store.merge_observation(&key("alpha"), -1);
    let text = store.long_term_memorize();
    let restored = restore(&text);
    assert_eq!(restored.len(), store.len());
    for k in keys.iter() {
        assert_eq!(restored.lookup(&key(k)), store.lookup(&key(k)));
    }
    assert_eq!(restored.long_term_memory_directory(), "exp");
}

#[test]
fn snapshot_text_layout() {
    let mut store = Experience::new("exp");
    store.merge_observation(&key("k1"), -450_000);
    store.merge_observation(&key("k2"), 7);
    let text = store.long_term_memorize();
    assert_eq!(text, b"k1\n1\n-0.450000\nk2\n1\n0.000007\n".to_vec());
}

#[test]
fn corrupt_snapshot_gives_empty_store() {
    let truncated = restore(b"k1\n1\n");
    assert_eq!(truncated.len(), 0);
    let bad_count = restore(b"k1\nx\n5\n");
    assert_eq!(bad_count.len(), 0);
    let bad_value = restore(b"k1\n1\n5\nk2\n1\n--5\n");
    assert_eq!(bad_value.len(), 0);
    let empty = restore(b"");
    assert_eq!(empty.len(), 0);
}

#[test]
fn long_term_recall_reads_entries() {
    let store = restore(b"k1\n3\n-0.000025\nk2\n0\n0.000009\n");
    assert_eq!(store.len(), 2);
    assert_eq!(store.lookup(&key("stale")).times_encountered, 0);
    assert_eq!(store.lookup(&key("k1")), Recollection { times_encountered: 3, average_value: -25 });
    assert_eq!(store.lookup(&key("k2")), Recollection { times_encountered: 0, average_value: 9 });
}

#[test]
fn exp_file_text_and_parse() {
    let r = Recollection { times_encountered: 3, average_value: -450_000 };
    let text = exp_file_text(&r);
    assert_eq!(text, b"3\n-0.450000".to_vec());
    assert_eq!(parse_exp_file(&text), Some(r));
    let extreme = Recollection { times_encountered: u64::MAX, average_value: i64::MIN };
    assert_eq!(parse_exp_file(&exp_file_text(&extreme)), Some(extreme));
}

#[test]
fn parse_exp_file_rejects_malformed_text() {
    assert_eq!(parse_exp_file(b"12"), None);
    assert_eq!(parse_exp_file(b"12\n"), None);
    assert_eq!(parse_exp_file(b"a\n1"), None);
    assert_eq!(parse_exp_file(b"-1\n1"), None);
    assert_eq!(parse_exp_file(b"18446744073709551616\n1"), None);
    assert_eq!(parse_exp_file(b"1\n9223372036854775808"), None);
    assert_eq!(
        parse_exp_file(b"3\n5\nextra"),
        Some(Recollection { times_encountered: 3, average_value: 5_000_000 })
    );
    assert_eq!(parse_exp_file(b"0\n-9223372036854775808"), None);
    assert_eq!(
        parse_exp_file(b"0\n-9223372036854.775808"),
        Some(Recollection { times_encountered: 0, average_value: i64::MIN })
    );
    assert_eq!(parse_exp_file(b"1\n9223372036854.775808"), None);
    assert_eq!(parse_exp_file(b"1\n.5"), None);
    assert_eq!(parse_exp_file(b"1\n1.2.3"), None);
    assert_eq!(parse_exp_file(b"1\n1e-7"), None);
    assert_eq!(parse_exp_file(b"1\n-"), None);
}

#[test]
fn parse_exp_file_reads_decimal_fractions() {
    assert_eq!(
        parse_exp_file(b"3\n0.5"),
        Some(Recollection { times_encountered: 3, average_value: 500_000 })
    );
    assert_eq!(
        parse_exp_file(b"2\n-0.3333333"),
        Some(Recollection { times_encountered: 2, average_value: -333_333 })
    );
    assert_eq!(
        parse_exp_file(b"1\n1"),
        Some(Recollection { times_encountered: 1, average_value: 1_000_000 })
    );
    assert_eq!(
        parse_exp_file(b"1\n2."),
        Some(Recollection { times_encountered: 1, average_value: 2_000_000 })
    );
    assert_eq!(
        parse_exp_file(b"4\n-0.0000009"),
        Some(Recollection { times_encountered: 4, average_value: 0 })
    );
    assert_eq!(
        parse_exp_file(b"7\n0.81"),
        Some(Recollection { times_encountered: 7, average_value: 810_000 })
    );
}
