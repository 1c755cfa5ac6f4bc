use nara::qps::count_qps;
use nara::tally::ErrorTally;
use nara::util::Counter;
use std::collections::BTreeMap;

#[test]
fn counter_starts_empty() {
    let c: Counter<u64> = Counter::new();
    assert!(c.map.is_empty());
}

#[test]
fn counter_counts_each_key() {
    let mut c: Counter<u64> = Counter::new();
    c.record(5);
    c.record(7);
    c.record(5);
    let mut expected = BTreeMap::new();
    expected.insert(5u64, 2u64);
    expected.insert(7u64, 1u64);
    assert_eq!(c.map, expected);
}

#[test]
fn qps_buckets_by_whole_seconds_from_earliest() {
    let instants = vec![2_100_000_000u64, 1_000_000_000, 3_000_000_001, 1_999_999_999];
    let r = count_qps(instants);
    let mut expected = BTreeMap::new();
    expected.insert(0u64, 2u64);
    expected.insert(1u64, 1u64);
    expected.insert(2u64, 1u64);
    assert_eq!(r, expected);
}

#[test]
fn qps_single_instant_is_second_zero() {
    let r = count_qps(vec![42]);
    assert_eq!(r.len(), 1);
    assert_eq!(r.get(&0), Some(&1));
}

#[test]
fn qps_skips_quiet_seconds() {
    let r = count_qps(vec![0, 5_000_000_000, 5_500_000_000]);
    assert_eq!(r.get(&0), Some(&1));
    assert_eq!(r.get(&5), Some(&2));
    assert_eq!(r.get(&1), None);
    let total: u64 = r.values().sum();
    assert_eq!(total, 3);
}

#[test]
fn tally_counts_each_text() {
    let mut t = ErrorTally::new();
    t.record("timeout".to_string());
    t.record("refused".to_string());
    t.record("timeout".to_string());
    let mut entries = t.entries().clone();
    entries.sort();
    assert_eq!(entries, vec![("refused".to_string(), 1), ("timeout".to_string(), 2)]);
}

#[test]
fn counter_counts_a_sequence_of_keys() {
    let keys = [3u64, 1, 3, 3, 2, 1];
    let mut c: Counter<u64> = Counter::new();
    for k in keys.iter() {
        c.record(*k);
    }
    let mut expected = BTreeMap::new();
    expected.insert(1u64, 2u64);
    expected.insert(2u64, 1u64);
    expected.insert(3u64, 3u64);
    assert_eq!(c.map, expected);
    assert_eq!(c.map.values().sum::<u64>(), keys.len() as u64);
}

#[test]
fn qps_does_not_depend_on_order() {
    let a = vec![7_000_000_000u64, 5_000_000_000, 6_200_000_000, 5_900_000_000];
    let b = vec![5_900_000_000u64, 6_200_000_000, 5_000_000_000, 7_000_000_000];
    assert_eq!(count_qps(a), count_qps(b));
}

#[test]
fn qps_does_not_depend_on_a_common_shift() {
    let a = vec![100u64, 1_000_000_050, 1_999_999_999, 4_000_000_000];
    let shifted: Vec<u64> = a.iter().map(|t| t + 123_456_789_012).collect();
    assert_eq!(count_qps(a), count_qps(shifted));
}

#[test]
fn qps_with_far_apart_timestamps() {
    let r = count_qps(vec![u64::MAX, 0]);
    assert_eq!(r.get(&0), Some(&1));
    assert_eq!(r.get(&(u64::MAX / 1_000_000_000)), Some(&1));
}

#[test]
fn tally_count_of_unknown_text_is_zero() {
    let mut t = ErrorTally::new();
    t.record("a".to_string());
    assert_eq!(t.count_of(&"a".to_string()), 1);
    assert_eq!(t.count_of(&"b".to_string()), 0);
}
