use topic_counts::line::StateEntry;
use topic_counts::table::{update_occurence, FrequencyTable, UnableToParseError};

fn count_lines(lines: &[&str]) -> FrequencyTable {
    let mut table = FrequencyTable::new();
    for line in lines {
        let _ = update_occurence(line, &mut table);
    }
    table
}

#[test]
fn repeated_key_counts_its_lines() {
    let table = count_lines(&["a b c d 10 20\n"; 3]);
    assert_eq!(table.count(StateEntry::new(10, 20)), 3);
    assert_eq!(table.len(), 1);
}

#[test]
fn malformed_line_is_reported_and_skipped() {
    let mut table = FrequencyTable::new();
    assert_eq!(update_occurence("a b c d 10 20\n", &mut table), Ok(()));
    assert_eq!(update_occurence("x y\n", &mut table), Err(UnableToParseError));
    assert_eq!(table.count(StateEntry::new(10, 20)), 1);
    assert_eq!(table.len(), 1);
    assert_eq!(table.total(), 1);
}

#[test]
fn count_does_not_depend_on_line_order() {
    let a = "p q r s 5 6";
    let b = "p q r s 6 5";
    let first = count_lines(&[a, b, a, "bad", a, b]);
    let second = count_lines(&[b, "bad", b, a, a, a]);
    for table in [&first, &second] {
        assert_eq!(table.count(StateEntry::new(5, 6)), 3);
        assert_eq!(table.count(StateEntry::new(6, 5)), 2);
        assert_eq!(table.total(), 5);
    }
}

#[test]
fn keys_differ_in_either_field() {
    let table = count_lines(&["a b c d 1 1", "a b c d 1 2", "a b c d 2 1", "a b c d 1 1"]);
    assert_eq!(table.len(), 3);
    assert_eq!(table.count(StateEntry::new(1, 1)), 2);
    assert_eq!(table.count(StateEntry::new(1, 2)), 1);
    assert_eq!(table.count(StateEntry::new(2, 1)), 1);
    assert_eq!(table.count(StateEntry::new(2, 2)), 0);
}

#[test]
fn extreme_ids_stay_apart() {
    let max = u64::MAX;
    let table = count_lines(&[
        "a b c d 18446744073709551615 0",
        "a b c d 0 18446744073709551615",
        "a b c d 18446744073709551615 18446744073709551615",
        "a b c d 0 0",
    ]);
    assert_eq!(table.len(), 4);
    for e in [StateEntry::new(max, 0), StateEntry::new(0, max), StateEntry::new(max, max), StateEntry::new(0, 0)] {
        assert_eq!(table.count(e), 1);
    }
}

#[test]
fn drain_lists_each_entry_once() {
    let table = count_lines(&["a b c d 1 1", "a b c d 2 2", "a b c d 1 1", "a b c d 7 9"]);
    let mut entries = table.drain();
    entries.sort_by_key(|(e, _)| (e.region_id, e.topic_id));
    assert_eq!(
        entries,
        vec![(StateEntry::new(1, 1), 2), (StateEntry::new(2, 2), 1), (StateEntry::new(7, 9), 1)]
    );
}

#[test]
fn empty_table_drains_to_nothing() {
    let table = FrequencyTable::new();
    assert_eq!(table.len(), 0);
    assert_eq!(table.total(), 0);
    assert!(table.drain().is_empty());
}
