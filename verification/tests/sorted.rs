use roughdb::sorted::{compare_bytes, compare_slots, find_newest, insert_sorted, lower_bound, Rank};
use roughdb::table::entry::Entry;

#[test]
fn bytes_compare_lexicographically() {
    assert_eq!(compare_bytes(b"", b""), Rank::Same);
    assert_eq!(compare_bytes(b"", b"a"), Rank::Before);
    assert_eq!(compare_bytes(b"a", b""), Rank::After);
    assert_eq!(compare_bytes(b"abc", b"abc"), Rank::Same);
    assert_eq!(compare_bytes(b"abc", b"abd"), Rank::Before);
    assert_eq!(compare_bytes(b"abd", b"abc"), Rank::After);
    assert_eq!(compare_bytes(b"ab", b"abc"), Rank::Before);
    assert_eq!(compare_bytes(b"b", b"abc"), Rank::After);
    assert_eq!(compare_bytes(&[0x7f], &[0x80]), Rank::Before);
    assert_eq!(compare_bytes(&[0xff], &[0x00, 0xff]), Rank::After);
}

#[test]
fn slots_compare_by_key_then_by_sequence_descending() {
    assert_eq!(compare_slots(b"a", 2, b"a", 1), Rank::Before);
    assert_eq!(compare_slots(b"a", 1, b"a", 2), Rank::After);
    assert_eq!(compare_slots(b"a", 1, b"a", 1), Rank::Same);
    assert_eq!(compare_slots(b"a", 1, b"b", 2), Rank::Before);
    assert_eq!(compare_slots(b"b", 2, b"a", 1), Rank::After);
    assert_eq!(compare_slots(b"a", u64::MAX, b"a", 0), Rank::Before);
}

#[test]
fn entries_are_kept_in_order() {
    let mut entries: Vec<Entry> = Vec::new();
    assert!(insert_sorted(&mut entries, Entry::new_value(1, b"b", b"b1")));
    assert!(insert_sorted(&mut entries, Entry::new_value(2, b"a", b"a2")));
    assert!(insert_sorted(&mut entries, Entry::new_value(3, b"b", b"b3")));
    assert!(insert_sorted(&mut entries, Entry::new_value(0, b"c", b"c0")));
    assert!(insert_sorted(&mut entries, Entry::new_deletion(4, b"a")));
    assert!(!insert_sorted(&mut entries, Entry::new_value(3, b"b", b"again")));
    let order: Vec<(Vec<u8>, u64)> = entries
        .iter()
        .map(|entry| (entry.key().to_vec(), entry.sequence_id()))
        .collect();
    assert_eq!(
        order,
        vec![
            (b"a".to_vec(), 4),
            (b"a".to_vec(), 2),
            (b"b".to_vec(), 3),
            (b"b".to_vec(), 1),
            (b"c".to_vec(), 0),
        ]
    );
    assert_eq!(entries[2].value(), Some(&b"b3"[..]));
    assert_eq!(lower_bound(&entries, b"a", u64::MAX), 0);
    assert_eq!(lower_bound(&entries, b"a", 3), 1);
    assert_eq!(lower_bound(&entries, b"b", u64::MAX), 2);
    assert_eq!(lower_bound(&entries, b"b", 1), 3);
    assert_eq!(lower_bound(&entries, b"bb", u64::MAX), 4);
    assert_eq!(lower_bound(&entries, b"d", 0), 5);
    assert_eq!(find_newest(&entries, b"a"), Some(0));
    assert_eq!(find_newest(&entries, b"b"), Some(2));
    assert_eq!(find_newest(&entries, b"c"), Some(4));
    assert_eq!(find_newest(&entries, b"bb"), None);
    assert_eq!(find_newest(&entries, b""), None);
}
