use roughdb::table::entry::Entry;
use roughdb::table::memtable::Memtable;
use std::str::from_utf8;

#[test]
fn memtable_creates_memtable() {
    let table = Memtable::new();
    assert_eq!(0, table.len());
}

#[test]
fn memtable_insert_get() {
    let mut table = Memtable::new();
    table.add(b"foo", b"bar").unwrap();
    assert_eq!(b"bar", table.get(b"foo").unwrap().as_slice());
}

#[test]
fn memtable_replace_get() {
    let mut table = Memtable::new();
    table.add(b"foo", b"foo").unwrap();
    assert_eq!(b"foo", table.get(b"foo").unwrap().as_slice());
    table.add(b"foo", b"bar").unwrap();
    assert_eq!(b"bar", table.get(b"foo").unwrap().as_slice());
}

#[test]
fn memtable_miss_get() {
    let mut table = Memtable::new();
    table.add(b"foo", b"bar").unwrap();
    assert!(table.get(b"bar").is_none());
}

#[test]
fn miss_deleted() {
    let mut table = Memtable::new();
    table.add(b"foo", b"bar").unwrap();
    table.delete(b"foo").unwrap();
    assert!(table.get(b"foo").is_none());
}

#[test]
fn memtable_lifecycle() {
    let mut table = Memtable::new();
    {
        let foo = String::from("foo");
        table.add(foo.as_bytes(), foo.as_bytes()).unwrap();
        let value = table.get(b"foo").unwrap();
        assert_eq!("foo", from_utf8(value.as_ref()).unwrap());
    }
    {
        let sparkle_heart = String::from("ðŸ’–");
        table.add(b"foo", sparkle_heart.as_bytes()).unwrap();
    }
    let value = table.get(b"foo").unwrap();
    assert_eq!("ðŸ’–", from_utf8(value.as_ref()).unwrap());
    table.delete(b"foo").unwrap();
    assert_eq!(3, table.len());
}

#[test]
fn owned_table_default_is_empty() {
    let table = Memtable::default();
    assert_eq!(table.len(), 0);
    assert!(table.get(b"anything").is_none());
}

#[test]
fn owned_table_keeps_keys_apart() {
    let mut table = Memtable::new();
    table.add(b"b", b"2").unwrap();
    table.add(b"a", b"1").unwrap();
    table.add(b"c", b"3").unwrap();
    table.add(b"", b"0").unwrap();
    table.add(b"b", b"22").unwrap();
    assert_eq!(table.get(b"a"), Some(b"1".to_vec()));
    assert_eq!(table.get(b"b"), Some(b"22".to_vec()));
    assert_eq!(table.get(b"c"), Some(b"3".to_vec()));
    assert_eq!(table.get(b""), Some(b"0".to_vec()));
    assert_eq!(table.get(b"ab"), None);
    assert_eq!(table.len(), 5);
}

#[test]
fn owned_table_highest_sequence_wins() {
    let mut table = Memtable::new();
    let one = table.next_seq().unwrap();
    let two = table.next_seq().unwrap();
    assert_eq!((one, two), (0, 1));
    assert!(table.insert(Entry::new_value(two, b"a", b"y")));
    assert!(table.insert(Entry::new_value(one, b"a", b"x")));
    assert!(!table.insert(Entry::new_value(one, b"a", b"z")));
    assert_eq!(table.get(b"a"), Some(b"y".to_vec()));
    assert_eq!(table.len(), 2);
}
