use roughdb::options::ValueType;
use roughdb::table::entry::{read_varu64, write_varu64, Entry};
use std::cmp::Ordering;
use std::mem::size_of;

#[test]
fn entry_new_value_is_value() {
    let entry = Entry::new_value(u64::MAX, b"Foo", b"Bar");
    assert_eq!(ValueType::Value as u8, entry.vtype() as u8);
}

#[test]
fn entry_saves_key() {
    let entry = Entry::new_value(u64::MIN, b"Foo", b"Bar");
    assert_eq!(b"Foo", entry.key());
}

#[test]
fn entry_key_value() {
    let entry = Entry::new_value(u64::MAX, b"Foo", b"Bar");
    let (key, value) = entry.key_value();
    assert_eq!(b"Foo", key);
    assert_eq!(b"Bar", value.unwrap());
}

#[test]
fn entry_saves_value() {
    let entry = Entry::new_value(2, b"Foo", b"Bar");
    assert_eq!(b"Bar", entry.value().unwrap());
}

#[test]
fn entry_new_deletion_is_deletion() {
    let entry = Entry::new_deletion(3, b"Foo");
    assert_eq!(ValueType::Deletion as u8, entry.vtype() as u8);
}

#[test]
fn entry_deletion_value_is_none() {
    let entry = Entry::new_deletion(4, b"Foo");
    assert!(entry.value().is_none());
}

#[test]
fn entry_entries_with_same_key_are_equal() {
    let entry = Entry::new_value(5, b"fizz", b"Bar");
    let other = Entry::new_value(6, b"fizz", b"Foo");
    assert_eq!(entry, other);
}

#[test]
fn entry_entries_with_different_keys_are_not_equal() {
    let entry = Entry::new_value(7, b"fizz", b"Bar");
    let noway = Entry::new_value(8, b"buzz", b"Bar");
    assert_ne!(noway, entry);
}

#[test]
fn entry_size() {
    assert_eq!(size_of::<Vec<u8>>(), size_of::<Entry>());
}

#[test]
fn entry_value_len() {
    let key = b"This is a very long key, that will be > 127 and klen will then be 2 bytes long\
         This is a very long key, that will be > 127 and klen will then be 2 bytes long\
         ";
    assert!(key.len() > 127);
    let value = b"fizz";
    let entry = Entry::new_value(42, key, value);
    assert_eq!(1 + 1 + 2 + key.len() + value.len(), entry.len());
}

#[test]
fn entry_deletion_len() {
    let key = b"Bar";
    let entry = Entry::new_deletion(42, key);
    assert_eq!(1 + 1 + 1 + key.len(), entry.len());
}

#[test]
fn owned_entry_reads_back_what_was_written() {
    let entry = Entry::new_value(300, b"ab", b"xyz");
    assert_eq!(entry.sequence_id(), 300);
    assert_eq!(entry.key(), b"ab");
    assert_eq!(entry.value(), Some(&b"xyz"[..]));
    assert_eq!(entry.len(), 1 + 2 + 1 + 2 + 3);
    assert!(!entry.is_empty());
    let gone = Entry::new_deletion(u64::MAX, b"");
    assert_eq!(gone.sequence_id(), u64::MAX);
    assert_eq!(gone.key(), b"");
    assert_eq!(gone.key_value(), (&b""[..], None));
    assert_eq!(gone.len(), 1 + 10 + 1);
    assert!(!gone.is_empty());
}

#[test]
fn owned_entry_keeps_bytes_that_are_no_text() {
    let key = [0xffu8, 0x00, 0x80];
    let value = [0x00u8, 0xff];
    let entry = Entry::new_value(1, &key, &value);
    assert_eq!(entry.key(), &key);
    assert_eq!(entry.value(), Some(&value[..]));
    let empty = Entry::new_value(1, b"", b"");
    assert_eq!(empty.key(), b"");
    assert_eq!(empty.value(), Some(&b""[..]));
}

#[test]
fn owned_lookup_key_is_an_empty_value_with_the_highest_sequence() {
    let probe = Entry::new_lookup_key(b"foo");
    assert_eq!(probe.key(), b"foo");
    assert_eq!(probe.sequence_id(), u64::MAX);
    assert_eq!(probe.vtype(), ValueType::Value);
    assert_eq!(probe.value(), Some(&b""[..]));
}

#[test]
fn owned_newer_entry_of_a_key_comes_first() {
    let older = Entry::new_value(1, b"a", b"x");
    let newer = Entry::new_value(2, b"a", b"y");
    let probe = Entry::new_lookup_key(b"a");
    let other = Entry::new_value(0, b"b", b"");
    assert_eq!(newer.cmp(&older), Ordering::Less);
    assert_eq!(older.cmp(&newer), Ordering::Greater);
    assert_eq!(older.cmp(&older), Ordering::Equal);
    assert_eq!(probe.cmp(&newer), Ordering::Less);
    assert_eq!(older.cmp(&other), Ordering::Less);
    assert!(newer < older);
    assert!(other > probe);
}

#[test]
fn entry_u64var_encoding() {
    let mut data = [0; 18];
    assert_eq!(write_varu64(&mut data, 0), 1);
    assert_eq!(read_varu64(&data), (0, 1));
    assert_eq!(write_varu64(&mut data, 127), 1);
    assert_eq!(read_varu64(&data), (127, 1));
    assert_eq!(write_varu64(&mut data, 128), 2);
    assert_eq!(read_varu64(&data), (128, 2));
    assert_eq!(write_varu64(&mut data, u64::MAX), 10);
    assert_eq!(read_varu64(&data), (u64::MAX, 10));
}
