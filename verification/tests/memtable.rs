use roughdb::error::Error;
use roughdb::memtable::arena::Arena;
use roughdb::memtable::entry::Entry;
use roughdb::memtable::{Memtable, MemtableResult};
use std::str::from_utf8;

#[test]
fn mod_creates_memtable() {
    let arena = Arena::default();
    let table = Memtable::new(&arena);
    assert_eq!(0, table.len());
}

#[test]
fn mod_insert_get() {
    let arena = Arena::default();
    let mut table = Memtable::new(&arena);
    table.add(b"foo", b"bar").unwrap();
    assert_eq!(b"bar", table.get(b"foo").unwrap_value().as_slice());
}

#[test]
fn mod_replace_get() {
    let arena = Arena::default();
    let mut table = Memtable::new(&arena);
    table.add(b"foo", b"foo").unwrap();
    assert_eq!(b"foo", table.get(b"foo").unwrap_value().as_slice());
    table.add(b"foo", b"bar").unwrap();
    assert_eq!(b"bar", table.get(b"foo").unwrap_value().as_slice());
}

#[test]
fn mod_miss_get() {
    let arena = Arena::default();
    let mut table = Memtable::new(&arena);
    table.add(b"foo", b"bar").unwrap();
    assert_eq!(table.get(b"bar"), MemtableResult::Miss);
}

#[test]
fn miss_empty() {
    let arena = Arena::default();
    let table = Memtable::new(&arena);
    assert_eq!(table.get(b"foo"), MemtableResult::Miss);
}

#[test]
fn hit_deleted() {
    let arena = Arena::default();
    let mut table = Memtable::new(&arena);
    table.add(b"foo", b"bar").unwrap();
    table.delete(b"foo").unwrap();
    assert_eq!(table.get(b"foo"), MemtableResult::Deleted);
}

#[test]
fn mod_lifecycle() {
    let arena = Arena::default();
    let mut table = Memtable::new(&arena);
    {
        let foo = String::from("foo");
        table.add(foo.as_bytes(), foo.as_bytes()).unwrap();
        let value = table.get(b"foo").unwrap_value();
        assert_eq!("foo", from_utf8(value.as_ref()).unwrap());
    }
    {
        let sparkle_heart = String::from("ðŸ’–");
        table.add(b"foo", sparkle_heart.as_bytes()).unwrap();
    }
    let value = table.get(b"foo").unwrap_value();
    assert_eq!("ðŸ’–", from_utf8(value.as_ref()).unwrap());
    table.delete(b"foo").unwrap();
    assert_eq!(3, table.len());
}

#[test]
fn key_isolation() {
    let arena = Arena::default();
    let mut table = Memtable::new(&arena);
    table.add(b"foo", b"bar").unwrap();
    assert_eq!(table.get(b"buzz"), MemtableResult::Miss);
    assert_eq!(table.get(b"fo"), MemtableResult::Miss);
    assert_eq!(table.get(b"fooo"), MemtableResult::Miss);
    assert_eq!(table.get(b""), MemtableResult::Miss);
}

#[test]
fn round_trip_of_empty_and_binary_bytes() {
    let arena = Arena::default();
    let mut table = Memtable::new(&arena);
    table.add(b"", b"").unwrap();
    assert_eq!(table.get(b""), MemtableResult::Hit(vec![]));
    let key = [0xffu8, 0x00, 0xfe];
    let value = [0x00u8, 0x80, 0xff, 0xc3, 0x28];
    table.add(&key, &value).unwrap();
    assert_eq!(table.get(&key), MemtableResult::Hit(value.to_vec()));
    assert_eq!(table.get(b""), MemtableResult::Hit(vec![]));
}

#[test]
fn delete_of_a_key_never_written() {
    let arena = Arena::default();
    let mut table = Memtable::new(&arena);
    table.delete(b"ghost").unwrap();
    assert_eq!(table.get(b"ghost"), MemtableResult::Deleted);
    assert_eq!(table.len(), 1);
}

#[test]
fn write_after_delete_is_found() {
    let arena = Arena::default();
    let mut table = Memtable::new(&arena);
    table.add(b"k", b"1").unwrap();
    table.delete(b"k").unwrap();
    table.add(b"k", b"2").unwrap();
    assert_eq!(table.get(b"k"), MemtableResult::Hit(b"2".to_vec()));
    assert_eq!(table.len(), 3);
}

#[test]
fn many_keys_in_any_order() {
    let arena = Arena::default();
    let mut table = Memtable::new(&arena);
    let keys: [&[u8]; 7] = [b"m", b"a", b"z", b"mm", b"", b"b", b"y"];
    for (i, key) in keys.iter().enumerate() {
        table.add(key, &[i as u8]).unwrap();
    }
    for (i, key) in keys.iter().enumerate() {
        table.add(key, &[100 + i as u8]).unwrap();
    }
    table.delete(b"z").unwrap();
    for (i, key) in keys.iter().enumerate() {
        if *key == b"z" {
            assert_eq!(table.get(key), MemtableResult::Deleted);
        } else {
            assert_eq!(table.get(key), MemtableResult::Hit(vec![100 + i as u8]));
        }
    }
    assert_eq!(table.get(b"n"), MemtableResult::Miss);
    assert_eq!(table.len(), 15);
}

#[test]
fn sequence_numbers_count_up_from_zero() {
    let arena = Arena::default();
    let mut table = Memtable::new(&arena);
    assert_eq!(table.next_seq(), Ok(0));
    assert_eq!(table.next_seq(), Ok(1));
    table.add(b"k", b"v").unwrap();
    assert_eq!(table.next_seq(), Ok(3));
}

#[test]
fn highest_sequence_wins_whatever_the_insertion_order() {
    let arena = Arena::default();
    let first = {
        let mut table = Memtable::new(&arena);
        let one = table.next_seq().unwrap();
        let two = table.next_seq().unwrap();
        assert!(table.insert(Entry::new_value(&arena, one, b"a", b"x").unwrap()));
        assert!(table.insert(Entry::new_value(&arena, two, b"a", b"y").unwrap()));
        table.get(b"a")
    };
    let second = {
        let mut table = Memtable::new(&arena);
        let one = table.next_seq().unwrap();
        let two = table.next_seq().unwrap();
        assert!(table.insert(Entry::new_value(&arena, two, b"a", b"y").unwrap()));
        assert!(table.insert(Entry::new_value(&arena, one, b"a", b"x").unwrap()));
        table.get(b"a")
    };
    assert_eq!(first, MemtableResult::Hit(b"y".to_vec()));
    assert_eq!(second, MemtableResult::Hit(b"y".to_vec()));
}

#[test]
fn insert_keeps_the_first_of_a_slot() {
    let arena = Arena::default();
    let mut table = Memtable::new(&arena);
    let sequence = table.next_seq().unwrap();
    assert!(table.insert(Entry::new_value(&arena, sequence, b"a", b"x").unwrap()));
    assert!(!table.insert(Entry::new_value(&arena, sequence, b"a", b"y").unwrap()));
    assert_eq!(table.len(), 1);
    assert_eq!(table.get(b"a"), MemtableResult::Hit(b"x".to_vec()));
}

#[test]
fn full_arena_is_reported() {
    let arena = Arena::new(16);
    let mut table = Memtable::new(&arena);
    assert_eq!(
        table.add(b"key", b"a value that is longer than the arena"),
        Err(Error::CapacityExhausted)
    );
    assert_eq!(table.len(), 0);
    assert_eq!(table.get(b"key"), MemtableResult::Miss);
    assert_eq!(
        table.delete(b"a key that is longer than the arena"),
        Err(Error::CapacityExhausted)
    );
    assert_eq!(table.len(), 0);
    assert_eq!(table.next_seq(), Ok(2));
}

#[test]
fn unwrap_value_gives_the_hit() {
    assert_eq!(MemtableResult::Hit(5).unwrap_value(), 5);
}
