use roughdb::error::Error;
use roughdb::memtable::arena::Arena;
use roughdb::memtable::Memtable;
use roughdb::Db;

#[test]
fn it_works() {
    let arena = Arena::default();
    let mut db = Db::new(&arena);
    assert_eq!(db.get(b"42"), None);
    db.put(b"42", b"An answer to some question").unwrap();
    assert_eq!(db.get(b"42"), Some(b"An answer to some question".to_vec()));
    db.delete(b"42").unwrap();
    assert_eq!(db.get(b"42"), None);
}

#[test]
fn frozen_table_answers_where_the_active_one_misses() {
    let arena = Arena::default();
    let mut frozen = Memtable::new(&arena);
    frozen.add(b"old", b"1").unwrap();
    frozen.add(b"both", b"frozen").unwrap();
    frozen.add(b"gone", b"3").unwrap();
    frozen.add(b"dead", b"4").unwrap();
    frozen.delete(b"dead").unwrap();
    let mut db = Db::with_tables(Memtable::new(&arena), Some(frozen));
    db.put(b"both", b"active").unwrap();
    db.put(b"new", b"2").unwrap();
    db.delete(b"gone").unwrap();
    assert_eq!(db.get(b"old"), Some(b"1".to_vec()));
    assert_eq!(db.get(b"both"), Some(b"active".to_vec()));
    assert_eq!(db.get(b"new"), Some(b"2".to_vec()));
    assert_eq!(db.get(b"gone"), None);
    assert_eq!(db.get(b"dead"), None);
    assert_eq!(db.get(b"never"), None);
}

#[test]
fn full_store_is_reported() {
    let arena = Arena::new(8);
    let mut db = Db::new(&arena);
    assert_eq!(
        db.put(b"key", b"a value too long for it"),
        Err(Error::CapacityExhausted)
    );
    assert_eq!(db.get(b"key"), None);
}
