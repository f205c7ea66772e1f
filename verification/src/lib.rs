//! A key-value store held in memory: the write buffer of a log-structured
//! storage engine.
//!
//! Writes and deletes go to the active memtable. Reads ask the active
//! memtable first and, where it knows nothing of the key, the frozen one.

pub mod error;
pub mod memtable;
pub mod options;
pub mod sorted;
pub mod table;
pub mod varint;
pub mod version;

use crate::error::Error;
use crate::memtable::arena::Arena;
use crate::memtable::entry::{deletion_len, value_len};
use crate::memtable::{lookup, write_outcome, Memtable, MemtableResult};
use crate::version::{table_wf, Version};
use vstd::prelude::*;

verus! {

/// What a read of `key` gives where the active table holds the versions
/// `active` and the frozen table, if there is one, the versions `frozen`.
/// The active table decides wherever it knows the key: a tombstone there
/// hides whatever the frozen table holds.
pub open spec fn read(active: Seq<Version>, frozen: Option<Seq<Version>>, key: Seq<u8>) -> Option<
    Seq<u8>,
> {
    match lookup(active, key) {
        MemtableResult::Hit(value) => Some(value),
        MemtableResult::Deleted => None,
        MemtableResult::Miss => match frozen {
            Some(versions) => match lookup(versions, key) {
                MemtableResult::Hit(value) => Some(value),
                _ => None,
            },
            None => None,
        },
    }
}

/// The store: the active memtable, which takes the writes, and a frozen
/// one, which is only read.
pub struct Db<'a> {
    mem: Memtable<'a>,
    imm: Option<Memtable<'a>>,
}

impl<'a> Db<'a> {
    /// The active memtable.
    pub closed spec fn active(&self) -> Memtable<'a> {
        self.mem
    }

    /// The frozen memtable, if there is one.
    pub closed spec fn frozen(&self) -> Option<Memtable<'a>> {
        self.imm
    }

    /// The versions that the frozen memtable holds, if there is one.
    pub open spec fn frozen_versions(&self) -> Option<Seq<Version>> {
        match self.frozen() {
            Some(table) => Some(table@),
            None => None,
        }
    }

    /// An empty store that keeps its records in `arena`.
    pub fn new(arena: &'a Arena) -> (db: Db<'a>)
        ensures
            db.active()@ == Seq::<Version>::empty(),
            db.active().next_sequence() == 0,
            db.active().capacity() == arena.capacity(),
            db.frozen() is None,
    {
        Db { mem: Memtable::new(arena), imm: None }
    }

    /// A store with `mem` as its active memtable and `imm` as its frozen
    /// one.
    pub fn with_tables(mem: Memtable<'a>, imm: Option<Memtable<'a>>) -> (db: Db<'a>)
        ensures
            db.active() == mem,
            db.frozen() == imm,
    {
        Db { mem, imm }
    }

    /// The value of `key`, or `None` where the key was deleted or never
    /// written. The frozen memtable is asked only where the active one
    /// holds no version of the key.
    pub fn get(&self, key: &[u8]) -> (r: Option<Vec<u8>>)
        ensures
            match r {
                Some(value) => read(self.active()@, self.frozen_versions(), key@) == Some(value@),
                None => read(self.active()@, self.frozen_versions(), key@) is None,
            },
    {
        match self.mem.get(key) {
            MemtableResult::Hit(value) => Some(value),
            MemtableResult::Deleted => None,
            MemtableResult::Miss => match &self.imm {
                Some(table) => match table.get(key) {
                    MemtableResult::Hit(value) => Some(value),
                    _ => None,
                },
                None => None,
            },
        }
    }

    /// Writes `value` under `key` to the active memtable. The frozen one
    /// stays as it is. Fails as `Memtable::add` does.
    pub fn put(&mut self, key: &[u8], value: &[u8]) -> (r: Result<(), Error>)
        ensures
            final(self).frozen() == old(self).frozen(),
            final(self).active().capacity() == old(self).active().capacity(),
            table_wf(final(self).active()@, final(self).active().next_sequence()),
            write_outcome(
                old(self).active()@,
                old(self).active().next_sequence(),
                key@,
                Some(value@),
                r,
                final(self).active()@,
                final(self).active().next_sequence(),
            ),
            old(self).active().next_sequence() == u64::MAX ==> r is Err,
            value_len(key@, old(self).active().next_sequence(), value@) > old(
                self,
            ).active().capacity() ==> r is Err,
    {
        self.mem.add(key, value)
    }

    /// Deletes `key` in the active memtable: a tombstone there hides what
    /// the frozen one holds. The frozen one stays as it is. Fails as
    /// `Memtable::delete` does.
    pub fn delete(&mut self, key: &[u8]) -> (r: Result<(), Error>)
        ensures
            final(self).frozen() == old(self).frozen(),
            final(self).active().capacity() == old(self).active().capacity(),
            table_wf(final(self).active()@, final(self).active().next_sequence()),
            write_outcome(
                old(self).active()@,
                old(self).active().next_sequence(),
                key@,
                None,
                r,
                final(self).active()@,
                final(self).active().next_sequence(),
            ),
            old(self).active().next_sequence() == u64::MAX ==> r is Err,
            deletion_len(key@, old(self).active().next_sequence()) > old(
                self,
            ).active().capacity() ==> r is Err,
    {
        self.mem.delete(key)
    }
}

} // verus!
