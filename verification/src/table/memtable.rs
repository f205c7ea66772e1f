//! A memtable whose entries own their records.
//!
//! A write adds a version with the next sequence number; a delete adds a
//! tombstone the same way and removes nothing. A lookup gives the value of
//! the newest version of the key, and nothing for a deleted key or for one
//! that was never written.

use crate::error::Error;
use crate::memtable::write_outcome;
use crate::sorted::{find_newest, insert_sorted, versions};
use crate::table::entry::Entry;
use crate::version::{
    insert_version, lemma_insert_keeps_sequences_below, newest_value, same_slot, table_wf,
    Version,
};
use vstd::prelude::*;
use vstd::slice::slice_to_vec;

verus! {

/// The versions written so far, newest first for each key, and the counter
/// that numbers them.
pub struct Memtable {
    table: Vec<Entry>,
    sequence: u64,
}

impl View for Memtable {
    type V = Seq<Version>;

    /// The versions that the table holds, in the order of the table.
    closed spec fn view(&self) -> Seq<Version> {
        versions(self.table@)
    }
}

impl Memtable {
    /// The entries are in the order of the table, and every sequence number
    /// among them has been given out by the counter.
    #[verifier::type_invariant]
    spec fn well_formed(&self) -> bool {
        table_wf(versions(self.table@), self.sequence)
    }

    /// The sequence number that the next write or delete gets.
    pub closed spec fn next_sequence(&self) -> u64 {
        self.sequence
    }

    /// An empty table.
    pub fn new() -> (table: Memtable)
        ensures
            table@ == Seq::<Version>::empty(),
            table.next_sequence() == 0,
    {
        let table: Vec<Entry> = Vec::new();
        proof {
            assert(versions(table@) =~= Seq::<Version>::empty());
        }
        Memtable { table, sequence: 0 }
    }

    /// The number of versions that the table holds.
    pub fn len(&self) -> (len: usize)
        ensures
            len == self@.len(),
    {
        self.table.len()
    }

    /// Gives out the next sequence number. Fails once all of them have been
    /// given out.
    pub fn next_seq(&mut self) -> (r: Result<u64, Error>)
        ensures
            final(self)@ == old(self)@,
            table_wf(final(self)@, final(self).next_sequence()),
            match r {
                Ok(sequence) => {
                    &&& sequence == old(self).next_sequence()
                    &&& final(self).next_sequence() == sequence + 1
                },
                Err(e) => {
                    &&& e == Error::SequenceExhausted
                    &&& old(self).next_sequence() == u64::MAX
                    &&& final(self).next_sequence() == u64::MAX
                },
            },
    {
        proof {
            use_type_invariant(&*self);
        }
        let sequence = self.sequence;
        if sequence == u64::MAX {
            Err(Error::SequenceExhausted)
        } else {
            self.sequence = sequence + 1;
            Ok(sequence)
        }
    }

    /// Puts an entry in its place in the table and says whether it went in.
    /// Where the table already holds a version of the same key with the same
    /// sequence number, the table stays as it is. The sequence number of the
    /// entry has to be one that the table gave out.
    pub fn insert(&mut self, entry: Entry) -> (added: bool)
        requires
            entry@.sequence < old(self).next_sequence(),
        ensures
            final(self)@ == insert_version(old(self)@, entry@),
            final(self).next_sequence() == old(self).next_sequence(),
            table_wf(final(self)@, final(self).next_sequence()),
            added <==> forall|i: int|
                0 <= i < old(self)@.len() ==> !same_slot(#[trigger] old(self)@[i], entry@),
    {
        proof {
            use_type_invariant(&*self);
            lemma_insert_keeps_sequences_below(versions(self.table@), entry@, self.sequence);
        }
        let mut table: Vec<Entry> = Vec::new();
        proof {
            assert(versions(table@) =~= Seq::<Version>::empty());
        }
        std::mem::swap(&mut self.table, &mut table);
        let ghost before = versions(table@);
        let added = insert_sorted(&mut table, entry);
        std::mem::swap(&mut self.table, &mut table);
        proof {
            assert(before == old(self)@);
            if added {
                assert forall|i: int| 0 <= i < old(self)@.len() implies !same_slot(
                    #[trigger] old(self)@[i],
                    entry@,
                ) by {
                    assert(!same_slot(before[i], entry@));
                }
            } else {
                let i = choose|i: int|
                    0 <= i < before.len() && same_slot(#[trigger] before[i], entry@);
                assert(same_slot(old(self)@[i], entry@));
            }
        }
        added
    }

    /// Records `value` as the newest version of `key`. Fails, without a
    /// change, only where every sequence number has been given out.
    pub fn add(&mut self, key: &[u8], value: &[u8]) -> (r: Result<(), Error>)
        ensures
            table_wf(final(self)@, final(self).next_sequence()),
            write_outcome(
                old(self)@,
                old(self).next_sequence(),
                key@,
                Some(value@),
                r,
                final(self)@,
                final(self).next_sequence(),
            ),
            r is Ok <==> old(self).next_sequence() < u64::MAX,
    {
        let sequence = match self.next_seq() {
            Ok(sequence) => sequence,
            Err(e) => {
                return Err(e);
            },
        };
        self.insert(Entry::new_value(sequence, key, value));
        Ok(())
    }

    /// Records that `key` was deleted: a tombstone becomes its newest
    /// version. Nothing is removed, and the key need not have been written.
    /// Fails, without a change, only where every sequence number has been
    /// given out.
    pub fn delete(&mut self, key: &[u8]) -> (r: Result<(), Error>)
        ensures
            table_wf(final(self)@, final(self).next_sequence()),
            write_outcome(
                old(self)@,
                old(self).next_sequence(),
                key@,
                None,
                r,
                final(self)@,
                final(self).next_sequence(),
            ),
            r is Ok <==> old(self).next_sequence() < u64::MAX,
    {
        let sequence = match self.next_seq() {
            Ok(sequence) => sequence,
            Err(e) => {
                return Err(e);
            },
        };
        self.insert(Entry::new_deletion(sequence, key));
        Ok(())
    }

    /// The value of the newest version of `key`; `None` where the key was
    /// deleted or never written.
    pub fn get(&self, key: &[u8]) -> (r: Option<Vec<u8>>)
        ensures
            match r {
                Some(value) => newest_value(self@, key@) == Some(value@),
                None => newest_value(self@, key@) is None,
            },
    {
        proof {
            use_type_invariant(self);
        }
        match find_newest(&self.table, key) {
            Some(at) => match self.table[at].value() {
                Some(value) => Some(slice_to_vec(value)),
                None => None,
            },
            None => None,
        }
    }
}

impl Default for Memtable {
    fn default() -> (table: Memtable)
        ensures
            table@ == Seq::<Version>::empty(),
            table.next_sequence() == 0,
    {
        Memtable::new()
    }
}

} // verus!
