//! The memtable: the versions of keys written so far, kept in the order of
//! the table, with their records held by an arena.
//!
//! A write adds a version with the next sequence number; a delete adds a
//! tombstone the same way and removes nothing. A lookup gives what the
//! newest version of the key says.

pub mod arena;
pub mod entry;

use crate::error::Error;
use crate::memtable::arena::Arena;
use crate::memtable::entry::{deletion_len, value_len, Entry};
use crate::sorted::{find_newest, insert_sorted, versions};
use crate::version::{
    insert_version, lemma_insert_keeps_sequences_below, lemma_insert_keeps_wf,
    lemma_insert_order_irrelevant, lemma_newest_after_insert, lemma_newest_is_highest,
    lemma_newest_of_other_key, newest, ordered, same_slot, table_wf, Version,
};
use vstd::prelude::*;
use vstd::slice::slice_to_vec;

verus! {

/// What a lookup found.
#[derive(Debug, PartialEq)]
pub enum MemtableResult<T> {
    /// The key was never written: an older table may still know it.
    Miss,
    /// The newest version of the key is a tombstone: the key is gone,
    /// whatever any older table holds.
    Deleted,
    /// The newest version of the key holds this value.
    Hit(T),
}

impl<T: View> View for MemtableResult<T> {
    type V = MemtableResult<T::V>;

    open spec fn view(&self) -> MemtableResult<T::V> {
        match self {
            MemtableResult::Miss => MemtableResult::Miss,
            MemtableResult::Deleted => MemtableResult::Deleted,
            MemtableResult::Hit(value) => MemtableResult::Hit(value@),
        }
    }
}

impl<T> MemtableResult<T> {
    /// The value that was found. Only for a hit.
    pub fn unwrap_value(self) -> (value: T)
        requires
            self is Hit,
        ensures
            value == self->Hit_0,
    {
        match self {
            MemtableResult::Hit(value) => value,
            _ => vstd::pervasive::unreached(),
        }
    }
}

/// What a lookup of `key` finds in a table that holds the versions `s`: what
/// the version of `key` with the highest sequence number says.
pub open spec fn lookup(s: Seq<Version>, key: Seq<u8>) -> MemtableResult<Seq<u8>> {
    match newest(s, key) {
        None => MemtableResult::Miss,
        Some(version) => match version.value {
            Some(value) => MemtableResult::Hit(value),
            None => MemtableResult::Deleted,
        },
    }
}

/// What a write or delete of `key` does to a table that holds the versions
/// `before` and would give out `next` as its next sequence number: `value`
/// is what was written, `None` for a delete.
///
/// It succeeds and the new version goes in with the sequence number `next`;
/// or it fails for want of sequence numbers and changes nothing; or it fails
/// for want of room, which spends the sequence number and leaves the
/// versions as they were.
pub open spec fn write_outcome(
    before: Seq<Version>,
    next: u64,
    key: Seq<u8>,
    value: Option<Seq<u8>>,
    r: Result<(), Error>,
    after: Seq<Version>,
    next_after: u64,
) -> bool {
    match r {
        Ok(()) => {
            &&& next < u64::MAX
            &&& next_after == next + 1
            &&& after == insert_version(before, Version { key, sequence: next, value })
        },
        Err(Error::SequenceExhausted) => {
            &&& next == u64::MAX
            &&& next_after == next
            &&& after == before
        },
        Err(Error::CapacityExhausted) => {
            &&& next < u64::MAX
            &&& next_after == next + 1
            &&& after == before
        },
        Err(Error::Corruption) => false,
    }
}

/// The versions written so far, newest first for each key, and the counter
/// that numbers them. The records lie in an arena that outlives the table.
pub struct Memtable<'a> {
    table: Vec<Entry<'a>>,
    sequence: u64,
    arena: &'a Arena,
}

impl<'a> View for Memtable<'a> {
    type V = Seq<Version>;

    /// The versions that the table holds, in the order of the table.
    closed spec fn view(&self) -> Seq<Version> {
        versions(self.table@)
    }
}

impl<'a> Memtable<'a> {
    /// The entries are in the order of the table, and every sequence number
    /// among them has been given out by the counter.
    #[verifier::type_invariant]
    spec fn well_formed(&self) -> bool {
        table_wf(versions(self.table@), self.sequence)
    }

    /// The sequence number that the next write or delete gets.
    pub closed spec fn next_sequence(&self) -> u64 {
        self.sequence
    }

    /// The capacity of the arena that holds the records.
    pub closed spec fn capacity(&self) -> usize {
        self.arena.capacity()
    }

    /// An empty table that keeps its records in `arena`.
    pub fn new(arena: &'a Arena) -> (table: Memtable<'a>)
        ensures
            table@ == Seq::<Version>::empty(),
            table.next_sequence() == 0,
            table.capacity() == arena.capacity(),
    {
        let table: Vec<Entry<'a>> = Vec::new();
        proof {
            assert(versions(table@) =~= Seq::<Version>::empty());
        }
        Memtable { table, sequence: 0, arena }
    }

    /// The number of versions that the table holds.
    pub fn len(&self) -> (len: usize)
        ensures
            len == self@.len(),
    {
        self.table.len()
    }

    /// Gives out the next sequence number. Fails once all of them have been
    /// given out.
    pub fn next_seq(&mut self) -> (r: Result<u64, Error>)
        ensures
            final(self)@ == old(self)@,
            final(self).capacity() == old(self).capacity(),
            table_wf(final(self)@, final(self).next_sequence()),
            match r {
                Ok(sequence) => {
                    &&& sequence == old(self).next_sequence()
                    &&& final(self).next_sequence() == sequence + 1
                },
                Err(e) => e == Error::SequenceExhausted && old(self).next_sequence() == u64::MAX
                    && final(self).next_sequence() == u64::MAX,
            },
    {
        proof {
            use_type_invariant(&*self);
        }
        let sequence = self.sequence;
        if sequence == u64::MAX {
            Err(Error::SequenceExhausted)
        } else {
            self.sequence = sequence + 1;
            Ok(sequence)
        }
    }

    /// Puts an entry in its place in the table and says whether it went in.
    /// Where the table already holds a version of the same key with the same
    /// sequence number, the table stays as it is. The sequence number of the
    /// entry has to be one that the table gave out.
    pub fn insert(&mut self, entry: Entry<'a>) -> (added: bool)
        requires
            entry@.sequence < old(self).next_sequence(),
        ensures
            final(self)@ == insert_version(old(self)@, entry@),
            final(self).next_sequence() == old(self).next_sequence(),
            final(self).capacity() == old(self).capacity(),
            table_wf(final(self)@, final(self).next_sequence()),
            added <==> forall|i: int|
                0 <= i < old(self)@.len() ==> !same_slot(
                    #[trigger] old(self)@[i],
                    entry@,
                ),
    {
        proof {
            use_type_invariant(&*self);
            lemma_insert_keeps_sequences_below(versions(self.table@), entry@, self.sequence);
        }
        let mut table: Vec<Entry<'a>> = Vec::new();
        proof {
            assert(versions(table@) =~= Seq::<Version>::empty());
        }
        std::mem::swap(&mut self.table, &mut table);
        let ghost before = versions(table@);
        let added = insert_sorted(&mut table, entry);
        std::mem::swap(&mut self.table, &mut table);
        proof {
            assert(before == old(self)@);
            if added {
                assert forall|i: int| 0 <= i < old(self)@.len() implies !same_slot(
                    #[trigger] old(self)@[i],
                    entry@,
                ) by {
                    assert(!same_slot(before[i], entry@));
                }
            } else {
                let i = choose|i: int|
                    0 <= i < before.len() && same_slot(
                        #[trigger] before[i],
                        entry@,
                    );
                assert(same_slot(old(self)@[i], entry@));
            }
        }
        added
    }

    /// Records `value` as the newest version of `key`.
    ///
    /// Fails without a change where every sequence number has been given
    /// out. Else the write takes the next sequence number and asks the arena
    /// for room: where the arena has none, the write fails and leaves the
    /// versions as they were. A record longer than the arena's capacity
    /// never finds room.
    pub fn add(&mut self, key: &[u8], value: &[u8]) -> (r: Result<(), Error>)
        ensures
            final(self).capacity() == old(self).capacity(),
            table_wf(final(self)@, final(self).next_sequence()),
            write_outcome(
                old(self)@,
                old(self).next_sequence(),
                key@,
                Some(value@),
                r,
                final(self)@,
                final(self).next_sequence(),
            ),
            old(self).next_sequence() == u64::MAX ==> r is Err,
            value_len(key@, old(self).next_sequence(), value@) > old(self).capacity() ==> r is Err,
    {
        let sequence = match self.next_seq() {
            Ok(sequence) => sequence,
            Err(e) => {
                return Err(e);
            },
        };
        match Entry::new_value(self.arena, sequence, key, value) {
            Some(entry) => {
                self.insert(entry);
                Ok(())
            },
            None => Err(Error::CapacityExhausted),
        }
    }

    /// Records that `key` was deleted: a tombstone becomes its newest
    /// version. Nothing is removed, and the key need not have been written.
    ///
    /// Fails as `add` does: without a change where every sequence number
    /// has been given out, and with the sequence number spent where the
    /// arena has no room.
    pub fn delete(&mut self, key: &[u8]) -> (r: Result<(), Error>)
        ensures
            final(self).capacity() == old(self).capacity(),
            table_wf(final(self)@, final(self).next_sequence()),
            write_outcome(
                old(self)@,
                old(self).next_sequence(),
                key@,
                None,
                r,
                final(self)@,
                final(self).next_sequence(),
            ),
            old(self).next_sequence() == u64::MAX ==> r is Err,
            deletion_len(key@, old(self).next_sequence()) > old(self).capacity() ==> r is Err,
    {
        let sequence = match self.next_seq() {
            Ok(sequence) => sequence,
            Err(e) => {
                return Err(e);
            },
        };
        match Entry::new_deletion(self.arena, sequence, key) {
            Some(entry) => {
                self.insert(entry);
                Ok(())
            },
            None => Err(Error::CapacityExhausted),
        }
    }

    /// Looks `key` up: finds the first entry that does not come before the
    /// lookup key of `key`. That entry is the newest version of `key` if the
    /// table holds one at all.
    pub fn get(&self, key: &[u8]) -> (r: MemtableResult<Vec<u8>>)
        ensures
            r@ == lookup(self@, key@),
    {
        proof {
            use_type_invariant(self);
        }
        match find_newest(&self.table, key) {
            Some(at) => match self.table[at].value() {
                Some(value) => MemtableResult::Hit(slice_to_vec(value)),
                None => MemtableResult::Deleted,
            },
            None => MemtableResult::Miss,
        }
    }
}

/// Round trip: in a table whose sequence numbers are all below `next`, a
/// lookup of a key right after a write to it with the sequence number `next`
/// finds the value that was written, whatever the bytes of key and value.
pub proof fn lemma_add_then_get(s: Seq<Version>, next: u64, key: Seq<u8>, value: Seq<u8>)
    requires
        table_wf(s, next),
    ensures
        lookup(insert_version(s, Version { key, sequence: next, value: Some(value) }), key)
            == MemtableResult::Hit(value),
{
    lemma_newest_after_insert(s, Version { key, sequence: next, value: Some(value) });
}

/// A lookup of a key right after a delete of it with the sequence number
/// `next` finds that it was deleted, whether or not it had been written.
pub proof fn lemma_delete_then_get(s: Seq<Version>, next: u64, key: Seq<u8>)
    requires
        table_wf(s, next),
    ensures
        lookup(insert_version(s, Version { key, sequence: next, value: None }), key)
            == MemtableResult::<Seq<u8>>::Deleted,
{
    lemma_newest_after_insert(s, Version { key, sequence: next, value: None });
}

/// Tombstone precedence: after a write to a key and then a delete of it, a
/// lookup finds that it was deleted: neither a miss nor the value.
pub proof fn lemma_add_delete_then_get(s: Seq<Version>, next: u64, key: Seq<u8>, value: Seq<u8>)
    requires
        table_wf(s, next),
        next < u64::MAX,
    ensures
        lookup(
            insert_version(
                insert_version(s, Version { key, sequence: next, value: Some(value) }),
                Version { key, sequence: (next + 1) as u64, value: None },
            ),
            key,
        ) == MemtableResult::<Seq<u8>>::Deleted,
{
    let written = Version { key, sequence: next, value: Some(value) };
    lemma_insert_keeps_wf(s, written, next);
    lemma_delete_then_get(insert_version(s, written), (next + 1) as u64, key);
}

/// Last write wins: after two writes to a key, a lookup finds the value of
/// the second.
pub proof fn lemma_last_write_wins(
    s: Seq<Version>,
    next: u64,
    key: Seq<u8>,
    first: Seq<u8>,
    second: Seq<u8>,
)
    requires
        table_wf(s, next),
        next < u64::MAX,
    ensures
        lookup(
            insert_version(
                insert_version(s, Version { key, sequence: next, value: Some(first) }),
                Version { key, sequence: (next + 1) as u64, value: Some(second) },
            ),
            key,
        ) == MemtableResult::Hit(second),
{
    let written = Version { key, sequence: next, value: Some(first) };
    lemma_insert_keeps_wf(s, written, next);
    lemma_add_then_get(insert_version(s, written), (next + 1) as u64, key, second);
}

/// Among the versions of a key, the one with the highest sequence number
/// decides what a lookup finds; a lookup misses only where there is none.
pub proof fn lemma_highest_sequence_decides(s: Seq<Version>, key: Seq<u8>)
    ensures
        lookup(s, key) is Miss <==> forall|i: int| 0 <= i < s.len() ==> (#[trigger] s[i]).key != key,
        !(lookup(s, key) is Miss) ==> exists|i: int|
            {
                &&& 0 <= i < s.len()
                &&& (#[trigger] s[i]).key == key
                &&& forall|j: int|
                    0 <= j < s.len() && (#[trigger] s[j]).key == key ==> s[j].sequence
                        <= s[i].sequence
                &&& lookup(s, key) == match s[i].value {
                    Some(value) => MemtableResult::Hit(value),
                    None => MemtableResult::Deleted,
                }
            },
{
    lemma_newest_is_highest(s, key);
    match newest(s, key) {
        Some(v) => {
            let i = choose|i: int| 0 <= i < s.len() && s[i] == v;
            assert(s[i].key == key);
        },
        None => {},
    }
}

/// The order in which two writes or deletes reach the table does not matter
/// for what a lookup finds afterwards.
pub proof fn lemma_lookup_ignores_insertion_order(
    s: Seq<Version>,
    a: Version,
    b: Version,
    key: Seq<u8>,
)
    requires
        ordered(s),
        !same_slot(a, b),
    ensures
        lookup(insert_version(insert_version(s, a), b), key) == lookup(
            insert_version(insert_version(s, b), a),
            key,
        ),
{
    lemma_insert_order_irrelevant(s, a, b, key);
}

/// Key isolation: a write or delete of one key changes nothing for a lookup
/// of any other key.
pub proof fn lemma_other_keys_unchanged(s: Seq<Version>, v: Version, key: Seq<u8>)
    requires
        key != v.key,
    ensures
        lookup(insert_version(s, v), key) == lookup(s, key),
{
    lemma_newest_of_other_key(s, v, key);
}

/// A lookup in an empty table misses, whatever the key.
pub proof fn lemma_empty_table_misses(key: Seq<u8>)
    ensures
        lookup(Seq::<Version>::empty(), key) == MemtableResult::<Seq<u8>>::Miss,
{
}

} // verus!
