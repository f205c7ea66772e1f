//! Entries kept in a vector in the order of the table: comparison, search
//! and insertion.

use crate::version::{
    bytes_lt, insert_version, lemma_bytes_lt_irreflexive, lemma_bytes_lt_transitive,
    lemma_found_is_newest, lemma_insert_at_bound, lemma_not_found, lemma_slot_lt_transitive,
    newest, ordered, precedes_at, same_slot, slot_lt, Version,
};
use vstd::prelude::*;

verus! {

/// How one thing stands to another in an order.
#[derive(Debug, PartialEq, Eq, Clone, Copy)]
pub enum Rank {
    /// It comes before the other.
    Before,
    /// The order does not tell them apart.
    Same,
    /// It comes after the other.
    After,
}

/// What is kept in a table: something that stands for one version of a key
/// and can tell its key and its sequence number.
pub trait Versioned {
    /// The version that this entry stands for.
    spec fn version(&self) -> Version;

    /// The key of the version.
    fn version_key(&self) -> (key: &[u8])
        ensures
            key@ == self.version().key,
    ;

    /// The sequence number of the version.
    fn version_sequence(&self) -> (sequence: u64)
        ensures
            sequence == self.version().sequence,
    ;
}

/// The versions that a sequence of entries stands for, in the same order.
pub open spec fn versions<E: Versioned>(entries: Seq<E>) -> Seq<Version> {
    Seq::new(entries.len(), |i: int| entries[i].version())
}

proof fn lemma_bytes_lt_excludes(a: Seq<u8>, b: Seq<u8>)
    requires
        bytes_lt(a, b),
    ensures
        a != b,
        !bytes_lt(b, a),
{
    lemma_bytes_lt_irreflexive(a);
    if bytes_lt(b, a) {
        lemma_bytes_lt_transitive(a, b, a);
    }
}

/// Compares two byte strings in lexicographic order.
pub fn compare_bytes(a: &[u8], b: &[u8]) -> (r: Rank)
    ensures
        r is Before <==> bytes_lt(a@, b@),
        r is Same <==> a@ == b@,
        r is After <==> bytes_lt(b@, a@),
{
    let mut i: usize = 0;
    while i < a.len() && i < b.len()
        invariant
            i <= a@.len(),
            i <= b@.len(),
            forall|j: int| 0 <= j < i ==> a@[j] == b@[j],
        decreases a@.len() - i,
    {
        if a[i] < b[i] {
            proof {
                assert(precedes_at(a@, b@, i as int));
                lemma_bytes_lt_excludes(a@, b@);
            }
            return Rank::Before;
        }
        if a[i] > b[i] {
            proof {
                assert(precedes_at(b@, a@, i as int));
                lemma_bytes_lt_excludes(b@, a@);
            }
            return Rank::After;
        }
        i = i + 1;
    }
    if a.len() < b.len() {
        proof {
            assert(precedes_at(a@, b@, i as int));
            lemma_bytes_lt_excludes(a@, b@);
        }
        Rank::Before
    } else if a.len() > b.len() {
        proof {
            assert(precedes_at(b@, a@, i as int));
            lemma_bytes_lt_excludes(b@, a@);
        }
        Rank::After
    } else {
        proof {
            assert(a@ =~= b@);
            lemma_bytes_lt_irreflexive(a@);
        }
        Rank::Same
    }
}

/// Compares one key and sequence number with another in the order of the
/// table: by key ascending, then by sequence number descending.
pub fn compare_slots(key_a: &[u8], sequence_a: u64, key_b: &[u8], sequence_b: u64) -> (r: Rank)
    ensures
        r is Before <==> slot_lt(key_a@, sequence_a, key_b@, sequence_b),
        r is Same <==> key_a@ == key_b@ && sequence_a == sequence_b,
        r is After <==> slot_lt(key_b@, sequence_b, key_a@, sequence_a),
{
    match compare_bytes(key_a, key_b) {
        Rank::Before => Rank::Before,
        Rank::After => Rank::After,
        Rank::Same => {
            if sequence_a > sequence_b {
                Rank::Before
            } else if sequence_a < sequence_b {
                Rank::After
            } else {
                Rank::Same
            }
        },
    }
}

/// The first place in `entries` whose entry does not come before the given
/// key and sequence number: all entries before that place come before them,
/// and no entry from that place on does.
pub fn lower_bound<E: Versioned>(entries: &Vec<E>, key: &[u8], sequence: u64) -> (at: usize)
    requires
        ordered(versions(entries@)),
    ensures
        at <= entries@.len(),
        forall|j: int|
            0 <= j < at ==> slot_lt(
                (#[trigger] versions(entries@)[j]).key,
                versions(entries@)[j].sequence,
                key@,
                sequence,
            ),
        forall|j: int|
            at <= j < entries@.len() ==> !slot_lt(
                (#[trigger] versions(entries@)[j]).key,
                versions(entries@)[j].sequence,
                key@,
                sequence,
            ),
{
    let ghost vs = versions(entries@);
    let mut low: usize = 0;
    let mut high: usize = entries.len();
    while low < high
        invariant
            low <= high <= entries@.len(),
            vs == versions(entries@),
            ordered(vs),
            forall|j: int|
                0 <= j < low ==> slot_lt((#[trigger] vs[j]).key, vs[j].sequence, key@, sequence),
            forall|j: int|
                high <= j < vs.len() ==> !slot_lt(
                    (#[trigger] vs[j]).key,
                    vs[j].sequence,
                    key@,
                    sequence,
                ),
        decreases high - low,
    {
        let middle = low + (high - low) / 2;
        let entry = &entries[middle];
        let rank = compare_slots(entry.version_key(), entry.version_sequence(), key, sequence);
        proof {
            assert(vs[middle as int] == entry.version());
        }
        match rank {
            Rank::Before => {
                proof {
                    assert forall|j: int| 0 <= j < middle + 1 implies slot_lt(
                        (#[trigger] vs[j]).key,
                        vs[j].sequence,
                        key@,
                        sequence,
                    ) by {
                        if j < middle {
                            let m = vs[middle as int];
                            assert(slot_lt(vs[j].key, vs[j].sequence, m.key, m.sequence));
                            lemma_slot_lt_transitive(
                                vs[j].key,
                                vs[j].sequence,
                                m.key,
                                m.sequence,
                                key@,
                                sequence,
                            );
                        }
                    }
                }
                low = middle + 1;
            },
            _ => {
                proof {
                    assert forall|j: int| middle <= j < vs.len() implies !slot_lt(
                        (#[trigger] vs[j]).key,
                        vs[j].sequence,
                        key@,
                        sequence,
                    ) by {
                        if j > middle && slot_lt(vs[j].key, vs[j].sequence, key@, sequence) {
                            let m = vs[middle as int];
                            assert(slot_lt(m.key, m.sequence, vs[j].key, vs[j].sequence));
                            lemma_slot_lt_transitive(
                                m.key,
                                m.sequence,
                                vs[j].key,
                                vs[j].sequence,
                                key@,
                                sequence,
                            );
                        }
                    }
                }
                high = middle;
            },
        }
    }
    low
}

/// The place of the newest version of `key` in `entries`, if they hold a
/// version of `key`: the first entry that does not come before `key` with
/// the highest sequence number there is, where that entry has the key.
pub fn find_newest<E: Versioned>(entries: &Vec<E>, key: &[u8]) -> (r: Option<usize>)
    requires
        ordered(versions(entries@)),
    ensures
        match r {
            Some(at) => at < entries@.len() && newest(versions(entries@), key@) == Some(
                versions(entries@)[at as int],
            ),
            None => newest(versions(entries@), key@) is None,
        },
{
    let ghost vs = versions(entries@);
    let at = lower_bound(entries, key, u64::MAX);
    if at < entries.len() {
        let found = &entries[at];
        proof {
            assert(vs[at as int] == found.version());
        }
        match compare_bytes(found.version_key(), key) {
            Rank::Same => {
                proof {
                    lemma_found_is_newest(vs, key@, at as int);
                }
                Some(at)
            },
            _ => {
                proof {
                    lemma_not_found(vs, key@, at as int);
                }
                None
            },
        }
    } else {
        proof {
            lemma_not_found(vs, key@, at as int);
        }
        None
    }
}

/// Puts `entry` into `entries` at its place in the order of the table and
/// says whether it went in. Where `entries` already holds an entry of the
/// same key with the same sequence number, `entries` stays as it is.
pub fn insert_sorted<E: Versioned>(entries: &mut Vec<E>, entry: E) -> (added: bool)
    requires
        ordered(versions(old(entries)@)),
    ensures
        ordered(versions(final(entries)@)),
        versions(final(entries)@) == insert_version(versions(old(entries)@), entry.version()),
        added <==> forall|i: int|
            0 <= i < old(entries)@.len() ==> !same_slot(
                #[trigger] versions(old(entries)@)[i],
                entry.version(),
            ),
        added ==> exists|at: int|
            0 <= at <= old(entries)@.len() && final(entries)@ == old(entries)@.insert(at, entry),
        !added ==> final(entries)@ == old(entries)@,
{
    let ghost before = versions(entries@);
    let ghost v = entry.version();
    let at = lower_bound(entries, entry.version_key(), entry.version_sequence());
    proof {
        lemma_insert_at_bound(before, v, at as int);
    }
    if at < entries.len() {
        let found = &entries[at];
        let rank = compare_slots(
            found.version_key(),
            found.version_sequence(),
            entry.version_key(),
            entry.version_sequence(),
        );
        proof {
            assert(before[at as int] == found.version());
        }
        match rank {
            Rank::Same => {
                return false;
            },
            _ => {},
        }
    }
    entries.insert(at, entry);
    proof {
        assert(versions(entries@) =~= before.insert(at as int, v));
    }
    true
}

} // verus!
