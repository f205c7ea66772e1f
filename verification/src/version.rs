//! The model of a table: versions of keys and the order they are kept in.
//!
//! Every write or delete of a key adds a version of that key. A table keeps
//! its versions ordered by key, ascending, and among the versions of one key
//! by sequence number, descending, so that the newest version of a key comes
//! first among them.

use vstd::prelude::*;

verus! {

/// One version of a key: what a single write or delete recorded.
pub struct Version {
    /// The key that was written or deleted.
    pub key: Seq<u8>,
    /// The sequence number that the write or delete was given.
    pub sequence: u64,
    /// The value that was written; `None` for a delete.
    pub value: Option<Seq<u8>>,
}

/// `a` and `b` agree on their first `i` bytes, and there `a` ends while `b`
/// goes on, or `a` has the smaller byte.
pub open spec fn precedes_at(a: Seq<u8>, b: Seq<u8>, i: int) -> bool {
    &&& 0 <= i <= a.len()
    &&& i <= b.len()
    &&& forall|j: int| 0 <= j < i ==> a[j] == b[j]
    &&& if i == a.len() {
        i < b.len()
    } else {
        i < b.len() && a[i] < b[i]
    }
}

/// `a` comes before `b` in lexicographic order.
pub open spec fn bytes_lt(a: Seq<u8>, b: Seq<u8>) -> bool {
    exists|i: int| precedes_at(a, b, i)
}

/// The order of the table on a key and a sequence number: by key ascending,
/// then by sequence number descending.
pub open spec fn slot_lt(key_a: Seq<u8>, sequence_a: u64, key_b: Seq<u8>, sequence_b: u64) -> bool {
    bytes_lt(key_a, key_b) || (key_a == key_b && sequence_a > sequence_b)
}

/// `a` comes before `b` in the order of the table.
pub open spec fn version_lt(a: Version, b: Version) -> bool {
    slot_lt(a.key, a.sequence, b.key, b.sequence)
}

/// `a` and `b` are versions of the same key with the same sequence number:
/// the order of the table does not tell them apart.
pub open spec fn same_slot(a: Version, b: Version) -> bool {
    a.key == b.key && a.sequence == b.sequence
}

/// `s` is strictly increasing in the order of the table.
pub open spec fn ordered(s: Seq<Version>) -> bool {
    forall|i: int, j: int| 0 <= i < j < s.len() ==> version_lt(#[trigger] s[i], #[trigger] s[j])
}

/// `s` is ordered and all its sequence numbers are below `next`.
pub open spec fn table_wf(s: Seq<Version>, next: u64) -> bool {
    &&& ordered(s)
    &&& forall|i: int| 0 <= i < s.len() ==> (#[trigger] s[i]).sequence < next
}

/// `s` with `v` put in its place. Where `s` already holds a version of the
/// same key with the same sequence number, `s` stays as it is.
pub open spec fn insert_version(s: Seq<Version>, v: Version) -> Seq<Version>
    decreases s.len(),
{
    if s.len() == 0 {
        seq![v]
    } else if version_lt(s.last(), v) {
        s.push(v)
    } else if same_slot(s.last(), v) {
        s
    } else {
        insert_version(s.drop_last(), v).push(s.last())
    }
}

/// The version of `key` in `s` with the highest sequence number, if `s`
/// holds any version of `key`.
pub open spec fn newest(s: Seq<Version>, key: Seq<u8>) -> Option<Version>
    decreases s.len(),
{
    if s.len() == 0 {
        None
    } else {
        let earlier = newest(s.drop_last(), key);
        let last = s.last();
        if last.key == key && (earlier is None || earlier->0.sequence < last.sequence) {
            Some(last)
        } else {
            earlier
        }
    }
}

/// The value that the newest version of `key` in `s` holds: `None` where
/// `s` holds no version of `key` or where the newest is a tombstone.
pub open spec fn newest_value(s: Seq<Version>, key: Seq<u8>) -> Option<Seq<u8>> {
    match newest(s, key) {
        Some(version) => version.value,
        None => None,
    }
}

/// No byte string comes before itself.
pub proof fn lemma_bytes_lt_irreflexive(a: Seq<u8>)
    ensures
        !bytes_lt(a, a),
{
}

/// The lexicographic order is transitive.
pub proof fn lemma_bytes_lt_transitive(a: Seq<u8>, b: Seq<u8>, c: Seq<u8>)
    requires
        bytes_lt(a, b),
        bytes_lt(b, c),
    ensures
        bytes_lt(a, c),
{
    let i1 = choose|i: int| precedes_at(a, b, i);
    let i2 = choose|i: int| precedes_at(b, c, i);
    let i = if i1 <= i2 {
        i1
    } else {
        i2
    };
    assert(precedes_at(a, c, i));
}

proof fn lemma_bytes_total_from(a: Seq<u8>, b: Seq<u8>, i: int)
    requires
        0 <= i <= a.len(),
        i <= b.len(),
        forall|j: int| 0 <= j < i ==> a[j] == b[j],
    ensures
        a == b || bytes_lt(a, b) || bytes_lt(b, a),
    decreases a.len() - i,
{
    if i == a.len() {
        if i == b.len() {
            assert(a =~= b);
        } else {
            assert(precedes_at(a, b, i));
        }
    } else if i == b.len() {
        assert(precedes_at(b, a, i));
    } else if a[i] < b[i] {
        assert(precedes_at(a, b, i));
    } else if b[i] < a[i] {
        assert(precedes_at(b, a, i));
    } else {
        lemma_bytes_total_from(a, b, i + 1);
    }
}

/// Of two different byte strings one comes before the other.
pub proof fn lemma_bytes_lt_total(a: Seq<u8>, b: Seq<u8>)
    ensures
        a == b || bytes_lt(a, b) || bytes_lt(b, a),
{
    lemma_bytes_total_from(a, b, 0);
}

/// The order of the table is irreflexive.
pub proof fn lemma_slot_lt_irreflexive(key: Seq<u8>, sequence: u64)
    ensures
        !slot_lt(key, sequence, key, sequence),
{
    lemma_bytes_lt_irreflexive(key);
}

/// The order of the table is transitive.
pub proof fn lemma_slot_lt_transitive(
    key_a: Seq<u8>,
    sequence_a: u64,
    key_b: Seq<u8>,
    sequence_b: u64,
    key_c: Seq<u8>,
    sequence_c: u64,
)
    requires
        slot_lt(key_a, sequence_a, key_b, sequence_b),
        slot_lt(key_b, sequence_b, key_c, sequence_c),
    ensures
        slot_lt(key_a, sequence_a, key_c, sequence_c),
{
    if bytes_lt(key_a, key_b) && bytes_lt(key_b, key_c) {
        lemma_bytes_lt_transitive(key_a, key_b, key_c);
    }
}

/// The order of the table is total: two slots are the same, or one comes
/// before the other.
pub proof fn lemma_slot_lt_total(key_a: Seq<u8>, sequence_a: u64, key_b: Seq<u8>, sequence_b: u64)
    ensures
        (key_a == key_b && sequence_a == sequence_b) || slot_lt(
            key_a,
            sequence_a,
            key_b,
            sequence_b,
        ) || slot_lt(key_b, sequence_b, key_a, sequence_a),
{
    lemma_bytes_lt_total(key_a, key_b);
}

/// The order of the table is asymmetric.
pub proof fn lemma_slot_lt_asymmetric(
    key_a: Seq<u8>,
    sequence_a: u64,
    key_b: Seq<u8>,
    sequence_b: u64,
)
    requires
        slot_lt(key_a, sequence_a, key_b, sequence_b),
    ensures
        !slot_lt(key_b, sequence_b, key_a, sequence_a),
        !(key_a == key_b && sequence_a == sequence_b),
{
    lemma_bytes_lt_irreflexive(key_a);
    if slot_lt(key_b, sequence_b, key_a, sequence_a) {
        lemma_slot_lt_transitive(key_a, sequence_a, key_b, sequence_b, key_a, sequence_a);
    }
}

/// The comparator's tie-break: of two versions of one key, the one with the
/// higher sequence number comes first.
pub proof fn lemma_newer_version_first(a: Version, b: Version)
    requires
        a.key == b.key,
        a.sequence > b.sequence,
    ensures
        version_lt(a, b),
        !version_lt(b, a),
{
    lemma_slot_lt_asymmetric(a.key, a.sequence, b.key, b.sequence);
}

/// In an ordered sequence no two places hold the same slot.
pub proof fn lemma_ordered_slots_differ(s: Seq<Version>, i: int, j: int)
    requires
        ordered(s),
        0 <= i < s.len(),
        0 <= j < s.len(),
        same_slot(s[i], s[j]),
    ensures
        i == j,
{
    lemma_slot_lt_irreflexive(s[i].key, s[i].sequence);
    if i < j {
        assert(version_lt(s[i], s[j]));
    } else if j < i {
        assert(version_lt(s[j], s[i]));
    }
}

/// What `newest` gives is a version of the key that `s` holds, and no
/// version of the key in `s` has a higher sequence number. It gives `None`
/// only where `s` holds no version of the key.
pub proof fn lemma_newest_is_highest(s: Seq<Version>, key: Seq<u8>)
    ensures
        match newest(s, key) {
            Some(v) => {
                &&& v.key == key
                &&& exists|i: int| 0 <= i < s.len() && s[i] == v
                &&& forall|i: int|
                    0 <= i < s.len() && (#[trigger] s[i]).key == key ==> s[i].sequence
                        <= v.sequence
            },
            None => forall|i: int| 0 <= i < s.len() ==> (#[trigger] s[i]).key != key,
        },
    decreases s.len(),
{
    if s.len() > 0 {
        let front = s.drop_last();
        lemma_newest_is_highest(front, key);
        assert forall|i: int| 0 <= i < front.len() implies front[i] == s[i] by {}
        match newest(s, key) {
            Some(v) => {
                if v == s.last() {
                    assert(s[s.len() - 1] == v);
                } else {
                    let i = choose|i: int| 0 <= i < front.len() && front[i] == v;
                    assert(s[i] == v);
                }
                assert forall|i: int| 0 <= i < s.len() && (#[trigger] s[i]).key == key implies s[i].sequence
                    <= v.sequence by {
                    if i < front.len() {
                        assert(front[i].key == key);
                    }
                }
            },
            None => {
                assert forall|i: int| 0 <= i < s.len() implies (#[trigger] s[i]).key != key by {
                    if i < front.len() {
                        assert(front[i].key != key);
                    }
                }
            },
        }
    }
}

/// In an ordered sequence, the version of `key` that no other version of
/// `key` exceeds in sequence number is the one that `newest` gives.
pub proof fn lemma_newest_at(s: Seq<Version>, key: Seq<u8>, at: int)
    requires
        ordered(s),
        0 <= at < s.len(),
        s[at].key == key,
        forall|j: int| 0 <= j < s.len() && (#[trigger] s[j]).key == key ==> s[j].sequence <= s[at].sequence,
    ensures
        newest(s, key) == Some(s[at]),
{
    lemma_newest_is_highest(s, key);
    let v = newest(s, key)->0;
    let i = choose|i: int| 0 <= i < s.len() && s[i] == v;
    assert(s[i].sequence <= s[at].sequence);
    assert(s[at].sequence <= v.sequence);
    lemma_ordered_slots_differ(s, i, at);
}

/// Where the sequence holds no version of `key`, `newest` gives `None`.
pub proof fn lemma_newest_none(s: Seq<Version>, key: Seq<u8>)
    requires
        forall|j: int| 0 <= j < s.len() ==> (#[trigger] s[j]).key != key,
    ensures
        newest(s, key) is None,
{
    lemma_newest_is_highest(s, key);
    if newest(s, key) is Some {
        let v = newest(s, key)->0;
        let i = choose|i: int| 0 <= i < s.len() && s[i] == v;
        assert(s[i].key != key);
    }
}

/// Where `at` parts the versions before `v` from the others, `v` goes in at
/// `at`, unless the version at `at` has the slot of `v`; and the sequence
/// stays ordered.
pub proof fn lemma_insert_at_bound(s: Seq<Version>, v: Version, at: int)
    requires
        ordered(s),
        0 <= at <= s.len(),
        forall|j: int| 0 <= j < at ==> version_lt(#[trigger] s[j], v),
        forall|j: int| at <= j < s.len() ==> !version_lt(#[trigger] s[j], v),
    ensures
        ordered(insert_version(s, v)),
        at < s.len() && same_slot(s[at], v) ==> insert_version(s, v) == s,
        !(at < s.len() && same_slot(s[at], v)) ==> {
            &&& insert_version(s, v) == s.insert(at, v)
            &&& forall|j: int| 0 <= j < s.len() ==> !same_slot(#[trigger] s[j], v)
        },
    decreases s.len(),
{
    if s.len() == 0 {
        assert(seq![v] =~= s.insert(at, v));
    } else {
        let last = s.last();
        let front = s.drop_last();
        assert(last == s[s.len() - 1]);
        assert forall|i: int| 0 <= i < front.len() implies front[i] == s[i] by {}
        if at == s.len() {
            assert(version_lt(last, v));
            assert(s.push(v) =~= s.insert(at, v));
            assert forall|j: int| 0 <= j < s.len() implies !same_slot(#[trigger] s[j], v) by {
                lemma_slot_lt_asymmetric(s[j].key, s[j].sequence, v.key, v.sequence);
            }
            assert forall|i: int, j: int| 0 <= i < j < s.push(v).len() implies version_lt(
                #[trigger] s.push(v)[i],
                #[trigger] s.push(v)[j],
            ) by {
                if j < s.len() {
                    assert(version_lt(s[i], s[j]));
                } else {
                    assert(version_lt(s[i], v));
                }
            }
        } else {
            assert(!version_lt(last, v));
            lemma_slot_lt_total(last.key, last.sequence, v.key, v.sequence);
            if same_slot(last, v) {
                if at < s.len() - 1 {
                    assert(version_lt(s[at], s[s.len() - 1]));
                    assert(version_lt(s[at], v));
                }
            } else {
                assert(version_lt(v, last));
                assert(ordered(front)) by {
                    assert forall|i: int, j: int| 0 <= i < j < front.len() implies version_lt(
                        #[trigger] front[i],
                        #[trigger] front[j],
                    ) by {
                        assert(version_lt(s[i], s[j]));
                    }
                }
                assert forall|j: int| 0 <= j < at implies version_lt(#[trigger] front[j], v) by {
                    assert(version_lt(s[j], v));
                }
                assert forall|j: int| at <= j < front.len() implies !version_lt(
                    #[trigger] front[j],
                    v,
                ) by {
                    assert(!version_lt(s[j], v));
                }
                lemma_insert_at_bound(front, v, at);
                let t = insert_version(front, v);
                if at < s.len() - 1 && same_slot(s[at], v) {
                    assert(front[at] == s[at]);
                    assert(t == front);
                    assert(front.push(last) =~= s);
                } else {
                    if at < front.len() {
                        assert(front[at] == s[at]);
                    }
                    assert(t == front.insert(at, v));
                    assert(t.push(last) =~= s.insert(at, v));
                    assert forall|j: int| 0 <= j < s.len() implies !same_slot(
                        #[trigger] s[j],
                        v,
                    ) by {
                        if j < front.len() {
                            assert(!same_slot(front[j], v));
                        }
                    }
                    let r = s.insert(at, v);
                    assert forall|i: int, j: int| 0 <= i < j < r.len() implies version_lt(
                        #[trigger] r[i],
                        #[trigger] r[j],
                    ) by {
                        if j == r.len() - 1 {
                            if i == at {
                            } else if i < at {
                                assert(r[i] == s[i]);
                                assert(version_lt(s[i], s[s.len() - 1]));
                            } else {
                                assert(r[i] == s[i - 1]);
                                assert(version_lt(s[i - 1], s[s.len() - 1]));
                            }
                        } else {
                            assert(r[i] == t[i]);
                            assert(r[j] == t[j]);
                            assert(version_lt(t[i], t[j]));
                        }
                    }
                }
            }
        }
    }
}

/// The number of versions at the front of `s` that come before `v`.
pub open spec fn rank(s: Seq<Version>, v: Version) -> nat
    decreases s.len(),
{
    if s.len() == 0 {
        0
    } else if version_lt(s.last(), v) {
        s.len()
    } else {
        rank(s.drop_last(), v)
    }
}

/// In an ordered sequence the versions before `v` are the first `rank` ones.
pub proof fn lemma_rank_parts(s: Seq<Version>, v: Version)
    requires
        ordered(s),
    ensures
        rank(s, v) <= s.len(),
        forall|j: int| 0 <= j < rank(s, v) ==> version_lt(#[trigger] s[j], v),
        forall|j: int| rank(s, v) <= j < s.len() ==> !version_lt(#[trigger] s[j], v),
    decreases s.len(),
{
    if s.len() > 0 {
        let last = s.last();
        let front = s.drop_last();
        assert(last == s[s.len() - 1]);
        if version_lt(last, v) {
            assert forall|j: int| 0 <= j < s.len() implies version_lt(#[trigger] s[j], v) by {
                if j < s.len() - 1 {
                    assert(version_lt(s[j], s[s.len() - 1]));
                    lemma_slot_lt_transitive(
                        s[j].key,
                        s[j].sequence,
                        last.key,
                        last.sequence,
                        v.key,
                        v.sequence,
                    );
                }
            }
        } else {
            assert(ordered(front)) by {
                assert forall|i: int, j: int| 0 <= i < j < front.len() implies version_lt(
                    #[trigger] front[i],
                    #[trigger] front[j],
                ) by {
                    assert(version_lt(s[i], s[j]));
                }
            }
            lemma_rank_parts(front, v);
            assert forall|j: int| 0 <= j < rank(s, v) implies version_lt(#[trigger] s[j], v) by {
                assert(version_lt(front[j], v));
            }
            assert forall|j: int| rank(s, v) <= j < s.len() implies !version_lt(
                #[trigger] s[j],
                v,
            ) by {
                if j < front.len() {
                    assert(!version_lt(front[j], v));
                }
            }
        }
    }
}

/// Putting a version into an ordered sequence leaves it ordered.
pub proof fn lemma_insert_keeps_order(s: Seq<Version>, v: Version)
    requires
        ordered(s),
    ensures
        ordered(insert_version(s, v)),
{
    lemma_rank_parts(s, v);
    lemma_insert_at_bound(s, v, rank(s, v) as int);
}

/// Putting in a version whose sequence number is below `next` keeps all
/// sequence numbers below `next`.
pub proof fn lemma_insert_keeps_sequences_below(s: Seq<Version>, v: Version, next: u64)
    requires
        forall|i: int| 0 <= i < s.len() ==> (#[trigger] s[i]).sequence < next,
        v.sequence < next,
    ensures
        forall|i: int|
            0 <= i < insert_version(s, v).len() ==> (#[trigger] insert_version(s, v)[i]).sequence
                < next,
    decreases s.len(),
{
    if s.len() > 0 && !version_lt(s.last(), v) && !same_slot(s.last(), v) {
        let front = s.drop_last();
        assert forall|i: int| 0 <= i < front.len() implies (#[trigger] front[i]).sequence
            < next by {
            assert(front[i] == s[i]);
        }
        lemma_insert_keeps_sequences_below(front, v, next);
        assert(s.last() == s[s.len() - 1]);
    }
}

/// A well-formed table stays well-formed when a version with the next
/// sequence number is put in.
pub proof fn lemma_insert_keeps_wf(s: Seq<Version>, v: Version, next: u64)
    requires
        table_wf(s, next),
        v.sequence == next,
        next < u64::MAX,
    ensures
        table_wf(insert_version(s, v), (next + 1) as u64),
{
    lemma_insert_keeps_order(s, v);
    lemma_insert_keeps_sequences_below(s, v, (next + 1) as u64);
}

/// After a version of a key is put in with a sequence number above all that
/// the sequence holds, it is the newest version of its key.
pub proof fn lemma_newest_after_insert(s: Seq<Version>, v: Version)
    requires
        forall|i: int| 0 <= i < s.len() ==> (#[trigger] s[i]).sequence < v.sequence,
    ensures
        newest(insert_version(s, v), v.key) == Some(v),
    decreases s.len(),
{
    if s.len() == 0 {
        assert(seq![v].drop_last() =~= Seq::<Version>::empty());
        assert(newest(Seq::<Version>::empty(), v.key) is None);
    } else {
        let last = s.last();
        let front = s.drop_last();
        assert(last == s[s.len() - 1]);
        if version_lt(last, v) {
            assert(s.push(v).drop_last() =~= s);
            lemma_newest_is_highest(s, v.key);
            if newest(s, v.key) is Some {
                let e = newest(s, v.key)->0;
                let i = choose|i: int| 0 <= i < s.len() && s[i] == e;
                assert(s[i].sequence < v.sequence);
            }
        } else if same_slot(last, v) {
        } else {
            assert forall|i: int| 0 <= i < front.len() implies (#[trigger] front[i]).sequence
                < v.sequence by {
                assert(front[i] == s[i]);
            }
            lemma_newest_after_insert(front, v);
            let t = insert_version(front, v);
            assert(t.push(last).drop_last() =~= t);
        }
    }
}

/// Putting in a version of one key changes nothing for any other key.
pub proof fn lemma_newest_of_other_key(s: Seq<Version>, v: Version, key: Seq<u8>)
    requires
        key != v.key,
    ensures
        newest(insert_version(s, v), key) == newest(s, key),
    decreases s.len(),
{
    if s.len() == 0 {
        assert(seq![v].drop_last() =~= Seq::<Version>::empty());
        assert(newest(Seq::<Version>::empty(), key) is None);
    } else {
        let last = s.last();
        let front = s.drop_last();
        if version_lt(last, v) {
            assert(s.push(v).drop_last() =~= s);
        } else if same_slot(last, v) {
        } else {
            lemma_newest_of_other_key(front, v, key);
            let t = insert_version(front, v);
            assert(t.push(last).drop_last() =~= t);
        }
    }
}

/// What `newest` gives does not depend on the order of the versions: two
/// sequences that hold the same versions, one of them ordered, give the
/// same.
pub proof fn lemma_newest_ignores_order(s: Seq<Version>, t: Seq<Version>, key: Seq<u8>)
    requires
        ordered(t),
        forall|v: Version| s.contains(v) <==> t.contains(v),
    ensures
        newest(s, key) == newest(t, key),
{
    lemma_newest_is_highest(s, key);
    lemma_newest_is_highest(t, key);
    match newest(s, key) {
        Some(e) => {
            let i = choose|i: int| 0 <= i < s.len() && s[i] == e;
            assert(s.contains(e));
            assert(t.contains(e));
            let at_e = choose|j: int| 0 <= j < t.len() && t[j] == e;
            assert(t[at_e].key == key);
            let f = newest(t, key)->0;
            let at_f = choose|j: int| 0 <= j < t.len() && t[j] == f;
            assert(t.contains(f));
            assert(s.contains(f));
            let k = choose|k: int| 0 <= k < s.len() && s[k] == f;
            assert(s[k].sequence <= e.sequence);
            assert(t[at_e].sequence <= f.sequence);
            lemma_ordered_slots_differ(t, at_e, at_f);
        },
        None => {
            if newest(t, key) is Some {
                let f = newest(t, key)->0;
                let at_f = choose|j: int| 0 <= j < t.len() && t[j] == f;
                assert(t.contains(f));
                assert(s.contains(f));
                let k = choose|k: int| 0 <= k < s.len() && s[k] == f;
                assert(s[k].key != key);
            }
        },
    }
}

/// No version in `s` has the slot of `v`.
pub open spec fn slot_free(s: Seq<Version>, v: Version) -> bool {
    forall|i: int| 0 <= i < s.len() ==> !same_slot(#[trigger] s[i], v)
}

/// What an ordered sequence holds after a version is put in: what it held,
/// and the version itself unless its slot was taken.
pub proof fn lemma_insert_contents(s: Seq<Version>, v: Version)
    requires
        ordered(s),
    ensures
        forall|x: Version|
            #![trigger insert_version(s, v).contains(x)]
            insert_version(s, v).contains(x) <==> (s.contains(x) || (x == v && slot_free(s, v))),
{
    lemma_rank_parts(s, v);
    let at = rank(s, v) as int;
    lemma_insert_at_bound(s, v, at);
    let r = insert_version(s, v);
    if at < s.len() && same_slot(s[at], v) {
    } else {
        assert(r == s.insert(at, v));
        assert forall|x: Version| r.contains(x) <==> (s.contains(x) || x == v) by {
            if r.contains(x) {
                let i = choose|i: int| 0 <= i < r.len() && r[i] == x;
                if i < at {
                    assert(s[i] == x);
                } else if i > at {
                    assert(s[i - 1] == x);
                }
            }
            if s.contains(x) {
                let i = choose|i: int| 0 <= i < s.len() && s[i] == x;
                if i < at {
                    assert(r[i] == x);
                } else {
                    assert(r[i + 1] == x);
                }
            }
            if x == v {
                assert(r[at] == x);
            }
        }
    }
}

/// The order in which two versions are put in does not matter for what
/// `newest` gives afterwards.
pub proof fn lemma_insert_order_irrelevant(s: Seq<Version>, a: Version, b: Version, key: Seq<u8>)
    requires
        ordered(s),
        !same_slot(a, b),
    ensures
        newest(insert_version(insert_version(s, a), b), key) == newest(
            insert_version(insert_version(s, b), a),
            key,
        ),
{
    let sa = insert_version(s, a);
    let sb = insert_version(s, b);
    let sab = insert_version(sa, b);
    let sba = insert_version(sb, a);
    lemma_insert_keeps_order(s, a);
    lemma_insert_keeps_order(s, b);
    lemma_insert_keeps_order(sa, b);
    lemma_insert_keeps_order(sb, a);
    lemma_insert_contents(s, a);
    lemma_insert_contents(s, b);
    lemma_insert_contents(sa, b);
    lemma_insert_contents(sb, a);
    lemma_slot_stays_free(s, a, b);
    lemma_slot_stays_free(s, b, a);
    assert forall|x: Version| sab.contains(x) <==> sba.contains(x) by {
        assert(sa.contains(x) <==> (s.contains(x) || (x == a && slot_free(s, a))));
        assert(sb.contains(x) <==> (s.contains(x) || (x == b && slot_free(s, b))));
        assert(sab.contains(x) <==> (sa.contains(x) || (x == b && slot_free(sa, b))));
        assert(sba.contains(x) <==> (sb.contains(x) || (x == a && slot_free(sb, a))));
    }
    lemma_newest_ignores_order(sab, sba, key);
}

/// Putting in a version of another slot neither takes nor frees the slot of
/// `b`.
pub proof fn lemma_slot_stays_free(s: Seq<Version>, a: Version, b: Version)
    requires
        ordered(s),
        !same_slot(a, b),
    ensures
        slot_free(insert_version(s, a), b) <==> slot_free(s, b),
{
    let sa = insert_version(s, a);
    lemma_insert_contents(s, a);
    if slot_free(s, b) {
        assert forall|i: int| 0 <= i < sa.len() implies !same_slot(#[trigger] sa[i], b) by {
            assert(sa.contains(sa[i]));
            if s.contains(sa[i]) {
                let k = choose|k: int| 0 <= k < s.len() && s[k] == sa[i];
                assert(!same_slot(s[k], b));
            }
        }
    } else {
        let k = choose|k: int| 0 <= k < s.len() && same_slot(#[trigger] s[k], b);
        assert(s.contains(s[k]));
        assert(sa.contains(s[k]));
        let i = choose|i: int| 0 <= i < sa.len() && sa[i] == s[k];
        assert(same_slot(sa[i], b));
    }
}

/// The first version that does not come before the lookup key of `key` is,
/// where it is a version of `key`, the newest version of `key`.
pub proof fn lemma_found_is_newest(s: Seq<Version>, key: Seq<u8>, at: int)
    requires
        ordered(s),
        0 <= at < s.len(),
        s[at].key == key,
        forall|j: int|
            0 <= j < at ==> slot_lt(
                (#[trigger] s[j]).key,
                s[j].sequence,
                key,
                u64::MAX,
            ),
    ensures
        newest(s, key) == Some(s[at]),
{
    lemma_bytes_lt_irreflexive(key);
    assert forall|j: int| 0 <= j < s.len() && (#[trigger] s[j]).key == key implies s[j].sequence
        <= s[at].sequence by {
        if j < at {
            assert(slot_lt(s[j].key, s[j].sequence, key, u64::MAX));
        } else if j > at {
            assert(version_lt(s[at], s[j]));
        }
    }
    lemma_newest_at(s, key, at);
}

/// Where the first version that does not come before the lookup key of
/// `key` is no version of `key`, or where there is no such version, the
/// sequence holds no version of `key`.
pub proof fn lemma_not_found(s: Seq<Version>, key: Seq<u8>, at: int)
    requires
        ordered(s),
        0 <= at <= s.len(),
        at < s.len() ==> s[at].key != key,
        forall|j: int|
            0 <= j < at ==> slot_lt(
                (#[trigger] s[j]).key,
                s[j].sequence,
                key,
                u64::MAX,
            ),
        forall|j: int|
            at <= j < s.len() ==> !slot_lt(
                (#[trigger] s[j]).key,
                s[j].sequence,
                key,
                u64::MAX,
            ),
    ensures
        newest(s, key) is None,
{
    lemma_bytes_lt_irreflexive(key);
    assert forall|j: int| 0 <= j < s.len() implies (#[trigger] s[j]).key != key by {
        if j < at {
            assert(slot_lt(s[j].key, s[j].sequence, key, u64::MAX));
        } else if j > at && s[j].key == key {
            assert(version_lt(s[at], s[j]));
            assert(!slot_lt(s[at].key, s[at].sequence, key, u64::MAX));
        }
    }
    lemma_newest_none(s, key);
}

} // verus!
