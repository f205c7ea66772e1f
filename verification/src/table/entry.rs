//! Entries that own their record.
//!
//! A record is a tag byte, the sequence number as a varint, the length of
//! the key as a varint, and the key. What follows the key, up to the end of
//! the record, is the value; the record of a deletion ends with the key.

use crate::options::ValueType;
use crate::sorted::{compare_bytes, compare_slots, Rank, Versioned};
pub use crate::varint::{read_varu64, write_varu64};
use crate::varint::{
    append_varu64, decode_varint, encode_varint, lemma_decode_bounds, lemma_decode_encode,
};
use crate::version::{version_lt, Version};
use std::cmp::Ordering;
use vstd::prelude::*;
use vstd::std_specs::cmp::{PartialEqSpecImpl, PartialOrdSpecImpl};

verus! {

/// The record of a version of the given kind. The record of a deletion
/// carries no value.
pub open spec fn encode_record(kind: ValueType, key: Seq<u8>, sequence: u64, value: Seq<u8>) -> Seq<
    u8,
> {
    seq![kind.tag()] + encode_varint(sequence) + encode_varint(key.len() as u64) + key + value
}

/// The record of a value.
pub open spec fn encode_value(key: Seq<u8>, sequence: u64, value: Seq<u8>) -> Seq<u8> {
    encode_record(ValueType::Value, key, sequence, value)
}

/// The record of a deletion.
pub open spec fn encode_deletion(key: Seq<u8>, sequence: u64) -> Seq<u8> {
    encode_record(ValueType::Deletion, key, sequence, Seq::empty())
}

/// What the head of a record says, and where the key lies.
pub struct Layout {
    /// The kind of the record.
    pub kind: ValueType,
    /// The sequence number.
    pub sequence: u64,
    /// Where the key starts.
    pub key_at: nat,
    /// Where the key ends. The value, if any, lies from here to the end.
    pub key_end: nat,
}

/// What the head of the record in `data` says. `None` where `data` is not
/// one whole record: where it is empty, where the tag is unknown, where a
/// varint breaks off or runs over ten bytes, where the key would end after
/// the record does, or where bytes follow the key of a deletion.
pub open spec fn layout(data: Seq<u8>) -> Option<Layout> {
    if data.len() == 0 {
        None
    } else {
        match ValueType::of_tag(data[0]) {
            None => None,
            Some(kind) => match decode_varint(data.skip(1)) {
                None => None,
                Some((sequence, sequence_size)) => match decode_varint(
                    data.skip((1 + sequence_size) as int),
                ) {
                    None => None,
                    Some((key_len, key_size)) => {
                        let key_at = 1 + sequence_size + key_size;
                        let key_end = key_at + key_len;
                        if key_end > data.len() || (kind is Deletion && key_end != data.len()) {
                            None
                        } else {
                            Some(
                                Layout {
                                    kind,
                                    sequence,
                                    key_at: key_at as nat,
                                    key_end: key_end as nat,
                                },
                            )
                        }
                    },
                },
            },
        }
    }
}

/// The version that the record with the given layout stands for.
pub open spec fn version_at(data: Seq<u8>, layout: Layout) -> Version {
    Version {
        key: data.subrange(layout.key_at as int, layout.key_end as int),
        sequence: layout.sequence,
        value: if layout.kind is Deletion {
            None
        } else {
            Some(data.subrange(layout.key_end as int, data.len() as int))
        },
    }
}

/// The kind of the record in `data` and the version that it stands for.
/// `None` where `data` is not one whole record.
pub open spec fn parse_entry(data: Seq<u8>) -> Option<(ValueType, Version)> {
    match layout(data) {
        Some(layout) => Some((layout.kind, version_at(data, layout))),
        None => None,
    }
}

/// Parsing a record gives its kind and its version back.
pub proof fn lemma_parse_record(kind: ValueType, key: Seq<u8>, sequence: u64, value: Seq<u8>)
    requires
        key.len() <= u64::MAX,
        kind is Deletion ==> value.len() == 0,
    ensures
        parse_entry(encode_record(kind, key, sequence, value)) == Some(
            (
                kind,
                Version {
                    key,
                    sequence,
                    value: if kind is Deletion {
                        None
                    } else {
                        Some(value)
                    },
                },
            ),
        ),
{
    let sequence_code = encode_varint(sequence);
    let key_code = encode_varint(key.len() as u64);
    let data = encode_record(kind, key, sequence, value);
    let key_at = 1 + sequence_code.len() + key_code.len();
    let key_end = key_at + key.len();

    assert(data[0] == kind.tag());
    assert(ValueType::of_tag(kind.tag()) == Some(kind));

    let after_sequence_code = key_code + key + value;
    assert(data.skip(1) =~= sequence_code + after_sequence_code);
    lemma_decode_encode(sequence, after_sequence_code);

    let after_key_code = key + value;
    assert(data.skip((1 + sequence_code.len()) as int) =~= key_code + after_key_code);
    lemma_decode_encode(key.len() as u64, after_key_code);

    assert(data.subrange(key_at as int, key_end as int) =~= key);
    assert(data.subrange(key_end as int, data.len() as int) =~= value);
}

/// Where the parts of a record lie, as a reader found them.
struct Parts {
    kind: ValueType,
    sequence: u64,
    key_at: usize,
    key_end: usize,
}

impl Parts {
    spec fn to_layout(self) -> Layout {
        Layout {
            kind: self.kind,
            sequence: self.sequence,
            key_at: self.key_at as nat,
            key_end: self.key_end as nat,
        }
    }
}

/// Finds the parts of the record in `data`, or finds that `data` is not one
/// whole record.
fn locate(data: &[u8]) -> (r: Option<Parts>)
    ensures
        match r {
            Some(parts) => layout(data@) == Some(parts.to_layout()),
            None => layout(data@) is None,
        },
{
    if data.len() == 0 {
        return None;
    }
    let kind = match ValueType::from_byte(data[0]) {
        Some(kind) => kind,
        None => {
            return None;
        },
    };
    let (sequence, sequence_size) = read_varu64(&data[1..data.len()]);
    proof {
        assert(data@.subrange(1, data@.len() as int) == data@.skip(1));
        lemma_decode_bounds(data@.skip(1));
    }
    if sequence_size == 0 {
        return None;
    }
    let key_len_at = 1 + sequence_size;
    let (key_len, key_size) = read_varu64(&data[key_len_at..data.len()]);
    proof {
        assert(data@.subrange(key_len_at as int, data@.len() as int) == data@.skip(
            key_len_at as int,
        ));
        lemma_decode_bounds(data@.skip(key_len_at as int));
    }
    if key_size == 0 {
        return None;
    }
    let key_at = key_len_at + key_size;
    if key_len > (data.len() - key_at) as u64 {
        return None;
    }
    let key_end = key_at + key_len as usize;
    match kind {
        ValueType::Deletion => {
            if key_end != data.len() {
                return None;
            }
        },
        _ => {},
    }
    Some(Parts { kind, sequence, key_at, key_end })
}

/// Appends `source` to `out`.
fn append_bytes(out: &mut Vec<u8>, source: &[u8])
    ensures
        final(out)@ == old(out)@ + source@,
{
    let mut i: usize = 0;
    proof {
        assert(out@ =~= old(out)@ + source@.take(0));
    }
    while i < source.len()
        invariant
            i <= source@.len(),
            out@ == old(out)@ + source@.take(i as int),
        decreases source@.len() - i,
    {
        out.push(source[i]);
        i = i + 1;
        proof {
            assert(out@ =~= old(out)@ + source@.take(i as int));
        }
    }
    proof {
        assert(source@.take(i as int) =~= source@);
    }
}

/// One version of a key, held as a record in a buffer that the entry owns.
/// An entry never changes.
#[derive(Debug)]
pub struct Entry {
    data: Vec<u8>,
}

impl View for Entry {
    type V = Version;

    /// The version that the entry stands for.
    closed spec fn view(&self) -> Version {
        (parse_entry(self.data@)->0).1
    }
}

impl Entry {
    /// The buffer of an entry holds one whole record.
    #[verifier::type_invariant]
    spec fn holds_a_record(&self) -> bool {
        parse_entry(self.data@) is Some
    }

    /// The bytes of the entry's record.
    pub closed spec fn bytes(&self) -> Seq<u8> {
        self.data@
    }

    /// The kind of the entry's record.
    pub closed spec fn kind(&self) -> ValueType {
        (parse_entry(self.data@)->0).0
    }

    fn of_kind(kind: ValueType, sequence: u64, key: &[u8], value: &[u8]) -> (entry: Entry)
        requires
            kind is Deletion ==> value@.len() == 0,
        ensures
            entry.bytes() == encode_record(kind, key@, sequence, value@),
            entry.kind() == kind,
            entry@ == (Version {
                key: key@,
                sequence,
                value: if kind is Deletion {
                    None
                } else {
                    Some(value@)
                },
            }),
    {
        let mut data: Vec<u8> = Vec::new();
        data.push(kind.to_byte());
        append_varu64(&mut data, sequence);
        append_varu64(&mut data, key.len() as u64);
        append_bytes(&mut data, key);
        append_bytes(&mut data, value);
        proof {
            assert(data@ =~= encode_record(kind, key@, sequence, value@));
            lemma_parse_record(kind, key@, sequence, value@);
        }
        Entry { data }
    }

    /// The entry of a value.
    pub fn new_value(seq: u64, key: &[u8], value: &[u8]) -> (entry: Entry)
        ensures
            entry.bytes() == encode_value(key@, seq, value@),
            entry.kind() == ValueType::Value,
            entry@ == (Version { key: key@, sequence: seq, value: Some(value@) }),
    {
        Entry::of_kind(ValueType::Value, seq, key, value)
    }

    /// The entry of a deletion.
    pub fn new_deletion(seq: u64, key: &[u8]) -> (entry: Entry)
        ensures
            entry.bytes() == encode_deletion(key@, seq),
            entry.kind() == ValueType::Deletion,
            entry@ == (Version { key: key@, sequence: seq, value: None }),
    {
        let empty: [u8; 0] = [];
        proof {
            assert(empty@ =~= Seq::<u8>::empty());
        }
        Entry::of_kind(ValueType::Deletion, seq, key, empty.as_slice())
    }

    /// The lookup key of `key`: the entry of an empty value with the
    /// highest sequence number. It comes before every version of `key` and
    /// after every version of a smaller key.
    pub fn new_lookup_key(key: &[u8]) -> (entry: Entry)
        ensures
            entry.bytes() == encode_value(key@, u64::MAX, Seq::empty()),
            entry.kind() == ValueType::Value,
            entry@ == (Version { key: key@, sequence: u64::MAX, value: Some(Seq::empty()) }),
    {
        let empty: [u8; 0] = [];
        proof {
            assert(empty@ =~= Seq::<u8>::empty());
        }
        Entry::new_value(u64::MAX, key, empty.as_slice())
    }

    fn parts(&self) -> (parts: Parts)
        ensures
            layout(self.data@) == Some(parts.to_layout()),
            self@ == version_at(self.data@, parts.to_layout()),
            self.kind() == parts.kind,
    {
        proof {
            use_type_invariant(self);
        }
        locate(self.data.as_slice()).unwrap()
    }

    /// The kind of the entry's record.
    pub fn vtype(&self) -> (kind: ValueType)
        ensures
            kind == self.kind(),
            kind is Deletion <==> self@.value is None,
    {
        self.parts().kind
    }

    /// The sequence number of the entry.
    pub fn sequence_id(&self) -> (sequence: u64)
        ensures
            sequence == self@.sequence,
    {
        self.parts().sequence
    }

    /// The key of the entry.
    pub fn key(&self) -> (key: &[u8])
        ensures
            key@ == self@.key,
    {
        let parts = self.parts();
        let data = self.data.as_slice();
        &data[parts.key_at..parts.key_end]
    }

    /// The value of the entry; `None` for a deletion.
    pub fn value(&self) -> (value: Option<&[u8]>)
        ensures
            match value {
                Some(bytes) => self@.value == Some(bytes@),
                None => self@.value is None,
            },
    {
        let parts = self.parts();
        let data = self.data.as_slice();
        match parts.kind {
            ValueType::Deletion => None,
            _ => Some(&data[parts.key_end..data.len()]),
        }
    }

    /// The key and the value of the entry.
    pub fn key_value(&self) -> (r: (&[u8], Option<&[u8]>))
        ensures
            r.0@ == self@.key,
            match r.1 {
                Some(bytes) => self@.value == Some(bytes@),
                None => self@.value is None,
            },
    {
        let parts = self.parts();
        let data = self.data.as_slice();
        let key = &data[parts.key_at..parts.key_end];
        let value = match parts.kind {
            ValueType::Deletion => None,
            _ => Some(&data[parts.key_end..data.len()]),
        };
        (key, value)
    }

    /// The number of bytes of the entry's record.
    pub fn len(&self) -> (len: usize)
        ensures
            len == self.bytes().len(),
    {
        self.data.len()
    }

    /// Whether the entry's record is empty. It never is: a record starts
    /// with its tag.
    pub fn is_empty(&self) -> (empty: bool)
        ensures
            empty == (self.bytes().len() == 0),
            !empty,
    {
        proof {
            use_type_invariant(self);
        }
        self.data.is_empty()
    }

    /// How the entry stands to `other` in the order of the table: by key
    /// ascending, and for one key by sequence number descending, so that the
    /// newer entry comes first.
    pub fn cmp(&self, other: &Entry) -> (r: Ordering)
        ensures
            r == Ordering::Less <==> version_lt(self@, other@),
            r == Ordering::Greater <==> version_lt(other@, self@),
    {
        let rank = compare_slots(
            self.key(),
            self.sequence_id(),
            other.key(),
            other.sequence_id(),
        );
        match rank {
            Rank::Before => Ordering::Less,
            Rank::Same => Ordering::Equal,
            Rank::After => Ordering::Greater,
        }
    }
}

impl PartialEq for Entry {
    /// Two entries are equal where their keys are: they are versions of one
    /// key, whatever their sequence numbers and values.
    fn eq(&self, other: &Self) -> (r: bool) {
        match compare_bytes(self.key(), other.key()) {
            Rank::Same => true,
            _ => false,
        }
    }
}

impl PartialEqSpecImpl for Entry {
    open spec fn obeys_eq_spec() -> bool {
        true
    }

    open spec fn eq_spec(&self, other: &Self) -> bool {
        self@.key == other@.key
    }
}

impl PartialOrd for Entry {
    /// The order of the table.
    fn partial_cmp(&self, other: &Self) -> (r: Option<Ordering>) {
        Some(self.cmp(other))
    }
}

impl PartialOrdSpecImpl for Entry {
    open spec fn obeys_partial_cmp_spec() -> bool {
        true
    }

    open spec fn partial_cmp_spec(&self, other: &Self) -> Option<Ordering> {
        if version_lt(self@, other@) {
            Some(Ordering::Less)
        } else if version_lt(other@, self@) {
            Some(Ordering::Greater)
        } else {
            Some(Ordering::Equal)
        }
    }
}

impl Versioned for Entry {
    open spec fn version(&self) -> Version {
        self@
    }

    fn version_key(&self) -> (key: &[u8]) {
        self.key()
    }

    fn version_sequence(&self) -> (sequence: u64) {
        self.sequence_id()
    }
}

} // verus!
