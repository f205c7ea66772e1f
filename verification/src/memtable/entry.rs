//! Entries: one version of a key as a record in a single buffer.
//!
//! A record is the length of the key as a varint, the key, the sequence
//! number as a varint and a tag byte. The record of a value goes on with the
//! length of the value as a varint and the value; the record of a deletion
//! ends with the tag. An entry keeps no offsets: every reader parses the
//! record again.

use crate::error::Error;
use crate::memtable::arena::Arena;
use crate::sorted::{compare_bytes, compare_slots, Rank, Versioned};
use crate::varint::{
    decode_varint, encode_varint, lemma_decode_bounds, lemma_decode_encode, read_varu64,
    varint_size, varu64_len, write_varu64_at,
};
use crate::version::{version_lt, Version};
use std::cmp::Ordering;
use vstd::prelude::*;
use vstd::std_specs::cmp::{PartialEqSpecImpl, PartialOrdSpecImpl};
use vstd::std_specs::convert::TryFromSpecImpl;

verus! {

/// The tag of a deletion's record.
pub const TAG_DELETION: u8 = 0;

/// The tag of a value's record.
pub const TAG_VALUE: u8 = 1;

/// The sequence number of a lookup key: the highest there is, so that a
/// lookup key comes before every version of its key.
pub const MAX_SEQUENCE: u64 = u64::MAX;

/// What a record holds: a value or the mark of a deletion.
#[derive(Debug, PartialEq, Eq, Clone, Copy)]
pub enum ValueType {
    /// The key was deleted.
    Deletion,
    /// The key was given a value.
    Value,
}

impl ValueType {
    /// The tag byte that stands for this kind in a record.
    pub open spec fn tag(self) -> u8 {
        match self {
            ValueType::Deletion => TAG_DELETION,
            ValueType::Value => TAG_VALUE,
        }
    }

    /// The kind that a tag byte stands for, if it stands for one.
    pub open spec fn of_tag(tag: u8) -> Option<ValueType> {
        if tag == TAG_DELETION {
            Some(ValueType::Deletion)
        } else if tag == TAG_VALUE {
            Some(ValueType::Value)
        } else {
            None
        }
    }

    /// The kind that a tag byte stands for, if it stands for one.
    pub fn from_byte(tag: u8) -> (r: Option<ValueType>)
        ensures
            r == ValueType::of_tag(tag),
    {
        if tag == TAG_DELETION {
            Some(ValueType::Deletion)
        } else if tag == TAG_VALUE {
            Some(ValueType::Value)
        } else {
            None
        }
    }

    /// The tag byte that stands for this kind in a record.
    pub fn to_byte(self) -> (tag: u8)
        ensures
            tag == self.tag(),
            ValueType::of_tag(tag) == Some(self),
    {
        match self {
            ValueType::Deletion => TAG_DELETION,
            ValueType::Value => TAG_VALUE,
        }
    }
}

impl TryFrom<u8> for ValueType {
    type Error = ();

    /// The kind that a tag byte stands for; an error for any other byte.
    fn try_from(value: u8) -> (r: Result<Self, ()>) {
        match ValueType::from_byte(value) {
            Some(kind) => Ok(kind),
            None => Err(()),
        }
    }
}

impl TryFromSpecImpl<u8> for ValueType {
    open spec fn obeys_try_from_spec() -> bool {
        true
    }

    open spec fn try_from_spec(value: u8) -> Result<Self, ()> {
        match ValueType::of_tag(value) {
            Some(kind) => Ok(kind),
            None => Err(()),
        }
    }
}

/// The record of a value.
pub open spec fn encode_value(key: Seq<u8>, sequence: u64, value: Seq<u8>) -> Seq<u8> {
    encode_varint(key.len() as u64) + key + encode_varint(sequence) + seq![TAG_VALUE]
        + encode_varint(value.len() as u64) + value
}

/// The record of a deletion.
pub open spec fn encode_deletion(key: Seq<u8>, sequence: u64) -> Seq<u8> {
    encode_varint(key.len() as u64) + key + encode_varint(sequence) + seq![TAG_DELETION]
}

/// The record of a version.
pub open spec fn encode_entry(version: Version) -> Seq<u8> {
    match version.value {
        Some(value) => encode_value(version.key, version.sequence, value),
        None => encode_deletion(version.key, version.sequence),
    }
}

/// The record of a lookup key: that of an empty value with the highest
/// sequence number.
pub open spec fn encode_lookup_key(key: Seq<u8>) -> Seq<u8> {
    encode_value(key, MAX_SEQUENCE, Seq::empty())
}

/// Where the parts of a record lie in its buffer.
pub struct Layout {
    /// Where the key starts.
    pub key_at: nat,
    /// Where the key ends and the sequence number starts.
    pub key_end: nat,
    /// The sequence number.
    pub sequence: u64,
    /// Where the tag byte lies.
    pub tag_at: nat,
    /// Where the value starts, in the record of a value. The value ends
    /// where the buffer ends.
    pub value_at: Option<nat>,
}

/// Where the key of the record in `data` lies: its start and its end.
/// `None` where `data` does not start with a length and as many bytes.
pub open spec fn locate_key(data: Seq<u8>) -> Option<(nat, nat)> {
    match decode_varint(data) {
        Some((len, size)) => if size + len <= data.len() {
            Some((size, (size + len) as nat))
        } else {
            None
        },
        None => None,
    }
}

/// The sequence number of the record in `data` whose key ends at `key_end`,
/// and where the tag byte lies. `None` where no varint follows the key or
/// where `data` ends before the tag byte.
pub open spec fn locate_tag(data: Seq<u8>, key_end: nat) -> Option<(u64, nat)> {
    match decode_varint(data.skip(key_end as int)) {
        Some((sequence, size)) => if key_end + size < data.len() {
            Some((sequence, (key_end + size) as nat))
        } else {
            None
        },
        None => None,
    }
}

/// Where the value of the record in `data` with the tag byte at `tag_at`
/// starts: `Some(None)` for a deletion, which ends with its tag.
/// `None` where the tag is neither of the two, where bytes follow the tag of
/// a deletion, or where the value does not end where `data` ends.
pub open spec fn locate_value(data: Seq<u8>, tag_at: nat) -> Option<Option<nat>> {
    if data[tag_at as int] == TAG_DELETION {
        if tag_at + 1 == data.len() {
            Some(None)
        } else {
            None
        }
    } else if data[tag_at as int] == TAG_VALUE {
        match decode_varint(data.skip((tag_at + 1) as int)) {
            Some((len, size)) => if tag_at + 1 + size + len == data.len() {
                Some(Some((tag_at + 1 + size) as nat))
            } else {
                None
            },
            None => None,
        }
    } else {
        None
    }
}

/// Where the parts of the record in `data` lie. `None` where `data` is not
/// one whole record.
pub open spec fn layout(data: Seq<u8>) -> Option<Layout> {
    match locate_key(data) {
        Some((key_at, key_end)) => match locate_tag(data, key_end) {
            Some((sequence, tag_at)) => match locate_value(data, tag_at) {
                Some(value_at) => Some(Layout { key_at, key_end, sequence, tag_at, value_at }),
                None => None,
            },
            None => None,
        },
        None => None,
    }
}

/// The version that the record with the given layout stands for.
pub open spec fn version_at(data: Seq<u8>, layout: Layout) -> Version {
    Version {
        key: data.subrange(layout.key_at as int, layout.key_end as int),
        sequence: layout.sequence,
        value: match layout.value_at {
            Some(value_at) => Some(data.subrange(value_at as int, data.len() as int)),
            None => None,
        },
    }
}

/// The version that the record in `data` stands for. `None` where `data` is
/// not one whole record: where a varint breaks off or runs over ten bytes,
/// where a length points past the end, where the tag is unknown, or where
/// bytes are left over.
pub open spec fn parse_entry(data: Seq<u8>) -> Option<Version> {
    match layout(data) {
        Some(layout) => Some(version_at(data, layout)),
        None => None,
    }
}

/// The number of bytes that the record of a value takes.
pub open spec fn value_len(key: Seq<u8>, sequence: u64, value: Seq<u8>) -> nat {
    varint_size(key.len() as u64) + key.len() + varint_size(sequence) + 1 + varint_size(
        value.len() as u64,
    ) + value.len()
}

/// The number of bytes that the record of a deletion takes.
pub open spec fn deletion_len(key: Seq<u8>, sequence: u64) -> nat {
    varint_size(key.len() as u64) + key.len() + varint_size(sequence) + 1
}

/// The number of bytes that the record of a lookup key takes.
pub open spec fn lookup_key_len(key: Seq<u8>) -> nat {
    value_len(key, MAX_SEQUENCE, Seq::empty())
}

/// Parsing the record of a value gives the value's version back.
pub proof fn lemma_parse_value(key: Seq<u8>, sequence: u64, value: Seq<u8>)
    requires
        key.len() <= u64::MAX,
        value.len() <= u64::MAX,
    ensures
        parse_entry(encode_value(key, sequence, value)) == Some(
            Version { key, sequence, value: Some(value) },
        ),
{
    let key_code = encode_varint(key.len() as u64);
    let sequence_code = encode_varint(sequence);
    let value_code = encode_varint(value.len() as u64);
    let data = encode_value(key, sequence, value);
    let key_at = key_code.len();
    let key_end = key_at + key.len();
    let tag_at = key_end + sequence_code.len();
    let value_at = tag_at + 1 + value_code.len();

    let after_key_code = key + sequence_code + seq![TAG_VALUE] + value_code + value;
    assert(data =~= key_code + after_key_code);
    lemma_decode_encode(key.len() as u64, after_key_code);
    assert(locate_key(data) == Some((key_at, key_end)));

    let after_sequence_code = seq![TAG_VALUE] + value_code + value;
    assert(data.skip(key_end as int) =~= sequence_code + after_sequence_code);
    lemma_decode_encode(sequence, after_sequence_code);
    assert(locate_tag(data, key_end) == Some((sequence, tag_at)));

    assert(data[tag_at as int] == TAG_VALUE);
    assert(data.skip((tag_at + 1) as int) =~= value_code + value);
    lemma_decode_encode(value.len() as u64, value);
    assert(locate_value(data, tag_at) == Some(Some(value_at)));

    assert(data.subrange(key_at as int, key_end as int) =~= key);
    assert(data.subrange(value_at as int, data.len() as int) =~= value);
}

/// Parsing the record of a deletion gives the deletion's version back.
pub proof fn lemma_parse_deletion(key: Seq<u8>, sequence: u64)
    requires
        key.len() <= u64::MAX,
    ensures
        parse_entry(encode_deletion(key, sequence)) == Some(
            Version { key, sequence, value: None },
        ),
{
    let key_code = encode_varint(key.len() as u64);
    let sequence_code = encode_varint(sequence);
    let data = encode_deletion(key, sequence);
    let key_at = key_code.len();
    let key_end = key_at + key.len();
    let tag_at = key_end + sequence_code.len();

    let after_key_code = key + sequence_code + seq![TAG_DELETION];
    assert(data =~= key_code + after_key_code);
    lemma_decode_encode(key.len() as u64, after_key_code);
    assert(locate_key(data) == Some((key_at, key_end)));

    let after_sequence_code = seq![TAG_DELETION];
    assert(data.skip(key_end as int) =~= sequence_code + after_sequence_code);
    lemma_decode_encode(sequence, after_sequence_code);
    assert(locate_tag(data, key_end) == Some((sequence, tag_at)));

    assert(data[tag_at as int] == TAG_DELETION);
    assert(locate_value(data, tag_at) == Some(None::<nat>));
    assert(data.subrange(key_at as int, key_end as int) =~= key);
}

/// Parsing the record of a version gives the version back.
pub proof fn lemma_parse_encode(version: Version)
    requires
        version.key.len() <= u64::MAX,
        version.value matches Some(value) ==> value.len() <= u64::MAX,
    ensures
        parse_entry(encode_entry(version)) == Some(version),
{
    match version.value {
        Some(value) => lemma_parse_value(version.key, version.sequence, value),
        None => lemma_parse_deletion(version.key, version.sequence),
    }
}

/// Where the parts of a record lie, as a reader found them.
struct Parts {
    key_at: usize,
    key_end: usize,
    sequence: u64,
    tag_at: usize,
    value_at: Option<usize>,
}

impl Parts {
    spec fn to_layout(self) -> Layout {
        Layout {
            key_at: self.key_at as nat,
            key_end: self.key_end as nat,
            sequence: self.sequence,
            tag_at: self.tag_at as nat,
            value_at: match self.value_at {
                Some(value_at) => Some(value_at as nat),
                None => None,
            },
        }
    }
}

/// Finds the parts of the record in `data`, or finds that `data` is not one
/// whole record.
fn locate(data: &[u8]) -> (r: Option<Parts>)
    ensures
        match r {
            Some(parts) => layout(data@) == Some(parts.to_layout()),
            None => layout(data@) is None,
        },
{
    let (key_len, key_at) = read_varu64(data);
    proof {
        lemma_decode_bounds(data@);
    }
    if key_at == 0 {
        return None;
    }
    if key_len > (data.len() - key_at) as u64 {
        return None;
    }
    let key_end = key_at + key_len as usize;
    let (sequence, sequence_size) = read_varu64(&data[key_end..data.len()]);
    proof {
        assert(data@.subrange(key_end as int, data@.len() as int) == data@.skip(key_end as int));
        lemma_decode_bounds(data@.skip(key_end as int));
    }
    if sequence_size == 0 {
        return None;
    }
    let tag_at = key_end + sequence_size;
    if tag_at >= data.len() {
        return None;
    }
    match ValueType::from_byte(data[tag_at]) {
        Some(ValueType::Deletion) => {
            if tag_at + 1 == data.len() {
                Some(Parts { key_at, key_end, sequence, tag_at, value_at: None })
            } else {
                None
            }
        },
        Some(ValueType::Value) => {
            let (value_len, value_size) = read_varu64(&data[tag_at + 1..data.len()]);
            proof {
                assert(data@.subrange(tag_at + 1, data@.len() as int) == data@.skip(tag_at + 1));
                lemma_decode_bounds(data@.skip(tag_at + 1));
            }
            if value_size == 0 {
                return None;
            }
            let value_at = tag_at + 1 + value_size;
            if value_len != (data.len() - value_at) as u64 {
                return None;
            }
            Some(Parts { key_at, key_end, sequence, tag_at, value_at: Some(value_at) })
        },
        None => None,
    }
}

/// Copies `source` into `target` from index `at` on. The bytes around it
/// stay as they were.
fn copy_at(target: &mut [u8], at: usize, source: &[u8])
    requires
        at + source@.len() <= old(target).len(),
    ensures
        final(target)@.len() == old(target)@.len(),
        final(target)@ == old(target)@.take(at as int) + source@ + old(target)@.skip(
            at + source@.len(),
        ),
{
    let mut i: usize = 0;
    while i < source.len()
        invariant
            i <= source@.len(),
            at + source@.len() <= target@.len(),
            target@.len() == old(target)@.len(),
            target@.len() <= usize::MAX,
            forall|j: int| 0 <= j < at || at + i <= j < target@.len() ==> target@[j] == old(
                target,
            )@[j],
            forall|j: int| 0 <= j < i ==> target@[at + j] == source@[j],
        decreases source@.len() - i,
    {
        target[at + i] = source[i];
        i = i + 1;
    }
    proof {
        assert(target@ =~= old(target)@.take(at as int) + source@ + old(target)@.skip(
            at + source@.len(),
        ));
    }
}

/// The number of bytes that the record of a value takes, or `None` where
/// that number does not fit in a `usize`.
pub fn value_size(sequence: u64, key: &[u8], value: &[u8]) -> (r: Option<usize>)
    ensures
        match r {
            Some(size) => size == value_len(key@, sequence, value@),
            None => value_len(key@, sequence, value@) > usize::MAX,
        },
{
    let header = varu64_len(key.len() as u64) + varu64_len(sequence) + 1 + varu64_len(
        value.len() as u64,
    );
    match header.checked_add(key.len()) {
        Some(with_key) => with_key.checked_add(value.len()),
        None => None,
    }
}

/// The number of bytes that the record of a deletion takes, or `None` where
/// that number does not fit in a `usize`.
pub fn deletion_size(sequence: u64, key: &[u8]) -> (r: Option<usize>)
    ensures
        match r {
            Some(size) => size == deletion_len(key@, sequence),
            None => deletion_len(key@, sequence) > usize::MAX,
        },
{
    let header = varu64_len(key.len() as u64) + varu64_len(sequence) + 1;
    header.checked_add(key.len())
}

/// The number of bytes that the record of a lookup key takes, or `None`
/// where that number does not fit in a `usize`.
pub fn lookup_key_size(key: &[u8]) -> (r: Option<usize>)
    ensures
        match r {
            Some(size) => size == lookup_key_len(key@),
            None => lookup_key_len(key@) > usize::MAX,
        },
{
    let empty: [u8; 0] = [];
    let r = value_size(MAX_SEQUENCE, key, empty.as_slice());
    proof {
        assert(empty@ =~= Seq::<u8>::empty());
    }
    r
}

/// Writes the record of a value at the start of `buffer` and returns its
/// length. What follows the record in `buffer` stays as it was.
fn fill_value(buffer: &mut [u8], sequence: u64, key: &[u8], value: &[u8]) -> (size: usize)
    requires
        value_len(key@, sequence, value@) <= old(buffer).len(),
    ensures
        size == value_len(key@, sequence, value@),
        final(buffer)@.len() == old(buffer)@.len(),
        final(buffer)@.take(size as int) == encode_value(key@, sequence, value@),
        final(buffer)@.skip(size as int) == old(buffer)@.skip(size as int),
{
    let ghost key_code = encode_varint(key@.len() as u64);
    let ghost sequence_code = encode_varint(sequence);
    let ghost value_code = encode_varint(value@.len() as u64);
    let key_size = write_varu64_at(buffer, 0, key.len() as u64);
    let key_end = key_size + key.len();
    copy_at(buffer, key_size, key);
    assert(buffer@.take(key_end as int) =~= key_code + key@);
    let sequence_size = write_varu64_at(buffer, key_end, sequence);
    let tag_at = key_end + sequence_size;
    assert(buffer@.take(tag_at as int) =~= key_code + key@ + sequence_code);
    buffer[tag_at] = ValueType::Value.to_byte();
    assert(buffer@.take(tag_at + 1) =~= key_code + key@ + sequence_code + seq![TAG_VALUE]);
    let value_size = write_varu64_at(buffer, tag_at + 1, value.len() as u64);
    let value_at = tag_at + 1 + value_size;
    assert(buffer@.take(value_at as int) =~= key_code + key@ + sequence_code + seq![TAG_VALUE]
        + value_code);
    copy_at(buffer, value_at, value);
    let size = value_at + value.len();
    proof {
        assert(buffer@.take(size as int) =~= encode_value(key@, sequence, value@));
        assert(buffer@.skip(size as int) =~= old(buffer)@.skip(size as int));
    }
    size
}

/// Writes the record of a deletion at the start of `buffer` and returns its
/// length. What follows the record in `buffer` stays as it was.
fn fill_deletion(buffer: &mut [u8], sequence: u64, key: &[u8]) -> (size: usize)
    requires
        deletion_len(key@, sequence) <= old(buffer).len(),
    ensures
        size == deletion_len(key@, sequence),
        final(buffer)@.len() == old(buffer)@.len(),
        final(buffer)@.take(size as int) == encode_deletion(key@, sequence),
        final(buffer)@.skip(size as int) == old(buffer)@.skip(size as int),
{
    let ghost key_code = encode_varint(key@.len() as u64);
    let ghost sequence_code = encode_varint(sequence);
    let key_size = write_varu64_at(buffer, 0, key.len() as u64);
    let key_end = key_size + key.len();
    copy_at(buffer, key_size, key);
    assert(buffer@.take(key_end as int) =~= key_code + key@);
    let sequence_size = write_varu64_at(buffer, key_end, sequence);
    let tag_at = key_end + sequence_size;
    assert(buffer@.take(tag_at as int) =~= key_code + key@ + sequence_code);
    buffer[tag_at] = ValueType::Deletion.to_byte();
    let size = tag_at + 1;
    proof {
        assert(buffer@.take(size as int) =~= encode_deletion(key@, sequence));
        assert(buffer@.skip(size as int) =~= old(buffer)@.skip(size as int));
    }
    size
}

/// One version of a key, held as a record in a buffer that the entry
/// borrows. An entry never changes.
#[derive(Debug)]
pub struct Entry<'a> {
    data: &'a [u8],
}

impl<'a> View for Entry<'a> {
    type V = Version;

    /// The version that the entry stands for.
    closed spec fn view(&self) -> Version {
        parse_entry(self.data@)->0
    }
}

impl<'a> Entry<'a> {
    /// The buffer of an entry holds one whole record.
    #[verifier::type_invariant]
    spec fn holds_a_record(&self) -> bool {
        parse_entry(self.data@) is Some
    }

    /// The bytes of the entry's record.
    pub closed spec fn bytes(&self) -> Seq<u8> {
        self.data@
    }

    /// Writes the record of a value into `buffer`, which has to be of the
    /// record's length, and makes the buffer an entry.
    pub fn write_value(buffer: &'a mut [u8], sequence: u64, key: &[u8], value: &[u8]) -> (entry:
        Entry<'a>)
        requires
            old(buffer)@.len() == value_len(key@, sequence, value@),
        ensures
            entry.bytes() == encode_value(key@, sequence, value@),
            entry@ == (Version { key: key@, sequence, value: Some(value@) }),
    {
        let size = fill_value(buffer, sequence, key, value);
        proof {
            assert(buffer@.take(size as int) =~= buffer@);
            lemma_parse_value(key@, sequence, value@);
        }
        Entry { data: buffer }
    }

    /// Writes the record of a deletion into `buffer`, which has to be of the
    /// record's length, and makes the buffer an entry.
    pub fn write_deletion(buffer: &'a mut [u8], sequence: u64, key: &[u8]) -> (entry: Entry<'a>)
        requires
            old(buffer)@.len() == deletion_len(key@, sequence),
        ensures
            entry.bytes() == encode_deletion(key@, sequence),
            entry@ == (Version { key: key@, sequence, value: None }),
    {
        let size = fill_deletion(buffer, sequence, key);
        proof {
            assert(buffer@.take(size as int) =~= buffer@);
            lemma_parse_deletion(key@, sequence);
        }
        Entry { data: buffer }
    }

    /// The entry of a value, its record held by `arena`. `None` where the
    /// arena cannot take the record; it never takes one longer than its
    /// capacity.
    pub fn new_value(arena: &'a Arena, sequence: u64, key: &[u8], value: &[u8]) -> (r: Option<
        Entry<'a>,
    >)
        ensures
            r matches Some(entry) ==> entry.bytes() == encode_value(key@, sequence, value@)
                && entry@ == (Version { key: key@, sequence, value: Some(value@) }),
            value_len(key@, sequence, value@) > arena.capacity() ==> r is None,
    {
        match value_size(sequence, key, value) {
            Some(size) => match arena.allocate(size) {
                Some(buffer) => Some(Entry::write_value(buffer, sequence, key, value)),
                None => None,
            },
            None => None,
        }
    }

    /// The entry of a deletion, its record held by `arena`. `None` where
    /// the arena cannot take the record; it never takes one longer than its
    /// capacity.
    pub fn new_deletion(arena: &'a Arena, sequence: u64, key: &[u8]) -> (r: Option<Entry<'a>>)
        ensures
            r matches Some(entry) ==> entry.bytes() == encode_deletion(key@, sequence) && entry@
                == (Version { key: key@, sequence, value: None }),
            deletion_len(key@, sequence) > arena.capacity() ==> r is None,
    {
        match deletion_size(sequence, key) {
            Some(size) => match arena.allocate(size) {
                Some(buffer) => Some(Entry::write_deletion(buffer, sequence, key)),
                None => None,
            },
            None => None,
        }
    }

    /// The lookup key of `key`, its record written at the start of
    /// `buffer`: the entry of an empty value with the highest sequence
    /// number. It comes before every version of `key` and after every
    /// version of a smaller key.
    pub fn new_lookup_key(buffer: &'a mut [u8], key: &[u8]) -> (entry: Entry<'a>)
        requires
            old(buffer)@.len() >= lookup_key_len(key@),
        ensures
            entry.bytes() == encode_lookup_key(key@),
            entry@ == (Version { key: key@, sequence: MAX_SEQUENCE, value: Some(Seq::empty()) }),
    {
        let empty: [u8; 0] = [];
        proof {
            assert(empty@ =~= Seq::<u8>::empty());
        }
        let size = fill_value(buffer, MAX_SEQUENCE, key, empty.as_slice());
        let whole: &'a [u8] = buffer;
        let data = &whole[0..size];
        proof {
            assert(data@ =~= encode_lookup_key(key@));
            lemma_parse_value(key@, MAX_SEQUENCE, Seq::empty());
        }
        Entry { data }
    }

    /// Makes an entry of a buffer that holds a record. A buffer that is not
    /// one whole record is refused as corrupt.
    pub fn decode(data: &'a [u8]) -> (r: Result<Entry<'a>, Error>)
        ensures
            match r {
                Ok(entry) => entry.bytes() == data@ && parse_entry(data@) == Some(entry@),
                Err(e) => e == Error::Corruption && parse_entry(data@) is None,
            },
    {
        match locate(data) {
            Some(_) => Ok(Entry { data }),
            None => Err(Error::Corruption),
        }
    }

    /// The bytes of the entry's record.
    pub fn as_bytes(&self) -> (data: &[u8])
        ensures
            data@ == self.bytes(),
            parse_entry(data@) == Some(self@),
    {
        proof {
            use_type_invariant(self);
        }
        self.data
    }

    fn parts(&self) -> (parts: Parts)
        ensures
            layout(self.data@) == Some(parts.to_layout()),
            self@ == version_at(self.data@, parts.to_layout()),
    {
        proof {
            use_type_invariant(self);
        }
        locate(self.data).unwrap()
    }

    /// Whether the entry holds a value or marks a deletion.
    pub fn vtype(&self) -> (kind: ValueType)
        ensures
            kind is Deletion <==> self@.value is None,
    {
        match self.parts().value_at {
            Some(_) => ValueType::Value,
            None => ValueType::Deletion,
        }
    }

    /// The sequence number of the entry.
    pub fn sequence_id(&self) -> (sequence: u64)
        ensures
            sequence == self@.sequence,
    {
        self.parts().sequence
    }

    /// The key of the entry.
    pub fn key(&self) -> (key: &[u8])
        ensures
            key@ == self@.key,
    {
        let parts = self.parts();
        &self.data[parts.key_at..parts.key_end]
    }

    /// The value of the entry; `None` for a deletion.
    pub fn value(&self) -> (value: Option<&[u8]>)
        ensures
            match value {
                Some(bytes) => self@.value == Some(bytes@),
                None => self@.value is None,
            },
    {
        match self.parts().value_at {
            Some(value_at) => Some(&self.data[value_at..self.data.len()]),
            None => None,
        }
    }

    /// The key and the value of the entry.
    pub fn key_value(&self) -> (r: (&[u8], Option<&[u8]>))
        ensures
            r.0@ == self@.key,
            match r.1 {
                Some(bytes) => self@.value == Some(bytes@),
                None => self@.value is None,
            },
    {
        let parts = self.parts();
        let key = &self.data[parts.key_at..parts.key_end];
        let value = match parts.value_at {
            Some(value_at) => Some(&self.data[value_at..self.data.len()]),
            None => None,
        };
        (key, value)
    }

    /// The number of bytes of the entry's record.
    pub fn len(&self) -> (len: usize)
        ensures
            len == self.bytes().len(),
    {
        self.data.len()
    }
}

impl<'a> Entry<'a> {
    /// How the entry stands to `other` in the order of the table: by key
    /// ascending, and for one key by sequence number descending, so that the
    /// newer entry comes first.
    pub fn cmp(&self, other: &Entry) -> (r: Ordering)
        ensures
            r == Ordering::Less <==> version_lt(self@, other@),
            r == Ordering::Greater <==> version_lt(other@, self@),
    {
        let rank = compare_slots(
            self.key(),
            self.sequence_id(),
            other.key(),
            other.sequence_id(),
        );
        match rank {
            Rank::Before => Ordering::Less,
            Rank::Same => Ordering::Equal,
            Rank::After => Ordering::Greater,
        }
    }
}

impl<'a> PartialEq for Entry<'a> {
    /// Two entries are equal where their keys are: they are versions of one
    /// key, whatever their sequence numbers and values.
    fn eq(&self, other: &Self) -> (r: bool) {
        match compare_bytes(self.key(), other.key()) {
            Rank::Same => true,
            _ => false,
        }
    }
}

impl<'a> PartialEqSpecImpl for Entry<'a> {
    open spec fn obeys_eq_spec() -> bool {
        true
    }

    open spec fn eq_spec(&self, other: &Self) -> bool {
        self@.key == other@.key
    }
}

impl<'a> PartialOrd for Entry<'a> {
    /// The order of the table.
    fn partial_cmp(&self, other: &Self) -> (r: Option<Ordering>) {
        Some(self.cmp(other))
    }
}

impl<'a> PartialOrdSpecImpl for Entry<'a> {
    open spec fn obeys_partial_cmp_spec() -> bool {
        true
    }

    open spec fn partial_cmp_spec(&self, other: &Self) -> Option<Ordering> {
        if version_lt(self@, other@) {
            Some(Ordering::Less)
        } else if version_lt(other@, self@) {
            Some(Ordering::Greater)
        } else {
            Some(Ordering::Equal)
        }
    }
}

impl<'a> Versioned for Entry<'a> {
    open spec fn version(&self) -> Version {
        self@
    }

    fn version_key(&self) -> (key: &[u8]) {
        self.key()
    }

    fn version_sequence(&self) -> (sequence: u64) {
        self.sequence_id()
    }
}

} // verus!
