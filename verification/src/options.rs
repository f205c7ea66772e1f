//! The kinds of record that a table can hold.

use vstd::prelude::*;
use vstd::std_specs::convert::TryFromSpecImpl;

verus! {

/// What a record holds.
#[derive(Debug, PartialEq, Eq, Clone, Copy)]
pub enum ValueType {
    /// The mark of a deleted key.
    Deletion,
    /// A value.
    Value,
    /// A value with the time it was written.
    ValueWriteTime,
    /// A value with the time it expires.
    ValueExplicitExpiry,
}

impl ValueType {
    /// The tag byte that stands for this kind in a record: the place of the
    /// kind in the list of kinds, counted from zero.
    pub open spec fn tag(self) -> u8 {
        match self {
            ValueType::Deletion => 0,
            ValueType::Value => 1,
            ValueType::ValueWriteTime => 2,
            ValueType::ValueExplicitExpiry => 3,
        }
    }

    /// The kind that a tag byte stands for, if it stands for one.
    pub open spec fn of_tag(tag: u8) -> Option<ValueType> {
        if tag == 0 {
            Some(ValueType::Deletion)
        } else if tag == 1 {
            Some(ValueType::Value)
        } else if tag == 2 {
            Some(ValueType::ValueWriteTime)
        } else if tag == 3 {
            Some(ValueType::ValueExplicitExpiry)
        } else {
            None
        }
    }

    /// The kind that a tag byte stands for, if it stands for one.
    pub fn from_byte(tag: u8) -> (r: Option<ValueType>)
        ensures
            r == ValueType::of_tag(tag),
    {
        if tag == 0 {
            Some(ValueType::Deletion)
        } else if tag == 1 {
            Some(ValueType::Value)
        } else if tag == 2 {
            Some(ValueType::ValueWriteTime)
        } else if tag == 3 {
            Some(ValueType::ValueExplicitExpiry)
        } else {
            None
        }
    }

    /// The tag byte that stands for this kind in a record.
    pub fn to_byte(self) -> (tag: u8)
        ensures
            tag == self.tag(),
            ValueType::of_tag(tag) == Some(self),
    {
        match self {
            ValueType::Deletion => 0,
            ValueType::Value => 1,
            ValueType::ValueWriteTime => 2,
            ValueType::ValueExplicitExpiry => 3,
        }
    }
}

impl TryFrom<u8> for ValueType {
    type Error = ();

    /// The kind that a tag byte stands for; an error for a byte above three.
    fn try_from(value: u8) -> (r: Result<Self, ()>) {
        match ValueType::from_byte(value) {
            Some(kind) => Ok(kind),
            None => Err(()),
        }
    }
}

impl TryFromSpecImpl<u8> for ValueType {
    open spec fn obeys_try_from_spec() -> bool {
        true
    }

    open spec fn try_from_spec(value: u8) -> Result<Self, ()> {
        match ValueType::of_tag(value) {
            Some(kind) => Ok(kind),
            None => Err(()),
        }
    }
}

} // verus!
