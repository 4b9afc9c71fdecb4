//! The tag of an internal key, taken apart.

use crate::db::format::extract_tag;
use crate::db::format::extract_user_key;
use crate::db::format::tag_of;
use crate::db::format::user_key_of;
use crate::db::SequenceNumber;
use vstd::prelude::*;

verus! {

/// Whether a record carries a value or marks a deletion.
#[derive(Debug, Clone, Copy, PartialEq, Eq, Structural)]
pub enum ValueType {
    /// A tombstone; stored as 0.
    TypeDeletion,
    /// A value; stored as anything else.
    TypeValue,
}

/// An internal key: a user key and an eight-byte tag.
pub type InternelKey<'a> = &'a [u8];

/// A user key.
pub type UserKey<'a> = &'a [u8];

/// The value type that the low byte of `tag` stands for.
pub open spec fn tag_type(tag: u64) -> ValueType {
    if tag % 256 == 0 {
        ValueType::TypeDeletion
    } else {
        ValueType::TypeValue
    }
}

/// The parts of an internal key: user key, sequence number and value type.
/// The empty key stands for the empty user key at sequence 0, deleted; a
/// key of one to seven bytes has no parts.
pub fn ParseInternelKey(key: InternelKey) -> (r: Option<(UserKey, SequenceNumber, ValueType)>)
    ensures
        match r {
            Some((user_key, seq, value_type)) => if key@.len() == 0 {
                user_key@ == key@ && seq == 0 && value_type == ValueType::TypeDeletion
            } else {
                key@.len() >= 8 && user_key@ == user_key_of(key@) && seq == tag_of(key@) / 256
                    && value_type == tag_type(tag_of(key@) as u64)
            },
            None => 0 < key@.len() < 8,
        },
{
    let len = key.len();
    if len == 0 {
        Some((key, 0, ValueType::TypeDeletion))
    } else if len < 8 {
        None
    } else {
        let user_key = extract_user_key(key);
        let (value_type, seq) = parse_key(extract_tag(key));
        Some((user_key, seq, value_type))
    }
}

/// The value type and the sequence number that a tag packs.
pub fn parse_key(tag: u64) -> (r: (ValueType, SequenceNumber))
    ensures
        r.0 == tag_type(tag),
        r.1 == tag / 256,
{
    assert(tag >> 8 == tag / 256) by (bit_vector);
    assert(tag & 0xff == tag % 256) by (bit_vector);
    let sequence = tag >> 8;
    let value_type = tag & 0xff;
    if value_type == 0 {
        (ValueType::TypeDeletion, sequence)
    } else {
        (ValueType::TypeValue, sequence)
    }
}

} // verus!
