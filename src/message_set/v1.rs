use vstd::prelude::*;
use crate::types::NullableBytes;

verus! {

/// A message of the second message-set revision, which adds a timestamp.
#[derive(Debug, Clone, PartialEq, Eq, PartialOrd, Ord, Hash)]
pub struct Message {
    pub crc: u32,
    pub magic_byte: i8,
    pub attributes: i8,
    pub timestamp: i64,
    pub key: NullableBytes,
    pub value: NullableBytes,
}

} // verus!
