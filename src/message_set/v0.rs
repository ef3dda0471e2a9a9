use vstd::prelude::*;
use crate::types::NullableBytes;

verus! {

/// A message of the first message-set revision.
#[derive(Debug, Clone, PartialEq, Eq, PartialOrd, Ord, Hash)]
pub struct Message {
    pub crc: u32,
    pub magic_byte: i8,
    pub attributes: i8,
    pub key: NullableBytes,
    pub value: NullableBytes,
}

} // verus!
