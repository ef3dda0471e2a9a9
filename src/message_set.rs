//! The older record container: a message set entry, one layout per
//! revision, the revision chosen by the protocol version. Its fields are
//! written as they stand, in declared order.
use vstd::prelude::*;
use crate::codec::{Deserializer, Serializer};
use crate::error::{Context, Error, ErrorKind};
use crate::primitives::{
    bytes_option_view, get_i64, get_int, get_nullable_bytes, get_uint, nullable_bytes_wire,
    parse_int, parse_nullable_bytes, parse_uint, put_int, put_nullable_bytes, rest,
};
use crate::record::{encoded, then};
use crate::types::NullableBytes;
use crate::wire::{be_bytes, int_bytes, lemma_pow256_values, put_be};

pub mod v0;
pub mod v1;

verus! {

/// One entry of a message set, in the layout of its revision.
#[allow(inconsistent_fields)]
#[derive(Debug, Clone, PartialEq, Eq, PartialOrd, Ord, Hash)]
pub enum MessageSet {
    V0 { offset: i64, message_size: i32, message: v0::Message },
    V1 { offset: i64, message_size: i32, message: v1::Message },
}

/// The content of an entry: the revision, offset, message size, CRC, magic
/// byte, attributes, timestamp (revision 1 only), key and value.
pub struct EntryModel {
    pub revision: nat,
    pub offset: i64,
    pub message_size: i32,
    pub crc: u32,
    pub magic_byte: i8,
    pub attributes: i8,
    pub timestamp: i64,
    pub key: Option<Seq<u8>>,
    pub value: Option<Seq<u8>>,
}

impl View for MessageSet {
    type V = EntryModel;

    open spec fn view(&self) -> EntryModel {
        match self {
            MessageSet::V0 { offset, message_size, message } => EntryModel {
                revision: 0,
                offset: *offset,
                message_size: *message_size,
                crc: message.crc,
                magic_byte: message.magic_byte,
                attributes: message.attributes,
                timestamp: 0,
                key: bytes_option_view(message.key.0),
                value: bytes_option_view(message.value.0),
            },
            MessageSet::V1 { offset, message_size, message } => EntryModel {
                revision: 1,
                offset: *offset,
                message_size: *message_size,
                crc: message.crc,
                magic_byte: message.magic_byte,
                attributes: message.attributes,
                timestamp: message.timestamp,
                key: bytes_option_view(message.key.0),
                value: bytes_option_view(message.value.0),
            },
        }
    }
}

/// The fixed-width fields of an entry.
pub open spec fn fixed_wire(m: EntryModel) -> Seq<u8> {
    int_bytes(m.offset as int, 8) + int_bytes(m.message_size as int, 4) + be_bytes(m.crc as nat, 4)
        + int_bytes(m.magic_byte as int, 1) + int_bytes(m.attributes as int, 1)
        + (if m.revision == 1 { int_bytes(m.timestamp as int, 8) } else { Seq::empty() })
}

/// The wire form of an entry.
pub open spec fn entry_wire(m: EntryModel) -> Result<Seq<u8>, ErrorKind> {
    then(Ok(fixed_wire(m)), then(nullable_bytes_wire(m.key), nullable_bytes_wire(m.value)))
}

/// The fixed part of an entry: its length for a revision.
pub open spec fn fixed_len(revision: nat) -> nat {
    if revision == 1 {
        26
    } else {
        18
    }
}

/// Decodes an entry in the layout of revision `ver` from the front of `b`.
pub open spec fn parse_entry(b: Seq<u8>, ver: nat) -> Result<(EntryModel, nat), ErrorKind> {
    if ver > 1 {
        Err(ErrorKind::UnknownVariant(ver as usize, 2))
    } else {
        match parse_int(b, 8, Context::I64) {
            Err(e) => Err(e),
            Ok((offset, _)) => match parse_int(b.skip(8), 4, Context::I32) {
                Err(e) => Err(e),
                Ok((size, _)) => match parse_uint(b.skip(12), 4, Context::U32) {
                    Err(e) => Err(e),
                    Ok((crc, _)) => match parse_int(b.skip(16), 1, Context::I8) {
                        Err(e) => Err(e),
                        Ok((magic, _)) => match parse_int(b.skip(17), 1, Context::I8) {
                            Err(e) => Err(e),
                            Ok((attributes, _)) => match (if ver == 1 {
                                parse_int(b.skip(18), 8, Context::I64)
                            } else {
                                Ok((0, 0))
                            }) {
                                Err(e) => Err(e),
                                Ok((ts, _)) => match parse_nullable_bytes(b.skip(fixed_len(ver) as int)) {
                                    Err(e) => Err(e),
                                    Ok((key, k)) => match parse_nullable_bytes(b.skip((fixed_len(ver) + k) as int)) {
                                        Err(e) => Err(e),
                                        Ok((value, m)) => Ok((
                                            EntryModel {
                                                revision: ver,
                                                offset: offset as i64,
                                                message_size: size as i32,
                                                crc: crc as u32,
                                                magic_byte: magic as i8,
                                                attributes: attributes as i8,
                                                timestamp: ts as i64,
                                                key,
                                                value,
                                            },
                                            (fixed_len(ver) + k + m) as nat,
                                        )),
                                    },
                                },
                            },
                        },
                    },
                },
            },
        }
    }
}

impl MessageSet {
    /// Appends the entry's fields in declared order.
    pub fn serialize(&self, ser: &mut Serializer) -> (r: Result<(), Error>)
        ensures
            encoded(r, old(ser)@, final(ser)@, entry_wire(self@)),
    {
        proof {
            lemma_pow256_values();
        }
        let out = ser.buf_mut();
        let (key, value) = match self {
            MessageSet::V0 { offset, message_size, message } => {
                put_int(out, *offset, 8);
                put_int(out, *message_size as i64, 4);
                put_be(out, message.crc as u64, 4);
                put_int(out, message.magic_byte as i64, 1);
                put_int(out, message.attributes as i64, 1);
                assert(out@ =~= old(ser)@ + fixed_wire(self@));
                (&message.key, &message.value)
            },
            MessageSet::V1 { offset, message_size, message } => {
                put_int(out, *offset, 8);
                put_int(out, *message_size as i64, 4);
                put_be(out, message.crc as u64, 4);
                put_int(out, message.magic_byte as i64, 1);
                put_int(out, message.attributes as i64, 1);
                put_int(out, message.timestamp, 8);
                assert(out@ =~= old(ser)@ + fixed_wire(self@));
                (&message.key, &message.value)
            },
        };
        let ghost fixed = out@;
        put_nullable_bytes(out, &key.0)?;
        let ghost mid = out@;
        put_nullable_bytes(out, &value.0)?;
        proof {
            let kw = nullable_bytes_wire(self@.key)->Ok_0;
            let vw = nullable_bytes_wire(self@.value)->Ok_0;
            assert(out@ == fixed + kw + vw);
            assert(out@ =~= old(ser)@ + (fixed_wire(self@) + (kw + vw)));
        }
        Ok(())
    }

    /// Decodes an entry in the layout that the decoder's version selects.
    pub fn deserialize(de: &mut Deserializer) -> (r: Result<MessageSet, Error>)
        requires
            old(de).wf(),
        ensures
            final(de).wf(),
            final(de).version_spec() == old(de).version_spec(),
            match parse_entry(old(de).remaining(), old(de).version_spec()) {
                Ok((m, n)) => r matches Ok(x) && x@ == m
                    && final(de).remaining() == old(de).remaining().skip(n as int),
                Err(k) => r matches Err(e) && e.kind == k,
            },
            r is Err ==> final(de).remaining() == old(de).remaining(),
    {
        let ver = de.version();
        if ver > 1 {
            return Err(Error::new(ErrorKind::UnknownVariant(ver, 2)));
        }
        let (input, pos) = de.parts();
        let ghost b = rest(input@, pos as int);
        let len = input.len();
        let offset = get_i64(input, pos)?;
        assert(rest(input@, pos + 8) == b.skip(8));
        let message_size = get_int(input, pos + 8, 4, Context::I32)?;
        assert(rest(input@, pos + 12) == b.skip(12));
        let crc = get_uint(input, pos + 12, 4, Context::U32)?;
        assert(rest(input@, pos + 16) == b.skip(16));
        let magic_byte = get_int(input, pos + 16, 1, Context::I8)?;
        assert(rest(input@, pos + 17) == b.skip(17));
        let attributes = get_int(input, pos + 17, 1, Context::I8)?;
        proof {
            lemma_pow256_values();
        }
        let fixed: usize = if ver == 1 { 26 } else { 18 };
        let timestamp: i64 = if ver == 1 {
            assert(rest(input@, pos + 18) == b.skip(18));
            get_i64(input, pos + 18)?
        } else {
            0
        };
        assert(rest(input@, pos + fixed) == b.skip(fixed as int));
        let (key, k) = get_nullable_bytes(input, pos + fixed)?;
        assert(rest(input@, pos + fixed + k) == b.skip(fixed + k));
        let (value, m) = get_nullable_bytes(input, pos + fixed + k)?;
        let entry = if ver == 1 {
            MessageSet::V1 {
                offset,
                message_size,
                message: v1::Message {
                    crc: crc as u32,
                    magic_byte: magic_byte as i8,
                    attributes: attributes as i8,
                    timestamp,
                    key: NullableBytes(key),
                    value: NullableBytes(value),
                },
            }
        } else {
            MessageSet::V0 {
                offset,
                message_size,
                message: v0::Message {
                    crc: crc as u32,
                    magic_byte: magic_byte as i8,
                    attributes: attributes as i8,
                    key: NullableBytes(key),
                    value: NullableBytes(value),
                },
            }
        };
        de.advance(fixed + k + m);
        Ok(entry)
    }
}

} // verus!
