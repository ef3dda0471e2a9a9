//! Wrapper types for the wire forms that a bare Rust type does not pick out:
//! nullable strings and byte buffers, 32-bit-prefixed byte buffers, and
//! zigzag variable-length integers.
use vstd::prelude::*;
use crate::codec::{Deserializer, Serializer};
use crate::error::Error;
use crate::primitives::{
    bytes_option_view, bytes_wire, get_bytes, get_nullable_bytes, get_nullable_str,
    nullable_bytes_wire, nullable_str_wire, option_view, parse_bytes, parse_nullable_bytes,
    parse_nullable_str, put_bytes, put_nullable_bytes, put_nullable_str,
};
use crate::varint::{parse_varint, parse_varlong, varint_spec, varlong_spec, zag_i32, zag_i64, zig_i32, zig_i64};

verus! {

/// Optional text; on the wire a 16-bit length, with -1 for absence.
#[derive(Debug, Clone, PartialEq, Eq, PartialOrd, Ord, Hash, Default)]
pub struct NullableString(pub Option<String>);

/// A 32-bit integer in zigzag variable-length form.
#[derive(Debug, Clone, Copy, PartialEq, Eq, PartialOrd, Ord, Hash, Default, Structural)]
pub struct Varint(pub i32);

/// A 64-bit integer in zigzag variable-length form.
#[derive(Debug, Clone, Copy, PartialEq, Eq, PartialOrd, Ord, Hash, Default, Structural)]
pub struct Varlong(pub i64);

/// Raw bytes; on the wire a 32-bit length, then the bytes.
#[derive(Debug, Clone, PartialEq, Eq, PartialOrd, Ord, Hash, Default)]
pub struct Bytes(pub Vec<u8>);

/// Optional raw bytes; on the wire a 32-bit length, with -1 for absence.
#[derive(Debug, Clone, PartialEq, Eq, PartialOrd, Ord, Hash, Default)]
pub struct NullableBytes(pub Option<Vec<u8>>);

impl NullableString {
    pub fn from(s: &str) -> (r: Self)
        ensures
            option_view(r.0) == Some(s@),
    {
        NullableString(Some(s.to_owned()))
    }

    pub fn serialize(&self, ser: &mut Serializer) -> (r: Result<(), Error>)
        ensures
            match nullable_str_wire(option_view(self.0)) {
                Ok(w) => r is Ok && final(ser)@ == old(ser)@ + w,
                Err(k) => r matches Err(e) && e.kind == k,
            },
            r is Err ==> final(ser)@ == old(ser)@,
    {
        put_nullable_str(ser.buf_mut(), &self.0)
    }

    pub fn deserialize(de: &mut Deserializer) -> (r: Result<Self, Error>)
        requires
            old(de).wf(),
        ensures
            final(de).wf(),
            final(de).version_spec() == old(de).version_spec(),
            match parse_nullable_str(old(de).remaining()) {
                Ok((x, n)) => r matches Ok(v) && option_view(v.0) == x
                    && final(de).remaining() == old(de).remaining().skip(n as int),
                Err(k) => r matches Err(e) && e.kind == k,
            },
            r is Err ==> final(de).remaining() == old(de).remaining(),
    {
        let (input, pos) = de.parts();
        let (x, n) = get_nullable_str(input, pos)?;
        de.advance(n);
        Ok(NullableString(x))
    }
}

impl NullableBytes {
    pub fn from(b: Vec<u8>) -> (r: Self)
        ensures
            bytes_option_view(r.0) == Some(b@),
    {
        NullableBytes(Some(b))
    }

    pub fn serialize(&self, ser: &mut Serializer) -> (r: Result<(), Error>)
        ensures
            match nullable_bytes_wire(bytes_option_view(self.0)) {
                Ok(w) => r is Ok && final(ser)@ == old(ser)@ + w,
                Err(k) => r matches Err(e) && e.kind == k,
            },
            r is Err ==> final(ser)@ == old(ser)@,
    {
        put_nullable_bytes(ser.buf_mut(), &self.0)
    }

    pub fn deserialize(de: &mut Deserializer) -> (r: Result<Self, Error>)
        requires
            old(de).wf(),
        ensures
            final(de).wf(),
            final(de).version_spec() == old(de).version_spec(),
            match parse_nullable_bytes(old(de).remaining()) {
                Ok((x, n)) => r matches Ok(v) && bytes_option_view(v.0) == x
                    && final(de).remaining() == old(de).remaining().skip(n as int),
                Err(k) => r matches Err(e) && e.kind == k,
            },
            r is Err ==> final(de).remaining() == old(de).remaining(),
    {
        let (input, pos) = de.parts();
        let (x, n) = get_nullable_bytes(input, pos)?;
        de.advance(n);
        Ok(NullableBytes(x))
    }
}

impl Bytes {
    pub fn serialize(&self, ser: &mut Serializer) -> (r: Result<(), Error>)
        ensures
            match bytes_wire(self.0@) {
                Ok(w) => r is Ok && final(ser)@ == old(ser)@ + w,
                Err(k) => r matches Err(e) && e.kind == k,
            },
            r is Err ==> final(ser)@ == old(ser)@,
    {
        put_bytes(ser.buf_mut(), self.0.as_slice())
    }

    pub fn deserialize(de: &mut Deserializer) -> (r: Result<Self, Error>)
        requires
            old(de).wf(),
        ensures
            final(de).wf(),
            final(de).version_spec() == old(de).version_spec(),
            match parse_bytes(old(de).remaining()) {
                Ok((x, n)) => r matches Ok(v) && v.0@ == x
                    && final(de).remaining() == old(de).remaining().skip(n as int),
                Err(k) => r matches Err(e) && e.kind == k,
            },
            r is Err ==> final(de).remaining() == old(de).remaining(),
    {
        let (input, pos) = de.parts();
        let (x, n) = get_bytes(input, pos)?;
        de.advance(n);
        Ok(Bytes(x))
    }
}

impl Varint {
    pub fn serialize(&self, ser: &mut Serializer)
        ensures
            final(ser)@ == old(ser)@ + varint_spec(self.0),
    {
        zig_i32(self.0, ser.buf_mut());
    }

    pub fn deserialize(de: &mut Deserializer) -> (r: Result<Self, Error>)
        requires
            old(de).wf(),
        ensures
            final(de).wf(),
            final(de).version_spec() == old(de).version_spec(),
            match parse_varint(old(de).remaining()) {
                Ok((x, n)) => r == Ok::<Varint, Error>(Varint(x))
                    && final(de).remaining() == old(de).remaining().skip(n as int),
                Err(k) => r matches Err(e) && e.kind == k,
            },
            r is Err ==> final(de).remaining() == old(de).remaining(),
    {
        let (input, pos) = de.parts();
        let (x, n) = zag_i32(input, pos)?;
        de.advance(n);
        Ok(Varint(x))
    }
}

impl Varlong {
    pub fn serialize(&self, ser: &mut Serializer)
        ensures
            final(ser)@ == old(ser)@ + varlong_spec(self.0),
    {
        zig_i64(self.0, ser.buf_mut());
    }

    pub fn deserialize(de: &mut Deserializer) -> (r: Result<Self, Error>)
        requires
            old(de).wf(),
        ensures
            final(de).wf(),
            final(de).version_spec() == old(de).version_spec(),
            match parse_varlong(old(de).remaining()) {
                Ok((x, n)) => r == Ok::<Varlong, Error>(Varlong(x))
                    && final(de).remaining() == old(de).remaining().skip(n as int),
                Err(k) => r matches Err(e) && e.kind == k,
            },
            r is Err ==> final(de).remaining() == old(de).remaining(),
    {
        let (input, pos) = de.parts();
        let (x, n) = zag_i64(input, pos)?;
        de.advance(n);
        Ok(Varlong(x))
    }
}

} // verus!
