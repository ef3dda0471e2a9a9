//! The buffers that encoding writes to and decoding reads from.
use vstd::prelude::*;
use vstd::slice::slice_subrange;
use crate::error::{Error, ErrorKind, Limit};
use crate::wire::{int_bytes, lemma_pow256_values};
use crate::primitives::{BYTES_MAX, put_int, put_raw, rest};
use crate::schema::{Schema, Value, dec, dec_path, decode_value, enc, enc_path, encode_value};

verus! {

/// An output buffer for encoding.
pub struct Serializer {
    buf: Vec<u8>,
}

impl View for Serializer {
    type V = Seq<u8>;

    closed spec fn view(&self) -> Seq<u8> {
        self.buf@
    }
}

impl Serializer {
    /// An empty buffer.
    pub fn new() -> (s: Self)
        ensures
            s@ == Seq::<u8>::empty(),
    {
        Serializer { buf: Vec::new() }
    }

    /// A buffer that starts with four bytes reserved for a length prefix.
    pub fn new_sized() -> (s: Self)
        ensures
            s@ == seq![0u8, 0u8, 0u8, 0u8],
    {
        let mut buf = Vec::new();
        buf.push(0u8);
        buf.push(0u8);
        buf.push(0u8);
        buf.push(0u8);
        Serializer { buf }
    }

    /// The bytes written.
    pub fn bytes(self) -> (b: Vec<u8>)
        ensures
            b@ == self@,
    {
        self.buf
    }

    /// The bytes written, with the four reserved bytes holding the
    /// big-endian count of the bytes after them.
    pub fn bytes_sized(self) -> (r: Result<Vec<u8>, Error>)
        requires
            self@.len() >= 4,
        ensures
            self@.len() - 4 <= BYTES_MAX ==> (r matches Ok(b)
                && b@ == int_bytes(self@.len() - 4, 4) + self@.skip(4)),
            self@.len() - 4 > BYTES_MAX ==> (r matches Err(e)
                && e.kind == ErrorKind::TooLong(Limit::Frame, (self@.len() - 4) as usize, BYTES_MAX)),
    {
        let n = self.buf.len() - 4;
        if n > BYTES_MAX {
            return Err(Error::new(ErrorKind::TooLong(Limit::Frame, n, BYTES_MAX)));
        }
        proof {
            lemma_pow256_values();
        }
        let mut out: Vec<u8> = Vec::new();
        put_int(&mut out, n as i64, 4);
        put_raw(&mut out, slice_subrange(self.buf.as_slice(), 4, self.buf.len()));
        assert(self.buf@.subrange(4, self.buf@.len() as int) == self@.skip(4));
        Ok(out)
    }

    /// Mutable access to the bytes written, for the encoders of this crate.
    pub(crate) fn buf_mut(&mut self) -> (b: &mut Vec<u8>)
        ensures
            b@ == old(self)@,
            final(self)@ == final(b)@,
    {
        &mut self.buf
    }

    /// Appends the wire form of `v` under schema `s` at protocol version `ver`.
    pub fn serialize_value(&mut self, s: &Schema, ver: usize, v: &Value) -> (r: Result<(), Error>)
        ensures
            match enc(*s, ver as nat, v.model()) {
                Ok(w) => r is Ok && final(self)@ == old(self)@ + w,
                Err(k) => r matches Err(e) && e.kind == k && e.path@ == enc_path(*s, ver as nat, v.model()),
            },
    {
        encode_value(s, ver, v, &mut self.buf)
    }
}

/// An input buffer for decoding, with the protocol version that selects
/// the layout of versioned schemas.
pub struct Deserializer<'de> {
    input: &'de [u8],
    pos: usize,
    version: usize,
}

impl<'de> Deserializer<'de> {
    pub closed spec fn wf(&self) -> bool {
        self.pos <= self.input@.len()
    }

    /// The bytes not yet read.
    pub closed spec fn remaining(&self) -> Seq<u8> {
        rest(self.input@, self.pos as int)
    }

    pub closed spec fn version_spec(&self) -> nat {
        self.version as nat
    }

    pub(crate) closed spec fn input_spec(&self) -> Seq<u8> {
        self.input@
    }

    pub(crate) closed spec fn pos_spec(&self) -> int {
        self.pos as int
    }

    pub fn from_bytes(input: &'de [u8], version: usize) -> (d: Self)
        ensures
            d.wf(),
            d.remaining() == input@,
            d.version_spec() == version,
    {
        let d = Deserializer { input, pos: 0, version };
        assert(d.remaining() == input@);
        d
    }

    pub fn version(&self) -> (v: usize)
        ensures
            v == self.version_spec(),
    {
        self.version
    }

    /// How many bytes are not yet read.
    pub fn remaining_len(&self) -> (n: usize)
        requires
            self.wf(),
        ensures
            n == self.remaining().len(),
    {
        self.input.len() - self.pos
    }

    /// The input and the read position, for the decoders of this crate.
    pub(crate) fn parts(&self) -> (r: (&'de [u8], usize))
        requires
            self.wf(),
        ensures
            r.0@ == self.input_spec(),
            r.1 == self.pos_spec(),
            r.1 <= r.0@.len(),
            self.remaining() == rest(r.0@, r.1 as int),
    {
        (self.input, self.pos)
    }

    /// Moves the read position forward by `n` bytes.
    pub(crate) fn advance(&mut self, n: usize)
        requires
            old(self).wf(),
            n <= old(self).remaining().len(),
        ensures
            final(self).wf(),
            final(self).input_spec() == old(self).input_spec(),
            final(self).pos_spec() == old(self).pos_spec() + n,
            final(self).remaining() == old(self).remaining().skip(n as int),
            final(self).version_spec() == old(self).version_spec(),
    {
        let len = self.input.len();
        self.pos = self.pos + n;
        assert(rest(self.input@, self.pos as int) == old(self).remaining().skip(n as int));
    }

    /// Decodes a value under schema `s` at this decoder's version.
    pub fn deserialize_value(&mut self, s: &Schema) -> (r: Result<Value, Error>)
        requires
            old(self).wf(),
        ensures
            final(self).wf(),
            final(self).version_spec() == old(self).version_spec(),
            match dec(*s, old(self).version_spec(), old(self).remaining()) {
                Ok((x, n)) => r matches Ok(v) && v.model() == x
                    && final(self).remaining() == old(self).remaining().skip(n as int),
                Err(k) => r matches Err(e) && e.kind == k
                    && e.path@ == dec_path(*s, old(self).version_spec(), old(self).remaining()),
            },
            r is Err ==> final(self).remaining() == old(self).remaining(),
    {
        let (v, n) = decode_value(s, self.version, self.input, self.pos)?;
        self.advance(n);
        Ok(v)
    }

    /// Succeeds when every byte has been read; else fails with the count
    /// of bytes left.
    pub fn end(&self) -> (r: Result<(), Error>)
        requires
            self.wf(),
        ensures
            self.remaining().len() == 0 ==> r is Ok,
            self.remaining().len() > 0 ==> (r matches Err(e)
                && e.kind == ErrorKind::TrailingBytes(self.remaining().len() as usize)),
    {
        let n = self.input.len() - self.pos;
        if n == 0 {
            Ok(())
        } else {
            Err(Error::new(ErrorKind::TrailingBytes(n)))
        }
    }
}

} // verus!
