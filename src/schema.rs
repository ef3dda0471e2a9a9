//! The schema-driven engine. A schema says how a value is laid out on the
//! wire: no field names or type markers are sent, so the same schema is
//! needed to read the bytes back. A versioned schema lists one layout per
//! protocol version, and the version is supplied by the caller.
use vstd::prelude::*;
use vstd::utf8::{encode_utf8, encode_utf8_decode_utf8, encode_utf8_valid_utf8};
use crate::error::{Context, Error, ErrorKind, Limit};
use crate::primitives::{
    bool_wire, bytes_wire, nullable_bytes_wire, nullable_str_wire, parse_bool, parse_bytes,
    parse_int, parse_nullable_bytes, parse_nullable_str, parse_raw, parse_str, parse_text,
    parse_uint, rest, get_bool, get_bytes, get_i64, get_int, get_nullable_bytes, get_nullable_str,
    get_str, get_uint, put_bool, put_bytes, put_int, put_nullable_bytes, put_nullable_str, put_str,
    str_wire,
    option_view, bytes_option_view,
};
use crate::varint::{
    lemma_varint_round_trip, lemma_varlong_round_trip, parse_varint, parse_varlong, varint_spec,
    varlong_spec, zag_i32, zag_i64, zig_i32, zig_i64,
};
use crate::wire::{
    be_bytes, int_bytes, lemma_be_bytes_len, lemma_be_round_trip, lemma_int_round_trip,
    lemma_pow256_values, pow256, put_be,
};

verus! {

/// The wire type of a value.
#[derive(Debug)]
pub enum Schema {
    Bool,
    I8,
    I16,
    I32,
    I64,
    U8,
    U16,
    U32,
    Varint,
    Varlong,
    Str,
    NullableStr,
    Bytes,
    NullableBytes,
    /// A 32-bit element count, then each element.
    Array(Box<Schema>),
    /// The fields in declared order, with nothing between them.
    Struct(Vec<Field>),
    /// One layout per protocol version; only the selected one is on the wire.
    Versioned(Vec<Schema>),
}

/// A named field of a struct schema. The name is never sent; it serves to
/// say where a failure happened.
#[derive(Debug)]
pub struct Field {
    pub name: String,
    pub ty: Schema,
}

/// A value laid out by a schema.
#[derive(Debug, PartialEq)]
pub enum Value {
    Bool(bool),
    I8(i8),
    I16(i16),
    I32(i32),
    I64(i64),
    U8(u8),
    U16(u16),
    U32(u32),
    Varint(i32),
    Varlong(i64),
    Str(String),
    NullableStr(Option<String>),
    Bytes(Vec<u8>),
    NullableBytes(Option<Vec<u8>>),
    Array(Vec<Value>),
    /// The values of the fields, in declared order.
    Struct(Vec<Value>),
}

/// The mathematical content of a `Value`.
pub enum Val {
    Bool(bool),
    I8(i8),
    I16(i16),
    I32(i32),
    I64(i64),
    U8(u8),
    U16(u16),
    U32(u32),
    Varint(i32),
    Varlong(i64),
    Str(Seq<char>),
    NullableStr(Option<Seq<char>>),
    Bytes(Seq<u8>),
    NullableBytes(Option<Seq<u8>>),
    Array(Seq<Val>),
    Struct(Seq<Val>),
}

impl Value {
    pub open spec fn model(self) -> Val
        decreases self,
    {
        match self {
            Value::Bool(x) => Val::Bool(x),
            Value::I8(x) => Val::I8(x),
            Value::I16(x) => Val::I16(x),
            Value::I32(x) => Val::I32(x),
            Value::I64(x) => Val::I64(x),
            Value::U8(x) => Val::U8(x),
            Value::U16(x) => Val::U16(x),
            Value::U32(x) => Val::U32(x),
            Value::Varint(x) => Val::Varint(x),
            Value::Varlong(x) => Val::Varlong(x),
            Value::Str(s) => Val::Str(s@),
            Value::NullableStr(s) => Val::NullableStr(option_view(s)),
            Value::Bytes(b) => Val::Bytes(b@),
            Value::NullableBytes(b) => Val::NullableBytes(bytes_option_view(b)),
            Value::Array(vs) => Val::Array(
                Seq::new(
                    vs.len() as nat,
                    |i: int|
                        if 0 <= i < vs.len() {
                            vs[i].model()
                        } else {
                            Val::Bool(false)
                        },
                ),
            ),
            Value::Struct(vs) => Val::Struct(
                Seq::new(
                    vs.len() as nat,
                    |i: int|
                        if 0 <= i < vs.len() {
                            vs[i].model()
                        } else {
                            Val::Bool(false)
                        },
                ),
            ),
        }
    }
}

pub const ARRAY_MAX: usize = 2147483647;

/// The wire form of `v` under schema `s` at protocol version `ver`, or the
/// failure an encoder meets first.
pub open spec fn enc(s: Schema, ver: nat, v: Val) -> Result<Seq<u8>, ErrorKind>
    decreases s, 0nat,
{
    match s {
        Schema::Versioned(vs) => if ver < vs.len() {
            enc(vs[ver as int], ver, v)
        } else {
            Err(ErrorKind::UnknownVariant(ver as usize, vs.len()))
        },
        Schema::Array(e) => match v {
            Val::Array(xs) => if xs.len() > ARRAY_MAX {
                Err(ErrorKind::TooLong(Limit::Array, xs.len() as usize, ARRAY_MAX))
            } else {
                match enc_elems(*e, ver, xs, 0) {
                    Ok(w) => Ok(int_bytes(xs.len() as int, 4) + w),
                    Err(k) => Err(k),
                }
            },
            _ => Err(ErrorKind::Unsupported),
        },
        Schema::Struct(fs) => match v {
            Val::Struct(xs) => if xs.len() < fs.len() {
                Err(ErrorKind::MissingField)
            } else if xs.len() > fs.len() {
                Err(ErrorKind::Unsupported)
            } else {
                enc_fields(fs@, ver, xs, 0)
            },
            _ => Err(ErrorKind::Unsupported),
        },
        _ => enc_scalar(s, v),
    }
}

/// Encodes the elements `xs[i..]`, each under `e`.
pub open spec fn enc_elems(e: Schema, ver: nat, xs: Seq<Val>, i: int) -> Result<Seq<u8>, ErrorKind>
    decreases e, xs.len() - i,
{
    if i < 0 || i >= xs.len() {
        Ok(Seq::empty())
    } else {
        match enc(e, ver, xs[i]) {
            Ok(a) => match enc_elems(e, ver, xs, i + 1) {
                Ok(w) => Ok(a + w),
                Err(k) => Err(k),
            },
            Err(k) => Err(k),
        }
    }
}

/// Encodes the field values `xs[i..]`, each under its field's schema.
pub open spec fn enc_fields(fs: Seq<Field>, ver: nat, xs: Seq<Val>, i: int) -> Result<Seq<u8>, ErrorKind>
    decreases fs, fs.len() - i,
{
    if i < 0 || i >= fs.len() || i >= xs.len() {
        Ok(Seq::empty())
    } else {
        match enc(fs[i].ty, ver, xs[i]) {
            Ok(a) => match enc_fields(fs, ver, xs, i + 1) {
                Ok(w) => Ok(a + w),
                Err(k) => Err(k),
            },
            Err(k) => Err(k),
        }
    }
}

/// The wire form of a value under a scalar schema.
pub open spec fn enc_scalar(s: Schema, v: Val) -> Result<Seq<u8>, ErrorKind> {
    match (s, v) {
        (Schema::Bool, Val::Bool(x)) => Ok(bool_wire(x)),
        (Schema::I8, Val::I8(x)) => Ok(int_bytes(x as int, 1)),
        (Schema::I16, Val::I16(x)) => Ok(int_bytes(x as int, 2)),
        (Schema::I32, Val::I32(x)) => Ok(int_bytes(x as int, 4)),
        (Schema::I64, Val::I64(x)) => Ok(int_bytes(x as int, 8)),
        (Schema::U8, Val::U8(x)) => Ok(int_bytes(x as int, 1)),
        (Schema::U16, Val::U16(x)) => Ok(int_bytes(x as int, 2)),
        (Schema::U32, Val::U32(x)) => Ok(int_bytes(x as int, 4)),
        (Schema::Varint, Val::Varint(x)) => Ok(varint_spec(x)),
        (Schema::Varlong, Val::Varlong(x)) => Ok(varlong_spec(x)),
        (Schema::Str, Val::Str(x)) => str_wire(x),
        (Schema::NullableStr, Val::NullableStr(x)) => nullable_str_wire(x),
        (Schema::Bytes, Val::Bytes(x)) => bytes_wire(x),
        (Schema::NullableBytes, Val::NullableBytes(x)) => nullable_bytes_wire(x),
        _ => Err(ErrorKind::Unsupported),
    }
}

/// Decodes a value under schema `s` at protocol version `ver` from the front
/// of `b`: the value and the number of bytes it took, or the first failure.
pub open spec fn dec(s: Schema, ver: nat, b: Seq<u8>) -> Result<(Val, nat), ErrorKind>
    decreases s, 0nat,
{
    match s {
        Schema::Versioned(vs) => if ver < vs.len() {
            dec(vs[ver as int], ver, b)
        } else {
            Err(ErrorKind::UnknownVariant(ver as usize, vs.len()))
        },
        Schema::Array(e) => match parse_int(b, 4, Context::ArraySize) {
            Ok((n, k)) => match dec_elems(*e, ver, b.skip(k as int), if n < 0 { 0 } else { n as nat }) {
                Ok((xs, m)) => Ok((Val::Array(xs), k + m)),
                Err(x) => Err(x),
            },
            Err(x) => Err(x),
        },
        Schema::Struct(fs) => match dec_fields(fs@, ver, b, 0) {
            Ok((xs, m)) => Ok((Val::Struct(xs), m)),
            Err(x) => Err(x),
        },
        _ => dec_scalar(s, b),
    }
}

/// Decodes `n` elements under `e` from the front of `b`.
pub open spec fn dec_elems(e: Schema, ver: nat, b: Seq<u8>, n: nat) -> Result<(Seq<Val>, nat), ErrorKind>
    decreases e, n,
{
    if n == 0 {
        Ok((Seq::empty(), 0))
    } else {
        match dec(e, ver, b) {
            Ok((x, k)) => match dec_elems(e, ver, b.skip(k as int), (n - 1) as nat) {
                Ok((xs, m)) => Ok((seq![x] + xs, k + m)),
                Err(y) => Err(y),
            },
            Err(y) => Err(y),
        }
    }
}

/// Decodes the fields `fs[i..]` from the front of `b`.
pub open spec fn dec_fields(fs: Seq<Field>, ver: nat, b: Seq<u8>, i: int) -> Result<(Seq<Val>, nat), ErrorKind>
    decreases fs, fs.len() - i,
{
    if i < 0 || i >= fs.len() {
        Ok((Seq::empty(), 0))
    } else {
        match dec(fs[i].ty, ver, b) {
            Ok((x, k)) => match dec_fields(fs, ver, b.skip(k as int), i + 1) {
                Ok((xs, m)) => Ok((seq![x] + xs, k + m)),
                Err(y) => Err(y),
            },
            Err(y) => Err(y),
        }
    }
}

pub open spec fn dec_scalar(s: Schema, b: Seq<u8>) -> Result<(Val, nat), ErrorKind> {
    match s {
        Schema::Bool => match parse_bool(b) {
            Ok((x, k)) => Ok((Val::Bool(x), k)),
            Err(y) => Err(y),
        },
        Schema::I8 => match parse_int(b, 1, Context::I8) {
            Ok((x, k)) => Ok((Val::I8(x as i8), k)),
            Err(y) => Err(y),
        },
        Schema::I16 => match parse_int(b, 2, Context::I16) {
            Ok((x, k)) => Ok((Val::I16(x as i16), k)),
            Err(y) => Err(y),
        },
        Schema::I32 => match parse_int(b, 4, Context::I32) {
            Ok((x, k)) => Ok((Val::I32(x as i32), k)),
            Err(y) => Err(y),
        },
        Schema::I64 => match parse_int(b, 8, Context::I64) {
            Ok((x, k)) => Ok((Val::I64(x as i64), k)),
            Err(y) => Err(y),
        },
        Schema::U8 => match parse_uint(b, 1, Context::U8) {
            Ok((x, k)) => Ok((Val::U8(x as u8), k)),
            Err(y) => Err(y),
        },
        Schema::U16 => match parse_uint(b, 2, Context::U16) {
            Ok((x, k)) => Ok((Val::U16(x as u16), k)),
            Err(y) => Err(y),
        },
        Schema::U32 => match parse_uint(b, 4, Context::U32) {
            Ok((x, k)) => Ok((Val::U32(x as u32), k)),
            Err(y) => Err(y),
        },
        Schema::Varint => match parse_varint(b) {
            Ok((x, k)) => Ok((Val::Varint(x), k)),
            Err(y) => Err(y),
        },
        Schema::Varlong => match parse_varlong(b) {
            Ok((x, k)) => Ok((Val::Varlong(x), k)),
            Err(y) => Err(y),
        },
        Schema::Str => match parse_str(b) {
            Ok((x, k)) => Ok((Val::Str(x), k)),
            Err(y) => Err(y),
        },
        Schema::NullableStr => match parse_nullable_str(b) {
            Ok((x, k)) => Ok((Val::NullableStr(x), k)),
            Err(y) => Err(y),
        },
        Schema::Bytes => match parse_bytes(b) {
            Ok((x, k)) => Ok((Val::Bytes(x), k)),
            Err(y) => Err(y),
        },
        Schema::NullableBytes => match parse_nullable_bytes(b) {
            Ok((x, k)) => Ok((Val::NullableBytes(x), k)),
            Err(y) => Err(y),
        },
        _ => Err(ErrorKind::Unsupported),
    }
}

pub proof fn lemma_int_prefix(x: int, n: nat, ctx: Context, rest: Seq<u8>)
    requires
        1 <= n <= 8,
        -(pow256(n) / 2) <= x < pow256(n) / 2,
    ensures
        parse_int(int_bytes(x, n) + rest, n, ctx) == Ok::<(int, nat), ErrorKind>((x, n)),
        int_bytes(x, n).len() == n,
{
    lemma_int_round_trip(x, n);
    assert((int_bytes(x, n) + rest).take(n as int) == int_bytes(x, n));
}

proof fn lemma_uint_prefix(x: nat, n: nat, ctx: Context, rest: Seq<u8>)
    requires
        x < pow256(n),
    ensures
        parse_uint(int_bytes(x as int, n) + rest, n, ctx) == Ok::<(nat, nat), ErrorKind>((x, n)),
        int_bytes(x as int, n).len() == n,
{
    lemma_be_round_trip(x, n);
    lemma_be_bytes_len(x, n);
    assert((int_bytes(x as int, n) + rest).take(n as int) == int_bytes(x as int, n));
}

proof fn lemma_text_prefix(c: Seq<char>, hdr: Seq<u8>, rest: Seq<u8>)
    ensures
        parse_text(hdr + encode_utf8(c) + rest, encode_utf8(c).len() as int, hdr.len())
            == Ok::<(Seq<char>, nat), ErrorKind>((c, hdr.len() + encode_utf8(c).len())),
{
    let u = encode_utf8(c);
    let b = hdr + u + rest;
    assert(b.subrange(hdr.len() as int, (hdr.len() + u.len()) as int) == u);
    encode_utf8_valid_utf8(c);
    encode_utf8_decode_utf8(c);
}

proof fn lemma_raw_prefix(u: Seq<u8>, hdr: Seq<u8>, rest: Seq<u8>, ctx: Context)
    ensures
        parse_raw(hdr + u + rest, u.len() as int, hdr.len(), ctx)
            == Ok::<(Seq<u8>, nat), ErrorKind>((u, hdr.len() + u.len())),
{
    let b = hdr + u + rest;
    assert(b.subrange(hdr.len() as int, (hdr.len() + u.len()) as int) == u);
}

proof fn lemma_scalar_round_trip(s: Schema, v: Val, rest: Seq<u8>)
    requires
        enc_scalar(s, v) is Ok,
    ensures
        dec_scalar(s, enc_scalar(s, v)->Ok_0 + rest) == Ok::<(Val, nat), ErrorKind>(
            (v, enc_scalar(s, v)->Ok_0.len()),
        ),
{
    lemma_pow256_values();
    let w = enc_scalar(s, v)->Ok_0;
    match (s, v) {
        (Schema::Bool, Val::Bool(x)) => {
            lemma_uint_prefix(if x { 1 } else { 0 }, 1, Context::Bool, rest);
            assert(int_bytes(if x { 1 } else { 0 }, 1) == bool_wire(x)) by {
                reveal_with_fuel(be_bytes, 2);
            }
        },
        (Schema::I8, Val::I8(x)) => {
            lemma_int_prefix(x as int, 1, Context::I8, rest);
        },
        (Schema::I16, Val::I16(x)) => {
            lemma_int_prefix(x as int, 2, Context::I16, rest);
        },
        (Schema::I32, Val::I32(x)) => {
            lemma_int_prefix(x as int, 4, Context::I32, rest);
        },
        (Schema::I64, Val::I64(x)) => {
            lemma_int_prefix(x as int, 8, Context::I64, rest);
        },
        (Schema::U8, Val::U8(x)) => {
            lemma_uint_prefix(x as nat, 1, Context::U8, rest);
        },
        (Schema::U16, Val::U16(x)) => {
            lemma_uint_prefix(x as nat, 2, Context::U16, rest);
        },
        (Schema::U32, Val::U32(x)) => {
            lemma_uint_prefix(x as nat, 4, Context::U32, rest);
        },
        (Schema::Varint, Val::Varint(x)) => {
            lemma_varint_round_trip(x, rest);
        },
        (Schema::Varlong, Val::Varlong(x)) => {
            lemma_varlong_round_trip(x, rest);
        },
        (Schema::Str, Val::Str(x)) => {
            lemma_str_round_trip(x, rest);
        },
        (Schema::NullableStr, Val::NullableStr(x)) => {
            lemma_nullable_str_round_trip(x, rest);
        },
        (Schema::Bytes, Val::Bytes(x)) => {
            lemma_bytes_round_trip(x, rest);
        },
        (Schema::NullableBytes, Val::NullableBytes(x)) => {
            lemma_nullable_bytes_round_trip(x, rest);
        },
        _ => {},
    }
}

/// A string reads back from its wire form, whatever follows it.
pub proof fn lemma_str_round_trip(c: Seq<char>, rest: Seq<u8>)
    requires
        str_wire(c) is Ok,
    ensures
        parse_str(str_wire(c)->Ok_0 + rest) == Ok::<(Seq<char>, nat), ErrorKind>(
            (c, str_wire(c)->Ok_0.len()),
        ),
{
    lemma_pow256_values();
    let u = encode_utf8(c);
    let hdr = int_bytes(u.len() as int, 2);
    lemma_int_prefix(u.len() as int, 2, Context::StrSize, u + rest);
    assert(hdr + u + rest == hdr + (u + rest));
    lemma_text_prefix(c, hdr, rest);
}

/// A nullable string reads back from its wire form; absence is the length -1
/// alone.
pub proof fn lemma_nullable_str_round_trip(c: Option<Seq<char>>, rest: Seq<u8>)
    requires
        nullable_str_wire(c) is Ok,
    ensures
        parse_nullable_str(nullable_str_wire(c)->Ok_0 + rest)
            == Ok::<(Option<Seq<char>>, nat), ErrorKind>((c, nullable_str_wire(c)->Ok_0.len())),
        c is None ==> nullable_str_wire(c)->Ok_0 == int_bytes(-1, 2),
{
    lemma_pow256_values();
    match c {
        None => {
            lemma_int_prefix(-1, 2, Context::StrSize, rest);
        },
        Some(x) => {
            lemma_str_round_trip(x, rest);
            let u = encode_utf8(x);
            lemma_int_prefix(u.len() as int, 2, Context::StrSize, u + rest);
            assert(int_bytes(u.len() as int, 2) + u + rest == int_bytes(u.len() as int, 2) + (u + rest));
        },
    }
}

/// A byte buffer reads back from its wire form, whatever follows it.
pub proof fn lemma_bytes_round_trip(u: Seq<u8>, rest: Seq<u8>)
    requires
        bytes_wire(u) is Ok,
    ensures
        parse_bytes(bytes_wire(u)->Ok_0 + rest) == Ok::<(Seq<u8>, nat), ErrorKind>(
            (u, bytes_wire(u)->Ok_0.len()),
        ),
{
    lemma_pow256_values();
    let hdr = int_bytes(u.len() as int, 4);
    lemma_int_prefix(u.len() as int, 4, Context::BytesSize, u + rest);
    assert(hdr + u + rest == hdr + (u + rest));
    lemma_raw_prefix(u, hdr, rest, Context::Bytes);
}

/// A nullable byte buffer reads back from its wire form; absence is the
/// length -1 alone.
pub proof fn lemma_nullable_bytes_round_trip(u: Option<Seq<u8>>, rest: Seq<u8>)
    requires
        nullable_bytes_wire(u) is Ok,
    ensures
        parse_nullable_bytes(nullable_bytes_wire(u)->Ok_0 + rest)
            == Ok::<(Option<Seq<u8>>, nat), ErrorKind>((u, nullable_bytes_wire(u)->Ok_0.len())),
        u is None ==> nullable_bytes_wire(u)->Ok_0 == int_bytes(-1, 4),
{
    lemma_pow256_values();
    match u {
        None => {
            lemma_int_prefix(-1, 4, Context::BytesSize, rest);
        },
        Some(x) => {
            lemma_bytes_round_trip(x, rest);
            lemma_int_prefix(x.len() as int, 4, Context::BytesSize, x + rest);
            assert(int_bytes(x.len() as int, 4) + x + rest == int_bytes(x.len() as int, 4) + (x + rest));
        },
    }
}

/// Decoding what was encoded gives the value back and takes exactly the
/// encoded bytes, whatever follows them: for every schema, version and value
/// that the encoder accepts.
pub proof fn lemma_round_trip(s: Schema, ver: nat, v: Val, rest: Seq<u8>)
    requires
        enc(s, ver, v) is Ok,
    ensures
        dec(s, ver, enc(s, ver, v)->Ok_0 + rest) == Ok::<(Val, nat), ErrorKind>(
            (v, enc(s, ver, v)->Ok_0.len()),
        ),
    decreases s, 0nat,
{
    let w = enc(s, ver, v)->Ok_0;
    match s {
        Schema::Versioned(vs) => {
            lemma_round_trip(vs[ver as int], ver, v, rest);
        },
        Schema::Array(e) => {
            let xs = v->Array_0;
            let body = enc_elems(*e, ver, xs, 0)->Ok_0;
            let hdr = int_bytes(xs.len() as int, 4);
            lemma_pow256_values();
            lemma_int_prefix(xs.len() as int, 4, Context::ArraySize, body + rest);
            assert(w + rest == hdr + (body + rest));
            assert((w + rest).skip(4) == body + rest);
            lemma_elems_round_trip(*e, ver, xs, 0, rest);
            assert(xs.skip(0) == xs);
        },
        Schema::Struct(fs) => {
            let xs = v->Struct_0;
            lemma_fields_round_trip(fs@, ver, xs, 0, rest);
            assert(xs.skip(0) == xs);
        },
        _ => {
            lemma_scalar_round_trip(s, v, rest);
        },
    }
}

proof fn lemma_elems_round_trip(e: Schema, ver: nat, xs: Seq<Val>, i: int, rest: Seq<u8>)
    requires
        0 <= i <= xs.len(),
        enc_elems(e, ver, xs, i) is Ok,
    ensures
        dec_elems(e, ver, enc_elems(e, ver, xs, i)->Ok_0 + rest, (xs.len() - i) as nat)
            == Ok::<(Seq<Val>, nat), ErrorKind>((xs.skip(i), enc_elems(e, ver, xs, i)->Ok_0.len())),
    decreases e, xs.len() - i,
{
    if i < xs.len() {
        let a = enc(e, ver, xs[i])->Ok_0;
        let w = enc_elems(e, ver, xs, i + 1)->Ok_0;
        lemma_round_trip(e, ver, xs[i], w + rest);
        assert(a + w + rest == a + (w + rest));
        assert((a + (w + rest)).skip(a.len() as int) == w + rest);
        lemma_elems_round_trip(e, ver, xs, i + 1, rest);
        assert(seq![xs[i]] + xs.skip(i + 1) == xs.skip(i));
    } else {
        assert(xs.skip(i) == Seq::<Val>::empty());
    }
}

proof fn lemma_fields_round_trip(fs: Seq<Field>, ver: nat, xs: Seq<Val>, i: int, rest: Seq<u8>)
    requires
        0 <= i <= fs.len(),
        xs.len() == fs.len(),
        enc_fields(fs, ver, xs, i) is Ok,
    ensures
        dec_fields(fs, ver, enc_fields(fs, ver, xs, i)->Ok_0 + rest, i)
            == Ok::<(Seq<Val>, nat), ErrorKind>((xs.skip(i), enc_fields(fs, ver, xs, i)->Ok_0.len())),
    decreases fs, fs.len() - i,
{
    if i < fs.len() {
        let a = enc(fs[i].ty, ver, xs[i])->Ok_0;
        let w = enc_fields(fs, ver, xs, i + 1)->Ok_0;
        lemma_round_trip(fs[i].ty, ver, xs[i], w + rest);
        assert(a + w + rest == a + (w + rest));
        assert((a + (w + rest)).skip(a.len() as int) == w + rest);
        lemma_fields_round_trip(fs, ver, xs, i + 1, rest);
        assert(seq![xs[i]] + xs.skip(i + 1) == xs.skip(i));
    } else {
        assert(xs.skip(i) == Seq::<Val>::empty());
    }
}

/// The names of the struct fields being encoded when `enc` fails,
/// outermost first; empty where the failure is not inside a field.
pub open spec fn enc_path(s: Schema, ver: nat, v: Val) -> Seq<String>
    decreases s, 0nat,
{
    match s {
        Schema::Versioned(vs) => if ver < vs.len() {
            enc_path(vs[ver as int], ver, v)
        } else {
            Seq::empty()
        },
        Schema::Array(e) => match v {
            Val::Array(xs) => if xs.len() > ARRAY_MAX {
                Seq::empty()
            } else {
                elems_path(*e, ver, xs, 0)
            },
            _ => Seq::empty(),
        },
        Schema::Struct(fs) => match v {
            Val::Struct(xs) => if xs.len() != fs.len() {
                Seq::empty()
            } else {
                fields_path(fs@, ver, xs, 0)
            },
            _ => Seq::empty(),
        },
        _ => Seq::empty(),
    }
}

/// The path of the first element of `xs[i..]` that fails to encode.
pub open spec fn elems_path(e: Schema, ver: nat, xs: Seq<Val>, i: int) -> Seq<String>
    decreases e, xs.len() - i,
{
    if i < 0 || i >= xs.len() {
        Seq::empty()
    } else if enc(e, ver, xs[i]) is Err {
        enc_path(e, ver, xs[i])
    } else {
        elems_path(e, ver, xs, i + 1)
    }
}

/// The path of the first field of `fs[i..]` that fails to encode: its name,
/// then the path inside it.
pub open spec fn fields_path(fs: Seq<Field>, ver: nat, xs: Seq<Val>, i: int) -> Seq<String>
    decreases fs, fs.len() - i,
{
    if i < 0 || i >= fs.len() || i >= xs.len() {
        Seq::empty()
    } else if enc(fs[i].ty, ver, xs[i]) is Err {
        seq![fs[i].name] + enc_path(fs[i].ty, ver, xs[i])
    } else {
        fields_path(fs, ver, xs, i + 1)
    }
}

/// The names of the struct fields being decoded when `dec` fails, outermost
/// first; empty where the failure is not inside a field.
pub open spec fn dec_path(s: Schema, ver: nat, b: Seq<u8>) -> Seq<String>
    decreases s, 0nat,
{
    match s {
        Schema::Versioned(vs) => if ver < vs.len() {
            dec_path(vs[ver as int], ver, b)
        } else {
            Seq::empty()
        },
        Schema::Array(e) => match parse_int(b, 4, Context::ArraySize) {
            Ok((n, k)) => elems_dec_path(*e, ver, b.skip(k as int), if n < 0 { 0 } else { n as nat }),
            Err(_) => Seq::empty(),
        },
        Schema::Struct(fs) => fields_dec_path(fs@, ver, b, 0),
        _ => Seq::empty(),
    }
}

/// The path of the first of `n` elements under `e` that fails to decode.
pub open spec fn elems_dec_path(e: Schema, ver: nat, b: Seq<u8>, n: nat) -> Seq<String>
    decreases e, n,
{
    if n == 0 {
        Seq::empty()
    } else {
        match dec(e, ver, b) {
            Ok((_, k)) => elems_dec_path(e, ver, b.skip(k as int), (n - 1) as nat),
            Err(_) => dec_path(e, ver, b),
        }
    }
}

/// The path of the first field of `fs[i..]` that fails to decode: its name,
/// then the path inside it.
pub open spec fn fields_dec_path(fs: Seq<Field>, ver: nat, b: Seq<u8>, i: int) -> Seq<String>
    decreases fs, fs.len() - i,
{
    if i < 0 || i >= fs.len() {
        Seq::empty()
    } else {
        match dec(fs[i].ty, ver, b) {
            Ok((_, k)) => fields_dec_path(fs, ver, b.skip(k as int), i + 1),
            Err(_) => seq![fs[i].name] + dec_path(fs[i].ty, ver, b),
        }
    }
}

/// `a` in front of an encoding result.
pub open spec fn prepend(a: Seq<u8>, r: Result<Seq<u8>, ErrorKind>) -> Result<Seq<u8>, ErrorKind> {
    match r {
        Ok(w) => Ok(a + w),
        Err(k) => Err(k),
    }
}

/// Appends the wire form of a scalar value; a failure carries no path.
fn encode_scalar(s: &Schema, v: &Value, out: &mut Vec<u8>) -> (r: Result<(), Error>)
    ensures
        match enc_scalar(*s, v.model()) {
            Ok(w) => r is Ok && final(out)@ == old(out)@ + w,
            Err(k) => r matches Err(e) && e.kind == k && e.path@.len() == 0,
        },
{
    match encode_scalar_any(s, v, out) {
        Ok(()) => Ok(()),
        Err(e) => Err(Error::new(e.kind)),
    }
}

fn encode_scalar_any(s: &Schema, v: &Value, out: &mut Vec<u8>) -> (r: Result<(), Error>)
    ensures
        match enc_scalar(*s, v.model()) {
            Ok(w) => r is Ok && final(out)@ == old(out)@ + w,
            Err(k) => r matches Err(e) && e.kind == k,
        },
{
    proof {
        lemma_pow256_values();
    }
    match (s, v) {
        (Schema::Bool, Value::Bool(x)) => {
            put_bool(out, *x);
            Ok(())
        },
        (Schema::I8, Value::I8(x)) => {
            put_int(out, *x as i64, 1);
            Ok(())
        },
        (Schema::I16, Value::I16(x)) => {
            put_int(out, *x as i64, 2);
            Ok(())
        },
        (Schema::I32, Value::I32(x)) => {
            put_int(out, *x as i64, 4);
            Ok(())
        },
        (Schema::I64, Value::I64(x)) => {
            put_int(out, *x, 8);
            Ok(())
        },
        (Schema::U8, Value::U8(x)) => {
            put_be(out, *x as u64, 1);
            Ok(())
        },
        (Schema::U16, Value::U16(x)) => {
            put_be(out, *x as u64, 2);
            Ok(())
        },
        (Schema::U32, Value::U32(x)) => {
            put_be(out, *x as u64, 4);
            Ok(())
        },
        (Schema::Varint, Value::Varint(x)) => {
            zig_i32(*x, out);
            Ok(())
        },
        (Schema::Varlong, Value::Varlong(x)) => {
            zig_i64(*x, out);
            Ok(())
        },
        (Schema::Str, Value::Str(x)) => put_str(out, x.as_str()),
        (Schema::NullableStr, Value::NullableStr(x)) => put_nullable_str(out, x),
        (Schema::Bytes, Value::Bytes(x)) => put_bytes(out, x.as_slice()),
        (Schema::NullableBytes, Value::NullableBytes(x)) => put_nullable_bytes(out, x),
        _ => Err(Error::new(ErrorKind::Unsupported)),
    }
}

/// Appends the wire form of `v` under schema `s` at protocol version `ver`.
/// A failure inside a struct field names that field in the error's path.
pub fn encode_value(s: &Schema, ver: usize, v: &Value, out: &mut Vec<u8>) -> (r: Result<(), Error>)
    ensures
        match enc(*s, ver as nat, v.model()) {
            Ok(w) => r is Ok && final(out)@ == old(out)@ + w,
            Err(k) => r matches Err(e) && e.kind == k && e.path@ == enc_path(*s, ver as nat, v.model()),
        },
    decreases s,
{
    match s {
        Schema::Versioned(vs) => {
            if ver < vs.len() {
                encode_value(&vs[ver], ver, v, out)
            } else {
                Err(Error::new(ErrorKind::UnknownVariant(ver, vs.len())))
            }
        },
        Schema::Array(e) => {
            match v {
                Value::Array(xs) => {
                    let ghost m = v.model()->Array_0;
                    if xs.len() > ARRAY_MAX {
                        return Err(Error::new(ErrorKind::TooLong(Limit::Array, xs.len(), ARRAY_MAX)));
                    }
                    proof {
                        lemma_pow256_values();
                    }
                    put_int(out, xs.len() as i64, 4);
                    let ghost start = out@;
                    let mut i: usize = 0;
                    while i < xs.len()
                        invariant
                            i <= xs.len() == m.len(),
                            m == v.model()->Array_0,
                            *v == Value::Array(*xs),
                            *s == Schema::Array(*e),
                            xs.len() <= ARRAY_MAX,
                            forall|j: int| 0 <= j < xs.len() ==> #[trigger] m[j] == xs[j].model(),
                            out@.len() >= start.len(),
                            out@.subrange(0, start.len() as int) == start,
                            enc_elems(**e, ver as nat, m, 0) == prepend(
                                out@.subrange(start.len() as int, out@.len() as int),
                                enc_elems(**e, ver as nat, m, i as int),
                            ),
                            enc_path(*s, ver as nat, v.model()) == elems_path(**e, ver as nat, m, i as int),
                        decreases xs.len() - i,
                    {
                        let ghost before = out@;
                        match encode_value(e, ver, &xs[i], out) {
                            Ok(()) => {},
                            Err(err) => {
                                assert(enc_elems(**e, ver as nat, m, i as int) == Err::<Seq<u8>, ErrorKind>(err.kind));
                                assert(elems_path(**e, ver as nat, m, i as int) == enc_path(**e, ver as nat, m[i as int]));
                                return Err(err);
                            },
                        }
                        proof {
                            let a = enc(**e, ver as nat, m[i as int])->Ok_0;
                            let w0 = before.subrange(start.len() as int, before.len() as int);
                            assert(out@.subrange(start.len() as int, out@.len() as int) == w0 + a);
                            assert(out@.subrange(0, start.len() as int) == start);
                            match enc_elems(**e, ver as nat, m, i + 1) {
                                Ok(w) => {
                                    assert(w0 + (a + w) == (w0 + a) + w);
                                },
                                Err(_) => {},
                            }
                        }
                        i = i + 1;
                    }
                    proof {
                        assert(out@ == start + out@.subrange(start.len() as int, out@.len() as int));
                    }
                    Ok(())
                },
                _ => Err(Error::new(ErrorKind::Unsupported)),
            }
        },
        Schema::Struct(fs) => {
            match v {
                Value::Struct(xs) => {
                    let ghost m = v.model()->Struct_0;
                    if xs.len() < fs.len() {
                        return Err(Error::new(ErrorKind::MissingField));
                    }
                    if xs.len() > fs.len() {
                        return Err(Error::new(ErrorKind::Unsupported));
                    }
                    let ghost start = out@;
                    let mut i: usize = 0;
                    while i < fs.len()
                        invariant
                            i <= fs.len() == xs.len() == m.len(),
                            m == v.model()->Struct_0,
                            *v == Value::Struct(*xs),
                            *s == Schema::Struct(*fs),
                            forall|j: int| 0 <= j < xs.len() ==> #[trigger] m[j] == xs[j].model(),
                            out@.len() >= start.len(),
                            out@.subrange(0, start.len() as int) == start,
                            enc_fields(fs@, ver as nat, m, 0) == prepend(
                                out@.subrange(start.len() as int, out@.len() as int),
                                enc_fields(fs@, ver as nat, m, i as int),
                            ),
                            enc_path(*s, ver as nat, v.model()) == fields_path(fs@, ver as nat, m, i as int),
                        decreases fs.len() - i,
                    {
                        let ghost before = out@;
                        match encode_value(&fs[i].ty, ver, &xs[i], out) {
                            Ok(()) => {},
                            Err(err) => {
                                assert(enc_fields(fs@, ver as nat, m, i as int) == Err::<Seq<u8>, ErrorKind>(err.kind));
                                assert(fields_path(fs@, ver as nat, m, i as int)
                                    == seq![fs@[i as int].name] + enc_path(fs@[i as int].ty, ver as nat, m[i as int]));
                                return Err(err.within(&fs[i].name));
                            },
                        }
                        proof {
                            let a = enc(fs@[i as int].ty, ver as nat, m[i as int])->Ok_0;
                            let w0 = before.subrange(start.len() as int, before.len() as int);
                            assert(out@.subrange(start.len() as int, out@.len() as int) == w0 + a);
                            assert(out@.subrange(0, start.len() as int) == start);
                            match enc_fields(fs@, ver as nat, m, i + 1) {
                                Ok(w) => {
                                    assert(w0 + (a + w) == (w0 + a) + w);
                                },
                                Err(_) => {},
                            }
                        }
                        i = i + 1;
                    }
                    proof {
                        assert(out@ == start + out@.subrange(start.len() as int, out@.len() as int));
                    }
                    Ok(())
                },
                _ => Err(Error::new(ErrorKind::Unsupported)),
            }
        },
        _ => encode_scalar(s, v, out),
    }
}

/// `(xs, k)` in front of a decoding result.
pub open spec fn prepend_vals(xs: Seq<Val>, k: nat, r: Result<(Seq<Val>, nat), ErrorKind>) -> Result<(Seq<Val>, nat), ErrorKind> {
    match r {
        Ok((ys, m)) => Ok((xs + ys, k + m)),
        Err(e) => Err(e),
    }
}

/// Decodes a scalar value from `input[pos..]`: the value and the bytes
/// taken; a failure carries no path.
fn decode_scalar(s: &Schema, input: &[u8], pos: usize) -> (r: Result<(Value, usize), Error>)
    requires
        pos <= input@.len(),
    ensures
        match dec_scalar(*s, rest(input@, pos as int)) {
            Ok((x, n)) => r matches Ok((v, m)) && v.model() == x && m == n && pos + m <= input@.len(),
            Err(k) => r matches Err(e) && e.kind == k && e.path@.len() == 0,
        },
{
    match decode_scalar_any(s, input, pos) {
        Ok(pair) => Ok(pair),
        Err(e) => Err(Error::new(e.kind)),
    }
}

fn decode_scalar_any(s: &Schema, input: &[u8], pos: usize) -> (r: Result<(Value, usize), Error>)
    requires
        pos <= input@.len(),
    ensures
        match dec_scalar(*s, rest(input@, pos as int)) {
            Ok((x, n)) => r matches Ok((v, m)) && v.model() == x && m == n && pos + m <= input@.len(),
            Err(k) => r matches Err(e) && e.kind == k,
        },
{
    match s {
        Schema::Bool => {
            let x = get_bool(input, pos)?;
            Ok((Value::Bool(x), 1))
        },
        Schema::I8 => {
            let x = get_int(input, pos, 1, Context::I8)?;
            Ok((Value::I8(x as i8), 1))
        },
        Schema::I16 => {
            let x = get_int(input, pos, 2, Context::I16)?;
            Ok((Value::I16(x as i16), 2))
        },
        Schema::I32 => {
            let x = get_int(input, pos, 4, Context::I32)?;
            Ok((Value::I32(x), 4))
        },
        Schema::I64 => {
            let x = get_i64(input, pos)?;
            Ok((Value::I64(x), 8))
        },
        Schema::U8 => {
            let x = get_uint(input, pos, 1, Context::U8)?;
            proof {
                lemma_pow256_values();
            }
            Ok((Value::U8(x as u8), 1))
        },
        Schema::U16 => {
            let x = get_uint(input, pos, 2, Context::U16)?;
            proof {
                lemma_pow256_values();
            }
            Ok((Value::U16(x as u16), 2))
        },
        Schema::U32 => {
            let x = get_uint(input, pos, 4, Context::U32)?;
            proof {
                lemma_pow256_values();
            }
            Ok((Value::U32(x as u32), 4))
        },
        Schema::Varint => {
            let (x, n) = zag_i32(input, pos)?;
            Ok((Value::Varint(x), n))
        },
        Schema::Varlong => {
            let (x, n) = zag_i64(input, pos)?;
            Ok((Value::Varlong(x), n))
        },
        Schema::Str => {
            let (x, n) = get_str(input, pos)?;
            Ok((Value::Str(x), n))
        },
        Schema::NullableStr => {
            let (x, n) = get_nullable_str(input, pos)?;
            Ok((Value::NullableStr(x), n))
        },
        Schema::Bytes => {
            let (x, n) = get_bytes(input, pos)?;
            Ok((Value::Bytes(x), n))
        },
        Schema::NullableBytes => {
            let (x, n) = get_nullable_bytes(input, pos)?;
            Ok((Value::NullableBytes(x), n))
        },
        _ => Err(Error::new(ErrorKind::Unsupported)),
    }
}

/// Decodes a value under schema `s` at protocol version `ver` from
/// `input[pos..]`: the value and the number of bytes it took. A failure
/// inside a struct field names that field in the error's path.
pub fn decode_value(s: &Schema, ver: usize, input: &[u8], pos: usize) -> (r: Result<(Value, usize), Error>)
    requires
        pos <= input@.len(),
    ensures
        match dec(*s, ver as nat, rest(input@, pos as int)) {
            Ok((x, n)) => r matches Ok((v, m)) && v.model() == x && m == n && pos + m <= input@.len(),
            Err(k) => r matches Err(e) && e.kind == k
                && e.path@ == dec_path(*s, ver as nat, rest(input@, pos as int)),
        },
    decreases s,
{
    let len = input.len();
    match s {
        Schema::Versioned(vs) => {
            if ver < vs.len() {
                decode_value(&vs[ver], ver, input, pos)
            } else {
                Err(Error::new(ErrorKind::UnknownVariant(ver, vs.len())))
            }
        },
        Schema::Array(e) => {
            let size = match get_int(input, pos, 4, Context::ArraySize) {
                Ok(x) => x,
                Err(e) => {
                    return Err(Error::new(e.kind));
                },
            };
            let count: usize = if size < 0 {
                0
            } else {
                size as usize
            };
            let ghost b = rest(input@, pos as int);
            let ghost total = dec_elems(**e, ver as nat, b.skip(4), count as nat);
            proof {
                assert(b.skip(4) == rest(input@, pos + 4));
                assert(parse_int(b, 4, Context::ArraySize) == Ok::<(int, nat), ErrorKind>((size as int, 4)));
                assert(dec(*s, ver as nat, b) == match total {
                    Ok((ys, m)) => Ok((Val::Array(ys), 4 + m)),
                    Err(k) => Err::<(Val, nat), ErrorKind>(k),
                });
                assert(dec_path(*s, ver as nat, b)
                    == elems_dec_path(**e, ver as nat, rest(input@, pos + 4), count as nat));
            }
            let mut xs: Vec<Value> = Vec::new();
            let ghost mut ms: Seq<Val> = Seq::empty();
            let mut p: usize = pos + 4;
            let mut i: usize = 0;
            while i < count
                invariant
                    pos + 4 <= p <= input@.len(),
                    len == input@.len(),
                    i <= count,
                    *s == Schema::Array(*e),
                    xs@.len() == ms.len() == i,
                    forall|j: int| 0 <= j < i ==> #[trigger] ms[j] == xs@[j].model(),
                    total == dec_elems(**e, ver as nat, rest(input@, pos + 4), count as nat),
                    dec(*s, ver as nat, rest(input@, pos as int)) == match total {
                        Ok((ys, m)) => Ok((Val::Array(ys), 4 + m)),
                        Err(k) => Err::<(Val, nat), ErrorKind>(k),
                    },
                    total == prepend_vals(
                        ms,
                        (p - pos - 4) as nat,
                        dec_elems(**e, ver as nat, rest(input@, p as int), (count - i) as nat),
                    ),
                    dec_path(*s, ver as nat, rest(input@, pos as int))
                        == elems_dec_path(**e, ver as nat, rest(input@, p as int), (count - i) as nat),
                decreases count - i,
            {
                let ghost before = p;
                let (x, n) = match decode_value(e, ver, input, p) {
                    Ok(pair) => pair,
                    Err(err) => {
                        assert(dec_elems(**e, ver as nat, rest(input@, p as int), (count - i) as nat)
                            == Err::<(Seq<Val>, nat), ErrorKind>(err.kind));
                        assert(total == Err::<(Seq<Val>, nat), ErrorKind>(err.kind));
                        return Err(err);
                    },
                };
                proof {
                    assert(rest(input@, p as int).skip(n as int) == rest(input@, p + n));
                    let tail = dec_elems(**e, ver as nat, rest(input@, p + n), (count - i - 1) as nat);
                    match tail {
                        Ok((ys, k)) => {
                            assert(ms + (seq![x.model()] + ys) == ms.push(x.model()) + ys);
                        },
                        Err(_) => {},
                    }
                    ms = ms.push(x.model());
                }
                xs.push(x);
                p = p + n;
                i = i + 1;
            }
            let v = Value::Array(xs);
            proof {
                assert(v.model()->Array_0 == ms);
            }
            Ok((v, p - pos))
        },
        Schema::Struct(fs) => {
            let ghost b = rest(input@, pos as int);
            let ghost total = dec_fields(fs@, ver as nat, b, 0);
            let mut xs: Vec<Value> = Vec::new();
            let ghost mut ms: Seq<Val> = Seq::empty();
            let mut p: usize = pos;
            let mut i: usize = 0;
            while i < fs.len()
                invariant
                    pos <= p <= input@.len(),
                    len == input@.len(),
                    i <= fs.len(),
                    *s == Schema::Struct(*fs),
                    xs@.len() == ms.len() == i,
                    forall|j: int| 0 <= j < i ==> #[trigger] ms[j] == xs@[j].model(),
                    total == dec_fields(fs@, ver as nat, rest(input@, pos as int), 0),
                    total == prepend_vals(
                        ms,
                        (p - pos) as nat,
                        dec_fields(fs@, ver as nat, rest(input@, p as int), i as int),
                    ),
                    dec_path(*s, ver as nat, rest(input@, pos as int))
                        == fields_dec_path(fs@, ver as nat, rest(input@, p as int), i as int),
                decreases fs.len() - i,
            {
                let (x, n) = match decode_value(&fs[i].ty, ver, input, p) {
                    Ok(pair) => pair,
                    Err(err) => {
                        return Err(err.within(&fs[i].name));
                    },
                };
                proof {
                    assert(rest(input@, p as int).skip(n as int) == rest(input@, p + n));
                    let tail = dec_fields(fs@, ver as nat, rest(input@, p + n), i + 1);
                    match tail {
                        Ok((ys, k)) => {
                            assert(ms + (seq![x.model()] + ys) == ms.push(x.model()) + ys);
                        },
                        Err(_) => {},
                    }
                    ms = ms.push(x.model());
                }
                xs.push(x);
                p = p + n;
                i = i + 1;
            }
            let v = Value::Struct(xs);
            proof {
                assert(v.model()->Struct_0 == ms);
            }
            Ok((v, p - pos))
        },
        _ => decode_scalar(s, input, pos),
    }
}

/// A versioned schema encodes and decodes with the layout at the requested
/// version, and fails with `UnknownVariant` at a version past its layouts.
pub proof fn lemma_version_dispatch(layouts: Vec<Schema>, ver: nat, v: Val, b: Seq<u8>)
    ensures
        ver < layouts.len() ==> enc(Schema::Versioned(layouts), ver, v) == enc(layouts@[ver as int], ver, v)
            && dec(Schema::Versioned(layouts), ver, b) == dec(layouts@[ver as int], ver, b),
        ver >= layouts.len() ==> enc(Schema::Versioned(layouts), ver, v) == Err::<Seq<u8>, ErrorKind>(
            ErrorKind::UnknownVariant(ver as usize, layouts.len()),
        ) && dec(Schema::Versioned(layouts), ver, b) == Err::<(Val, nat), ErrorKind>(
            ErrorKind::UnknownVariant(ver as usize, layouts.len()),
        ),
{
}

} // verus!
