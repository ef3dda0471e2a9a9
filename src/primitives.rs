//! The wire primitives: fixed-width integers, booleans, length-prefixed
//! strings and byte buffers, and their nullable forms. Encoders append to
//! a buffer; decoders read from `input[pos..]` and report how many bytes
//! they took.
use vstd::prelude::*;
use vstd::utf8::{decode_utf8, encode_utf8, valid_utf8};
use vstd::slice::{slice_subrange, slice_to_vec};
use crate::error::{Context, Error, ErrorKind, Limit};
use crate::wire::{be_value, lemma_be_value_bound, read_be, int_bytes, lemma_pow256_mono, lemma_pow256_values, pow256, put_be, to_signed};

verus! {

pub const STR_MAX: usize = 32767;

pub const BYTES_MAX: usize = 2147483647;

/// The bytes of `input` from `pos` on.
pub open spec fn rest(input: Seq<u8>, pos: int) -> Seq<u8> {
    input.subrange(pos, input.len() as int)
}

/// The unsigned big-endian value of the first `n` bytes.
pub open spec fn parse_uint(b: Seq<u8>, n: nat, ctx: Context) -> Result<(nat, nat), ErrorKind> {
    if b.len() >= n {
        Ok((be_value(b.take(n as int)), n))
    } else {
        Err(ErrorKind::InsufficientBytes(ctx, n as i64))
    }
}

/// The signed (two's complement) value of the first `n` bytes.
pub open spec fn parse_int(b: Seq<u8>, n: nat, ctx: Context) -> Result<(int, nat), ErrorKind> {
    match parse_uint(b, n, ctx) {
        Ok((u, k)) => Ok((to_signed(u, n), k)),
        Err(e) => Err(e),
    }
}

pub open spec fn parse_bool(b: Seq<u8>) -> Result<(bool, nat), ErrorKind> {
    match parse_uint(b, 1, Context::Bool) {
        Ok((u, k)) => if u == 0 {
            Ok((false, k))
        } else if u == 1 {
            Ok((true, k))
        } else {
            Err(ErrorKind::InvalidBoolean)
        },
        Err(e) => Err(e),
    }
}

/// `size` bytes of text after a prefix of `hdr` bytes.
pub open spec fn parse_text(b: Seq<u8>, size: int, hdr: nat) -> Result<(Seq<char>, nat), ErrorKind> {
    if size < 0 || b.len() - hdr < size {
        Err(ErrorKind::InsufficientBytes(Context::Str, size as i64))
    } else if !valid_utf8(b.subrange(hdr as int, hdr + size)) {
        Err(ErrorKind::InvalidUtf8)
    } else {
        Ok((decode_utf8(b.subrange(hdr as int, hdr + size)), (hdr + size) as nat))
    }
}

/// `size` raw bytes after a prefix of `hdr` bytes.
pub open spec fn parse_raw(b: Seq<u8>, size: int, hdr: nat, ctx: Context) -> Result<(Seq<u8>, nat), ErrorKind> {
    if size < 0 || b.len() - hdr < size {
        Err(ErrorKind::InsufficientBytes(ctx, size as i64))
    } else {
        Ok((b.subrange(hdr as int, hdr + size), (hdr + size) as nat))
    }
}

/// A string: 16-bit length, then UTF-8.
pub open spec fn parse_str(b: Seq<u8>) -> Result<(Seq<char>, nat), ErrorKind> {
    match parse_int(b, 2, Context::StrSize) {
        Ok((size, _)) => parse_text(b, size, 2),
        Err(e) => Err(e),
    }
}

/// A nullable string: length -1 stands for absence.
pub open spec fn parse_nullable_str(b: Seq<u8>) -> Result<(Option<Seq<char>>, nat), ErrorKind> {
    match parse_int(b, 2, Context::StrSize) {
        Ok((size, _)) => if size == -1 {
            Ok((None, 2))
        } else {
            match parse_text(b, size, 2) {
                Ok((s, n)) => Ok((Some(s), n)),
                Err(e) => Err(e),
            }
        },
        Err(e) => Err(e),
    }
}

/// A byte buffer: 32-bit length, then the bytes.
pub open spec fn parse_bytes(b: Seq<u8>) -> Result<(Seq<u8>, nat), ErrorKind> {
    match parse_int(b, 4, Context::BytesSize) {
        Ok((size, _)) => parse_raw(b, size, 4, Context::Bytes),
        Err(e) => Err(e),
    }
}

/// A nullable byte buffer: length -1 stands for absence.
pub open spec fn parse_nullable_bytes(b: Seq<u8>) -> Result<(Option<Seq<u8>>, nat), ErrorKind> {
    match parse_int(b, 4, Context::BytesSize) {
        Ok((size, _)) => if size == -1 {
            Ok((None, 4))
        } else {
            match parse_raw(b, size, 4, Context::Bytes) {
                Ok((s, n)) => Ok((Some(s), n)),
                Err(e) => Err(e),
            }
        },
        Err(e) => Err(e),
    }
}

pub open spec fn bool_wire(v: bool) -> Seq<u8> {
    seq![if v { 1u8 } else { 0u8 }]
}

pub open spec fn str_wire(s: Seq<char>) -> Result<Seq<u8>, ErrorKind> {
    let u = encode_utf8(s);
    if u.len() > STR_MAX {
        Err(ErrorKind::TooLong(Limit::Str, u.len() as usize, STR_MAX))
    } else {
        Ok(int_bytes(u.len() as int, 2) + u)
    }
}

pub open spec fn nullable_str_wire(s: Option<Seq<char>>) -> Result<Seq<u8>, ErrorKind> {
    match s {
        None => Ok(int_bytes(-1, 2)),
        Some(s) => str_wire(s),
    }
}

pub open spec fn bytes_wire(u: Seq<u8>) -> Result<Seq<u8>, ErrorKind> {
    if u.len() > BYTES_MAX {
        Err(ErrorKind::TooLong(Limit::Bytes, u.len() as usize, BYTES_MAX))
    } else {
        Ok(int_bytes(u.len() as int, 4) + u)
    }
}

pub open spec fn nullable_bytes_wire(u: Option<Seq<u8>>) -> Result<Seq<u8>, ErrorKind> {
    match u {
        None => Ok(int_bytes(-1, 4)),
        Some(u) => bytes_wire(u),
    }
}

/// Relies on String::from_utf8: it succeeds exactly on valid UTF-8, and the
/// string then holds the characters that the bytes encode.
#[verifier::external_body]
pub(crate) fn string_from_utf8(b: Vec<u8>) -> (r: Option<String>)
    ensures
        r is Some <==> valid_utf8(b@),
        r matches Some(s) ==> s@ == decode_utf8(b@),
{
    String::from_utf8(b).ok()
}

pub fn put_bool(out: &mut Vec<u8>, v: bool)
    ensures
        final(out)@ == old(out)@ + bool_wire(v),
{
    out.push(if v { 1u8 } else { 0u8 });
    assert(final(out)@ == old(out)@ + bool_wire(v));
}

/// Appends `v` as `n` big-endian two's complement bytes.
pub fn put_int(out: &mut Vec<u8>, v: i64, n: usize)
    requires
        1 <= n <= 8,
        -(pow256(n as nat) / 2) <= v < pow256(n as nat) / 2,
    ensures
        final(out)@ == old(out)@ + int_bytes(v as int, n as nat),
{
    proof {
        lemma_pow256_values();
        lemma_pow256_mono(n as nat, 8);
        assert(pow256(n as nat) % 2 == 0 && pow256(n as nat) >= 2) by {
            assert(pow256(n as nat) == 256 * pow256((n - 1) as nat));
        }
    }
    let u: u64 = if v < 0 {
        let p: i128 = if n == 8 {
            0x1_0000_0000_0000_0000
        } else {
            pow256_exec(n) as i128
        };
        (v as i128 + p) as u64
    } else {
        v as u64
    };
    put_be(out, u, n);
}

/// `256` to the power `n`, for `n < 8`.
fn pow256_exec(n: usize) -> (p: u64)
    requires
        n < 8,
    ensures
        p == pow256(n as nat),
        p <= 0x100_0000_0000_0000,
{
    let mut p: u64 = 1;
    let mut i: usize = 0;
    while i < n
        invariant
            i <= n < 8,
            p == pow256(i as nat),
        decreases n - i,
    {
        proof {
            lemma_pow256_values();
            lemma_pow256_mono(i as nat, 6);
            assert(pow256(6) == 0x1_0000_0000_0000) by {
                reveal_with_fuel(pow256, 7);
            }
        }
        p = p * 256;
        i = i + 1;
    }
    proof {
        lemma_pow256_mono(n as nat, 7);
        assert(pow256(7) == 0x100_0000_0000_0000) by {
            reveal_with_fuel(pow256, 8);
        }
    }
    p
}

/// Appends a string: 16-bit length, then its UTF-8 bytes.
pub fn put_str(out: &mut Vec<u8>, s: &str) -> (r: Result<(), Error>)
    ensures
        match str_wire(s@) {
            Ok(w) => r is Ok && final(out)@ == old(out)@ + w,
            Err(e) => r matches Err(err) && err.kind == e,
        },
        r is Err ==> final(out)@ == old(out)@,
{
    let b = s.as_bytes();
    if b.len() > STR_MAX {
        return Err(Error::new(ErrorKind::TooLong(Limit::Str, b.len(), STR_MAX)));
    }
    proof {
        lemma_pow256_values();
    }
    put_int(out, b.len() as i64, 2);
    out.extend_from_slice(b);
    Ok(())
}

pub fn put_nullable_str(out: &mut Vec<u8>, s: &Option<String>) -> (r: Result<(), Error>)
    ensures
        match nullable_str_wire(option_view(*s)) {
            Ok(w) => r is Ok && final(out)@ == old(out)@ + w,
            Err(e) => r matches Err(err) && err.kind == e,
        },
        r is Err ==> final(out)@ == old(out)@,
{
    match s {
        None => {
            proof {
                lemma_pow256_values();
            }
            put_int(out, -1, 2);
            Ok(())
        },
        Some(s) => put_str(out, s.as_str()),
    }
}

/// Appends a byte buffer: 32-bit length, then the bytes.
pub fn put_bytes(out: &mut Vec<u8>, b: &[u8]) -> (r: Result<(), Error>)
    ensures
        match bytes_wire(b@) {
            Ok(w) => r is Ok && final(out)@ == old(out)@ + w,
            Err(e) => r matches Err(err) && err.kind == e,
        },
        r is Err ==> final(out)@ == old(out)@,
{
    if b.len() > BYTES_MAX {
        return Err(Error::new(ErrorKind::TooLong(Limit::Bytes, b.len(), BYTES_MAX)));
    }
    proof {
        lemma_pow256_values();
    }
    put_int(out, b.len() as i64, 4);
    out.extend_from_slice(b);
    Ok(())
}

pub fn put_nullable_bytes(out: &mut Vec<u8>, b: &Option<Vec<u8>>) -> (r: Result<(), Error>)
    ensures
        match nullable_bytes_wire(bytes_option_view(*b)) {
            Ok(w) => r is Ok && final(out)@ == old(out)@ + w,
            Err(e) => r matches Err(err) && err.kind == e,
        },
        r is Err ==> final(out)@ == old(out)@,
{
    match b {
        None => {
            proof {
                lemma_pow256_values();
            }
            put_int(out, -1, 4);
            Ok(())
        },
        Some(b) => put_bytes(out, b.as_slice()),
    }
}

pub open spec fn option_view(s: Option<String>) -> Option<Seq<char>> {
    match s {
        Some(s) => Some(s@),
        None => None,
    }
}

pub open spec fn bytes_option_view(b: Option<Vec<u8>>) -> Option<Seq<u8>> {
    match b {
        Some(b) => Some(b@),
        None => None,
    }
}

/// Reads the unsigned big-endian value of `input[pos..pos + n]`.
pub fn get_uint(input: &[u8], pos: usize, n: usize, ctx: Context) -> (r: Result<u64, Error>)
    requires
        pos <= input@.len(),
        n <= 8,
    ensures
        match parse_uint(rest(input@, pos as int), n as nat, ctx) {
            Ok((u, _)) => r == Ok::<u64, Error>(u as u64) && u < pow256(n as nat),
            Err(e) => r matches Err(err) && err.kind == e,
        },
{
    if input.len() - pos < n {
        return Err(Error::new(ErrorKind::InsufficientBytes(ctx, n as i64)));
    }
    let x = read_be(input, pos, n);
    proof {
        let b = rest(input@, pos as int);
        assert(b.take(n as int) == input@.subrange(pos as int, pos + n));
        lemma_be_value_bound(b.take(n as int));
    }
    Ok(x)
}

/// Reads a signed integer of `n` bytes (at most 4) from `input[pos..]`.
pub fn get_int(input: &[u8], pos: usize, n: usize, ctx: Context) -> (r: Result<i32, Error>)
    requires
        pos <= input@.len(),
        1 <= n <= 4,
    ensures
        match parse_int(rest(input@, pos as int), n as nat, ctx) {
            Ok((v, _)) => r == Ok::<i32, Error>(v as i32) && v == v as i32,
            Err(e) => r matches Err(err) && err.kind == e,
        },
{
    let u = get_uint(input, pos, n, ctx)?;
    proof {
        lemma_pow256_values();
        lemma_pow256_mono(n as nat, 4);
    }
    let p: u64 = pow256_exec(n);
    assert(pow256(n as nat) == 256 * pow256((n - 1) as nat));
    if u >= p / 2 {
        Ok((u as i64 - p as i64) as i32)
    } else {
        Ok(u as i32)
    }
}

/// Reads a signed 64-bit integer from `input[pos..]`.
pub fn get_i64(input: &[u8], pos: usize) -> (r: Result<i64, Error>)
    requires
        pos <= input@.len(),
    ensures
        match parse_int(rest(input@, pos as int), 8, Context::I64) {
            Ok((v, _)) => r == Ok::<i64, Error>(v as i64) && v == v as i64,
            Err(e) => r matches Err(err) && err.kind == e,
        },
{
    let u = get_uint(input, pos, 8, Context::I64)?;
    proof {
        lemma_pow256_values();
    }
    if u >= 0x8000_0000_0000_0000 {
        Ok(((u - 0x8000_0000_0000_0000) as i64) + i64::MIN)
    } else {
        Ok(u as i64)
    }
}

pub fn get_bool(input: &[u8], pos: usize) -> (r: Result<bool, Error>)
    requires
        pos <= input@.len(),
    ensures
        match parse_bool(rest(input@, pos as int)) {
            Ok((v, _)) => r == Ok::<bool, Error>(v),
            Err(e) => r matches Err(err) && err.kind == e,
        },
{
    let u = get_uint(input, pos, 1, Context::Bool)?;
    proof {
        lemma_pow256_values();
    }
    if u == 0 {
        Ok(false)
    } else if u == 1 {
        Ok(true)
    } else {
        Err(Error::new(ErrorKind::InvalidBoolean))
    }
}

/// Takes `size` raw bytes after a prefix of `hdr` bytes at `input[pos..]`.
pub fn get_raw(input: &[u8], pos: usize, size: i32, hdr: usize, ctx: Context) -> (r: Result<Vec<u8>, Error>)
    requires
        pos + hdr <= input@.len(),
    ensures
        match parse_raw(rest(input@, pos as int), size as int, hdr as nat, ctx) {
            Ok((v, _)) => r matches Ok(x) && x@ == v,
            Err(e) => r matches Err(err) && err.kind == e,
        },
{
    if size < 0 || input.len() - pos - hdr < size as usize {
        return Err(Error::new(ErrorKind::InsufficientBytes(ctx, size as i64)));
    }
    let start = pos + hdr;
    let end = start + size as usize;
    let body = slice_to_vec(slice_subrange(input, start, end));
    assert(body@ == rest(input@, pos as int).subrange(hdr as int, hdr + size));
    Ok(body)
}

/// Takes `size` bytes of UTF-8 text after a prefix of `hdr` bytes at `input[pos..]`.
pub fn get_text(input: &[u8], pos: usize, size: i32, hdr: usize) -> (r: Result<String, Error>)
    requires
        pos + hdr <= input@.len(),
    ensures
        match parse_text(rest(input@, pos as int), size as int, hdr as nat) {
            Ok((v, _)) => r matches Ok(x) && x@ == v,
            Err(e) => r matches Err(err) && err.kind == e,
        },
{
    let body = get_raw(input, pos, size, hdr, Context::Str)?;
    match string_from_utf8(body) {
        Some(s) => Ok(s),
        None => Err(Error::new(ErrorKind::InvalidUtf8)),
    }
}

pub fn get_str(input: &[u8], pos: usize) -> (r: Result<(String, usize), Error>)
    requires
        pos <= input@.len(),
    ensures
        match parse_str(rest(input@, pos as int)) {
            Ok((v, n)) => r matches Ok((x, m)) && x@ == v && m == n && pos + m <= input@.len(),
            Err(e) => r matches Err(err) && err.kind == e,
        },
{
    let size = get_int(input, pos, 2, Context::StrSize)?;
    let s = get_text(input, pos, size, 2)?;
    Ok((s, 2 + size as usize))
}

pub fn get_nullable_str(input: &[u8], pos: usize) -> (r: Result<(Option<String>, usize), Error>)
    requires
        pos <= input@.len(),
    ensures
        match parse_nullable_str(rest(input@, pos as int)) {
            Ok((v, n)) => r matches Ok((x, m)) && option_view(x) == v && m == n && pos + m <= input@.len(),
            Err(e) => r matches Err(err) && err.kind == e,
        },
{
    let size = get_int(input, pos, 2, Context::StrSize)?;
    if size == -1 {
        return Ok((None, 2));
    }
    let s = get_text(input, pos, size, 2)?;
    Ok((Some(s), 2 + size as usize))
}

pub fn get_bytes(input: &[u8], pos: usize) -> (r: Result<(Vec<u8>, usize), Error>)
    requires
        pos <= input@.len(),
    ensures
        match parse_bytes(rest(input@, pos as int)) {
            Ok((v, n)) => r matches Ok((x, m)) && x@ == v && m == n && pos + m <= input@.len(),
            Err(e) => r matches Err(err) && err.kind == e,
        },
{
    let size = get_int(input, pos, 4, Context::BytesSize)?;
    let b = get_raw(input, pos, size, 4, Context::Bytes)?;
    Ok((b, 4 + size as usize))
}

pub fn get_nullable_bytes(input: &[u8], pos: usize) -> (r: Result<(Option<Vec<u8>>, usize), Error>)
    requires
        pos <= input@.len(),
    ensures
        match parse_nullable_bytes(rest(input@, pos as int)) {
            Ok((v, n)) => r matches Ok((x, m)) && bytes_option_view(x) == v && m == n && pos + m <= input@.len(),
            Err(e) => r matches Err(err) && err.kind == e,
        },
{
    let size = get_int(input, pos, 4, Context::BytesSize)?;
    if size == -1 {
        return Ok((None, 4));
    }
    let b = get_raw(input, pos, size, 4, Context::Bytes)?;
    Ok((Some(b), 4 + size as usize))
}

/// Appends the bytes of `u` as they are.
pub fn put_raw(out: &mut Vec<u8>, u: &[u8])
    ensures
        final(out)@ == old(out)@ + u@,
{
    out.extend_from_slice(u);
    assert(final(out)@ =~= old(out)@ + u@);
}

} // verus!
