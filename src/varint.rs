//! Zigzag variable-length integers: the zigzag map from signed to unsigned,
//! then base-128 groups, least significant first, with the high bit of each
//! byte set when another group follows.
use vstd::prelude::*;
use crate::error::{Context, Error, ErrorKind};

verus! {

/// Most groups a 32-bit value may take on the wire.
pub const VARINT_MAX_GROUPS: usize = 5;

/// Most groups a 64-bit value may take on the wire.
pub const VARLONG_MAX_GROUPS: usize = 10;

pub open spec fn zigzag(n: int) -> nat {
    if n >= 0 {
        (2 * n) as nat
    } else {
        (-2 * n - 1) as nat
    }
}

pub open spec fn unzigzag(z: nat) -> int {
    if z % 2 == 0 {
        (z / 2) as int
    } else {
        -((z + 1) / 2)
    }
}

pub open spec fn pow128(n: nat) -> nat
    decreases n,
{
    if n == 0 {
        1
    } else {
        128 * pow128((n - 1) as nat)
    }
}

/// The minimal base-128 form of `z`.
pub open spec fn varint_bytes(z: nat) -> Seq<u8>
    decreases z,
{
    if z < 128 {
        seq![z as u8]
    } else {
        seq![(128 + z % 128) as u8] + varint_bytes(z / 128)
    }
}

/// Reads base-128 groups from the front of `b`, at most `cap` of them:
/// the unsigned value and the number of bytes read.
pub open spec fn parse_groups(b: Seq<u8>, cap: nat, ctx: Context) -> Result<(nat, nat), ErrorKind>
    decreases cap,
{
    if cap == 0 {
        Err(ErrorKind::VarintOverflow)
    } else if b.len() == 0 {
        Err(ErrorKind::InsufficientBytes(ctx, 1))
    } else if b[0] < 128 {
        Ok((b[0] as nat, 1))
    } else {
        match parse_groups(b.drop_first(), (cap - 1) as nat, ctx) {
            Ok((z, n)) => Ok((((b[0] - 128) + 128 * z) as nat, n + 1)),
            Err(e) => Err(e),
        }
    }
}

/// The wire form of a 32-bit zigzag varint.
pub open spec fn varint_spec(n: i32) -> Seq<u8> {
    varint_bytes(zigzag(n as int))
}

/// The wire form of a 64-bit zigzag varlong.
pub open spec fn varlong_spec(n: i64) -> Seq<u8> {
    varint_bytes(zigzag(n as int))
}

/// Decodes a 32-bit varint from the front of `b`: the value and the bytes read.
pub open spec fn parse_varint(b: Seq<u8>) -> Result<(i32, nat), ErrorKind> {
    match parse_groups(b, VARINT_MAX_GROUPS as nat, Context::Varint) {
        Ok((z, n)) => if z > u32::MAX {
            Err(ErrorKind::VarintOverflow)
        } else {
            Ok((unzigzag(z) as i32, n))
        },
        Err(e) => Err(e),
    }
}

/// Decodes a 64-bit varlong from the front of `b`: the value and the bytes read.
pub open spec fn parse_varlong(b: Seq<u8>) -> Result<(i64, nat), ErrorKind> {
    match parse_groups(b, VARLONG_MAX_GROUPS as nat, Context::Varlong) {
        Ok((z, n)) => if z > u64::MAX {
            Err(ErrorKind::VarintOverflow)
        } else {
            Ok((unzigzag(z) as i64, n))
        },
        Err(e) => Err(e),
    }
}

pub proof fn lemma_varint_bytes_len(z: nat, k: nat)
    requires
        z < pow128(k),
        k >= 1,
    ensures
        1 <= varint_bytes(z).len() <= k,
    decreases z,
{
    assert(pow128(0) == 1);
    if z >= 128 {
        let m = (k - 1) as nat;
        assert(z / 128 < pow128(m)) by (nonlinear_arith)
            requires
                z < 128 * pow128(m),
        ;
        lemma_varint_bytes_len(z / 128, m);
    }
}

/// Reading back the groups of `z`, followed by anything, gives `z`.
pub proof fn lemma_groups_round_trip(z: nat, cap: nat, ctx: Context, rest: Seq<u8>)
    requires
        varint_bytes(z).len() <= cap,
    ensures
        parse_groups(varint_bytes(z) + rest, cap, ctx) == Ok::<(nat, nat), ErrorKind>(
            (z, varint_bytes(z).len()),
        ),
    decreases z,
{
    let b = varint_bytes(z) + rest;
    if z < 128 {
        assert(b[0] == z as u8);
    } else {
        lemma_groups_round_trip(z / 128, (cap - 1) as nat, ctx, rest);
        assert(b.drop_first() == varint_bytes(z / 128) + rest);
        assert(b[0] == (128 + z % 128) as u8);
    }
}

/// Every 32-bit value round-trips through its varint form.
pub proof fn lemma_varint_round_trip(n: i32, rest: Seq<u8>)
    ensures
        parse_varint(varint_spec(n) + rest) == Ok::<(i32, nat), ErrorKind>(
            (n, varint_spec(n).len()),
        ),
        1 <= varint_spec(n).len() <= VARINT_MAX_GROUPS,
{
    let z = zigzag(n as int);
    assert(pow128(5) == 0x8_0000_0000) by {
        reveal_with_fuel(pow128, 6);
    }
    lemma_varint_bytes_len(z, 5);
    lemma_groups_round_trip(z, 5, Context::Varint, rest);
}

/// Every 64-bit value round-trips through its varlong form.
pub proof fn lemma_varlong_round_trip(n: i64, rest: Seq<u8>)
    ensures
        parse_varlong(varlong_spec(n) + rest) == Ok::<(i64, nat), ErrorKind>(
            (n, varlong_spec(n).len()),
        ),
        1 <= varlong_spec(n).len() <= VARLONG_MAX_GROUPS,
{
    let z = zigzag(n as int);
    assert(pow128(10) == 0x40_0000_0000_0000_0000) by {
        reveal_with_fuel(pow128, 11);
    }
    lemma_varint_bytes_len(z, 10);
    lemma_groups_round_trip(z, 10, Context::Varlong, rest);
}

/// Appends the minimal base-128 form of `z`.
pub fn encode_variable(z: u64, buf: &mut Vec<u8>)
    ensures
        final(buf)@ == old(buf)@ + varint_bytes(z as nat),
{
    let mut v = z;
    while v > 127
        invariant
            buf@ + varint_bytes(v as nat) == old(buf)@ + varint_bytes(z as nat),
        decreases v,
    {
        let ghost before = buf@;
        buf.push((v % 128 + 128) as u8);
        assert(seq![(128 + v % 128) as u8] + varint_bytes((v / 128) as nat) == varint_bytes(v as nat));
        assert(buf@ + varint_bytes((v / 128) as nat) == before + varint_bytes(v as nat));
        v = v / 128;
    }
    let ghost before = buf@;
    buf.push(v as u8);
    assert(buf@ == before + varint_bytes(v as nat));
}

/// Appends the zigzag varlong form of `n`.
pub fn zig_i64(n: i64, buf: &mut Vec<u8>)
    ensures
        final(buf)@ == old(buf)@ + varlong_spec(n),
{
    let z: u64 = if n >= 0 {
        (n as u64) * 2
    } else {
        ((-(n + 1)) as u64) * 2 + 1
    };
    encode_variable(z, buf);
}

/// Appends the zigzag varint form of `n`.
pub fn zig_i32(n: i32, buf: &mut Vec<u8>)
    ensures
        final(buf)@ == old(buf)@ + varint_spec(n),
{
    zig_i64(n as i64, buf);
}

/// Reads at most `cap` base-128 groups from `input[pos..]`: the unsigned
/// value and the number of bytes read.
pub fn decode_variable(input: &[u8], pos: usize, cap: usize, ctx: Context) -> (r: Result<(u128, usize), Error>)
    requires
        pos <= input@.len(),
        cap <= VARLONG_MAX_GROUPS,
    ensures
        match parse_groups(input@.subrange(pos as int, input@.len() as int), cap as nat, ctx) {
            Ok((z, n)) => r matches Ok((v, m)) && v == z && m == n && z < pow128(n) && n <= cap
                && pos + m <= input@.len(),
            Err(e) => r matches Err(err) && err.kind == e,
        },
    decreases cap,
{
    let ghost b = input@.subrange(pos as int, input@.len() as int);
    if cap == 0 {
        return Err(Error::new(ErrorKind::VarintOverflow));
    }
    if pos >= input.len() {
        return Err(Error::new(ErrorKind::InsufficientBytes(ctx, 1)));
    }
    let byte = input[pos];
    if byte < 128 {
        assert(pow128(1) == 128) by {
            reveal_with_fuel(pow128, 2);
        }
        return Ok((byte as u128, 1));
    }
    assert(b.drop_first() == input@.subrange(pos + 1, input@.len() as int));
    match decode_variable(input, pos + 1, cap - 1, ctx) {
        Ok((z, n)) => {
            proof {
                let m = n as nat;
                assert(pow128(m) <= pow128(9)) by {
                    lemma_pow128_mono(m, 9);
                }
                assert(pow128(9) == 0x8000_0000_0000_0000) by {
                    reveal_with_fuel(pow128, 10);
                }
                assert(pow128(m + 1) == 128 * pow128(m));
                assert((byte - 128) + 128 * z < pow128(m + 1)) by (nonlinear_arith)
                    requires
                        z < pow128(m),
                        byte < 256,
                        byte >= 128,
                        pow128(m + 1) == 128 * pow128(m),
                ;
            }
            Ok(((byte - 128) as u128 + 128 * z, n + 1))
        },
        Err(e) => Err(e),
    }
}

pub proof fn lemma_pow128_mono(a: nat, b: nat)
    requires
        a <= b,
    ensures
        pow128(a) <= pow128(b),
    decreases b,
{
    if a < b {
        lemma_pow128_mono(a, (b - 1) as nat);
    }
}

/// The signed value of a zigzag-mapped `z`.
fn unzigzag_exec(z: u64) -> (n: i64)
    ensures
        n == unzigzag(z as nat),
{
    if z % 2 == 0 {
        (z / 2) as i64
    } else {
        -((z / 2) as i64) - 1
    }
}

/// Decodes a 64-bit varlong from `input[pos..]`: the value and the bytes read.
pub fn zag_i64(input: &[u8], pos: usize) -> (r: Result<(i64, usize), Error>)
    requires
        pos <= input@.len(),
    ensures
        match parse_varlong(input@.subrange(pos as int, input@.len() as int)) {
            Ok((v, n)) => r matches Ok((x, m)) && x == v && m == n && pos + m <= input@.len(),
            Err(e) => r matches Err(err) && err.kind == e,
        },
{
    match decode_variable(input, pos, VARLONG_MAX_GROUPS, Context::Varlong) {
        Ok((z, n)) => {
            if z > u64::MAX as u128 {
                Err(Error::new(ErrorKind::VarintOverflow))
            } else {
                Ok((unzigzag_exec(z as u64), n))
            }
        },
        Err(e) => Err(e),
    }
}

/// Decodes a 32-bit varint from `input[pos..]`: the value and the bytes read.
pub fn zag_i32(input: &[u8], pos: usize) -> (r: Result<(i32, usize), Error>)
    requires
        pos <= input@.len(),
    ensures
        match parse_varint(input@.subrange(pos as int, input@.len() as int)) {
            Ok((v, n)) => r matches Ok((x, m)) && x == v && m == n && pos + m <= input@.len(),
            Err(e) => r matches Err(err) && err.kind == e,
        },
{
    match decode_variable(input, pos, VARINT_MAX_GROUPS, Context::Varint) {
        Ok((z, n)) => {
            if z > u32::MAX as u128 {
                Err(Error::new(ErrorKind::VarintOverflow))
            } else {
                Ok((unzigzag_exec(z as u64) as i32, n))
            }
        },
        Err(e) => Err(e),
    }
}

} // verus!
