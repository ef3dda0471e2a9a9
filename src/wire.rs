//! Fixed-width big-endian integers.
use vstd::prelude::*;

verus! {

pub open spec fn pow256(n: nat) -> nat
    decreases n,
{
    if n == 0 {
        1
    } else {
        256 * pow256((n - 1) as nat)
    }
}

/// The `n` big-endian bytes of the unsigned value `x`.
pub open spec fn be_bytes(x: nat, n: nat) -> Seq<u8>
    decreases n,
{
    if n == 0 {
        Seq::empty()
    } else {
        be_bytes(x / 256, (n - 1) as nat).push((x % 256) as u8)
    }
}

/// The unsigned value of big-endian bytes.
pub open spec fn be_value(s: Seq<u8>) -> nat
    decreases s.len(),
{
    if s.len() == 0 {
        0
    } else {
        (be_value(s.drop_last()) * 256 + s.last()) as nat
    }
}

/// Two's complement: the unsigned value that stands for `v` in `n` bytes.
pub open spec fn to_unsigned(v: int, n: nat) -> nat {
    if v < 0 {
        (v + pow256(n)) as nat
    } else {
        v as nat
    }
}

/// Two's complement: the signed value of `u` read from `n` bytes.
pub open spec fn to_signed(u: nat, n: nat) -> int {
    if u >= pow256(n) / 2 {
        u - pow256(n)
    } else {
        u as int
    }
}

/// The wire form of a signed integer of `n` bytes.
pub open spec fn int_bytes(v: int, n: nat) -> Seq<u8> {
    be_bytes(to_unsigned(v, n), n)
}

pub proof fn lemma_pow256_values()
    ensures
        pow256(1) == 0x100,
        pow256(2) == 0x1_0000,
        pow256(4) == 0x1_0000_0000,
        pow256(8) == 0x1_0000_0000_0000_0000,
{
    reveal_with_fuel(pow256, 9);
}

pub proof fn lemma_be_bytes_len(x: nat, n: nat)
    ensures
        be_bytes(x, n).len() == n,
    decreases n,
{
    if n > 0 {
        lemma_be_bytes_len(x / 256, (n - 1) as nat);
    }
}

pub proof fn lemma_be_value_bound(s: Seq<u8>)
    ensures
        be_value(s) < pow256(s.len()),
    decreases s.len(),
{
    if s.len() > 0 {
        let p = s.drop_last();
        lemma_be_value_bound(p);
        let a = be_value(p);
        let q = pow256(p.len());
        let b = s.last();
        assert(a * 256 + b < q * 256) by (nonlinear_arith)
            requires
                a < q,
                b < 256,
        ;
    }
}

/// Reading back the bytes of a value gives the value.
pub proof fn lemma_be_round_trip(x: nat, n: nat)
    requires
        x < pow256(n),
    ensures
        be_value(be_bytes(x, n)) == x,
    decreases n,
{
    if n > 0 {
        let m = (n - 1) as nat;
        assert(x / 256 < pow256(m)) by (nonlinear_arith)
            requires
                x < 256 * pow256(m),
        ;
        lemma_be_round_trip(x / 256, m);
        let s = be_bytes(x, n);
        assert(s.drop_last() == be_bytes(x / 256, m));
    }
}

pub proof fn lemma_int_round_trip(v: int, n: nat)
    requires
        n > 0,
        -(pow256(n) / 2) <= v < pow256(n) / 2,
    ensures
        to_signed(be_value(int_bytes(v, n)), n) == v,
        int_bytes(v, n).len() == n,
{
    let p = pow256(n);
    assert(p % 2 == 0 && p >= 2) by {
        assert(p == 256 * pow256((n - 1) as nat));
    }
    lemma_be_round_trip(to_unsigned(v, n), n);
    lemma_be_bytes_len(to_unsigned(v, n), n);
}

/// Appends the `n` big-endian bytes of `x`.
pub fn put_be(out: &mut Vec<u8>, x: u64, n: usize)
    requires
        n <= 8,
        x < pow256(n as nat),
    ensures
        final(out)@ == old(out)@ + be_bytes(x as nat, n as nat),
    decreases n,
{
    if n > 0 {
        proof {
            let m = (n - 1) as nat;
            assert(x / 256 < pow256(m)) by (nonlinear_arith)
                requires
                    x < 256 * pow256(m),
            ;
        }
        put_be(out, x / 256, n - 1);
        out.push((x % 256) as u8);
        assert(final(out)@ == old(out)@ + be_bytes(x as nat, n as nat));
    }
}

/// The unsigned big-endian value of `input[pos..pos + n]`.
pub fn read_be(input: &[u8], pos: usize, n: usize) -> (x: u64)
    requires
        n <= 8,
        pos + n <= input@.len(),
    ensures
        x == be_value(input@.subrange(pos as int, pos + n)),
{
    let len = input.len();
    let mut x: u64 = 0;
    let mut i: usize = 0;
    while i < n
        invariant
            i <= n <= 8,
            len == input@.len(),
            pos + n <= input@.len(),
            x == be_value(input@.subrange(pos as int, pos + i)),
        decreases n - i,
    {
        let ghost s = input@.subrange(pos as int, pos + i + 1);
        proof {
            assert(s.drop_last() == input@.subrange(pos as int, pos + i));
            lemma_be_value_bound(s);
            lemma_pow256_values();
            lemma_pow256_mono(s.len(), 8);
        }
        x = x * 256 + input[pos + i] as u64;
        i = i + 1;
    }
    x
}

pub proof fn lemma_pow256_mono(a: nat, b: nat)
    requires
        a <= b,
    ensures
        pow256(a) <= pow256(b),
    decreases b,
{
    if a < b {
        lemma_pow256_mono(a, (b - 1) as nat);
    }
}

} // verus!
