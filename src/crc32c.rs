//! CRC-32C (Castagnoli): the checksum of a record batch.
use vstd::prelude::*;

verus! {

/// The reflected Castagnoli polynomial.
pub const CASTAGNOLI: u32 = 0x82F6_3B78;

/// One bit step of the reflected CRC register.
pub open spec fn crc_shift(c: u32) -> u32 {
    if c & 1 == 1 {
        (c >> 1) ^ CASTAGNOLI
    } else {
        c >> 1
    }
}

/// `n` bit steps of the register.
pub open spec fn crc_shifts(c: u32, n: nat) -> u32
    decreases n,
{
    if n == 0 {
        c
    } else {
        crc_shift(crc_shifts(c, (n - 1) as nat))
    }
}

/// The register after feeding the bytes of `s`, starting from `c`.
pub open spec fn crc_update(c: u32, s: Seq<u8>) -> u32
    decreases s.len(),
{
    if s.len() == 0 {
        c
    } else {
        crc_shifts(crc_update(c, s.drop_last()) ^ (s.last() as u32), 8)
    }
}

/// The CRC-32C of `s`: the register starts all ones and ends inverted.
pub open spec fn crc32c_spec(s: Seq<u8>) -> u32 {
    !crc_update(0xFFFF_FFFF, s)
}

/// The CRC-32C of `data`.
pub fn crc32c(data: &[u8]) -> (r: u32)
    ensures
        r == crc32c_spec(data@),
{
    let mut c: u32 = 0xFFFF_FFFF;
    let mut i: usize = 0;
    while i < data.len()
        invariant
            i <= data@.len(),
            c == crc_update(0xFFFF_FFFF, data@.take(i as int)),
        decreases data@.len() - i,
    {
        assert(data@.take(i + 1).drop_last() == data@.take(i as int));
        let x = c ^ (data[i] as u32);
        c = x;
        let mut k: usize = 0;
        while k < 8
            invariant
                k <= 8,
                c == crc_shifts(x, k as nat),
            decreases 8 - k,
        {
            if c & 1 == 1 {
                c = (c >> 1) ^ CASTAGNOLI;
            } else {
                c = c >> 1;
            }
            k = k + 1;
        }
        i = i + 1;
    }
    assert(data@.take(data@.len() as int) == data@);
    !c
}

} // verus!
