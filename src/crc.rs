//! CRC-16/CCITT-FALSE: polynomial 0x1021, initial value 0xFFFF, no
//! reflection and no final xor.

use vstd::prelude::*;

verus! {

/// Initial register value of CRC-16/CCITT-FALSE.
pub const CRC16_INIT: u16 = 0xFFFF;

/// One shift of the CRC register, feeding the polynomial back in when the top
/// bit falls out.
pub open spec fn crc_shift(c: u16) -> u16 {
    if c & 0x8000u16 != 0u16 {
        ((c << 1u16) ^ 0x1021u16) as u16
    } else {
        (c << 1u16) as u16
    }
}

pub open spec fn crc_shifts(c: u16, n: nat) -> u16
    decreases n,
{
    if n == 0 {
        c
    } else {
        crc_shifts(crc_shift(c), (n - 1) as nat)
    }
}

/// The register after one more byte.
pub open spec fn crc_byte(c: u16, b: u8) -> u16 {
    crc_shifts(c ^ ((b as u16) << 8u16), 8)
}

/// The register after the bytes `bytes`, starting from `c`.
pub open spec fn crc_bytes(c: u16, bytes: Seq<u8>) -> u16
    decreases bytes.len(),
{
    if bytes.len() == 0 {
        c
    } else {
        crc_byte(crc_bytes(c, bytes.drop_last()), bytes.last())
    }
}

/// The CRC of a whole byte string.
pub open spec fn crc16_of(bytes: Seq<u8>) -> u16 {
    crc_bytes(CRC16_INIT, bytes)
}

/// Feed one byte into a running CRC.
pub fn update_crc16(crc: u16, byte: &u8) -> (r: u16)
    ensures
        r == crc_byte(crc, *byte),
{
    let mut c: u16 = crc ^ ((*byte as u16) << 8u16);
    let ghost c0 = c;
    let mut i: usize = 0;
    while i < 8
        invariant
            i <= 8,
            c0 == crc ^ ((*byte as u16) << 8u16),
            crc_shifts(c, (8 - i) as nat) == crc_shifts(c0, 8),
        decreases 8 - i,
    {
        if c & 0x8000u16 != 0 {
            c = (c << 1u16) ^ 0x1021u16;
        } else {
            c = c << 1u16;
        }
        i += 1;
    }
    c
}

/// Feed a byte string into a running CRC.
pub fn update_crc16_bytes(crc: u16, bytes: &[u8]) -> (r: u16)
    ensures
        r == crc_bytes(crc, bytes@),
{
    let mut c = crc;
    let mut i: usize = 0;
    while i < bytes.len()
        invariant
            i <= bytes.len(),
            c == crc_bytes(crc, bytes@.subrange(0, i as int)),
        decreases bytes.len() - i,
    {
        assert(bytes@.subrange(0, i + 1).drop_last() =~= bytes@.subrange(0, i as int));
        c = update_crc16(c, &bytes[i]);
        i += 1;
    }
    assert(bytes@.subrange(0, bytes.len() as int) =~= bytes@);
    c
}

/// CRC-16 of a byte string.
pub fn crc16(bytes: &[u8]) -> (r: u16)
    ensures
        r == crc16_of(bytes@),
{
    update_crc16_bytes(CRC16_INIT, bytes)
}

/// A CRC computed over two byte strings one after the other equals the CRC of
/// their concatenation: the register can be carried from one part to the next.
pub proof fn lemma_crc_bytes_append(c: u16, a: Seq<u8>, b: Seq<u8>)
    ensures
        crc_bytes(c, a + b) == crc_bytes(crc_bytes(c, a), b),
    decreases b.len(),
{
    if b.len() == 0 {
        assert(a + b =~= a);
    } else {
        assert((a + b).drop_last() =~= a + b.drop_last());
        assert((a + b).last() == b.last());
        lemma_crc_bytes_append(c, a, b.drop_last());
    }
}

/// `crc16(a ++ b)` is `crc16(a)` updated with the bytes of `b`.
pub proof fn lemma_crc16_concat(a: Seq<u8>, b: Seq<u8>)
    ensures
        crc16_of(a + b) == crc_bytes(crc16_of(a), b),
{
    lemma_crc_bytes_append(CRC16_INIT, a, b);
}

} // verus!
