//! Single-bit flags within a byte, and big-endian integers.
use vstd::prelude::*;

verus! {

/// Whether bit `idx` (0 = least significant) of `byte` is set.
pub open spec fn bit_of(byte: u8, idx: u8) -> bool {
    (byte >> idx) & 1u8 == 1u8
}

/// Reads bit `bit_idx` of `byte`.
pub fn get_bit_flag(byte: u8, bit_idx: u8) -> (r: bool)
    requires
        bit_idx <= 7,
    ensures
        r == bit_of(byte, bit_idx),
{
    (byte >> bit_idx) & 1 == 1
}

/// The byte that has only bit `idx` set when `flag` holds, and no bit otherwise.
pub open spec fn flag_byte(flag: bool, idx: u8) -> u8 {
    if flag {
        1u8 << idx
    } else {
        0u8
    }
}

/// Writes `flag` as bit `bit_idx` of an otherwise empty byte.
pub fn as_bit_flag(flag: bool, bit_idx: u8) -> (r: u8)
    requires
        bit_idx <= 7,
    ensures
        r == flag_byte(flag, bit_idx),
{
    if flag {
        1u8 << bit_idx
    } else {
        0
    }
}

/// The value of two bytes read as a big-endian 16-bit integer.
pub open spec fn be16(hi: u8, lo: u8) -> u16 {
    (hi as int * 256 + lo as int) as u16
}

/// Reads the big-endian 16-bit integer at `pos`.
pub fn read_u16(buf: &[u8], pos: usize) -> (r: u16)
    requires
        pos + 2 <= buf@.len(),
    ensures
        r == be16(buf@[pos as int], buf@[pos + 1]),
{
    buf[pos] as u16 * 256 + buf[pos + 1] as u16
}

/// The two big-endian bytes of a 16-bit integer.
pub open spec fn be16_bytes(v: u16) -> Seq<u8> {
    seq![(v / 256) as u8, (v % 256) as u8]
}

/// Appends the big-endian bytes of `v`.
pub fn push_u16(out: &mut Vec<u8>, v: u16)
    ensures
        final(out)@ == old(out)@ + be16_bytes(v),
{
    out.push((v / 256) as u8);
    out.push((v % 256) as u8);
    assert(out@ =~= old(out)@ + be16_bytes(v));
}

/// The value of four bytes read as a big-endian 32-bit integer.
pub open spec fn be32(b0: u8, b1: u8, b2: u8, b3: u8) -> u32 {
    (((b0 as int * 256 + b1 as int) * 256 + b2 as int) * 256 + b3 as int) as u32
}

/// Reads the big-endian 32-bit integer at `pos`.
pub fn read_u32(buf: &[u8], pos: usize) -> (r: u32)
    requires
        pos + 4 <= buf@.len(),
    ensures
        r == be32(buf@[pos as int], buf@[pos + 1], buf@[pos + 2], buf@[pos + 3]),
{
    assert(buf@.len() == buf.len());
    let hi = read_u16(buf, pos) as u32;
    let lo = read_u16(buf, pos + 2) as u32;
    hi * 65536 + lo
}

/// The four big-endian bytes of a 32-bit integer.
pub open spec fn be32_bytes(v: u32) -> Seq<u8> {
    seq![
        (v / 0x1000000) as u8,
        ((v / 0x10000) % 256) as u8,
        ((v / 256) % 256) as u8,
        (v % 256) as u8,
    ]
}

/// Appends the big-endian bytes of `v`.
pub fn push_u32(out: &mut Vec<u8>, v: u32)
    ensures
        final(out)@ == old(out)@ + be32_bytes(v),
{
    out.push((v / 0x1000000) as u8);
    out.push(((v / 0x10000) % 256) as u8);
    out.push(((v / 256) % 256) as u8);
    out.push((v % 256) as u8);
    assert(out@ =~= old(out)@ + be32_bytes(v));
}

/// Big-endian bytes read back give the integer they were written from.
pub proof fn lemma_be_round_trip(v: u16, w: u32)
    ensures
        be16(be16_bytes(v)[0], be16_bytes(v)[1]) == v,
        be32(be32_bytes(w)[0], be32_bytes(w)[1], be32_bytes(w)[2], be32_bytes(w)[3]) == w,
{
    let b = be32_bytes(w);
    assert(b[0] as int == w / 0x1000000);
    assert(((b[0] as int * 256 + b[1] as int) * 256 + b[2] as int) * 256 + b[3] as int == w)
        by (nonlinear_arith)
        requires
            b[0] as int == w / 0x1000000,
            b[1] as int == (w / 0x10000) % 256,
            b[2] as int == (w / 256) % 256,
            b[3] as int == w % 256,
            0 <= w < 0x100000000,
    ;
}

} // verus!
