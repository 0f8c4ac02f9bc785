//! Reading and writing of big- and little-endian integers inside byte
//! buffers. These are the only primitive reads the codecs perform; every
//! other structure is built from them.

use vstd::prelude::*;

verus! {

/// The big-endian 16-bit value stored at `b[i..i + 2]`.
pub open spec fn u16_be_at(b: Seq<u8>, i: int) -> int {
    b[i] * 0x100 + b[i + 1]
}

/// The big-endian 32-bit value stored at `b[i..i + 4]`.
pub open spec fn u32_be_at(b: Seq<u8>, i: int) -> int {
    b[i] * 0x1000000 + b[i + 1] * 0x10000 + b[i + 2] * 0x100 + b[i + 3]
}

/// The little-endian 32-bit value stored at `b[i..i + 4]`.
pub open spec fn u32_le_at(b: Seq<u8>, i: int) -> int {
    b[i] + b[i + 1] * 0x100 + b[i + 2] * 0x10000 + b[i + 3] * 0x1000000
}

/// The two bytes of `x` in big-endian order.
pub open spec fn u16_be_bytes(x: int) -> Seq<u8> {
    seq![(x / 0x100) as u8, (x % 0x100) as u8]
}

/// The four bytes of `x` in big-endian order.
pub open spec fn u32_be_bytes(x: int) -> Seq<u8> {
    seq![
        (x / 0x1000000) as u8,
        ((x / 0x10000) % 0x100) as u8,
        ((x / 0x100) % 0x100) as u8,
        (x % 0x100) as u8,
    ]
}

/// A 16-bit value split into big-endian bytes reads back as itself.
pub proof fn lemma_u16_be_bytes_at(b: Seq<u8>, i: int, x: u16)
    requires
        0 <= i,
        i + 2 <= b.len(),
        b[i] == u16_be_bytes(x as int)[0],
        b[i + 1] == u16_be_bytes(x as int)[1],
    ensures
        u16_be_at(b, i) == x,
{
    assert(x / 0x100 < 0x100 && (x / 0x100) * 0x100 + x % 0x100 == x) by (bit_vector);
}

/// A 32-bit value split into big-endian bytes reads back as itself.
pub proof fn lemma_u32_be_bytes_at(b: Seq<u8>, i: int, x: u32)
    requires
        0 <= i,
        i + 4 <= b.len(),
        b[i] == u32_be_bytes(x as int)[0],
        b[i + 1] == u32_be_bytes(x as int)[1],
        b[i + 2] == u32_be_bytes(x as int)[2],
        b[i + 3] == u32_be_bytes(x as int)[3],
    ensures
        u32_be_at(b, i) == x,
{
    assert(x / 0x1000000 < 0x100 && (x / 0x1000000) * 0x1000000 + ((x / 0x10000) % 0x100)
        * 0x10000 + ((x / 0x100) % 0x100) * 0x100 + x % 0x100 == x) by (bit_vector);
}

/// Reads the big-endian 16-bit value at `pos`.
pub fn read_u16_be(data: &Vec<u8>, pos: usize) -> (r: u16)
    requires
        pos + 2 <= data.len(),
    ensures
        r == u16_be_at(data@, pos as int),
{
    let hi = data[pos] as u16;
    let lo = data[pos + 1] as u16;
    hi * 0x100 + lo
}

/// Reads the big-endian 32-bit value at `pos`.
pub fn read_u32_be(data: &Vec<u8>, pos: usize) -> (r: u32)
    requires
        pos + 4 <= data.len(),
    ensures
        r == u32_be_at(data@, pos as int),
{
    let b0 = data[pos] as u32;
    let b1 = data[pos + 1] as u32;
    let b2 = data[pos + 2] as u32;
    let b3 = data[pos + 3] as u32;
    b0 * 0x1000000 + b1 * 0x10000 + b2 * 0x100 + b3
}

/// Reads the little-endian 32-bit value at `pos`.
pub fn read_u32_le(data: &Vec<u8>, pos: usize) -> (r: u32)
    requires
        pos + 4 <= data.len(),
    ensures
        r == u32_le_at(data@, pos as int),
{
    let b0 = data[pos] as u32;
    let b1 = data[pos + 1] as u32;
    let b2 = data[pos + 2] as u32;
    let b3 = data[pos + 3] as u32;
    b0 + b1 * 0x100 + b2 * 0x10000 + b3 * 0x1000000
}

/// Appends `x` to `out` as two big-endian bytes.
pub fn push_u16_be(out: &mut Vec<u8>, x: u16)
    ensures
        final(out)@ == old(out)@ + u16_be_bytes(x as int),
{
    proof {
        assert(x / 0x100 < 0x100) by (bit_vector);
    }
    out.push((x / 0x100) as u8);
    out.push((x % 0x100) as u8);
    proof {
        assert(out@ =~= old(out)@ + u16_be_bytes(x as int));
    }
}

/// Appends `x` to `out` as four big-endian bytes.
pub fn push_u32_be(out: &mut Vec<u8>, x: u32)
    ensures
        final(out)@ == old(out)@ + u32_be_bytes(x as int),
{
    proof {
        assert(x / 0x1000000 < 0x100) by (bit_vector);
    }
    out.push((x / 0x1000000) as u8);
    out.push(((x / 0x10000) % 0x100) as u8);
    out.push(((x / 0x100) % 0x100) as u8);
    out.push((x % 0x100) as u8);
    proof {
        assert(out@ =~= old(out)@ + u32_be_bytes(x as int));
    }
}

} // verus!
