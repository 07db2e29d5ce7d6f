use vstd::prelude::*;

verus! {

/// Length of the header in bytes.
pub const HEADER_LEN: usize = 14;

/// Length of the end marker in bytes.
pub const END_LEN: usize = 8;

/// The four magic bytes `"qoif"`.
pub open spec fn magic() -> Seq<u8> {
    seq![0x71u8, 0x6fu8, 0x69u8, 0x66u8]
}

/// The end marker that closes every stream.
pub open spec fn end_marker() -> Seq<u8> {
    seq![0u8, 0u8, 0u8, 0u8, 0u8, 0u8, 0u8, 1u8]
}

/// `x` as four big-endian bytes.
pub open spec fn be32(x: u32) -> Seq<u8> {
    seq![(x / 0x100_0000) as u8, (x / 0x1_0000 % 256) as u8, (x / 0x100 % 256) as u8, (x % 256) as u8]
}

/// The big-endian integer in the four bytes from `pos`.
pub open spec fn be32_at(b: Seq<u8>, pos: int) -> u32 {
    (b[pos] * 0x100_0000 + b[pos + 1] * 0x1_0000 + b[pos + 2] * 0x100 + b[pos + 3]) as u32
}

/// The 14 header bytes: magic, width, height, channel count, colorspace.
pub open spec fn header_bytes(width: u32, height: u32, channels: u8, colorspace: u8) -> Seq<u8> {
    magic() + be32(width) + be32(height) + seq![channels, colorspace]
}

proof fn lemma_be32(x: u32)
    ensures
        be32_at(be32(x), 0) == x,
{
    let b = be32(x);
    assert(b[0] == x / 0x100_0000);
    assert(x == (x / 0x100_0000) * 0x100_0000 + (x / 0x1_0000 % 256) * 0x1_0000 + (x / 0x100 % 256)
        * 0x100 + x % 256) by (nonlinear_arith);
}

/// Reading a header gives back the values it was written from.
pub proof fn lemma_header(width: u32, height: u32, channels: u8, colorspace: u8, rest: Seq<u8>)
    ensures
        ({
            let b = header_bytes(width, height, channels, colorspace) + rest;
            &&& b.subrange(0, 4) == magic()
            &&& be32_at(b, 4) == width
            &&& be32_at(b, 8) == height
            &&& b[12] == channels
            &&& b[13] == colorspace
        }),
{
    let b = header_bytes(width, height, channels, colorspace) + rest;
    lemma_be32(width);
    lemma_be32(height);
    assert(b.subrange(0, 4) =~= magic());
    assert(b.subrange(4, 8) =~= be32(width));
    assert(b.subrange(8, 12) =~= be32(height));
    assert(be32_at(b, 4) == be32_at(be32(width), 0));
    assert(be32_at(b, 8) == be32_at(be32(height), 0));
}

/// Appends the header to `out`.
pub fn write_header(out: &mut Vec<u8>, width: u32, height: u32, channels: u8, colorspace: u8)
    ensures
        final(out)@ == old(out)@ + header_bytes(width, height, channels, colorspace),
{
    out.push(0x71);
    out.push(0x6f);
    out.push(0x69);
    out.push(0x66);
    write_be32(out, width);
    write_be32(out, height);
    out.push(channels);
    out.push(colorspace);
    assert(final(out)@ =~= old(out)@ + header_bytes(width, height, channels, colorspace));
}

fn write_be32(out: &mut Vec<u8>, x: u32)
    ensures
        final(out)@ == old(out)@ + be32(x),
{
    out.push((x / 0x100_0000) as u8);
    out.push((x / 0x1_0000 % 256) as u8);
    out.push((x / 0x100 % 256) as u8);
    out.push((x % 256) as u8);
    assert(final(out)@ =~= old(out)@ + be32(x));
}

/// Reads the big-endian integer in the four bytes from `pos`.
pub fn read_be32(b: &[u8], pos: usize) -> (r: u32)
    requires
        pos + 4 <= b@.len(),
    ensures
        r == be32_at(b@, pos as int),
{
    b[pos] as u32 * 0x100_0000 + b[pos + 1] as u32 * 0x1_0000 + b[pos + 2] as u32 * 0x100
        + b[pos + 3] as u32
}

} // verus!
