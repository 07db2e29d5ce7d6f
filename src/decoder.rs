use vstd::prelude::*;

use crate::chunk::{
    chunk_len, chunk_pixels, chunks_at, next_pixel, next_table, read_chunk, replay, Chunk,
};
use crate::encoder::start_pixel;
use crate::header::{be32_at, end_marker, magic, read_be32, END_LEN, HEADER_LEN};
use crate::history::{empty_table, History};
use crate::pixel;
use crate::pixel::{rgba, wrap, Color};

verus! {

/// Why a byte stream could not be decoded.
#[derive(Debug, Clone, Copy, PartialEq, Eq, Structural)]
pub enum DecodeError {
    /// Fewer bytes than a header and an end marker take.
    TooShort,
    /// The stream does not start with `"qoif"`.
    BadMagic,
    /// The last eight bytes are not the end marker.
    BadEndMarker,
    /// The last chunk reaches into the end marker.
    Truncated,
}

/// A decoded image: the header's fields and the pixel bytes, `channels` bytes per
/// pixel where `channels` is 4, three otherwise.
pub struct Image {
    pub width: u32,
    pub height: u32,
    pub channels: u8,
    pub colorspace: u8,
    pub pixels: Vec<u8>,
}

/// The model of an [`Image`].
pub struct ImageView {
    pub width: u32,
    pub height: u32,
    pub channels: u8,
    pub colorspace: u8,
    pub pixels: Seq<u8>,
}

impl View for Image {
    type V = ImageView;

    open spec fn view(&self) -> ImageView {
        ImageView {
            width: self.width,
            height: self.height,
            channels: self.channels,
            colorspace: self.colorspace,
            pixels: self.pixels@,
        }
    }
}

/// The bytes of one pixel: alpha is kept only where there are four channels.
pub open spec fn pixel_bytes(c: Color, channels: u8) -> Seq<u8> {
    if channels == 4 {
        seq![c.r, c.g, c.b, c.a]
    } else {
        seq![c.r, c.g, c.b]
    }
}

/// The bytes of a sequence of pixels, one after the other.
pub open spec fn flatten(px: Seq<Color>, channels: u8) -> Seq<u8>
    decreases px.len(),
{
    if px.len() == 0 {
        Seq::empty()
    } else {
        flatten(px.drop_last(), channels) + pixel_bytes(px.last(), channels)
    }
}

/// What decoding `b` gives.
pub open spec fn decoding(b: Seq<u8>) -> Result<ImageView, DecodeError> {
    if b.len() < 22 {
        Err(DecodeError::TooShort)
    } else if b.subrange(0, 4) != magic() {
        Err(DecodeError::BadMagic)
    } else if b.subrange(b.len() - 8, b.len() as int) != end_marker() {
        Err(DecodeError::BadEndMarker)
    } else {
        match chunks_at(b, 14, b.len() - 8) {
            None => Err(DecodeError::Truncated),
            Some(cs) => Ok(
                ImageView {
                    width: be32_at(b, 4),
                    height: be32_at(b, 8),
                    channels: b[12],
                    colorspace: b[13],
                    pixels: flatten(replay(cs, start_pixel(), empty_table()), b[12]),
                },
            ),
        }
    }
}

proof fn lemma_wrap_add(x: int, y: int)
    ensures
        wrap(x + wrap(y)) == wrap(x + y),
        wrap(wrap(x) + wrap(y)) == wrap(x + y),
{
    vstd::arithmetic::div_mod::lemma_add_mod_noop(x, y, 256);
    vstd::arithmetic::div_mod::lemma_add_mod_noop(x, y % 256, 256);
    vstd::arithmetic::div_mod::lemma_mod_twice(y, 256);
}

fn apply_diff(prev: [u8; 4], dr: i8, dg: i8, db: i8) -> (p: [u8; 4])
    requires
        -2 <= dr <= 1 && -2 <= dg <= 1 && -2 <= db <= 1,
    ensures
        rgba(p) == next_pixel(Chunk::Diff { dr, dg, db }, rgba(prev), Seq::empty()),
{
    let biased = [(dr + 2) as u8, (dg + 2) as u8, (db + 2) as u8, 0];
    let d = pixel::sub(biased, [2, 2, 2, 0]);
    proof {
        lemma_wrap_add(prev[0] as int, dr as int);
        lemma_wrap_add(prev[1] as int, dg as int);
        lemma_wrap_add(prev[2] as int, db as int);
        assert(d[3] == 0);
    }
    pixel::add(prev, d)
}

proof fn lemma_luma_channel(p: int, d: int, e: int)
    ensures
        wrap(p + wrap(wrap(e) + wrap(d))) == wrap(p + d + e),
        wrap(p + wrap(wrap(d) + 0)) == wrap(p + d),
{
    lemma_wrap_add(e, d);
    lemma_wrap_add(p, e + d);
    lemma_wrap_add(d, 0);
    lemma_wrap_add(p, d);
}

fn apply_luma(prev: [u8; 4], dg: i8, drg: i8, dbg: i8) -> (p: [u8; 4])
    requires
        -32 <= dg <= 31 && -8 <= drg <= 7 && -8 <= dbg <= 7,
    ensures
        rgba(p) == next_pixel(Chunk::Luma { dg, drg, dbg }, rgba(prev), Seq::empty()),
{
    let biased = [(drg + 8) as u8, (dg + 32) as u8, (dbg + 8) as u8, 0];
    let l = pixel::sub(biased, [8, 32, 8, 0]);
    let l = pixel::add(l, [l[1], 0, l[1], 0]);
    let p = pixel::add(prev, l);
    proof {
        lemma_luma_channel(prev[0] as int, dg as int, drg as int);
        lemma_luma_channel(prev[1] as int, dg as int, 0);
        lemma_luma_channel(prev[2] as int, dg as int, dbg as int);
    }
    p
}

/// The previous pixel once the chunk `c`, which is no run, has been read.
fn step_pixel(c: &Chunk, prev: [u8; 4], seen: &History) -> (p: [u8; 4])
    requires
        seen.wf(),
        seen@.len() == 64,
        c is Index ==> c->slot < 64,
        c is Diff ==> -2 <= c->Diff_dr <= 1 && -2 <= c->Diff_dg <= 1 && -2 <= c->Diff_db <= 1,
        c is Luma ==> -32 <= c->Luma_dg <= 31 && -8 <= c->drg <= 7 && -8 <= c->dbg <= 7,
    ensures
        rgba(p) == next_pixel(*c, rgba(prev), seen@),
{
    match *c {
        Chunk::Run { .. } => prev,
        Chunk::Index { slot } => seen.lookup(slot),
        Chunk::Diff { dr, dg, db } => apply_diff(prev, dr, dg, db),
        Chunk::Luma { dg, drg, dbg } => apply_luma(prev, dg, drg, dbg),
        Chunk::Rgb { r, g, b } => [r, g, b, prev[3]],
        Chunk::Rgba { r, g, b, a } => [r, g, b, a],
    }
}

/// Appends the bytes of pixel `p`.
fn push_pixel(out: &mut Vec<u8>, p: [u8; 4], channels: u8)
    ensures
        final(out)@ == old(out)@ + pixel_bytes(rgba(p), channels),
{
    out.push(p[0]);
    out.push(p[1]);
    out.push(p[2]);
    if channels == 4 {
        out.push(p[3]);
    }
    assert(final(out)@ =~= old(out)@ + pixel_bytes(rgba(p), channels));
}

} // verus!
verus! {

/// Whether the last eight bytes are the end marker.
fn ends_with_marker(b: &[u8]) -> (r: bool)
    requires
        b@.len() >= 8,
    ensures
        r == (b@.subrange(b@.len() - 8, b@.len() as int) == end_marker()),
{
    let n = b.len();
    let r = b[n - 8] == 0 && b[n - 7] == 0 && b[n - 6] == 0 && b[n - 5] == 0 && b[n - 4] == 0
        && b[n - 3] == 0 && b[n - 2] == 0 && b[n - 1] == 1;
    proof {
        let tail = b@.subrange(n - 8, n as int);
        if r {
            assert(tail =~= end_marker());
        } else if tail == end_marker() {
            assert(tail[7] == 1 && tail[0] == 0);
        }
    }
    r
}

/// Decodes a byte stream: the header's fields, and the pixels of the chunks
/// between header and end marker.
pub fn decode(bytes: &[u8]) -> (r: Result<Image, DecodeError>)
    ensures
        match r {
            Ok(img) => decoding(bytes@) == Ok::<ImageView, DecodeError>(img@),
            Err(e) => decoding(bytes@) == Err::<ImageView, DecodeError>(e),
        },
{
    if bytes.len() < HEADER_LEN + END_LEN {
        return Err(DecodeError::TooShort);
    }
    let is_magic = bytes[0] == 0x71 && bytes[1] == 0x6f && bytes[2] == 0x69 && bytes[3] == 0x66;
    proof {
        let head = bytes@.subrange(0, 4);
        if is_magic {
            assert(head =~= magic());
        } else if head == magic() {
            assert(head[0] == 0x71 && head[1] == 0x6f && head[2] == 0x69 && head[3] == 0x66);
        }
    }
    if !is_magic {
        return Err(DecodeError::BadMagic);
    }
    if !ends_with_marker(bytes) {
        return Err(DecodeError::BadEndMarker);
    }
    let width = read_be32(bytes, 4);
    let height = read_be32(bytes, 8);
    let channels = bytes[12];
    let colorspace = bytes[13];
    let end = bytes.len() - END_LEN;
    let ghost b = bytes@;
    assert(b.subrange(0, 4) == magic());
    assert(b.subrange(b.len() - 8, b.len() as int) == end_marker());
    let ghost all = chunks_at(b, 14, end as int);
    let mut pos: usize = HEADER_LEN;
    let mut prev: [u8; 4] = [0, 0, 0, 255];
    let mut seen = History::new();
    let mut out: Vec<u8> = Vec::new();
    let ghost mut emitted: Seq<Color> = Seq::empty();
    while pos < end
        invariant
            b == bytes@,
            HEADER_LEN <= pos <= end,
            b.len() >= 22,
            b.subrange(0, 4) == magic(),
            b.subrange(b.len() - 8, b.len() as int) == end_marker(),
            end == b.len() - 8,
            all == chunks_at(b, 14, end as int),
            seen.wf(),
            seen@.len() == 64,
            out@ == flatten(emitted, channels),
            all is Some <==> chunks_at(b, pos as int, end as int) is Some,
            all is Some ==> replay(all.unwrap(), start_pixel(), empty_table()) == emitted + replay(
                chunks_at(b, pos as int, end as int).unwrap(),
                rgba(prev),
                seen@,
            ),
        decreases end - pos,
    {
        match read_chunk(bytes, pos, end) {
            None => {
                assert(chunks_at(b, pos as int, end as int) is None);
                assert(all is None);
                return Err(DecodeError::Truncated);
            },
            Some((c, next)) => {
                let ghost rest = chunks_at(b, next as int, end as int);
                let ghost (prev_before, table_before) = (rgba(prev), seen@);
                assert(chunks_at(b, pos as int, end as int) == match rest {
                    None => None,
                    Some(rs) => Some(seq![c] + rs),
                });
                if let Chunk::Run { count } = c {
                    let ghost before = emitted;
                    let mut j: u8 = 0;
                    while j < count
                        invariant
                            j <= count,
                            out@ == flatten(emitted, channels),
                            emitted == before + Seq::new(j as nat, |x: int| prev_before),
                            rgba(prev) == prev_before,
                        decreases count - j,
                    {
                        push_pixel(&mut out, prev, channels);
                        proof {
                            assert(emitted.push(prev_before).drop_last() =~= emitted);
                            emitted = emitted.push(prev_before);
                            assert(emitted =~= before + Seq::new((j + 1) as nat, |x: int| prev_before));
                        }
                        j += 1;
                    }
                } else {
                    prev = step_pixel(&c, prev, &seen);
                    seen.update(prev);
                    push_pixel(&mut out, prev, channels);
                    proof {
                        assert(emitted.push(rgba(prev)).drop_last() =~= emitted);
                        emitted = emitted.push(rgba(prev));
                    }
                }
                proof {
                    assert(next_pixel(c, prev_before, table_before) == rgba(prev));
                    assert(next_table(c, prev_before, table_before) == seen@);
                    if let Some(rs) = rest {
                        let cs = seq![c] + rs;
                        assert(cs[0] == c);
                        assert(cs.drop_first() =~= rs);
                        assert(emitted =~= (emitted.subrange(0, 0) + emitted));
                    }
                }
                pos = next;
            },
        }
    }
    assert(chunks_at(b, end as int, end as int) == Some(Seq::<Chunk>::empty()));
    assert(emitted + Seq::<Color>::empty() =~= emitted);
    Ok(Image { width, height, channels, colorspace, pixels: out })
}

} // verus!
