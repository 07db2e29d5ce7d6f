use vstd::prelude::*;

use crate::history::remember;
use crate::pixel::{wrap, Color};

verus! {

/// One self-delimiting unit of the chunk stream.
pub enum Chunk {
    /// `count` repeats of the previous pixel.
    Run { count: u8 },
    /// The pixel held in the history table at `slot`.
    Index { slot: u8 },
    /// Small signed deltas on red, green and blue; alpha unchanged.
    Diff { dr: i8, dg: i8, db: i8 },
    /// A green delta, and the red and blue deltas relative to it; alpha unchanged.
    Luma { dg: i8, drg: i8, dbg: i8 },
    /// New red, green and blue; alpha unchanged.
    Rgb { r: u8, g: u8, b: u8 },
    /// A full pixel.
    Rgba { r: u8, g: u8, b: u8, a: u8 },
}

/// Longest run that one chunk holds.
pub const MAX_RUN: u8 = 62;

/// The fields of the chunk lie in the ranges its bit layout can hold.
pub open spec fn chunk_wf(c: Chunk) -> bool {
    match c {
        Chunk::Run { count } => 1 <= count <= 62,
        Chunk::Index { slot } => slot < 64,
        Chunk::Diff { dr, dg, db } => -2 <= dr <= 1 && -2 <= dg <= 1 && -2 <= db <= 1,
        Chunk::Luma { dg, drg, dbg } => -32 <= dg <= 31 && -8 <= drg <= 7 && -8 <= dbg <= 7,
        _ => true,
    }
}

/// The bytes of one chunk.
pub open spec fn chunk_bytes(c: Chunk) -> Seq<u8> {
    match c {
        Chunk::Run { count } => seq![(0xc0 + count - 1) as u8],
        Chunk::Index { slot } => seq![slot],
        Chunk::Diff { dr, dg, db } => seq![(0x40 + (dr + 2) * 16 + (dg + 2) * 4 + (db + 2)) as u8],
        Chunk::Luma { dg, drg, dbg } => seq![(0x80 + dg + 32) as u8, ((drg + 8) * 16 + dbg + 8) as u8],
        Chunk::Rgb { r, g, b } => seq![0xfeu8, r, g, b],
        Chunk::Rgba { r, g, b, a } => seq![0xffu8, r, g, b, a],
    }
}

/// The bytes of a sequence of chunks, one after the other.
pub open spec fn chunks_bytes(cs: Seq<Chunk>) -> Seq<u8>
    decreases cs.len(),
{
    if cs.len() == 0 {
        Seq::empty()
    } else {
        chunk_bytes(cs[0]) + chunks_bytes(cs.drop_first())
    }
}

/// How many bytes a chunk takes, from its first byte.
pub open spec fn chunk_len(first: u8) -> int {
    if first == 0xff {
        5
    } else if first == 0xfe {
        4
    } else if 0x80 <= first < 0xc0 {
        2
    } else {
        1
    }
}

/// The chunk that starts at `pos`, or `None` where it would reach past `end`.
pub open spec fn chunk_at(b: Seq<u8>, pos: int, end: int) -> Option<Chunk> {
    let t = b[pos];
    if pos + chunk_len(t) > end {
        None
    } else if t == 0xff {
        Some(Chunk::Rgba { r: b[pos + 1], g: b[pos + 2], b: b[pos + 3], a: b[pos + 4] })
    } else if t == 0xfe {
        Some(Chunk::Rgb { r: b[pos + 1], g: b[pos + 2], b: b[pos + 3] })
    } else if t >= 0xc0 {
        Some(Chunk::Run { count: (t - 0xc0 + 1) as u8 })
    } else if t >= 0x80 {
        Some(
            Chunk::Luma {
                dg: (t - 0x80 - 32) as i8,
                drg: (b[pos + 1] / 16 - 8) as i8,
                dbg: (b[pos + 1] % 16 - 8) as i8,
            },
        )
    } else if t >= 0x40 {
        Some(
            Chunk::Diff {
                dr: ((t - 0x40) / 16 - 2) as i8,
                dg: ((t - 0x40) / 4 % 4 - 2) as i8,
                db: ((t - 0x40) % 4 - 2) as i8,
            },
        )
    } else {
        Some(Chunk::Index { slot: t })
    }
}

/// All chunks from `pos` up to `end`, or `None` where the last one is cut short.
pub open spec fn chunks_at(b: Seq<u8>, pos: int, end: int) -> Option<Seq<Chunk>>
    decreases end - pos,
{
    if pos < 0 || end > b.len() || pos >= end {
        Some(Seq::empty())
    } else {
        match chunk_at(b, pos, end) {
            None => None,
            Some(c) => match chunks_at(b, pos + chunk_len(b[pos]), end) {
                None => None,
                Some(rest) => Some(seq![c] + rest),
            },
        }
    }
}

/// The previous pixel once chunk `c` has been read.
pub open spec fn next_pixel(c: Chunk, prev: Color, table: Seq<Color>) -> Color {
    match c {
        Chunk::Run { .. } => prev,
        Chunk::Index { slot } => table[slot as int],
        Chunk::Diff { dr, dg, db } => Color {
            r: wrap(prev.r + dr),
            g: wrap(prev.g + dg),
            b: wrap(prev.b + db),
            a: prev.a,
        },
        Chunk::Luma { dg, drg, dbg } => Color {
            r: wrap(prev.r + dg + drg),
            g: wrap(prev.g + dg),
            b: wrap(prev.b + dg + dbg),
            a: prev.a,
        },
        Chunk::Rgb { r, g, b } => Color { r, g, b, a: prev.a },
        Chunk::Rgba { r, g, b, a } => Color { r, g, b, a },
    }
}

/// The history table once chunk `c` has been read: a run leaves it as it is.
pub open spec fn next_table(c: Chunk, prev: Color, table: Seq<Color>) -> Seq<Color> {
    match c {
        Chunk::Run { .. } => table,
        _ => remember(table, next_pixel(c, prev, table)),
    }
}

/// The pixels that chunk `c` stands for.
pub open spec fn chunk_pixels(c: Chunk, prev: Color, table: Seq<Color>) -> Seq<Color> {
    match c {
        Chunk::Run { count } => Seq::new(count as nat, |i: int| prev),
        _ => seq![next_pixel(c, prev, table)],
    }
}

/// The pixels that a sequence of chunks stands for, read from the given state.
pub open spec fn replay(cs: Seq<Chunk>, prev: Color, table: Seq<Color>) -> Seq<Color>
    decreases cs.len(),
{
    if cs.len() == 0 {
        Seq::empty()
    } else {
        chunk_pixels(cs[0], prev, table) + replay(
            cs.drop_first(),
            next_pixel(cs[0], prev, table),
            next_table(cs[0], prev, table),
        )
    }
}

/// Appends the bytes of `c` to `out`.
pub fn write_chunk(out: &mut Vec<u8>, c: &Chunk)
    requires
        chunk_wf(*c),
    ensures
        final(out)@ == old(out)@ + chunk_bytes(*c),
{
    match *c {
        Chunk::Run { count } => {
            out.push(0xc0 | (count - 1));
            assert((0xc0u8 | (count - 1) as u8) == (0xc0 + count - 1) as u8) by (bit_vector)
                requires 1 <= count <= 62;
        },
        Chunk::Index { slot } => {
            out.push(slot);
        },
        Chunk::Diff { dr, dg, db } => {
            out.push(0x40 + (dr + 2) as u8 * 16 + (dg + 2) as u8 * 4 + (db + 2) as u8);
        },
        Chunk::Luma { dg, drg, dbg } => {
            out.push(0x80 + (dg + 32) as u8);
            out.push((drg + 8) as u8 * 16 + (dbg + 8) as u8);
        },
        Chunk::Rgb { r, g, b } => {
            out.push(0xfe);
            out.push(r);
            out.push(g);
            out.push(b);
        },
        Chunk::Rgba { r, g, b, a } => {
            out.push(0xff);
            out.push(r);
            out.push(g);
            out.push(b);
            out.push(a);
        },
    }
    assert(final(out)@ =~= old(out)@ + chunk_bytes(*c));
}

/// Reads the chunk that starts at `pos`; `None` where it would reach past `end`.
pub fn read_chunk(b: &[u8], pos: usize, end: usize) -> (r: Option<(Chunk, usize)>)
    requires
        pos < end <= b@.len(),
    ensures
        match r {
            None => chunk_at(b@, pos as int, end as int) is None,
            Some((c, next)) => chunk_at(b@, pos as int, end as int) == Some(c) && next == pos
                + chunk_len(b@[pos as int]),
        },
{
    let t = b[pos];
    let len: usize = if t == 0xff {
        5
    } else if t == 0xfe {
        4
    } else if t & 0xc0 == 0x80 {
        2
    } else {
        1
    };
    assert((t & 0xc0 == 0x80) == (0x80 <= t < 0xc0)) by (bit_vector);
    if len > end - pos {
        return None;
    }
    proof {
        let n = if pos + 1 < b@.len() { b@[pos as int + 1] } else { 0 };
        assert(t >= 0xc0 ==> (t & 0x3f) == t - 0xc0 && t - 0xc0 < 0x40) by (bit_vector);
        assert(0x80 <= t < 0xc0 ==> (t & 0x3f) == t - 0x80 && t - 0x80 < 0x40) by (bit_vector);
        assert((n >> 4) == n / 16 && (n & 0x0f) == n % 16 && n / 16 < 16) by (bit_vector);
        assert(0x40 <= t < 0x80 ==> (t >> 4 & 0x03) == (t - 0x40) / 16 && (t >> 2 & 0x03) == (t
            - 0x40) / 4 % 4 && (t & 0x03) == (t - 0x40) % 4 && (t >> 4 & 0x03) < 4) by (bit_vector);
    }
    let c = if t == 0xff {
        Chunk::Rgba { r: b[pos + 1], g: b[pos + 2], b: b[pos + 3], a: b[pos + 4] }
    } else if t == 0xfe {
        Chunk::Rgb { r: b[pos + 1], g: b[pos + 2], b: b[pos + 3] }
    } else if t >= 0xc0 {
        Chunk::Run { count: (t & 0x3f) + 1 }
    } else if t >= 0x80 {
        let next = b[pos + 1];
        Chunk::Luma {
            dg: (t & 0x3f) as i8 - 32,
            drg: (next >> 4) as i8 - 8,
            dbg: (next & 0x0f) as i8 - 8,
        }
    } else if t >= 0x40 {
        Chunk::Diff {
            dr: (t >> 4 & 0x03) as i8 - 2,
            dg: (t >> 2 & 0x03) as i8 - 2,
            db: (t & 0x03) as i8 - 2,
        }
    } else {
        Chunk::Index { slot: t }
    };
    Some((c, pos + len))
}

} // verus!
