use vstd::prelude::*;

use crate::chunk::{
    chunk_at, chunk_bytes, chunk_len, chunk_pixels, chunk_wf, chunks_at, chunks_bytes,
    next_pixel, next_table, replay, Chunk,
};
use crate::decoder::{decoding, flatten, pixel_bytes, DecodeError, ImageView};
use crate::encoder::{
    chunks_from, encoding, image_chunks, lemma_pick_wf, lemma_run_chunks_wf, pick, pixel_at,
    pixels_of, run_chunks, start_pixel,
};
use crate::header::{end_marker, header_bytes, lemma_header, magic};
use crate::history::{empty_table, remember};
use crate::pixel::{hash, signed, wrap, Color};

verus! {

/// Every chunk of the sequence lies in the ranges its bit layout can hold.
pub open spec fn all_wf(cs: Seq<Chunk>) -> bool {
    forall|j: int| 0 <= j < cs.len() ==> chunk_wf(#[trigger] cs[j])
}

proof fn lemma_diff_byte(t: u8, dr: i8, dg: i8, db: i8)
    requires
        -2 <= dr <= 1 && -2 <= dg <= 1 && -2 <= db <= 1,
        t == (0x40 + (dr + 2) * 16 + (dg + 2) * 4 + (db + 2)) as u8,
    ensures
        0x40 <= t < 0x80,
        (t - 0x40) / 16 - 2 == dr,
        (t - 0x40) / 4 % 4 - 2 == dg,
        (t - 0x40) % 4 - 2 == db,
{
    let v = 0x40 + (dr + 2) * 16 + (dg + 2) * 4 + (db + 2);
    assert(0x40 <= v < 0x80);
    assert((v - 0x40) / 16 == dr + 2 && (v - 0x40) / 4 % 4 == dg + 2 && (v - 0x40) % 4 == db + 2)
        by (nonlinear_arith)
        requires
            v == 0x40 + (dr + 2) * 16 + (dg + 2) * 4 + (db + 2),
            0 <= dr + 2 < 4,
            0 <= dg + 2 < 4,
            0 <= db + 2 < 4,
    ;
}

#[verifier::spinoff_prover]
proof fn lemma_chunk_read_back(b: Seq<u8>, pos: int, end: int, c: Chunk)
    requires
        chunk_wf(c),
        0 <= pos,
        pos + chunk_bytes(c).len() <= end <= b.len(),
        b.subrange(pos, pos + chunk_bytes(c).len()) == chunk_bytes(c),
    ensures
        chunk_bytes(c).len() >= 1,
        chunk_len(b[pos]) == chunk_bytes(c).len(),
        chunk_at(b, pos, end) == Some(c),
{
    let cb = chunk_bytes(c);
    assert forall|j: int| 0 <= j < cb.len() implies b[pos + j] == cb[j] by {
        assert(b.subrange(pos, pos + cb.len())[j] == b[pos + j]);
    }
    match c {
        Chunk::Diff { dr, dg, db } => {
            assert(b[pos] == cb[0]);
            lemma_diff_byte(b[pos], dr, dg, db);
            assert(chunk_len(b[pos]) == 1);
            assert(cb.len() == 1);
            let t = b[pos];
            assert(((t - 0x40) / 16 - 2) as i8 == dr);
            assert(chunk_at(b, pos, end) == Some(c));
        },
        Chunk::Luma { dg, drg, dbg } => {
            let u = b[pos + 1] as int;
            assert(u == (drg + 8) * 16 + dbg + 8);
            assert(u / 16 == drg + 8 && u % 16 == dbg + 8) by (nonlinear_arith)
                requires
                    u == (drg + 8) * 16 + dbg + 8,
                    0 <= drg + 8 < 16,
                    0 <= dbg + 8 < 16,
            ;
        },
        Chunk::Run { count } => {
            assert(b[pos] == cb[0]);
            assert(chunk_at(b, pos, end) == Some(c));
        },
        Chunk::Index { slot } => {
            assert(b[pos] == cb[0]);
            assert(chunk_at(b, pos, end) == Some(c));
        },
        Chunk::Rgb { .. } => {
            assert(b[pos] == cb[0] && b[pos + 1] == cb[1] && b[pos + 2] == cb[2] && b[pos + 3] == cb[3]);
            assert(chunk_at(b, pos, end) == Some(c));
        },
        Chunk::Rgba { .. } => {
            assert(b[pos] == cb[0] && b[pos + 1] == cb[1] && b[pos + 2] == cb[2] && b[pos + 3] == cb[3]
                && b[pos + 4] == cb[4]);
            assert(chunk_at(b, pos, end) == Some(c));
        },
    }
}

/// Reading back the bytes of well-formed chunks gives the chunks.
pub proof fn lemma_chunks_read_back(b: Seq<u8>, pos: int, end: int, cs: Seq<Chunk>)
    requires
        all_wf(cs),
        0 <= pos,
        end <= b.len(),
        pos + chunks_bytes(cs).len() == end,
        b.subrange(pos, end) == chunks_bytes(cs),
    ensures
        chunks_at(b, pos, end) == Some(cs),
    decreases cs.len(),
{
    if cs.len() == 0 {
        assert(chunks_bytes(cs).len() == 0);
        assert(cs =~= Seq::<Chunk>::empty());
    } else {
        let c = cs[0];
        let cb = chunk_bytes(c);
        let rest = cs.drop_first();
        let rb = chunks_bytes(rest);
        assert(chunks_bytes(cs) == cb + rb);
        assert(b.subrange(pos, pos + cb.len()) =~= cb) by {
            assert(b.subrange(pos, pos + cb.len()) =~= b.subrange(pos, end).subrange(0, cb.len() as int));
        }
        lemma_chunk_read_back(b, pos, end, c);
        assert(b.subrange(pos + cb.len(), end) =~= rb) by {
            assert(b.subrange(pos + cb.len(), end) =~= b.subrange(pos, end).subrange(
                cb.len() as int,
                end - pos,
            ));
        }
        assert(all_wf(rest)) by {
            assert forall|j: int| 0 <= j < rest.len() implies chunk_wf(#[trigger] rest[j]) by {
                assert(rest[j] == cs[j + 1]);
            }
        }
        lemma_chunks_read_back(b, pos + cb.len(), end, rest);
        assert(seq![c] + rest =~= cs);
    }
}

proof fn lemma_image_chunks_wf(px: Seq<Color>, i: int, prev: Color, table: Seq<Color>, run: nat)
    requires
        table.len() == 64,
    ensures
        all_wf(chunks_from(px, i, prev, table, run)),
    decreases px.len() - i,
{
    lemma_run_chunks_wf(run);
    if i < 0 || i >= px.len() {
    } else if px[i] == prev {
        lemma_image_chunks_wf(px, i + 1, prev, table, run + 1);
    } else {
        lemma_pick_wf(prev, px[i], table);
        lemma_image_chunks_wf(px, i + 1, px[i], remember(table, px[i]), 0);
        let a = run_chunks(run);
        let c = pick(prev, px[i], table);
        let r = chunks_from(px, i + 1, px[i], remember(table, px[i]), 0);
        let all = a + seq![c] + r;
        assert forall|j: int| 0 <= j < all.len() implies chunk_wf(#[trigger] all[j]) by {
            if j < a.len() {
                assert(all[j] == a[j]);
            } else if j == a.len() {
                assert(all[j] == c);
            } else {
                assert(all[j] == r[j - a.len() - 1]);
            }
        }
    }
}

proof fn lemma_wrap_shift(z: int, t: int)
    ensures
        wrap(z + 256 * t) == wrap(z),
{
    vstd::arithmetic::div_mod::lemma_mod_multiples_vanish(t, z, 256);
}

spec fn signed_shift(x: int) -> int {
    if wrap(x) >= 128 {
        -(x / 256) - 1
    } else {
        -(x / 256)
    }
}

proof fn lemma_signed_congruent(x: int)
    ensures
        signed(x) == x + 256 * signed_shift(x),
{
    vstd::arithmetic::div_mod::lemma_fundamental_div_mod(x, 256);
}

proof fn lemma_wrap_signed(a: int, x: int, y: int)
    ensures
        wrap(a + signed(x)) == wrap(a + x),
        wrap(a + signed(x) + signed(y)) == wrap(a + x + y),
{
    lemma_signed_congruent(x);
    lemma_signed_congruent(y);
    let s = signed_shift(x);
    let t = signed_shift(y);
    lemma_wrap_shift(a + x, s);
    lemma_wrap_shift(a + x + y, s + t);
    assert(a + signed(x) + signed(y) == a + x + y + 256 * (s + t));
}

#[verifier::spinoff_prover]
proof fn lemma_diff_reads_back(prev: Color, curr: Color)
    requires
        curr.a == prev.a,
        -2 <= signed(curr.r - prev.r) <= 1,
        -2 <= signed(curr.g - prev.g) <= 1,
        -2 <= signed(curr.b - prev.b) <= 1,
    ensures
        next_pixel(
            Chunk::Diff {
                dr: signed(curr.r - prev.r) as i8,
                dg: signed(curr.g - prev.g) as i8,
                db: signed(curr.b - prev.b) as i8,
            },
            prev,
            Seq::empty(),
        ) == curr,
{
    lemma_wrap_signed(prev.r as int, curr.r - prev.r, 0);
    lemma_wrap_signed(prev.g as int, curr.g - prev.g, 0);
    lemma_wrap_signed(prev.b as int, curr.b - prev.b, 0);
}

proof fn lemma_channel_back(p: u8, q: u8, g: int)
    ensures
        wrap(p + signed(g) + signed((q - p) - g)) == q,
        wrap(p + signed(q - p)) == q,
{
    lemma_wrap_signed(p as int, g, (q - p) - g);
    lemma_wrap_signed(p as int, q - p, 0);
}

#[verifier::spinoff_prover]
proof fn lemma_luma_reads_back(prev: Color, curr: Color)
    requires
        curr.a == prev.a,
        -32 <= signed(curr.g - prev.g) <= 31,
        -8 <= signed((curr.r - prev.r) - (curr.g - prev.g)) <= 7,
        -8 <= signed((curr.b - prev.b) - (curr.g - prev.g)) <= 7,
    ensures
        next_pixel(
            Chunk::Luma {
                dg: signed(curr.g - prev.g) as i8,
                drg: signed((curr.r - prev.r) - (curr.g - prev.g)) as i8,
                dbg: signed((curr.b - prev.b) - (curr.g - prev.g)) as i8,
            },
            prev,
            Seq::empty(),
        ) == curr,
{
    let gx = curr.g - prev.g;
    lemma_channel_back(prev.g, curr.g, 0);
    lemma_channel_back(prev.r, curr.r, gx);
    lemma_channel_back(prev.b, curr.b, gx);
    let (dg, drg, dbg) = (signed(gx), signed((curr.r - prev.r) - gx), signed((curr.b - prev.b) - gx));
    assert((dg as i8) as int == dg && (drg as i8) as int == drg && (dbg as i8) as int == dbg);
}

/// The chunk picked for a pixel that differs from the previous one reads back
/// as that pixel, and leaves the table as the encoder leaves it.
pub proof fn lemma_pick_reads_back(prev: Color, curr: Color, table: Seq<Color>)
    requires
        table.len() == 64,
        curr != prev,
    ensures
        next_pixel(pick(prev, curr, table), prev, table) == curr,
        chunk_pixels(pick(prev, curr, table), prev, table) == seq![curr],
        next_table(pick(prev, curr, table), prev, table) == remember(table, curr),
{
    let c = pick(prev, curr, table);
    lemma_pick_wf(prev, curr, table);
    if c is Diff {
        lemma_diff_reads_back(prev, curr);
    } else if c is Luma {
        lemma_luma_reads_back(prev, curr);
    }
}

proof fn lemma_replay_runs(n: nat, rest: Seq<Chunk>, prev: Color, table: Seq<Color>)
    ensures
        replay(run_chunks(n) + rest, prev, table) == Seq::new(n, |x: int| prev) + replay(
            rest,
            prev,
            table,
        ),
    decreases n,
{
    if n == 0 {
        assert(run_chunks(n) + rest =~= rest);
        assert(Seq::new(n, |x: int| prev) + replay(rest, prev, table) =~= replay(rest, prev, table));
    } else if n <= 62 {
        let all = run_chunks(n) + rest;
        assert(all[0] == Chunk::Run { count: n as u8 });
        assert(all.drop_first() =~= rest);
        assert(chunk_pixels(all[0], prev, table) =~= Seq::new(n, |x: int| prev));
    } else {
        let m = (n - 62) as nat;
        let all = run_chunks(n) + rest;
        assert(all =~= seq![Chunk::Run { count: 62 }] + (run_chunks(m) + rest));
        assert(all.drop_first() =~= run_chunks(m) + rest);
        lemma_replay_runs(m, rest, prev, table);
        assert(chunk_pixels(all[0], prev, table) =~= Seq::new(62, |x: int| prev));
        assert(Seq::new(62, |x: int| prev) + (Seq::new(m, |x: int| prev) + replay(rest, prev, table))
            =~= Seq::new(n, |x: int| prev) + replay(rest, prev, table));
    }
}

/// Replaying the chunks the encoder writes from position `i` gives the pending
/// repeats of the previous pixel, then the pixels from `i` on.
pub proof fn lemma_replay_chunks_from(
    px: Seq<Color>,
    i: int,
    prev: Color,
    table: Seq<Color>,
    run: nat,
)
    requires
        table.len() == 64,
        0 <= i <= px.len(),
    ensures
        replay(chunks_from(px, i, prev, table, run), prev, table) == Seq::new(run, |x: int| prev)
            + px.subrange(i, px.len() as int),
    decreases px.len() - i,
{
    if i == px.len() {
        assert(run_chunks(run) + Seq::<Chunk>::empty() =~= run_chunks(run));
        lemma_replay_runs(run, Seq::empty(), prev, table);
        assert(px.subrange(i, px.len() as int) =~= Seq::<Color>::empty());
        assert(replay(Seq::<Chunk>::empty(), prev, table) =~= Seq::<Color>::empty());
    } else if px[i] == prev {
        lemma_replay_chunks_from(px, i + 1, prev, table, run + 1);
        assert(Seq::new(run + 1, |x: int| prev) + px.subrange(i + 1, px.len() as int) =~= Seq::new(
            run,
            |x: int| prev,
        ) + px.subrange(i, px.len() as int));
    } else {
        let c = pick(prev, px[i], table);
        let t2 = remember(table, px[i]);
        let rest = chunks_from(px, i + 1, px[i], t2, 0);
        assert(run_chunks(run) + seq![c] + rest =~= run_chunks(run) + (seq![c] + rest));
        lemma_replay_runs(run, seq![c] + rest, prev, table);
        lemma_pick_reads_back(prev, px[i], table);
        assert((seq![c] + rest)[0] == c);
        assert((seq![c] + rest).drop_first() =~= rest);
        lemma_replay_chunks_from(px, i + 1, px[i], t2, 0);
        assert(Seq::new(run, |x: int| prev) + (seq![px[i]] + (Seq::new(0, |x: int| px[i])
            + px.subrange(i + 1, px.len() as int))) =~= Seq::new(run, |x: int| prev) + px.subrange(
            i,
            px.len() as int,
        ));
    }
}

proof fn lemma_flatten_pixels(data: Seq<u8>, ch: int)
    requires
        ch == 3 || ch == 4,
        data.len() as int % ch == 0,
    ensures
        flatten(pixels_of(data, ch), ch as u8) == data,
    decreases data.len(),
{
    let px = pixels_of(data, ch);
    let n = data.len() as int / ch;
    if data.len() == 0 {
        assert(px.len() == 0);
        assert(data =~= Seq::<u8>::empty());
    } else {
        let len = data.len() as int;
        let front = data.subrange(0, len - ch);
        vstd::arithmetic::div_mod::lemma_fundamental_div_mod(len, ch);
        assert(n >= 1);
        assert((n - 1) * ch == len - ch) by (nonlinear_arith)
            requires
                len == ch * n + 0,
        ;
        assert(front.len() as int / ch == n - 1) by {
            vstd::arithmetic::div_mod::lemma_div_multiples_vanish(n - 1, ch);
            assert(ch * (n - 1) == (n - 1) * ch) by (nonlinear_arith);
        }
        assert(front.len() as int % ch == 0) by {
            vstd::arithmetic::div_mod::lemma_mod_multiples_vanish(n - 1, 0, ch);
            assert(ch * (n - 1) == (n - 1) * ch) by (nonlinear_arith);
        }
        lemma_flatten_pixels(front, ch);
        assert forall|k: int| 0 <= k < n - 1 implies #[trigger] pixels_of(front, ch)[k] == px[k] by {
            assert(k * ch + ch <= (n - 1) * ch) by (nonlinear_arith)
                requires
                    k + 1 <= n - 1,
                    ch > 0,
            ;
            assert(k * ch >= 0) by (nonlinear_arith)
                requires
                    k >= 0,
                    ch > 0,
            ;
        }
        assert(pixels_of(front, ch) =~= px.drop_last());
        assert(pixel_bytes(px.last(), ch as u8) =~= data.subrange(len - ch, len));
        assert(front + data.subrange(len - ch, len) =~= data);
    }
}

/// Decoding what `encode` writes gives back the header's fields and the pixel
/// buffer, byte for byte.
pub proof fn lemma_round_trip(
    width: u32,
    height: u32,
    channels: u8,
    colorspace: u8,
    data: Seq<u8>,
)
    requires
        channels == 3 || channels == 4,
        data.len() as int % channels as int == 0,
    ensures
        decoding(encoding(width, height, channels, colorspace, data)) == Ok::<
            ImageView,
            DecodeError,
        >(ImageView { width, height, channels, colorspace, pixels: data }),
{
    let px = pixels_of(data, channels as int);
    let cs = image_chunks(px);
    let body = chunks_bytes(cs);
    let e = encoding(width, height, channels, colorspace, data);
    let head = header_bytes(width, height, channels, colorspace);
    assert(e =~= head + (body + end_marker()));
    lemma_header(width, height, channels, colorspace, body + end_marker());
    let end = 14 + body.len();
    assert(e.len() == end + 8);
    assert(e.subrange(end as int, e.len() as int) =~= end_marker());
    assert(e.subrange(14, end as int) =~= body);
    lemma_image_chunks_wf(px, 0, start_pixel(), empty_table(), 0);
    lemma_chunks_read_back(e, 14, end as int, cs);
    lemma_replay_chunks_from(px, 0, start_pixel(), empty_table(), 0);
    assert(Seq::new(0, |x: int| start_pixel()) + px.subrange(0, px.len() as int) =~= px);
    lemma_flatten_pixels(data, channels as int);
}

/// Width, height, channel count and colorspace come back unchanged from a
/// round trip, whatever their values.
pub proof fn lemma_header_fidelity(
    width: u32,
    height: u32,
    channels: u8,
    colorspace: u8,
    data: Seq<u8>,
)
    requires
        channels == 3 || channels == 4,
        data.len() as int % channels as int == 0,
    ensures
        decoding(encoding(width, height, channels, colorspace, data)) is Ok,
        decoding(encoding(width, height, channels, colorspace, data))->Ok_0.width == width,
        decoding(encoding(width, height, channels, colorspace, data))->Ok_0.height == height,
        decoding(encoding(width, height, channels, colorspace, data))->Ok_0.channels == channels,
        decoding(encoding(width, height, channels, colorspace, data))->Ok_0.colorspace
            == colorspace,
{
    lemma_round_trip(width, height, channels, colorspace, data);
}

/// Cutting the last byte off an encoding makes it fail to decode.
pub proof fn lemma_truncation_fails(
    width: u32,
    height: u32,
    channels: u8,
    colorspace: u8,
    data: Seq<u8>,
)
    requires
        channels == 3 || channels == 4,
        data.len() as int % channels as int == 0,
    ensures
        decoding(encoding(width, height, channels, colorspace, data).drop_last()) is Err,
{
    let e = encoding(width, height, channels, colorspace, data);
    let cut = e.drop_last();
    let n = e.len();
    assert(e.subrange(n - 8, n as int) =~= end_marker());
    assert(e[n - 2] == 0) by {
        assert(e.subrange(n - 8, n as int)[6] == e[n - 2]);
    }
    if cut.len() >= 22 && cut.subrange(0, 4) == magic() {
        assert(cut.subrange(cut.len() - 8, cut.len() as int)[7] == 0);
        assert(cut.subrange(cut.len() - 8, cut.len() as int) != end_marker());
    }
}

/// A buffer that repeats one pixel `n` times is written as runs of at most 62
/// repeats; where the pixel is not the starting one, its first copy is written as
/// a chunk of its own before them.
pub proof fn lemma_repeats_are_runs(p: Color, n: nat)
    ensures
        image_chunks(Seq::new(n, |x: int| p)) == (if p == start_pixel() || n == 0 {
            run_chunks(n)
        } else {
            seq![pick(start_pixel(), p, empty_table())] + run_chunks((n - 1) as nat)
        }),
{
    let px = Seq::new(n, |x: int| p);
    if p == start_pixel() || n == 0 {
        lemma_repeats_from(px, 0, start_pixel(), empty_table(), 0);
    } else {
        lemma_repeats_from(px, 1, p, remember(empty_table(), p), 0);
        assert(run_chunks(0) =~= Seq::<Chunk>::empty());
        assert(run_chunks(0) + seq![pick(start_pixel(), p, empty_table())] =~= seq![
            pick(start_pixel(), p, empty_table()),
        ]);
    }
}

proof fn lemma_repeats_from(px: Seq<Color>, i: int, prev: Color, table: Seq<Color>, run: nat)
    requires
        0 <= i <= px.len(),
        forall|k: int| 0 <= k < px.len() ==> px[k] == prev,
    ensures
        chunks_from(px, i, prev, table, run) == run_chunks((run + px.len() - i) as nat),
    decreases px.len() - i,
{
    if i < px.len() {
        lemma_repeats_from(px, i + 1, prev, table, run + 1);
    }
}

/// A run of `n` repeats takes `n / 62` chunks of 62, rounded up, and every chunk
/// but the last holds 62.
pub proof fn lemma_run_chunks_shape(n: nat)
    ensures
        run_chunks(n).len() == (n + 61) / 62,
        forall|j: int| 0 <= j < run_chunks(n).len() - 1 ==> #[trigger] run_chunks(n)[j] == (Chunk::Run { count: 62 }),
        n > 0 ==> run_chunks(n).last() == (Chunk::Run { count: (n - 62 * ((n + 61) / 62 - 1)) as u8 }),
    decreases n,
{
    if n > 62 {
        let m = (n - 62) as nat;
        lemma_run_chunks_shape(m);
        let rest = run_chunks(m);
        assert forall|j: int| 0 <= j < run_chunks(n).len() - 1 implies #[trigger] run_chunks(n)[j]
            == (Chunk::Run { count: 62 }) by {
            if j > 0 {
                assert(run_chunks(n)[j] == rest[j - 1]);
            }
        }
    }
}

/// Where alpha is unchanged, each of red, green and blue moves by -2 to 1, and
/// the table does not hold the pixel, the diff chunk is chosen.
pub proof fn lemma_diff_chosen(prev: Color, curr: Color, table: Seq<Color>)
    requires
        table.len() == 64,
        table[hash(curr)] != curr,
        curr.a == prev.a,
        -2 <= signed(curr.r - prev.r) <= 1,
        -2 <= signed(curr.g - prev.g) <= 1,
        -2 <= signed(curr.b - prev.b) <= 1,
    ensures
        pick(prev, curr, table) == (Chunk::Diff {
            dr: signed(curr.r - prev.r) as i8,
            dg: signed(curr.g - prev.g) as i8,
            db: signed(curr.b - prev.b) as i8,
        }),
{
}

/// Where alpha is unchanged, no diff chunk fits, green moves by -32 to 31, red
/// and blue move within -8 to 7 of green, and the table does not hold the pixel,
/// the luma chunk is chosen.
pub proof fn lemma_luma_chosen(prev: Color, curr: Color, table: Seq<Color>)
    requires
        table.len() == 64,
        table[hash(curr)] != curr,
        curr.a == prev.a,
        !(-2 <= signed(curr.r - prev.r) <= 1 && -2 <= signed(curr.g - prev.g) <= 1 && -2 <= signed(
            curr.b - prev.b,
        ) <= 1),
        -32 <= signed(curr.g - prev.g) <= 31,
        -8 <= signed((curr.r - prev.r) - (curr.g - prev.g)) <= 7,
        -8 <= signed((curr.b - prev.b) - (curr.g - prev.g)) <= 7,
    ensures
        pick(prev, curr, table) == (Chunk::Luma {
            dg: signed(curr.g - prev.g) as i8,
            drg: signed((curr.r - prev.r) - (curr.g - prev.g)) as i8,
            dbg: signed((curr.b - prev.b) - (curr.g - prev.g)) as i8,
        }),
{
}

/// Once a pixel has taken a slot, another pixel that hashes to the same slot is
/// never written as an index chunk.
pub proof fn lemma_no_false_index(
    first: Color,
    second: Color,
    prev: Color,
    table: Seq<Color>,
)
    requires
        table.len() == 64,
        first != second,
        hash(first) == hash(second),
    ensures
        !(pick(prev, second, remember(table, first)) is Index),
{
}

} // verus!
