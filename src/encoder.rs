use vstd::prelude::*;

use crate::chunk::{chunk_bytes, chunk_wf, chunks_bytes, write_chunk, Chunk, MAX_RUN};
use crate::header::{end_marker, header_bytes, write_header};
use crate::history::{empty_table, remember, History};
use crate::pixel;
use crate::pixel::{hash, index_position, lte, rgba, same, signed, wrap, Color};

verus! {

/// The "previous" pixel that both directions start from.
pub open spec fn start_pixel() -> Color {
    Color { r: 0, g: 0, b: 0, a: 255 }
}

/// Pixel `k` of a buffer with `channels` bytes per pixel; alpha is 255 where the
/// buffer holds three channels.
pub open spec fn pixel_at(data: Seq<u8>, channels: int, k: int) -> Color {
    Color {
        r: data[k * channels],
        g: data[k * channels + 1],
        b: data[k * channels + 2],
        a: if channels == 4 { data[k * channels + 3] } else { 255 },
    }
}

/// The pixels of a buffer, in order.
pub open spec fn pixels_of(data: Seq<u8>, channels: int) -> Seq<Color> {
    Seq::new((data.len() as int / channels) as nat, |k: int| pixel_at(data, channels, k))
}

/// The chunk chosen for `curr` after `prev`, where the two differ: the first of
/// index, diff, luma, rgb and rgba that can hold it.
pub open spec fn pick(prev: Color, curr: Color, table: Seq<Color>) -> Chunk {
    let dr = signed(curr.r - prev.r);
    let dg = signed(curr.g - prev.g);
    let db = signed(curr.b - prev.b);
    let drg = signed((curr.r - prev.r) - (curr.g - prev.g));
    let dbg = signed((curr.b - prev.b) - (curr.g - prev.g));
    if table[hash(curr)] == curr {
        Chunk::Index { slot: hash(curr) as u8 }
    } else if curr.a == prev.a && -2 <= dr <= 1 && -2 <= dg <= 1 && -2 <= db <= 1 {
        Chunk::Diff { dr: dr as i8, dg: dg as i8, db: db as i8 }
    } else if curr.a == prev.a && -32 <= dg <= 31 && -8 <= drg <= 7 && -8 <= dbg <= 7 {
        Chunk::Luma { dg: dg as i8, drg: drg as i8, dbg: dbg as i8 }
    } else if curr.a == prev.a {
        Chunk::Rgb { r: curr.r, g: curr.g, b: curr.b }
    } else {
        Chunk::Rgba { r: curr.r, g: curr.g, b: curr.b, a: curr.a }
    }
}

/// A run of `n` repeats as run chunks of at most 62, the longest first.
pub open spec fn run_chunks(n: nat) -> Seq<Chunk>
    decreases n,
{
    if n == 0 {
        Seq::empty()
    } else if n <= 62 {
        seq![Chunk::Run { count: n as u8 }]
    } else {
        seq![Chunk::Run { count: 62 }] + run_chunks((n - 62) as nat)
    }
}

/// The chunks for the pixels from `i` on, given the previous pixel, the table and
/// the length of the run of repeats not yet written.
pub open spec fn chunks_from(
    px: Seq<Color>,
    i: int,
    prev: Color,
    table: Seq<Color>,
    run: nat,
) -> Seq<Chunk>
    decreases px.len() - i,
{
    if i < 0 || i >= px.len() {
        run_chunks(run)
    } else if px[i] == prev {
        chunks_from(px, i + 1, prev, table, run + 1)
    } else {
        run_chunks(run) + seq![pick(prev, px[i], table)] + chunks_from(
            px,
            i + 1,
            px[i],
            remember(table, px[i]),
            0,
        )
    }
}

/// The chunk stream for a whole image.
pub open spec fn image_chunks(px: Seq<Color>) -> Seq<Chunk> {
    chunks_from(px, 0, start_pixel(), empty_table(), 0)
}

/// The encoded stream: header, chunks, end marker.
pub open spec fn encoding(
    width: u32,
    height: u32,
    channels: u8,
    colorspace: u8,
    data: Seq<u8>,
) -> Seq<u8> {
    header_bytes(width, height, channels, colorspace) + chunks_bytes(
        image_chunks(pixels_of(data, channels as int)),
    ) + end_marker()
}

/// The bytes of two chunk sequences in turn are the bytes of the two one after the other.
pub proof fn lemma_chunks_bytes_append(a: Seq<Chunk>, b: Seq<Chunk>)
    ensures
        chunks_bytes(a + b) == chunks_bytes(a) + chunks_bytes(b),
    decreases a.len(),
{
    if a.len() == 0 {
        assert(a + b =~= b);
    } else {
        assert((a + b).drop_first() =~= a.drop_first() + b);
        lemma_chunks_bytes_append(a.drop_first(), b);
        assert(chunks_bytes(a) + chunks_bytes(b) =~= chunk_bytes(a[0]) + (chunks_bytes(
            a.drop_first(),
        ) + chunks_bytes(b)));
    }
}

/// Every run chunk holds between 1 and 62 repeats.
pub proof fn lemma_run_chunks_wf(n: nat)
    ensures
        forall|j: int| 0 <= j < run_chunks(n).len() ==> chunk_wf(#[trigger] run_chunks(n)[j]),
    decreases n,
{
    if n > 62 {
        let rest = run_chunks((n - 62) as nat);
        lemma_run_chunks_wf((n - 62) as nat);
        assert forall|j: int| 0 < j < run_chunks(n).len() implies chunk_wf(
            #[trigger] run_chunks(n)[j],
        ) by {
            assert(run_chunks(n)[j] == rest[j - 1]);
        }
    }
}

/// The chunk picked always lies in the ranges its bit layout can hold.
pub proof fn lemma_pick_wf(prev: Color, curr: Color, table: Seq<Color>)
    requires
        table.len() == 64,
    ensures
        chunk_wf(pick(prev, curr, table)),
{
}

proof fn lemma_bias(x: int, k: int)
    requires
        0 < k <= 32,
    ensures
        (wrap(wrap(x) + k) < 2 * k) == (-k <= signed(x) < k),
        wrap(wrap(x) + k) < 2 * k ==> wrap(wrap(x) + k) - k == signed(x),
{
}

proof fn lemma_wrap_sub(x: int, y: int)
    ensures
        wrap(wrap(x) - wrap(y)) == wrap(x - y),
        wrap(wrap(x) - 0) == wrap(x),
{
    vstd::arithmetic::div_mod::lemma_sub_mod_noop(x, y, 256);
}

/// The chunk for `curr` after `prev`, where the two differ.
fn classify(prev: [u8; 4], curr: [u8; 4], seen: &History) -> (c: Chunk)
    requires
        seen.wf(),
    ensures
        c == pick(rgba(prev), rgba(curr), seen@),
{
    let look = index_position(curr);
    let diff = pixel::sub(curr, prev);
    let luma = pixel::sub(diff, [diff[1], 0, diff[1], 0]);
    let diff = pixel::add(diff, [2, 2, 2, 0]);
    let luma = pixel::add(luma, [8, 32, 8, 0]);
    let ghost (p, q) = (rgba(prev), rgba(curr));
    proof {
        lemma_bias(q.r - p.r, 2);
        lemma_bias(q.g - p.g, 2);
        lemma_bias(q.b - p.b, 2);
        lemma_bias(q.g - p.g, 32);
        lemma_wrap_sub(q.r - p.r, q.g - p.g);
        lemma_wrap_sub(q.b - p.b, q.g - p.g);
        lemma_wrap_sub(q.g - p.g, 0);
        lemma_wrap_sub(q.a - p.a, 0);
        lemma_bias((q.r - p.r) - (q.g - p.g), 8);
        lemma_bias((q.b - p.b) - (q.g - p.g), 8);
    }
    if same(seen.lookup(look), curr) {
        Chunk::Index { slot: look }
    } else if lte(diff, [3, 3, 3, 0]) {
        Chunk::Diff { dr: diff[0] as i8 - 2, dg: diff[1] as i8 - 2, db: diff[2] as i8 - 2 }
    } else if lte(luma, [15, 63, 15, 0]) {
        Chunk::Luma { dg: luma[1] as i8 - 32, drg: luma[0] as i8 - 8, dbg: luma[2] as i8 - 8 }
    } else if diff[3] == 0 {
        Chunk::Rgb { r: curr[0], g: curr[1], b: curr[2] }
    } else {
        Chunk::Rgba { r: curr[0], g: curr[1], b: curr[2], a: curr[3] }
    }
}

/// Appends the run chunks for `run` repeats.
fn write_run(out: &mut Vec<u8>, run: usize)
    ensures
        final(out)@ == old(out)@ + chunks_bytes(run_chunks(run as nat)),
{
    let mut left = run;
    while left > 0
        invariant
            out@ + chunks_bytes(run_chunks(left as nat)) == old(out)@ + chunks_bytes(
                run_chunks(run as nat),
            ),
        decreases left,
    {
        let part: u8 = if left > MAX_RUN as usize {
            MAX_RUN
        } else {
            left as u8
        };
        let c = Chunk::Run { count: part };
        let ghost rest = run_chunks((left - part) as nat);
        assert(run_chunks(left as nat) =~= seq![c] + rest);
        assert((seq![c] + rest).drop_first() =~= rest);
        assert(chunks_bytes(seq![c] + rest) == chunk_bytes(c) + chunks_bytes(rest));
        let ghost before = out@;
        write_chunk(out, &c);
        assert(before + chunks_bytes(run_chunks(left as nat)) =~= out@ + chunks_bytes(rest));
        left = left - part as usize;
    }
    assert(out@ + chunks_bytes(run_chunks(0)) =~= out@);
}

} // verus!
verus! {

proof fn lemma_next_pixel_fits(len: int, ch: int, k: int)
    requires
        ch > 0,
        len >= 0,
        len % ch == 0,
        0 <= k < len / ch,
    ensures
        k * ch + ch <= len,
{
    let q = len / ch;
    vstd::arithmetic::div_mod::lemma_fundamental_div_mod(len, ch);
    assert(k * ch + ch <= q * ch) by (nonlinear_arith)
        requires
            k + 1 <= q,
            ch > 0,
    ;
    assert(q * ch == len) by (nonlinear_arith)
        requires
            len == ch * q + 0,
    ;
}

/// Appends the end marker.
fn write_end_marker(out: &mut Vec<u8>)
    ensures
        final(out)@ == old(out)@ + end_marker(),
{
    let mut j: usize = 0;
    while j < 7
        invariant
            j <= 7,
            out@ == old(out)@ + Seq::new(j as nat, |x: int| 0u8),
        decreases 7 - j,
    {
        out.push(0);
        j += 1;
        assert(out@ =~= old(out)@ + Seq::new(j as nat, |x: int| 0u8));
    }
    out.push(1);
    assert(out@ =~= old(out)@ + end_marker());
}

/// Encodes an image: `pixels` holds `channels` bytes per pixel (3 or 4), row
/// after row. Width, height and colorspace are written to the header as given.
pub fn encode(width: u32, height: u32, channels: u8, colorspace: u8, pixels: &[u8]) -> (r: Vec<u8>)
    requires
        channels == 3 || channels == 4,
        pixels@.len() as int % channels as int == 0,
    ensures
        r@ == encoding(width, height, channels, colorspace, pixels@),
{
    let mut out: Vec<u8> = Vec::new();
    write_header(&mut out, width, height, channels, colorspace);
    let ghost head = header_bytes(width, height, channels, colorspace);
    let ghost px = pixels_of(pixels@, channels as int);
    let ghost all = image_chunks(px);
    let ghost mut done: Seq<Chunk> = Seq::empty();
    let ch = channels as usize;
    let n = pixels.len() / ch;
    let mut prev: [u8; 4] = [0, 0, 0, 255];
    let mut seen = History::new();
    let mut run: usize = 0;
    let mut i: usize = 0;
    let mut k: usize = 0;
    assert(done + all =~= all);
    assert(out@ =~= head + chunks_bytes(done));
    while k < n
        invariant
            ch == channels as usize,
            ch == 3 || ch == 4,
            n == pixels@.len() as int / ch as int,
            pixels@.len() as int % ch as int == 0,
            px == pixels_of(pixels@, ch as int),
            px.len() == n,
            k <= n,
            i == k * ch,
            run <= k,
            seen.wf(),
            seen@.len() == 64,
            out@ == head + chunks_bytes(done),
            done + chunks_from(px, k as int, rgba(prev), seen@, run as nat) == all,
        decreases n - k,
    {
        proof {
            lemma_next_pixel_fits(pixels@.len() as int, ch as int, k as int);
        }
        let curr = [
            pixels[i],
            pixels[i + 1],
            pixels[i + 2],
            if ch == 4 {
                pixels[i + 3]
            } else {
                255
            },
        ];
        assert(rgba(curr) == px[k as int]);
        if same(prev, curr) {
            run += 1;
        } else {
            let c = classify(prev, curr, &seen);
            let ghost more = run_chunks(run as nat) + seq![c];
            proof {
                lemma_pick_wf(rgba(prev), rgba(curr), seen@);
                lemma_chunks_bytes_append(done, more);
                lemma_chunks_bytes_append(run_chunks(run as nat), seq![c]);
                assert(seq![c].drop_first() =~= Seq::<Chunk>::empty());
                assert(chunks_bytes(Seq::<Chunk>::empty()) =~= Seq::<u8>::empty());
                assert(chunks_bytes(seq![c]) =~= chunk_bytes(c));
                assert(done + chunks_from(px, k as int, rgba(prev), seen@, run as nat) =~= (done
                    + more) + chunks_from(px, k + 1, rgba(curr), remember(seen@, rgba(curr)), 0));
            }
            write_run(&mut out, run);
            write_chunk(&mut out, &c);
            proof {
                done = done + more;
                assert(out@ =~= head + chunks_bytes(done));
            }
            seen.update(curr);
            prev = curr;
            run = 0;
        }
        assert(i + ch == (k + 1) * ch) by (nonlinear_arith)
            requires
                i == k * ch,
        ;
        i += ch;
        k += 1;
    }
    proof {
        lemma_chunks_bytes_append(done, run_chunks(run as nat));
    }
    write_run(&mut out, run);
    write_end_marker(&mut out);
    assert(done + run_chunks(run as nat) == all);
    assert(out@ =~= encoding(width, height, channels, colorspace, pixels@));
    out
}

} // verus!
