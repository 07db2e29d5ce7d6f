use vstd::prelude::*;

verus! {

/// The four channels of a pixel as plain values: the model of a `[u8; 4]`.
pub struct Color {
    pub r: u8,
    pub g: u8,
    pub b: u8,
    pub a: u8,
}

/// The channels of a `[u8; 4]` in order red, green, blue, alpha.
pub open spec fn rgba(p: [u8; 4]) -> Color {
    Color { r: p[0], g: p[1], b: p[2], a: p[3] }
}

/// The byte that `x` wraps to under 8-bit arithmetic.
pub open spec fn wrap(x: int) -> u8 {
    (x % 256) as u8
}

/// Slot of the history table that a pixel is kept in.
pub open spec fn hash(c: Color) -> int {
    (c.r * 3 + c.g * 5 + c.b * 7 + c.a * 11) % 64
}

/// Slot of the history table for `pix`, computed with 8-bit wraparound.
pub fn index_position(pix: [u8; 4]) -> (r: u8)
    ensures
        r as int == hash(rgba(pix)),
{
    // The weighted sum is at most 255 * 26, so no step wraps; reducing modulo 64 at
    // the end gives what 8-bit wraparound at each step gives, since 64 divides 256.
    let sum: u32 = pix[0] as u32 * 3 + pix[1] as u32 * 5 + pix[2] as u32 * 7 + pix[3] as u32 * 11;
    (sum % 64) as u8
}

/// `x` read as a signed 8-bit value after wrapping: the representative in [-128, 127].
pub open spec fn signed(x: int) -> int {
    if wrap(x) >= 128 {
        wrap(x) - 256
    } else {
        wrap(x) as int
    }
}

/// Channel-wise difference with 8-bit wraparound.
pub fn sub(lhs: [u8; 4], rhs: [u8; 4]) -> (r: [u8; 4])
    ensures
        r[0] == wrap(lhs[0] - rhs[0]),
        r[1] == wrap(lhs[1] - rhs[1]),
        r[2] == wrap(lhs[2] - rhs[2]),
        r[3] == wrap(lhs[3] - rhs[3]),
{
    [
        u8::wrapping_sub(lhs[0], rhs[0]),
        u8::wrapping_sub(lhs[1], rhs[1]),
        u8::wrapping_sub(lhs[2], rhs[2]),
        u8::wrapping_sub(lhs[3], rhs[3]),
    ]
}

/// Channel-wise sum with 8-bit wraparound.
pub fn add(lhs: [u8; 4], rhs: [u8; 4]) -> (r: [u8; 4])
    ensures
        r[0] == wrap(lhs[0] + rhs[0]),
        r[1] == wrap(lhs[1] + rhs[1]),
        r[2] == wrap(lhs[2] + rhs[2]),
        r[3] == wrap(lhs[3] + rhs[3]),
{
    [
        u8::wrapping_add(lhs[0], rhs[0]),
        u8::wrapping_add(lhs[1], rhs[1]),
        u8::wrapping_add(lhs[2], rhs[2]),
        u8::wrapping_add(lhs[3], rhs[3]),
    ]
}

/// Whether every channel of `lhs` is at most the same channel of `rhs`.
pub fn lte(lhs: [u8; 4], rhs: [u8; 4]) -> (r: bool)
    ensures
        r == (lhs[0] <= rhs[0] && lhs[1] <= rhs[1] && lhs[2] <= rhs[2] && lhs[3] <= rhs[3]),
{
    lhs[0] <= rhs[0] && lhs[1] <= rhs[1] && lhs[2] <= rhs[2] && lhs[3] <= rhs[3]
}

/// Whether two pixels agree on all four channels.
pub fn same(lhs: [u8; 4], rhs: [u8; 4]) -> (r: bool)
    ensures
        r == (rgba(lhs) == rgba(rhs)),
{
    lhs[0] == rhs[0] && lhs[1] == rhs[1] && lhs[2] == rhs[2] && lhs[3] == rhs[3]
}

} // verus!
