//! The `Color` value type together with the numeric rules the palette
//! computation is built on: reduced-bit-depth channel approximation, the
//! alpha-weighted distance metric, and RGB5A3-style hardware packing.

use vstd::prelude::*;

verus! {

/// An RGBA color: four 8-bit channel values. Two colors are the same exactly
/// when all four bytes match.
#[derive(Clone, Copy, PartialEq, Eq, Hash, Debug, Structural)]
pub struct Color {
    pub r: u8,
    pub g: u8,
    pub b: u8,
    pub a: u8,
}

impl Color {
    pub fn new(r: u8, g: u8, b: u8, a: u8) -> (c: Color)
        ensures
            c == (Color { r, g, b, a }),
    {
        Color { r, g, b, a }
    }
}

/// The supported reduced bit depths for a channel.
pub open spec fn valid_depth(n: int) -> bool {
    n == 3 || n == 4 || n == 5
}

/// Largest value representable in `n` bits.
pub open spec fn depth_max(n: int) -> int {
    if n == 3 {
        7
    } else if n == 4 {
        15
    } else {
        31
    }
}

/// Rounded narrowing of an 8-bit value onto the `n`-bit range `[0, 2^n - 1]`.
/// The 4-bit case uses even spacing, since `255 == 15 * 17` exactly.
pub open spec fn narrow_spec(v: int, n: int) -> int {
    if n == 4 {
        (v + 8) / 17
    } else {
        (v * depth_max(n) + 127) / 255
    }
}

/// Rounded widening of an `n`-bit value back onto the 8-bit range.
pub open spec fn widen_spec(v: int, n: int) -> int {
    if n == 4 {
        v * 17
    } else {
        (v * 255 + depth_max(n) / 2) / depth_max(n)
    }
}

/// A byte rounded to the nearest value expressible in `n` bits, still
/// expressed as a byte.
pub open spec fn approximate_spec(v: int, n: int) -> int {
    widen_spec(narrow_spec(v, n), n)
}

/// Narrow an 8-bit channel value to `n` bits with rounding.
pub fn narrow_to_n(v: u8, n: u8) -> (r: u8)
    requires
        valid_depth(n as int),
    ensures
        r as int == narrow_spec(v as int, n as int),
        r as int <= depth_max(n as int),
{
    let x: u32 = v as u32;
    if n == 4 {
        ((x + 8) / 17) as u8
    } else if n == 3 {
        ((x * 7 + 127) / 255) as u8
    } else {
        ((x * 31 + 127) / 255) as u8
    }
}

/// Expand an `n`-bit value back to 8 bits with rounding.
pub fn widen_from_n(v: u8, n: u8) -> (r: u8)
    requires
        valid_depth(n as int),
        v as int <= depth_max(n as int),
    ensures
        r as int == widen_spec(v as int, n as int),
{
    let x: u32 = v as u32;
    if n == 4 {
        (x * 17) as u8
    } else if n == 3 {
        ((x * 255 + 3) / 7) as u8
    } else {
        ((x * 255 + 15) / 31) as u8
    }
}

/// Round a byte to the nearest value expressible in `n` bits.
pub fn approximate_n(v: u8, n: u8) -> (r: u8)
    requires
        valid_depth(n as int),
    ensures
        r as int == approximate_spec(v as int, n as int),
{
    widen_from_n(narrow_to_n(v, n), n)
}

/// An approximated byte stays in the 8-bit range.
pub proof fn lemma_approximate_range(v: int, n: int)
    requires
        valid_depth(n),
        0 <= v <= 255,
    ensures
        0 <= approximate_spec(v, n) <= 255,
{
}

/// Narrowing inverts widening on every `n`-bit value.
pub proof fn lemma_narrow_widen_roundtrip(x: int, n: int)
    requires
        valid_depth(n),
        0 <= x <= depth_max(n),
    ensures
        narrow_spec(widen_spec(x, n), n) == x,
{
}

/// Law: for every 8-bit value and every supported bit depth, approximation is
/// idempotent — approximating an already approximated byte changes nothing.
pub proof fn lemma_approximate_idempotent(v: int, n: int)
    requires
        valid_depth(n),
        0 <= v <= 255,
    ensures
        approximate_spec(approximate_spec(v, n), n) == approximate_spec(v, n),
{
    lemma_narrow_widen_roundtrip(narrow_spec(v, n), n);
}

/// The weighted squared distance between two colors: RGB error is weighted by
/// the product of both alphas, and alpha error is scaled to a comparable
/// magnitude by `255 * 255`.
pub open spec fn distance_spec(c1: Color, c2: Color) -> int {
    let dr = c1.r - c2.r;
    let dg = c1.g - c2.g;
    let db = c1.b - c2.b;
    let da = c1.a - c2.a;
    (dr * dr + dg * dg + db * db) * c1.a * c2.a + 3 * (da * da) * 255 * 255
}

impl Color {
    /// The distance from this color to `other` under the alpha-weighted
    /// squared metric.
    pub fn distance_to(&self, other: &Color) -> (d: u64)
        ensures
            d as int == distance_spec(*self, *other),
    {
        let dr: i64 = self.r as i64 - other.r as i64;
        let dg: i64 = self.g as i64 - other.g as i64;
        let db: i64 = self.b as i64 - other.b as i64;
        let da: i64 = self.a as i64 - other.a as i64;
        proof {
            lemma_square_bound(dr as int);
            lemma_square_bound(dg as int);
            lemma_square_bound(db as int);
            lemma_square_bound(da as int);
        }
        let rgb_sq: i64 = dr * dr + dg * dg + db * db;
        proof {
            lemma_distance_term_bound(rgb_sq as int, self.a as int, other.a as int);
        }
        let rgb_term: u64 = (rgb_sq as u64) * (self.a as u64) * (other.a as u64);
        let alpha_term: u64 = 3 * ((da * da) as u64) * 255 * 255;
        rgb_term + alpha_term
    }
}

/// The square of a byte difference lies in `[0, 65025]`.
proof fn lemma_square_bound(d: int)
    requires
        -255 <= d <= 255,
    ensures
        0 <= d * d <= 65025,
{
    assert(0 <= d * d <= 65025) by (nonlinear_arith)
        requires
            -255 <= d <= 255,
    ;
}

/// The alpha-weighted RGB term of the metric is bounded by `195075 * 65025`.
proof fn lemma_distance_term_bound(rgb_sq: int, a1: int, a2: int)
    requires
        0 <= rgb_sq <= 195075,
        0 <= a1 <= 255,
        0 <= a2 <= 255,
    ensures
        0 <= rgb_sq * a1 <= 195075 * 255,
        0 <= rgb_sq * a1 * a2 <= 195075 * 65025,
{
    assert(0 <= rgb_sq * a1 <= 195075 * 255 && 0 <= rgb_sq * a1 * a2 <= 195075 * 65025)
        by (nonlinear_arith)
        requires
            0 <= rgb_sq <= 195075,
            0 <= a1 <= 255,
            0 <= a2 <= 255,
    ;
}

/// Law: the distance metric is symmetric, and the distance from a color to
/// itself is zero.
pub proof fn lemma_distance_symmetric(c1: Color, c2: Color)
    ensures
        distance_spec(c1, c2) == distance_spec(c2, c1),
        distance_spec(c1, c1) == 0,
{
    assert(distance_spec(c1, c2) == distance_spec(c2, c1)) by (nonlinear_arith);
    assert(distance_spec(c1, c1) == 0) by (nonlinear_arith);
}

/// The distance metric is never negative.
pub proof fn lemma_distance_nonnegative(c1: Color, c2: Color)
    ensures
        distance_spec(c1, c2) >= 0,
{
    assert(distance_spec(c1, c2) >= 0) by (nonlinear_arith);
}

/// RGB5A3-style packing: a color whose alpha rounds to fully opaque keeps 5
/// bits per RGB channel and no real alpha; any other color keeps 4 bits per
/// RGB channel and a genuine 3-bit alpha.
pub open spec fn rgb5a3_spec(c: Color) -> Color {
    let na = approximate_spec(c.a as int, 3);
    if na == 255 {
        Color {
            r: approximate_spec(c.r as int, 5) as u8,
            g: approximate_spec(c.g as int, 5) as u8,
            b: approximate_spec(c.b as int, 5) as u8,
            a: 255,
        }
    } else {
        Color {
            r: approximate_spec(c.r as int, 4) as u8,
            g: approximate_spec(c.g as int, 4) as u8,
            b: approximate_spec(c.b as int, 4) as u8,
            a: na as u8,
        }
    }
}

impl Color {
    /// The nearest color expressible in the RGB5A3 hardware format, expressed
    /// as an ordinary 8-bit-per-channel color.
    pub fn as_rgb5a3(&self) -> (c: Color)
        ensures
            c == rgb5a3_spec(*self),
    {
        proof {
            lemma_approximate_range(self.r as int, 4);
            lemma_approximate_range(self.g as int, 4);
            lemma_approximate_range(self.b as int, 4);
            lemma_approximate_range(self.r as int, 5);
            lemma_approximate_range(self.g as int, 5);
            lemma_approximate_range(self.b as int, 5);
            lemma_approximate_range(self.a as int, 3);
        }
        let new_a = approximate_n(self.a, 3);
        if new_a == 255 {
            Color::new(
                approximate_n(self.r, 5),
                approximate_n(self.g, 5),
                approximate_n(self.b, 5),
                new_a,
            )
        } else {
            Color::new(
                approximate_n(self.r, 4),
                approximate_n(self.g, 4),
                approximate_n(self.b, 4),
                new_a,
            )
        }
    }
}

/// Law: packing is deterministic — equal colors pack to equal colors.
pub proof fn lemma_pack_deterministic(c1: Color, c2: Color)
    requires
        c1 == c2,
    ensures
        rgb5a3_spec(c1) == rgb5a3_spec(c2),
{
}

/// A fully transparent color canonicalizes to the all-zero color; every other
/// color is kept as it is.
pub open spec fn canon_spec(c: Color) -> Color {
    if c.a == 0 {
        Color { r: 0, g: 0, b: 0, a: 0 }
    } else {
        c
    }
}

/// Force the RGB bytes of a fully transparent color to zero.
pub fn canonicalize(c: Color) -> (r: Color)
    ensures
        r == canon_spec(c),
{
    if c.a == 0 {
        Color::new(0, 0, 0, 0)
    } else {
        c
    }
}

/// Law: canonicalization changes nothing on a color that is not fully
/// transparent, nor on the all-zero color.
pub proof fn lemma_canon_identity(c: Color)
    requires
        c.a != 0 || (c.r == 0 && c.g == 0 && c.b == 0),
    ensures
        canon_spec(c) == c,
{
}

} // verus!
