//! Distance between two colours in RGB space.

use crate::draw::Color;
use vstd::prelude::*;

verus! {

/// Largest distance between two colours: the integer square root of
/// `3 * 255 * 255`.
pub const MAX_DISTANCE: u64 = 441;

/// The integer square root: the largest `r` with `r * r <= n`.
pub open spec fn isqrt(n: nat) -> nat
    decreases n,
{
    if n == 0 {
        0
    } else {
        let r = isqrt((n - 1) as nat);
        if (r + 1) * (r + 1) <= n {
            r + 1
        } else {
            r
        }
    }
}

/// `isqrt(n)` squared is at most `n`, and the next integer squared is more.
pub proof fn lemma_isqrt_bounds(n: nat)
    ensures
        isqrt(n) * isqrt(n) <= n < (isqrt(n) + 1) * (isqrt(n) + 1),
    decreases n,
{
    let s = isqrt(n);
    if n > 0 {
        lemma_isqrt_bounds((n - 1) as nat);
        let r = isqrt((n - 1) as nat);
        assert(s * s <= n < (s + 1) * (s + 1)) by (nonlinear_arith)
            requires
                r * r <= n - 1 < (r + 1) * (r + 1),
                s == if (r + 1) * (r + 1) <= n {
                    r + 1
                } else {
                    r
                },
        ;
    } else {
        assert(s * s <= n < (s + 1) * (s + 1)) by (nonlinear_arith)
            requires
                s == 0,
                n == 0,
        ;
    }
}

/// Only one natural number has the two bounds of the integer square root.
pub proof fn lemma_isqrt_unique(n: nat, r: nat)
    requires
        r * r <= n < (r + 1) * (r + 1),
    ensures
        r == isqrt(n),
{
    lemma_isqrt_bounds(n);
    let s = isqrt(n);
    assert(r == s) by (nonlinear_arith)
        requires
            r * r <= n < (r + 1) * (r + 1),
            s * s <= n < (s + 1) * (s + 1),
    {
        if r < s {
            assert((r + 1) * (r + 1) <= s * s);
        } else if s < r {
            assert((s + 1) * (s + 1) <= r * r);
        }
    }
}

/// Absolute difference of two channel values.
pub open spec fn channel_gap(a: u8, b: u8) -> nat {
    if a >= b {
        (a - b) as nat
    } else {
        (b - a) as nat
    }
}

/// Sum of the squared channel differences of two colours.
pub open spec fn squared_distance(a: Color, b: Color) -> nat {
    channel_gap(a.r, b.r) * channel_gap(a.r, b.r) + channel_gap(a.g, b.g) * channel_gap(a.g, b.g)
        + channel_gap(a.b, b.b) * channel_gap(a.b, b.b)
}

/// Euclidean distance of two colours in RGB space, rounded down.
pub open spec fn color_distance(a: Color, b: Color) -> nat {
    isqrt(squared_distance(a, b))
}

fn isqrt_exec(n: u32) -> (r: u32)
    requires
        n <= 3 * 255 * 255,
    ensures
        r == isqrt(n as nat),
        r <= MAX_DISTANCE,
{
    let mut lo: u32 = 0;
    let mut hi: u32 = 442;
    while hi - lo > 1
        invariant
            lo < hi <= 442,
            lo * lo <= n < hi * hi,
        decreases hi - lo,
    {
        let mid: u32 = (lo + hi) / 2;
        assert(mid * mid <= 442 * 442) by (nonlinear_arith)
            requires
                mid <= 442,
        ;
        if mid * mid <= n {
            lo = mid;
        } else {
            hi = mid;
        }
    }
    proof {
        lemma_isqrt_unique(n as nat, lo as nat);
    }
    lo
}

fn gap_exec(a: u8, b: u8) -> (r: u32)
    ensures
        r == channel_gap(a, b),
        r <= 255,
{
    if a >= b {
        (a - b) as u32
    } else {
        (b - a) as u32
    }
}

impl Color {
    /// Euclidean distance to `other` in RGB space, rounded down.
    pub fn distance(self, other: Color) -> (d: u64)
        ensures
            d == color_distance(self, other),
            d <= MAX_DISTANCE,
    {
        let dr = gap_exec(self.r, other.r);
        let dg = gap_exec(self.g, other.g);
        let db = gap_exec(self.b, other.b);
        assert(dr * dr <= 255 * 255 && dg * dg <= 255 * 255 && db * db <= 255 * 255)
            by (nonlinear_arith)
            requires
                dr <= 255,
                dg <= 255,
                db <= 255,
        ;
        isqrt_exec(dr * dr + dg * dg + db * db) as u64
    }
}

} // verus!
