//! Rectangles, sizes and points in pixel coordinates, and the similarity
//! predicate under which two rectangles count as the same detection.

use vstd::prelude::*;

verus! {

/// A point in pixel coordinates.
#[derive(Clone, Copy, Debug, PartialEq, Eq, Structural)]
pub struct Point {
    pub x: i32,
    pub y: i32,
}

/// A width and a height in pixels.
#[derive(Clone, Copy, Debug, PartialEq, Eq, Structural)]
pub struct Size {
    pub width: i32,
    pub height: i32,
}

/// An axis-aligned rectangle: top-left corner, width and height.
#[derive(Clone, Copy, Debug, PartialEq, Eq, Structural)]
pub struct Rect {
    pub x: i32,
    pub y: i32,
    pub width: i32,
    pub height: i32,
}

impl Size {
    pub fn new(width: i32, height: i32) -> (s: Size)
        ensures
            s.width == width,
            s.height == height,
    {
        Size { width, height }
    }
}

impl Rect {
    /// A rectangle is well formed when it has positive width and height.
    pub open spec fn wf(self) -> bool {
        self.width > 0 && self.height > 0
    }

    pub fn new(x: i32, y: i32, width: i32, height: i32) -> (r: Rect)
        ensures
            r.x == x,
            r.y == y,
            r.width == width,
            r.height == height,
    {
        Rect { x, y, width, height }
    }

    /// Whether the rectangle has positive width and height.
    pub fn is_valid(&self) -> (b: bool)
        ensures
            b == self.wf(),
    {
        self.width > 0 && self.height > 0
    }
}

pub open spec fn spec_min(a: int, b: int) -> int {
    if a <= b { a } else { b }
}

pub open spec fn spec_abs(a: int) -> int {
    if a < 0 { -a } else { a }
}

/// Twice the positional slack allowed between `r1` and `r2`, scaled by the
/// tolerance's denominator: `num * (min(w1, w2) + min(h1, h2))`.
pub open spec fn slack_scaled(num: int, r1: Rect, r2: Rect) -> int {
    num * (spec_min(r1.width as int, r2.width as int) + spec_min(r1.height as int, r2.height as int))
}

/// The similarity predicate for the tolerance `num / den`.
///
/// With `d = (num / den) * (min(w1, w2) + min(h1, h2)) / 2`, two rectangles are
/// similar when their left, top, right and bottom edges each differ by at most
/// `d`. The comparison `|a| <= d` is stated exactly as `2 * den * |a| <= num *
/// (min(w1, w2) + min(h1, h2))`.
pub open spec fn similar(num: int, den: int, r1: Rect, r2: Rect) -> bool {
    let s = slack_scaled(num, r1, r2);
    &&& 2 * den * spec_abs(r1.x - r2.x) <= s
    &&& 2 * den * spec_abs(r1.y - r2.y) <= s
    &&& 2 * den * spec_abs(r1.x + r1.width - r2.x - r2.width) <= s
    &&& 2 * den * spec_abs(r1.y + r1.height - r2.y - r2.height) <= s
}

/// The similarity predicate with its tolerance, the non-negative rational
/// `eps_num / eps_den`. A zero denominator stands for a tolerance without
/// bound: every pair of well-formed rectangles is then similar.
#[derive(Clone, Copy, Debug, PartialEq, Eq, Structural)]
pub struct SimilarRects {
    pub eps_num: u32,
    pub eps_den: u32,
}

fn abs_diff_wide(a: i64, b: i64) -> (d: i128)
    requires
        -0x1_0000_0000 <= a <= 0x1_0000_0000,
        -0x1_0000_0000 <= b <= 0x1_0000_0000,
    ensures
        d == spec_abs(a - b),
{
    let a128: i128 = a as i128;
    let b128: i128 = b as i128;
    if a128 < b128 { b128 - a128 } else { a128 - b128 }
}

impl SimilarRects {
    /// The tolerance `num / den`.
    pub fn new(num: u32, den: u32) -> (s: SimilarRects)
        ensures
            s.eps_num == num,
            s.eps_den == den,
    {
        SimilarRects { eps_num: num, eps_den: den }
    }

    /// The customary tolerance, one fifth.
    pub fn standard() -> (s: SimilarRects)
        ensures
            s.eps_num == 1,
            s.eps_den == 5,
    {
        SimilarRects { eps_num: 1, eps_den: 5 }
    }

    /// Whether `r1` and `r2` are similar under this tolerance.
    pub fn test(&self, r1: &Rect, r2: &Rect) -> (b: bool)
        ensures
            b == similar(self.eps_num as int, self.eps_den as int, *r1, *r2),
    {
        let mw: i128 = if r1.width <= r2.width { r1.width as i128 } else { r2.width as i128 };
        let mh: i128 = if r1.height <= r2.height { r1.height as i128 } else { r2.height as i128 };
        let num: i128 = self.eps_num as i128;
        let den2: i128 = 2 * (self.eps_den as i128);
        assert(-0x1_0000_0000 <= mw + mh <= 0x1_0000_0000);
        assert(-0x1_0000_0000_0000_0000 <= num * (mw + mh) <= 0x1_0000_0000_0000_0000) by (nonlinear_arith)
            requires
                0 <= num <= 0xffff_ffff,
                -0x1_0000_0000 <= mw + mh <= 0x1_0000_0000,
        ;
        let s: i128 = num * (mw + mh);
        let dx: i128 = abs_diff_wide(r1.x as i64, r2.x as i64);
        let dy: i128 = abs_diff_wide(r1.y as i64, r2.y as i64);
        let dr: i128 = abs_diff_wide(r1.x as i64 + r1.width as i64, r2.x as i64 + r2.width as i64);
        let db: i128 = abs_diff_wide(r1.y as i64 + r1.height as i64, r2.y as i64 + r2.height as i64);
        assert(0 <= den2 * dx <= 0x4_0000_0000_0000_0000) by (nonlinear_arith)
            requires 0 <= den2 <= 0x2_0000_0000, 0 <= dx <= 0x2_0000_0000;
        assert(0 <= den2 * dy <= 0x4_0000_0000_0000_0000) by (nonlinear_arith)
            requires 0 <= den2 <= 0x2_0000_0000, 0 <= dy <= 0x2_0000_0000;
        assert(0 <= den2 * dr <= 0x4_0000_0000_0000_0000) by (nonlinear_arith)
            requires 0 <= den2 <= 0x2_0000_0000, 0 <= dr <= 0x2_0000_0000;
        assert(0 <= den2 * db <= 0x4_0000_0000_0000_0000) by (nonlinear_arith)
            requires 0 <= den2 <= 0x2_0000_0000, 0 <= db <= 0x2_0000_0000;
        den2 * dx <= s && den2 * dy <= s && den2 * dr <= s && den2 * db <= s
    }
}

} // verus!
