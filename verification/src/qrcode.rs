//! The search for finder patterns: a pixel at which runs of dark and light
//! pixels follow one another in the ratio 1:1:3:1:1, along its row and
//! along its column. The quadrangle found is the one that the pixels of
//! this kind span.

use vstd::prelude::*;
use crate::error::DetectError;
use crate::geometry::Point;
use crate::image::{Image, MAX_PIXELS};

verus! {

/// A tolerance, the non-negative rational `num / den`. A zero denominator
/// stands for a tolerance without bound.
#[derive(Clone, Copy, Debug, PartialEq, Eq, Structural)]
pub struct Tolerance {
    pub num: u32,
    pub den: u32,
}

/// Samples below this count as dark.
pub const DARK_BELOW: u8 = 128;

/// Whether the pixel at place `pos` of a line is of the colour asked for.
/// Line `line` is a row where `along_row` holds, a column otherwise.
/// Outside the image no pixel is of any colour.
pub open spec fn has_colour(
    data: Seq<u8>,
    width: int,
    height: int,
    along_row: bool,
    line: int,
    pos: int,
    dark: bool,
) -> bool {
    let row = if along_row { line } else { pos };
    let col = if along_row { pos } else { line };
    0 <= row < height && 0 <= col < width && (data[row * width + col] < DARK_BELOW) == dark
}

/// The number of pixels of one colour from `pos` on, in the direction of
/// greater places.
pub open spec fn run_up(
    data: Seq<u8>,
    width: int,
    height: int,
    along_row: bool,
    line: int,
    pos: int,
    dark: bool,
) -> int
    decreases width + height - pos,
{
    if pos < width + height && has_colour(data, width, height, along_row, line, pos, dark) {
        1 + run_up(data, width, height, along_row, line, pos + 1, dark)
    } else {
        0
    }
}

/// The number of pixels of one colour from `pos` on, in the direction of
/// smaller places.
pub open spec fn run_down(
    data: Seq<u8>,
    width: int,
    height: int,
    along_row: bool,
    line: int,
    pos: int,
    dark: bool,
) -> int
    decreases pos + 1,
{
    if 0 <= pos && has_colour(data, width, height, along_row, line, pos, dark) {
        1 + run_down(data, width, height, along_row, line, pos - 1, dark)
    } else {
        0
    }
}

/// A run of `len` pixels takes `weight` sevenths of `total` pixels, within
/// the tolerance: `|len / total - weight / 7| <= num / den`.
pub open spec fn share_ok(len: int, weight: int, total: int, eps: Tolerance) -> bool {
    let off = 7 * len - weight * total;
    (if off < 0 { -off } else { off }) * eps.den <= 7 * total * eps.num
}

/// The five runs through the pixel at `pos` of a line: the dark run that
/// holds the pixel, the light runs on either side of it, and the dark runs
/// beyond those.
pub open spec fn runs_through(
    data: Seq<u8>,
    width: int,
    height: int,
    along_row: bool,
    line: int,
    pos: int,
) -> (int, int, int, int, int, int, int) {
    let before = run_down(data, width, height, along_row, line, pos, true);
    let after = run_up(data, width, height, along_row, line, pos, true);
    let l2 = run_down(data, width, height, along_row, line, pos - before, false);
    let l1 = run_down(data, width, height, along_row, line, pos - before - l2, true);
    let l4 = run_up(data, width, height, along_row, line, pos + after, false);
    let l5 = run_up(data, width, height, along_row, line, pos + after + l4, true);
    (before, after, l1, l2, before + after - 1, l4, l5)
}

/// The pixel at `pos` of a line is the middle of a finder pattern along
/// the line: it is the middle pixel of a dark run, or the one before the
/// middle where the run has an even length, and the five runs through it
/// are there, in the ratio 1:1:3:1:1 within the tolerance.
pub open spec fn pattern_at(
    data: Seq<u8>,
    width: int,
    height: int,
    along_row: bool,
    line: int,
    pos: int,
    eps: Tolerance,
) -> bool {
    let (before, after, l1, l2, l3, l4, l5) = runs_through(data, width, height, along_row, line, pos);
    let total = l1 + l2 + l3 + l4 + l5;
    &&& before >= 1
    &&& (after == before || after == before + 1)
    &&& l1 > 0
    &&& l2 > 0
    &&& l4 > 0
    &&& l5 > 0
    &&& share_ok(l1, 1, total, eps)
    &&& share_ok(l2, 1, total, eps)
    &&& share_ok(l3, 3, total, eps)
    &&& share_ok(l4, 1, total, eps)
    &&& share_ok(l5, 1, total, eps)
}

/// The pixel is the middle of a finder pattern along its row, within
/// `eps_x`, and along its column, within `eps_y`.
pub open spec fn finder_point(
    data: Seq<u8>,
    width: int,
    height: int,
    row: int,
    col: int,
    eps_x: Tolerance,
    eps_y: Tolerance,
) -> bool {
    pattern_at(data, width, height, true, row, col, eps_x) && pattern_at(
        data,
        width,
        height,
        false,
        col,
        row,
        eps_y,
    )
}

/// The least and greatest column and row of a set of pixels.
#[derive(Clone, Copy, Debug, PartialEq, Eq, Structural)]
pub struct Span {
    pub left: usize,
    pub top: usize,
    pub right: usize,
    pub bottom: usize,
}

/// The span widened to hold the pixel at `row`, `col`.
pub open spec fn widened(s: Option<Span>, row: int, col: int) -> Span {
    match s {
        None => Span { left: col as usize, top: row as usize, right: col as usize, bottom: row as usize },
        Some(b) => Span {
            left: if col < b.left { col as usize } else { b.left },
            top: if row < b.top { row as usize } else { b.top },
            right: if col > b.right { col as usize } else { b.right },
            bottom: if row > b.bottom { row as usize } else { b.bottom },
        },
    }
}

/// The span of the finder points among the first `upto` pixels of the
/// image, taken row by row; none where there is no finder point.
pub open spec fn finder_span(
    data: Seq<u8>,
    width: int,
    height: int,
    eps_x: Tolerance,
    eps_y: Tolerance,
    upto: int,
) -> Option<Span>
    decreases upto,
{
    if upto <= 0 {
        None
    } else {
        let before = finder_span(data, width, height, eps_x, eps_y, upto - 1);
        let row = (upto - 1) / width;
        let col = (upto - 1) % width;
        if finder_point(data, width, height, row, col, eps_x, eps_y) {
            Some(widened(before, row, col))
        } else {
            before
        }
    }
}

/// The corners of the quadrangle that the finder points span: from the
/// top-left corner clockwise. None where the finder points do not span a
/// quadrangle with an area.
pub open spec fn quadrangle(
    data: Seq<u8>,
    width: int,
    height: int,
    eps_x: Tolerance,
    eps_y: Tolerance,
) -> Option<Seq<Point>> {
    match finder_span(data, width, height, eps_x, eps_y, width * height) {
        Some(b) => if b.left < b.right && b.top < b.bottom {
            Some(
                seq![
                    Point { x: b.left as i32, y: b.top as i32 },
                    Point { x: b.right as i32, y: b.top as i32 },
                    Point { x: b.right as i32, y: b.bottom as i32 },
                    Point { x: b.left as i32, y: b.bottom as i32 },
                ],
            )
        } else {
            None
        },
        None => None,
    }
}

/// Whether the pixel at place `pos` of a line is of the colour asked for.
fn colour_at(image: &Image, along_row: bool, line: usize, pos: i64, dark: bool) -> (b: bool)
    requires
        image.is_gray(),
    ensures
        b == has_colour(image.data@, image.width as int, image.height as int, along_row, line as int, pos as int, dark),
{
    let w: usize = image.width;
    let h: usize = image.height;
    proof {
        assert(w <= w * h && h <= w * h) by (nonlinear_arith)
            requires
                0 < w,
                0 < h,
        ;
    }
    if pos < 0 {
        return false;
    }
    let (row, col): (u64, u64) = if along_row { (line as u64, pos as u64) } else { (pos as u64, line as u64) };
    if row >= h as u64 || col >= w as u64 {
        return false;
    }
    assert(0 <= row * w + col < w * h) by (nonlinear_arith)
        requires
            0 <= row < h,
            0 <= col < w,
    ;
    (image.data[row as usize * w + col as usize] < DARK_BELOW) == dark
}

/// The length of the run of one colour from `pos` upward.
fn count_up(image: &Image, along_row: bool, line: usize, pos: i64, dark: bool) -> (n: i64)
    requires
        image.is_gray(),
        -0x1_0000_0000 <= pos <= 0x1_0000_0000,
    ensures
        n == run_up(image.data@, image.width as int, image.height as int, along_row, line as int, pos as int, dark),
        0 <= n <= 0x8000_0000,
        n == 0 || (0 <= pos && pos + n <= image.width + image.height),
{
    let ghost w = image.width as int;
    let ghost h = image.height as int;
    proof {
        assert(w <= w * h && h <= w * h) by (nonlinear_arith)
            requires
                0 < w,
                0 < h,
        ;
    }
    let limit: i64 = image.width as i64 + image.height as i64;
    let mut n: i64 = 0;
    let mut at: i64 = pos;
    while at < limit && colour_at(image, along_row, line, at, dark)
        invariant
            image.is_gray(),
            w == image.width,
            h == image.height,
            limit == w + h,
            limit <= 0x8000_0000,
            at == pos + n,
            0 <= n,
            n == 0 || (0 <= pos && at <= limit),
            -0x1_0000_0000 <= pos <= 0x1_0000_0000,
            run_up(image.data@, w, h, along_row, line as int, pos as int, dark) == n + run_up(
                image.data@,
                w,
                h,
                along_row,
                line as int,
                at as int,
                dark,
            ),
        decreases limit - at,
    {
        n = n + 1;
        at = at + 1;
    }
    n
}

/// The length of the run of one colour from `pos` downward.
fn count_down(image: &Image, along_row: bool, line: usize, pos: i64, dark: bool) -> (n: i64)
    requires
        image.is_gray(),
        -0x1_0000_0000 <= pos <= 0x1_0000_0000,
    ensures
        n == run_down(image.data@, image.width as int, image.height as int, along_row, line as int, pos as int, dark),
        0 <= n,
        n == 0 || n <= pos + 1,
{
    let ghost w = image.width as int;
    let ghost h = image.height as int;
    let mut n: i64 = 0;
    let mut at: i64 = pos;
    while at >= 0 && colour_at(image, along_row, line, at, dark)
        invariant
            image.is_gray(),
            w == image.width,
            h == image.height,
            at == pos - n,
            0 <= n,
            n == 0 || at >= -1,
            -0x1_0000_0000 <= pos <= 0x1_0000_0000,
            run_down(image.data@, w, h, along_row, line as int, pos as int, dark) == n + run_down(
                image.data@,
                w,
                h,
                along_row,
                line as int,
                at as int,
                dark,
            ),
        decreases at + 1,
    {
        n = n + 1;
        at = at - 1;
    }
    n
}

/// Whether a run takes its share of the pattern.
fn check_share(len: i64, weight: i64, total: i64, eps: Tolerance) -> (ok: bool)
    requires
        0 <= len <= total <= 0x8_0000_0000,
        1 <= weight <= 3,
    ensures
        ok == share_ok(len as int, weight as int, total as int, eps),
{
    assert(0 <= weight * total <= 3 * 0x8_0000_0000) by (nonlinear_arith)
        requires
            0 <= total <= 0x8_0000_0000,
            1 <= weight <= 3,
    ;
    let off: i128 = 7 * (len as i128) - (weight as i128) * (total as i128);
    let size: i128 = if off < 0 { -off } else { off };
    assert(size * eps.den <= 0x40_0000_0000 * 0xffff_ffff) by (nonlinear_arith)
        requires
            0 <= size <= 0x40_0000_0000,
            0 <= eps.den <= 0xffff_ffff,
    ;
    assert(7 * total * eps.num <= 0x40_0000_0000 * 0xffff_ffff) by (nonlinear_arith)
        requires
            0 <= 7 * total <= 0x40_0000_0000,
            0 <= eps.num <= 0xffff_ffff,
    ;
    size * (eps.den as i128) <= 7 * (total as i128) * (eps.num as i128)
}

/// Whether the pixel at `pos` of a line is the middle of a finder pattern
/// along the line.
fn check_pattern(image: &Image, along_row: bool, line: usize, pos: usize, eps: Tolerance) -> (ok: bool)
    requires
        image.is_gray(),
        pos <= MAX_PIXELS,
    ensures
        ok == pattern_at(
            image.data@,
            image.width as int,
            image.height as int,
            along_row,
            line as int,
            pos as int,
            eps,
        ),
{
    proof {
        let w = image.width as int;
        let h = image.height as int;
        assert(w <= w * h && h <= w * h) by (nonlinear_arith)
            requires
                0 < w,
                0 < h,
        ;
    }
    let p: i64 = pos as i64;
    let before: i64 = count_down(image, along_row, line, p, true);
    let after: i64 = count_up(image, along_row, line, p, true);
    let l2: i64 = count_down(image, along_row, line, p - before, false);
    let l1: i64 = count_down(image, along_row, line, p - before - l2, true);
    let l4: i64 = count_up(image, along_row, line, p + after, false);
    let l5: i64 = count_up(image, along_row, line, p + after + l4, true);
    if before < 1 || !(after == before || after == before + 1) || l1 <= 0 || l2 <= 0 || l4 <= 0 || l5 <= 0 {
        return false;
    }
    let l3: i64 = before + after - 1;
    let total: i64 = l1 + l2 + l3 + l4 + l5;
    check_share(l1, 1, total, eps) && check_share(l2, 1, total, eps) && check_share(l3, 3, total, eps)
        && check_share(l4, 1, total, eps) && check_share(l5, 1, total, eps)
}

/// The search for the quadrangle of a code by its finder patterns.
#[derive(Clone, Copy, Debug, PartialEq, Eq, Structural)]
pub struct QRCodeDetector {
    /// The tolerance of the ratio along rows.
    pub eps_x: Tolerance,
    /// The tolerance of the ratio along columns.
    pub eps_y: Tolerance,
}

impl QRCodeDetector {
    /// A detector with the customary tolerances: one fifth along rows, one
    /// tenth along columns.
    pub fn new() -> (d: QRCodeDetector)
        ensures
            d.eps_x == (Tolerance { num: 1, den: 5 }),
            d.eps_y == (Tolerance { num: 1, den: 10 }),
    {
        QRCodeDetector { eps_x: Tolerance { num: 1, den: 5 }, eps_y: Tolerance { num: 1, den: 10 } }
    }

    /// Sets the tolerance along rows.
    pub fn set_eps_x(&mut self, eps_x: Tolerance)
        ensures
            final(self).eps_x == eps_x,
            final(self).eps_y == old(self).eps_y,
    {
        self.eps_x = eps_x;
    }

    /// Sets the tolerance along columns.
    pub fn set_eps_y(&mut self, eps_y: Tolerance)
        ensures
            final(self).eps_y == eps_y,
            final(self).eps_x == old(self).eps_x,
    {
        self.eps_y = eps_y;
    }

    /// Looks for the quadrangle in `img` and puts its four corners into
    /// `points`; returns whether there is one. Where there is none,
    /// `points` comes back empty. Refused, with nothing changed, where the
    /// image is not one that detection works on.
    pub fn detect(&self, img: &Image, points: &mut Vec<Point>) -> (res: Result<bool, DetectError>)
        ensures
            res.is_ok() <==> img.is_gray(),
            res.is_err() ==> res == Err::<bool, DetectError>(DetectError::InvalidInput) && final(points)@
                == old(points)@,
            res matches Ok(found) ==> match quadrangle(
                img.data@,
                img.width as int,
                img.height as int,
                self.eps_x,
                self.eps_y,
            ) {
                Some(q) => found && final(points)@ == q,
                None => !found && final(points)@.len() == 0,
            },
    {
        detect_qr_code(img, points, self.eps_x, self.eps_y)
    }
}

/// Looks for the quadrangle of a code in `image`, as
/// `QRCodeDetector::detect` does, with the tolerances given.
pub fn detect_qr_code(image: &Image, points: &mut Vec<Point>, eps_x: Tolerance, eps_y: Tolerance) -> (res:
    Result<bool, DetectError>)
    ensures
        res.is_ok() <==> image.is_gray(),
        res.is_err() ==> res == Err::<bool, DetectError>(DetectError::InvalidInput) && final(points)@ == old(points)@,
        res matches Ok(found) ==> match quadrangle(
            image.data@,
            image.width as int,
            image.height as int,
            eps_x,
            eps_y,
        ) {
            Some(q) => found && final(points)@ == q,
            None => !found && final(points)@.len() == 0,
        },
{
    if !image.check_gray() {
        return Err(DetectError::InvalidInput);
    }
    let w: usize = image.width;
    let h: usize = image.height;
    let total: usize = w * h;
    let mut span: Option<Span> = None;
    let mut k: usize = 0;
    while k < total
        invariant
            k <= total,
            image.is_gray(),
            w == image.width,
            h == image.height,
            total == w * h,
            total <= MAX_PIXELS,
            span == finder_span(image.data@, w as int, h as int, eps_x, eps_y, k as int),
            span matches Some(b) ==> b.right < w && b.bottom < h && b.left <= b.right && b.top <= b.bottom,
        decreases total - k,
    {
        let row: usize = k / w;
        let col: usize = k % w;
        proof {
            vstd::arithmetic::div_mod::lemma_fundamental_div_mod(k as int, w as int);
            assert(row < h && row <= k) by (nonlinear_arith)
                requires
                    k == w * row + col,
                    0 <= col < w,
                    k < w * h,
                    0 <= row,
            ;
        }
        if check_pattern(image, true, row, col, eps_x) && check_pattern(image, false, col, row, eps_y) {
            span = Some(
                match span {
                    None => Span { left: col, top: row, right: col, bottom: row },
                    Some(b) => Span {
                        left: if col < b.left { col } else { b.left },
                        top: if row < b.top { row } else { b.top },
                        right: if col > b.right { col } else { b.right },
                        bottom: if row > b.bottom { row } else { b.bottom },
                    },
                },
            );
        }
        k += 1;
    }
    proof {
        assert(w <= w * h && h <= w * h) by (nonlinear_arith)
            requires
                0 < w,
                0 < h,
        ;
    }
    match span {
        Some(b) => {
            if b.left < b.right && b.top < b.bottom {
                let mut out: Vec<Point> = Vec::new();
                out.push(Point { x: b.left as i32, y: b.top as i32 });
                out.push(Point { x: b.right as i32, y: b.top as i32 });
                out.push(Point { x: b.right as i32, y: b.bottom as i32 });
                out.push(Point { x: b.left as i32, y: b.bottom as i32 });
                assert(out@ =~= quadrangle(image.data@, w as int, h as int, eps_x, eps_y)->Some_0);
                *points = out;
                Ok(true)
            } else {
                *points = Vec::new();
                Ok(false)
            }
        },
        None => {
            *points = Vec::new();
            Ok(false)
        },
    }
}

} // verus!
