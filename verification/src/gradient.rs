//! Gradients of an image: for each pixel the strength of the gradient and
//! the bin of its orientation.

use vstd::prelude::*;
use vstd::arithmetic::div_mod::lemma_fundamental_div_mod_converse;
use crate::error::DetectError;
use crate::fixed::{isqrt, is_sqrt_floor, sqrt_floor};
use crate::geometry::Size;
use crate::hog::MAX_BINS;
use crate::image::{Image, MAX_PIXELS};

verus! {

/// The coordinate `v` moved into `0..n`: outside the image, the image's
/// border repeats.
pub open spec fn clamped(v: int, n: int) -> int {
    if v < 0 {
        0
    } else if v >= n {
        n - 1
    } else {
        v
    }
}

/// The sample at `row`, `col`, which may lie outside the image.
pub open spec fn sample(data: Seq<u8>, width: int, height: int, row: int, col: int) -> int {
    data[clamped(row, height) * width + clamped(col, width)] as int
}

/// The horizontal difference at `row`, `col`.
pub open spec fn grad_x(data: Seq<u8>, width: int, height: int, row: int, col: int) -> int {
    sample(data, width, height, row, col + 1) - sample(data, width, height, row, col - 1)
}

/// The vertical difference at `row`, `col`.
pub open spec fn grad_y(data: Seq<u8>, width: int, height: int, row: int, col: int) -> int {
    sample(data, width, height, row + 1, col) - sample(data, width, height, row - 1, col)
}

/// The length of the gradient `(dx, dy)`, in units of 1/256, rounded down.
pub open spec fn magnitude(dx: int, dy: int) -> int {
    sqrt_floor((dx * dx + dy * dy) * 0x1_0000)
}

/// A direction in the plane, given by a vector along it. Only the angle of
/// the vector counts, not its length.
#[derive(Clone, Copy, Debug, PartialEq, Eq, Structural)]
pub struct Direction {
    pub x: i32,
    pub y: i32,
}

/// The direction `b` comes before the vector `(x, y)`, or is the same, as
/// the angle grows from the positive x axis: the vector lies to the left of
/// `b` or along it.
pub open spec fn at_or_past(b: Direction, x: int, y: int) -> bool {
    b.x * y - b.y * x >= 0
}

/// How many of the first `upto` boundaries come before the vector
/// `(x, y)`, or are the same.
pub open spec fn passed(bounds: Seq<Direction>, x: int, y: int, upto: int) -> int
    decreases upto,
{
    if upto <= 0 {
        0
    } else {
        passed(bounds, x, y, upto - 1) + if at_or_past(bounds[upto - 1], x, y) {
            1int
        } else {
            0int
        }
    }
}

/// The bin of the orientation of the gradient `(dx, dy)`.
///
/// A gradient and its opposite have the same orientation: the gradient is
/// taken in the half turn from the positive x axis, which belongs to it, to
/// the negative x axis, which does not. The boundaries divide that half
/// turn into sectors, and the bin is the number of boundaries that come
/// before the gradient or are the same as it: bin 0 from the positive x
/// axis to the first boundary, and so on. Angles are compared exactly, by
/// the sign of a cross product. A gradient of zero is in bin 0.
pub open spec fn orientation(dx: int, dy: int, bounds: Seq<Direction>) -> int {
    let flip = dy < 0 || (dy == 0 && dx < 0);
    let fx = if flip { -dx } else { dx };
    let fy = if flip { -dy } else { dy };
    if fx == 0 && fy == 0 {
        0
    } else {
        passed(bounds, fx, fy, bounds.len() as int)
    }
}

/// The boundaries divide the half turn into sectors: there are at most 254
/// of them, each lies strictly inside the half turn, and each comes
/// strictly before the next.
pub open spec fn bounds_ok(bounds: Seq<Direction>) -> bool {
    &&& bounds.len() < MAX_BINS
    &&& forall|k: int| 0 <= k < bounds.len() ==> (#[trigger] bounds[k]).y > 0
    &&& forall|k: int|
        0 <= k < bounds.len() - 1 ==> (#[trigger] bounds[k]).x * bounds[k + 1].y - bounds[k].y * bounds[k
            + 1].x > 0
}

/// The boundaries of nine bins of equal angles: the directions at 20, 40,
/// ..., 160 degrees, their cosines and sines in units of 1/65536, rounded
/// to the nearest.
pub open spec fn equal_angles_nine() -> Seq<Direction> {
    seq![
        Direction { x: 61584, y: 22415 },
        Direction { x: 50203, y: 42126 },
        Direction { x: 32768, y: 56756 },
        Direction { x: 11380, y: 64540 },
        Direction { x: -11380i32, y: 64540 },
        Direction { x: -32768i32, y: 56756 },
        Direction { x: -50203i32, y: 42126 },
        Direction { x: -61584i32, y: 22415 },
    ]
}

/// Boundary `k` of `nbins` bins that divide the unit diamond evenly: the
/// direction of the point at `(k + 1) / nbins` of the way along the diamond
/// from `(1, 0)` over `(0, 1)` to `(-1, 0)`.
pub open spec fn diamond_bound(nbins: int, k: int) -> Direction {
    let x = nbins - 2 * (k + 1);
    Direction { x: x as i32, y: (nbins - if x < 0 { -x } else { x }) as i32 }
}

/// The boundaries of `nbins` bins that divide the unit diamond evenly.
/// These are not bins of equal angles, but their boundaries are exact.
pub open spec fn diamond_bounds(nbins: int) -> Seq<Direction> {
    Seq::new(
        if nbins >= 1 {
            (nbins - 1) as nat
        } else {
            0nat
        },
        |k: int| diamond_bound(nbins, k),
    )
}

/// The boundaries that a descriptor of `nbins` bins has where none are
/// given: those of equal angles for nine bins; those of the diamond for
/// any other number between one and 255; none otherwise.
pub open spec fn standard_directions(nbins: int) -> Seq<Direction> {
    if nbins == 9 {
        equal_angles_nine()
    } else if 1 <= nbins <= MAX_BINS {
        diamond_bounds(nbins)
    } else {
        Seq::empty()
    }
}

/// Where a boundary comes before the next, and the next before a vector or
/// along it, the boundary comes before the vector or along it.
pub proof fn lemma_order_carries(a: Direction, b: Direction, x: int, y: int)
    requires
        b.y > 0,
        y >= 0,
        a.x * b.y - a.y * b.x > 0,
        a.y > 0,
        at_or_past(b, x, y),
    ensures
        at_or_past(a, x, y),
{
    let ca = a.x * y - a.y * x;
    let cb = b.x * y - b.y * x;
    let cab = a.x * b.y - a.y * b.x;
    assert(b.y * ca == a.y * cb + y * cab) by (nonlinear_arith)
        requires
            ca == a.x * y - a.y * x,
            cb == b.x * y - b.y * x,
            cab == a.x * b.y - a.y * b.x,
    ;
    assert(ca >= 0) by (nonlinear_arith)
        requires
            b.y * ca == a.y * cb + y * cab,
            b.y > 0,
            a.y > 0,
            cb >= 0,
            y >= 0,
            cab > 0,
    ;
}

/// An image with a margin on each side, and the boundaries of the
/// orientation bins in which its gradients are counted.
pub struct Field {
    /// The samples of the image.
    pub pixels: Seq<u8>,
    /// The size of the image.
    pub image_cols: int,
    pub image_rows: int,
    /// The margins to the left of the image and above it.
    pub margin_left: int,
    pub margin_top: int,
    /// The size of the image with its margins.
    pub cols: int,
    pub rows: int,
    /// The boundaries between the orientation bins.
    pub bounds: Seq<Direction>,
}

impl Field {
    pub open spec fn pixels(self) -> Seq<u8> {
        self.pixels
    }

    pub open spec fn image_width(self) -> int {
        self.image_cols
    }

    pub open spec fn image_height(self) -> int {
        self.image_rows
    }

    pub open spec fn width(self) -> int {
        self.cols
    }

    pub open spec fn height(self) -> int {
        self.rows
    }

    pub open spec fn left(self) -> int {
        self.margin_left
    }

    pub open spec fn top(self) -> int {
        self.margin_top
    }

    /// The number of orientation bins: one more than there are boundaries.
    pub open spec fn nbins(self) -> int {
        self.bounds.len() as int + 1
    }

    /// The strength of the gradient at `row`, `col` of the field.
    pub open spec fn strength(self, row: int, col: int) -> int {
        magnitude(
            grad_x(self.pixels, self.image_cols, self.image_rows, row - self.margin_top, col - self.margin_left),
            grad_y(self.pixels, self.image_cols, self.image_rows, row - self.margin_top, col - self.margin_left),
        )
    }

    /// The orientation bin of the gradient at `row`, `col` of the field.
    pub open spec fn direction(self, row: int, col: int) -> int {
        orientation(
            grad_x(self.pixels, self.image_cols, self.image_rows, row - self.margin_top, col - self.margin_left),
            grad_y(self.pixels, self.image_cols, self.image_rows, row - self.margin_top, col - self.margin_left),
            self.bounds,
        )
    }

    /// The image is not empty and lies inside the field, which has at most
    /// `MAX_PIXELS` pixels, and the boundaries divide the half turn into
    /// sectors.
    pub open spec fn wf(self) -> bool {
        &&& 0 < self.image_cols
        &&& 0 < self.image_rows
        &&& 0 <= self.margin_left
        &&& 0 <= self.margin_top
        &&& self.margin_left + self.image_cols <= self.cols
        &&& self.margin_top + self.image_rows <= self.rows
        &&& self.cols * self.rows <= MAX_PIXELS
        &&& self.pixels.len() == self.image_cols * self.image_rows
        &&& bounds_ok(self.bounds)
    }

    /// The sizes of a well-formed field.
    pub proof fn lemma_sizes(self)
        requires
            self.wf(),
        ensures
            0 < self.width() <= MAX_PIXELS,
            0 < self.height() <= MAX_PIXELS,
            self.width() * self.height() <= MAX_PIXELS,
            0 < self.nbins() <= MAX_BINS,
            0 <= self.left() <= self.width(),
            0 <= self.top() <= self.height(),
    {
        let w = self.cols;
        let h = self.rows;
        assert(w <= w * h && h <= w * h) by (nonlinear_arith)
            requires
                0 < w,
                0 < h,
        ;
    }
}

/// The field of `image` with the margins `padding_tl`, to the left and
/// above, and `padding_br`, to the right and below.
pub open spec fn field_of(image: Image, bounds: Seq<Direction>, padding_tl: Size, padding_br: Size) -> Field {
    Field {
        pixels: image.data@,
        image_cols: image.width as int,
        image_rows: image.height as int,
        margin_left: padding_tl.width as int,
        margin_top: padding_tl.height as int,
        cols: padding_tl.width + image.width + padding_br.width,
        rows: padding_tl.height + image.height + padding_br.height,
        bounds,
    }
}

/// The gradients of an image to which a margin has been added on each side.
pub struct GradientMap {
    width: usize,
    height: usize,
    left: usize,
    top: usize,
    bins: usize,
    mag: Vec<u32>,
    bin: Vec<u8>,
    source: Ghost<Field>,
}

impl GradientMap {
    /// The field whose gradients the map holds.
    pub closed spec fn field(&self) -> Field {
        self.source@
    }

    /// The width of the map: that of the image and of its margins.
    pub open spec fn width(&self) -> int {
        self.field().cols
    }

    /// The height of the map.
    pub open spec fn height(&self) -> int {
        self.field().rows
    }

    /// The number of orientation bins.
    pub open spec fn nbins(&self) -> int {
        self.field().nbins()
    }

    /// The map holds the gradients of its field.
    pub closed spec fn wf(&self) -> bool {
        &&& self.source@.wf()
        &&& self.source@.cols == self.width
        &&& self.source@.rows == self.height
        &&& self.source@.margin_left == self.left
        &&& self.source@.margin_top == self.top
        &&& self.source@.bounds.len() + 1 == self.bins
        &&& self.mag@.len() == self.width * self.height
        &&& self.bin@.len() == self.width * self.height
        &&& forall|k: int|
            0 <= k < self.width * self.height ==> #[trigger] self.mag@[k] as int == self.source@.strength(
                k / (self.width as int),
                k % (self.width as int),
            )
        &&& forall|k: int|
            0 <= k < self.width * self.height ==> #[trigger] self.bin@[k] as int == self.source@.direction(
                k / (self.width as int),
                k % (self.width as int),
            )
    }

    /// The field of a well-formed map is well formed.
    pub proof fn lemma_sizes(&self)
        requires
            self.wf(),
        ensures
            self.field().wf(),
            0 < self.width() <= MAX_PIXELS,
            0 < self.height() <= MAX_PIXELS,
            self.width() * self.height() <= MAX_PIXELS,
            0 < self.nbins() <= MAX_BINS,
            0 <= self.field().left() <= self.width(),
            0 <= self.field().top() <= self.height(),
    {
        self.source@.lemma_sizes();
    }

    /// The margin to the left of the image.
    pub fn left_margin(&self) -> (m: usize)
        requires
            self.wf(),
        ensures
            m == self.field().left(),
    {
        self.left
    }

    /// The margin above the image.
    pub fn top_margin(&self) -> (m: usize)
        requires
            self.wf(),
        ensures
            m == self.field().top(),
    {
        self.top
    }

    /// The number of columns of the map.
    pub fn cols(&self) -> (w: usize)
        requires
            self.wf(),
        ensures
            w == self.width(),
    {
        self.width
    }

    /// The number of rows of the map.
    pub fn rows(&self) -> (h: usize)
        requires
            self.wf(),
        ensures
            h == self.height(),
    {
        self.height
    }

    /// The number of orientation bins.
    pub fn bin_count(&self) -> (n: usize)
        requires
            self.wf(),
        ensures
            n == self.nbins(),
    {
        self.bins
    }

    /// The strength and the orientation bin of the gradient at `row`,
    /// `col` of the map.
    pub fn at(&self, row: usize, col: usize) -> (g: (u32, u8))
        requires
            self.wf(),
            row < self.height(),
            col < self.width(),
        ensures
            g.0 == self.field().strength(row as int, col as int),
            g.1 == self.field().direction(row as int, col as int),
            g.0 <= 0x2_0000,
            g.1 < self.nbins(),
    {
        proof {
            let w = self.width as int;
            let h = self.height as int;
            assert(0 <= row * w + col < w * h) by (nonlinear_arith)
                requires
                    0 <= row < h,
                    0 <= col < w,
            ;
            lemma_fundamental_div_mod_converse(row * w + col, w, row as int, col as int);
            let f = self.source@;
            let dx = grad_x(f.pixels, f.image_cols, f.image_rows, row - f.margin_top, col - f.margin_left);
            let dy = grad_y(f.pixels, f.image_cols, f.image_rows, row - f.margin_top, col - f.margin_left);
            lemma_magnitude_bound(dx, dy);
            lemma_orientation_bound(dx, dy, f.bounds);
        }
        let k: usize = row * self.width + col;
        (self.mag[k], self.bin[k])
    }

    /// The gradients of `image`, in the orientation bins that `bounds`
    /// divide the half turn into, over the image and the margins
    /// `padding_tl`, to the left and above, and `padding_br`, to the right
    /// and below. Refused where the image is not one that detection works
    /// on, a margin is negative, the image with its margins has more than
    /// `MAX_PIXELS` pixels, or the boundaries do not divide the half turn
    /// into sectors.
    pub fn compute(image: &Image, bounds: &Vec<Direction>, padding_tl: Size, padding_br: Size) -> (res:
        Result<GradientMap, DetectError>)
        ensures
            res.is_ok() <==> gradient_input_ok(*image, bounds@, padding_tl, padding_br),
            res matches Err(e) ==> e == DetectError::InvalidInput,
            res matches Ok(m) ==> m.wf() && m.field() == field_of(*image, bounds@, padding_tl, padding_br),
    {
        if !image.check_gray() || !check_bounds(bounds) {
            return Err(DetectError::InvalidInput);
        }
        if padding_tl.width < 0 || padding_tl.height < 0 || padding_br.width < 0 || padding_br.height
            < 0 {
            return Err(DetectError::InvalidInput);
        }
        let iw: usize = image.width;
        let ih: usize = image.height;
        proof {
            assert(iw <= iw * ih && ih <= iw * ih) by (nonlinear_arith)
                requires
                    0 < iw,
                    0 < ih,
            ;
        }
        let w64: u64 = padding_tl.width as u64 + iw as u64 + padding_br.width as u64;
        let h64: u64 = padding_tl.height as u64 + ih as u64 + padding_br.height as u64;
        assert(w64 * h64 <= 0x1_4000_0000 * 0x1_4000_0000) by (nonlinear_arith)
            requires
                w64 <= 0x1_4000_0000,
                h64 <= 0x1_4000_0000,
        ;
        if w64 as u128 * h64 as u128 > MAX_PIXELS as u128 {
            return Err(DetectError::InvalidInput);
        }
        proof {
            assert(w64 <= w64 * h64 && h64 <= w64 * h64) by (nonlinear_arith)
                requires
                    0 < w64,
                    0 < h64,
            ;
        }
        let width: usize = w64 as usize;
        let height: usize = h64 as usize;
        let left: usize = padding_tl.width as usize;
        let top: usize = padding_tl.height as usize;
        let total: usize = width * height;
        let ghost data = image.data@;
        let mut mag: Vec<u32> = Vec::new();
        let mut bin: Vec<u8> = Vec::new();
        let mut k: usize = 0;
        while k < total
            invariant
                k <= total,
                total == width * height,
                0 < width <= MAX_PIXELS,
                0 < height <= MAX_PIXELS,
                total <= MAX_PIXELS,
                image.is_gray(),
                iw == image.width,
                ih == image.height,
                data == image.data@,
                left + iw <= width,
                top + ih <= height,
                bounds@.len() < MAX_BINS,
                mag@.len() == k,
                bin@.len() == k,
                forall|t: int|
                    0 <= t < k ==> #[trigger] mag@[t] as int == magnitude(
                        grad_x(data, iw as int, ih as int, t / (width as int) - top, t % (width as int) - left),
                        grad_y(data, iw as int, ih as int, t / (width as int) - top, t % (width as int) - left),
                    ),
                forall|t: int|
                    0 <= t < k ==> #[trigger] bin@[t] as int == orientation(
                        grad_x(data, iw as int, ih as int, t / (width as int) - top, t % (width as int) - left),
                        grad_y(data, iw as int, ih as int, t / (width as int) - top, t % (width as int) - left),
                        bounds@,
                    ),
            decreases total - k,
        {
            let row: usize = k / width;
            let col: usize = k % width;
            proof {
                vstd::arithmetic::div_mod::lemma_fundamental_div_mod(k as int, width as int);
                assert(row < height && row <= k) by (nonlinear_arith)
                    requires
                        k == width * row + col,
                        0 <= col < width,
                        k < width * height,
                        0 <= row,
                ;
            }
            let r: i64 = row as i64 - top as i64;
            let c: i64 = col as i64 - left as i64;
            let dx: i32 = fetch(image, r, c + 1) as i32 - fetch(image, r, c - 1) as i32;
            let dy: i32 = fetch(image, r + 1, c) as i32 - fetch(image, r - 1, c) as i32;
            mag.push(strength_of(dx, dy));
            bin.push(bin_of(dx, dy, bounds));
            k += 1;
        }
        Ok(
            GradientMap {
                width,
                height,
                left,
                top,
                bins: bounds.len() + 1,
                mag,
                bin,
                source: Ghost(field_of(*image, bounds@, padding_tl, padding_br)),
            },
        )
    }
}

/// The image is one that detection works on, the margins are not negative,
/// the image with its margins has at most `MAX_PIXELS` pixels, and the
/// boundaries divide the half turn into sectors.
pub open spec fn gradient_input_ok(
    image: Image,
    bounds: Seq<Direction>,
    padding_tl: Size,
    padding_br: Size,
) -> bool {
    &&& image.is_gray()
    &&& bounds_ok(bounds)
    &&& padding_tl.width >= 0
    &&& padding_tl.height >= 0
    &&& padding_br.width >= 0
    &&& padding_br.height >= 0
    &&& (padding_tl.width + image.width + padding_br.width) * (padding_tl.height + image.height
        + padding_br.height) <= MAX_PIXELS
}

pub proof fn lemma_magnitude_bound(dx: int, dy: int)
    requires
        -255 <= dx <= 255,
        -255 <= dy <= 255,
    ensures
        0 <= magnitude(dx, dy) <= 0x2_0000,
        is_sqrt_floor((dx * dx + dy * dy) * 0x1_0000, magnitude(dx, dy)),
{
    let n = (dx * dx + dy * dy) * 0x1_0000;
    assert(0 <= dx * dx <= 65025 && 0 <= dy * dy <= 65025) by (nonlinear_arith)
        requires
            -255 <= dx <= 255,
            -255 <= dy <= 255,
    ;
    lemma_sqrt_exists(n);
    let r = sqrt_floor(n);
    assert(is_sqrt_floor(n, r));
    assert(r <= 0x2_0000) by (nonlinear_arith)
        requires
            0 <= r,
            r * r <= n,
            n <= 0x2_0000_0000,
    ;
}

/// Every number from zero on has a rounded-down square root.
pub proof fn lemma_sqrt_exists(n: int)
    requires
        0 <= n,
    ensures
        is_sqrt_floor(n, sqrt_floor(n)),
    decreases n,
{
    if n == 0 {
        assert(is_sqrt_floor(0, 0));
    } else {
        lemma_sqrt_exists(n - 1);
        let r = sqrt_floor(n - 1);
        assert(is_sqrt_floor(n - 1, r));
        if n < (r + 1) * (r + 1) {
            assert(is_sqrt_floor(n, r));
        } else {
            assert((r + 2) * (r + 2) > (r + 1) * (r + 1)) by (nonlinear_arith)
                requires
                    r >= 0,
            ;
            assert(is_sqrt_floor(n, r + 1));
        }
    }
}

proof fn lemma_passed_bound(bounds: Seq<Direction>, x: int, y: int, upto: int)
    requires
        0 <= upto,
    ensures
        0 <= passed(bounds, x, y, upto) <= upto,
    decreases upto,
{
    if upto > 0 {
        lemma_passed_bound(bounds, x, y, upto - 1);
    }
}

/// A bin is one of the bins.
pub proof fn lemma_orientation_bound(dx: int, dy: int, bounds: Seq<Direction>)
    ensures
        0 <= orientation(dx, dy, bounds) <= bounds.len(),
{
    let flip = dy < 0 || (dy == 0 && dx < 0);
    let fx = if flip { -dx } else { dx };
    let fy = if flip { -dy } else { dy };
    lemma_passed_bound(bounds, fx, fy, bounds.len() as int);
}

proof fn lemma_passed_prefix(bounds: Seq<Direction>, x: int, y: int, upto: int, j: int)
    requires
        bounds_ok(bounds),
        0 <= j < upto <= bounds.len(),
        y >= 0,
    ensures
        at_or_past(bounds[j], x, y) <==> j < passed(bounds, x, y, upto),
    decreases upto,
{
    let last = upto - 1;
    lemma_passed_bound(bounds, x, y, last);
    if at_or_past(bounds[last], x, y) && last > 0 {
        let before = last - 1;
        assert(bounds[before].x * bounds[before + 1].y - bounds[before].y * bounds[before + 1].x > 0);
        assert(bounds[before].y > 0 && bounds[last].y > 0);
        lemma_order_carries(bounds[before], bounds[last], x, y);
        lemma_passed_prefix(bounds, x, y, last, before);
    }
    if j < last {
        lemma_passed_prefix(bounds, x, y, last, j);
    }
}

/// With boundaries that divide the half turn into sectors, the bin of a
/// gradient is the sector that it lies in: the boundaries before the bin
/// come before the gradient or are the same, and those from the bin on
/// come after it.
pub proof fn lemma_bin_is_sector(dx: int, dy: int, bounds: Seq<Direction>, j: int)
    requires
        bounds_ok(bounds),
        dx != 0 || dy != 0,
        0 <= j < bounds.len(),
    ensures
        ({
            let flip = dy < 0 || (dy == 0 && dx < 0);
            let fx = if flip { -dx } else { dx };
            let fy = if flip { -dy } else { dy };
            at_or_past(bounds[j], fx, fy) <==> j < orientation(dx, dy, bounds)
        }),
{
    let flip = dy < 0 || (dy == 0 && dx < 0);
    let fx = if flip { -dx } else { dx };
    let fy = if flip { -dy } else { dy };
    lemma_passed_prefix(bounds, fx, fy, bounds.len() as int, j);
}

/// The boundaries that a descriptor has where none are given divide the
/// half turn into as many sectors as there are bins.
pub proof fn lemma_standard_directions_ok(nbins: int)
    requires
        1 <= nbins <= MAX_BINS,
    ensures
        bounds_ok(standard_directions(nbins)),
        standard_directions(nbins).len() + 1 == nbins,
{
    let bounds = standard_directions(nbins);
    if nbins == 9 {
        assert(bounds.len() == 8);
        assert(bounds[0] == Direction { x: 61584, y: 22415 });
        assert(bounds[1] == Direction { x: 50203, y: 42126 });
        assert(bounds[2] == Direction { x: 32768, y: 56756 });
        assert(bounds[3] == Direction { x: 11380, y: 64540 });
        assert(bounds[4] == Direction { x: -11380i32, y: 64540 });
        assert(bounds[5] == Direction { x: -32768i32, y: 56756 });
        assert(bounds[6] == Direction { x: -50203i32, y: 42126 });
        assert(bounds[7] == Direction { x: -61584i32, y: 22415 });
        assert forall|k: int| 0 <= k < bounds.len() - 1 implies (#[trigger] bounds[k]).x * bounds[k + 1].y
            - bounds[k].y * bounds[k + 1].x > 0 by {
            assert(k == 0 || k == 1 || k == 2 || k == 3 || k == 4 || k == 5 || k == 6);
        }
    } else {
        assert forall|k: int| 0 <= k < bounds.len() implies (#[trigger] bounds[k]).y > 0 by {
            assert(bounds[k] == diamond_bound(nbins, k));
        }
        assert forall|k: int| 0 <= k < bounds.len() - 1 implies (#[trigger] bounds[k]).x * bounds[k + 1].y
            - bounds[k].y * bounds[k + 1].x > 0 by {
            assert(bounds[k] == diamond_bound(nbins, k));
            assert(bounds[k + 1] == diamond_bound(nbins, k + 1));
            let u = nbins - 2 * (k + 1);
            let v = u - 2;
            if u >= 2 {
                assert(u * (nbins - v) - (nbins - u) * v == 2 * nbins) by (nonlinear_arith)
                    requires
                        v == u - 2,
                ;
            } else if u <= 0 {
                assert(u * (nbins + v) - (nbins + u) * v == 2 * nbins) by (nonlinear_arith)
                    requires
                        v == u - 2,
                ;
            } else {
                assert(u == 1 && v == -1);
                assert(u * (nbins - 1) - (nbins - u) * v == 2 * (nbins - 1)) by (nonlinear_arith)
                    requires
                        u == 1,
                        v == -1,
                ;
            }
        }
    }
}

/// Whether the boundaries divide the half turn into sectors.
pub fn check_bounds(bounds: &Vec<Direction>) -> (ok: bool)
    ensures
        ok == bounds_ok(bounds@),
{
    if bounds.len() >= MAX_BINS as usize {
        return false;
    }
    let mut k: usize = 0;
    while k < bounds.len()
        invariant
            k <= bounds@.len(),
            forall|t: int| 0 <= t < k ==> (#[trigger] bounds@[t]).y > 0,
            forall|t: int|
                0 <= t < k - 1 ==> (#[trigger] bounds@[t]).x * bounds@[t + 1].y - bounds@[t].y * bounds@[t
                    + 1].x > 0,
        decreases bounds@.len() - k,
    {
        let b: Direction = bounds[k];
        if b.y <= 0 {
            return false;
        }
        if k > 0 {
            let a: Direction = bounds[k - 1];
            assert(-0x8000_0000 * 0x8000_0000 <= a.x * b.y <= 0x8000_0000 * 0x8000_0000 && -0x8000_0000
                * 0x8000_0000 <= a.y * b.x <= 0x8000_0000 * 0x8000_0000) by (nonlinear_arith)
                requires
                    -0x8000_0000 <= a.x <= 0x8000_0000,
                    -0x8000_0000 <= a.y <= 0x8000_0000,
                    -0x8000_0000 <= b.x <= 0x8000_0000,
                    -0x8000_0000 <= b.y <= 0x8000_0000,
            ;
            if (a.x as i128) * (b.y as i128) - (a.y as i128) * (b.x as i128) <= 0 {
                assert(!(bounds@[k - 1].x * bounds@[k - 1 + 1].y - bounds@[k - 1].y * bounds@[k - 1 + 1].x
                    > 0));
                return false;
            }
        }
        k += 1;
    }
    true
}

/// The boundaries that a descriptor of `nbins` bins has where none are
/// given.
pub fn standard_bounds(nbins: i32) -> (bounds: Vec<Direction>)
    ensures
        bounds@ == standard_directions(nbins as int),
{
    let mut bounds: Vec<Direction> = Vec::new();
    if nbins == 9 {
        bounds.push(Direction { x: 61584, y: 22415 });
        bounds.push(Direction { x: 50203, y: 42126 });
        bounds.push(Direction { x: 32768, y: 56756 });
        bounds.push(Direction { x: 11380, y: 64540 });
        bounds.push(Direction { x: -11380i32, y: 64540 });
        bounds.push(Direction { x: -32768i32, y: 56756 });
        bounds.push(Direction { x: -50203i32, y: 42126 });
        bounds.push(Direction { x: -61584i32, y: 22415 });
        assert(bounds@ =~= equal_angles_nine());
        return bounds;
    }
    if nbins < 1 || nbins > MAX_BINS {
        return bounds;
    }
    let mut k: i32 = 0;
    while k < nbins - 1
        invariant
            0 <= k <= nbins - 1,
            1 <= nbins <= MAX_BINS,
            bounds@.len() == k,
            forall|t: int| 0 <= t < k ==> #[trigger] bounds@[t] == diamond_bound(nbins as int, t),
        decreases nbins - 1 - k,
    {
        let x: i32 = nbins - 2 * (k + 1);
        let size: i32 = if x < 0 { -x } else { x };
        bounds.push(Direction { x, y: nbins - size });
        k += 1;
    }
    assert(bounds@ =~= diamond_bounds(nbins as int));
    bounds
}

/// The sample at `row`, `col`, which may lie outside the image.
fn fetch(image: &Image, row: i64, col: i64) -> (v: u8)
    requires
        image.is_gray(),
        -0x1_0000_0000 <= row <= 0x1_0000_0000,
        -0x1_0000_0000 <= col <= 0x1_0000_0000,
    ensures
        v == sample(image.data@, image.width as int, image.height as int, row as int, col as int),
{
    let w: usize = image.width;
    let h: usize = image.height;
    proof {
        assert(w <= w * h && h <= w * h) by (nonlinear_arith)
            requires
                0 < w,
                0 < h,
        ;
    }
    let r: usize = if row < 0 {
        0
    } else if row >= h as i64 {
        h - 1
    } else {
        row as usize
    };
    let c: usize = if col < 0 {
        0
    } else if col >= w as i64 {
        w - 1
    } else {
        col as usize
    };
    assert(0 <= r * w + c < w * h) by (nonlinear_arith)
        requires
            0 <= r < h,
            0 <= c < w,
    ;
    image.data[r * w + c]
}

/// The length of the gradient `(dx, dy)`.
fn strength_of(dx: i32, dy: i32) -> (m: u32)
    requires
        -255 <= dx <= 255,
        -255 <= dy <= 255,
    ensures
        m == magnitude(dx as int, dy as int),
{
    assert(0 <= dx * dx <= 65025 && 0 <= dy * dy <= 65025) by (nonlinear_arith)
        requires
            -255 <= dx <= 255,
            -255 <= dy <= 255,
    ;
    let n: u128 = ((dx * dx + dy * dy) as u128) * 0x1_0000;
    proof {
        lemma_magnitude_bound(dx as int, dy as int);
    }
    isqrt(n) as u32
}

/// The orientation bin of the gradient `(dx, dy)`.
fn bin_of(dx: i32, dy: i32, bounds: &Vec<Direction>) -> (b: u8)
    requires
        -255 <= dx <= 255,
        -255 <= dy <= 255,
        bounds@.len() < MAX_BINS,
    ensures
        b == orientation(dx as int, dy as int, bounds@),
{
    let flip: bool = dy < 0 || (dy == 0 && dx < 0);
    let fx: i32 = if flip { -dx } else { dx };
    let fy: i32 = if flip { -dy } else { dy };
    if fx == 0 && fy == 0 {
        return 0;
    }
    let mut count: u8 = 0;
    let mut k: usize = 0;
    while k < bounds.len()
        invariant
            k <= bounds@.len(),
            bounds@.len() < MAX_BINS,
            -255 <= fx <= 255,
            -255 <= fy <= 255,
            count == passed(bounds@, fx as int, fy as int, k as int),
            count <= k,
        decreases bounds@.len() - k,
    {
        let bound: Direction = bounds[k];
        assert(-0x8000_0000 * 255 <= bound.x * fy <= 0x8000_0000 * 255 && -0x8000_0000 * 255 <= bound.y
            * fx <= 0x8000_0000 * 255) by (nonlinear_arith)
            requires
                -0x8000_0000 <= bound.x <= 0x8000_0000,
                -0x8000_0000 <= bound.y <= 0x8000_0000,
                -255 <= fx <= 255,
                -255 <= fy <= 255,
        ;
        if (bound.x as i64) * (fy as i64) - (bound.y as i64) * (fx as i64) >= 0 {
            count = count + 1;
        }
        k += 1;
    }
    count
}

} // verus!
