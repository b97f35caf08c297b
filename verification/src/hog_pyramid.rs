//! Detection at several scales: the image is shrunk level by level, the
//! window staying as it is, and the hits of each level are carried back to
//! the size of the image.

use vstd::prelude::*;
use vstd::arithmetic::div_mod::{
    lemma_fundamental_div_mod, lemma_fundamental_div_mod_converse, lemma_mod_bound,
};
use crate::error::DetectError;
use crate::fixed::{scaled, MAX_SCALE, ONE};
use crate::geometry::{Rect, Size, SimilarRects};
use crate::gradient::{field_of, gradient_input_ok, sample, GradientMap};
use crate::grouping::{group_rectangles_weights_rejects, grouped, grouped_strongest, same_pairs};
use crate::hog::{HOGDescriptor, HOGDescriptor_DEFAULT_NLEVELS};
use crate::hog_detect::{
    effective_stride, grid_hits, hog_refusal, location_inside, places, scan_grid, Hit,
};
use crate::image::{Image, MAX_PIXELS};
use crate::scanner::level_scale;

verus! {

/// The length `len` of an image side after shrinking by the factor
/// `s / 65536`, rounded down.
pub open spec fn shrunk_len(len: int, s: int) -> int {
    len * 0x1_0000 / s
}

/// The samples of the image shrunk by the factor `s / 65536`: each pixel
/// of the smaller image is the pixel of the image at its coordinates times
/// the factor, rounded down.
pub open spec fn shrunk_data(image: Image, s: int) -> Seq<u8> {
    let w = shrunk_len(image.width as int, s);
    let h = shrunk_len(image.height as int, s);
    Seq::new(
        (w * h) as nat,
        |k: int|
            sample(
                image.data@,
                image.width as int,
                image.height as int,
                (k / w) * s / 0x1_0000,
                (k % w) * s / 0x1_0000,
            ) as u8,
    )
}

/// `small` is `image` shrunk by the factor `s / 65536`.
pub open spec fn is_shrunk(small: Image, image: Image, s: int) -> bool {
    &&& small.channels == 1
    &&& small.width == shrunk_len(image.width as int, s)
    &&& small.height == shrunk_len(image.height as int, s)
    &&& small.data@ == shrunk_data(image, s)
}

/// The image shrunk by the factor `s / 65536`.
pub open spec fn shrunk(image: Image, s: int) -> Image {
    choose|small: Image| is_shrunk(small, image, s)
}

/// A window found at some scale, carried back to the size of the image.
#[derive(Clone, Copy, Debug, PartialEq, Eq, Structural)]
pub struct Found {
    pub rect: Rect,
    pub weight: i64,
}

/// The hit of a level at the scale `s / 65536`, carried back to the size
/// of the image.
pub open spec fn carried(h: Hit, win: Size, s: int) -> Found {
    Found {
        rect: Rect {
            x: scaled(h.location.x as int, s) as i32,
            y: scaled(h.location.y as int, s) as i32,
            width: scaled(win.width as int, s) as i32,
            height: scaled(win.height as int, s) as i32,
        },
        weight: h.weight,
    }
}

/// The level at the scale `s / 65536` is not scanned, nor any after it:
/// it is level 64, or the scale is above 32768, or the shrunk image is
/// empty or, with its margins, too small for the window.
pub open spec fn level_done(d: HOGDescriptor, image: Image, padding: Size, k: int, s: int) -> bool {
    let w = shrunk_len(image.width as int, s);
    let h = shrunk_len(image.height as int, s);
    ||| k >= HOGDescriptor_DEFAULT_NLEVELS
    ||| s > MAX_SCALE
    ||| w <= 0
    ||| h <= 0
    ||| w + 2 * padding.width < d.win_size.width
    ||| h + 2 * padding.height < d.win_size.height
}

/// The windows found at one level.
pub open spec fn level_found(
    d: HOGDescriptor,
    small: Image,
    stride: Size,
    padding: Size,
    hit_threshold: i64,
    s: int,
) -> Seq<Found> {
    let field = field_of(small, d.bin_bounds@, padding, padding);
    let h = grid_hits(
        field,
        d,
        stride,
        hit_threshold,
        places(field.height(), d.win_size.height as int, stride.height as int),
    );
    Seq::new(h.len(), |k: int| carried(h[k], d.win_size, s))
}

/// The windows found at the levels below `upto`, level after level.
pub open spec fn levels_found(
    d: HOGDescriptor,
    image: Image,
    stride: Size,
    padding: Size,
    hit_threshold: i64,
    factor: int,
    upto: int,
) -> Seq<Found>
    decreases upto,
{
    if upto <= 0 {
        Seq::empty()
    } else {
        let s = level_scale(factor, upto - 1);
        levels_found(d, image, stride, padding, hit_threshold, factor, upto - 1) + level_found(
            d,
            shrunk(image, s),
            stride,
            padding,
            hit_threshold,
            s,
        )
    }
}

/// Level `n` is the first that is not scanned.
pub open spec fn is_height(d: HOGDescriptor, image: Image, padding: Size, factor: int, n: int) -> bool {
    &&& 0 <= n
    &&& level_done(d, image, padding, n, level_scale(factor, n))
    &&& forall|k: int| 0 <= k < n ==> !level_done(d, image, padding, k, #[trigger] level_scale(factor, k))
}

/// The number of levels that are scanned.
pub open spec fn height(d: HOGDescriptor, image: Image, padding: Size, factor: int) -> int {
    choose|n: int| is_height(d, image, padding, factor, n)
}

/// The windows found at all levels.
pub open spec fn all_found(
    d: HOGDescriptor,
    image: Image,
    stride: Size,
    padding: Size,
    hit_threshold: i64,
    factor: int,
) -> Seq<Found> {
    levels_found(d, image, stride, padding, hit_threshold, factor, height(d, image, padding, factor))
}

/// There is one first level that is not scanned.
pub proof fn lemma_height_unique(d: HOGDescriptor, image: Image, padding: Size, factor: int, n: int)
    requires
        is_height(d, image, padding, factor, n),
    ensures
        height(d, image, padding, factor) == n,
{
    let m = height(d, image, padding, factor);
    assert(is_height(d, image, padding, factor, m));
    if m < n {
        assert(!level_done(d, image, padding, m, level_scale(factor, m)));
    } else if n < m {
        assert(!level_done(d, image, padding, n, level_scale(factor, n)));
    }
}

/// An image has one shrunk image at each scale.
pub proof fn lemma_shrunk_unique(small: Image, image: Image, s: int)
    requires
        is_shrunk(small, image, s),
    ensures
        shrunk(image, s).width == small.width,
        shrunk(image, s).height == small.height,
        shrunk(image, s).channels == small.channels,
        shrunk(image, s).data@ == small.data@,
{
}

proof fn lemma_shrunk_len(len: int, s: int)
    requires
        0 <= len,
        ONE <= s,
    ensures
        0 <= shrunk_len(len, s) <= len,
{
    lemma_fundamental_div_mod(len * 0x1_0000, s);
    lemma_mod_bound(len * 0x1_0000, s);
    let q = len * 0x1_0000 / s;
    assert(0 <= q <= len) by (nonlinear_arith)
        requires
            len * 0x1_0000 == s * q + (len * 0x1_0000) % s,
            0 <= (len * 0x1_0000) % s < s,
            0x1_0000 <= s,
            0 <= len,
    ;
}

/// `v * s / 65536`, rounded down.
fn stretch(v: usize, s: u64) -> (r: u64)
    requires
        v <= MAX_PIXELS,
        s <= MAX_SCALE,
    ensures
        r == v * s / 0x1_0000,
{
    assert(v * s <= 0x4000_0000 * 0x8000_0000) by (nonlinear_arith)
        requires
            0 <= v <= 0x4000_0000,
            0 <= s <= 0x8000_0000,
    ;
    (v as u64) * s / 0x1_0000
}

/// The image shrunk by the factor `s / 65536`.
fn shrink(image: &Image, s: u64) -> (small: Image)
    requires
        image.is_gray(),
        ONE <= s <= MAX_SCALE,
        shrunk_len(image.width as int, s as int) > 0,
        shrunk_len(image.height as int, s as int) > 0,
    ensures
        is_shrunk(small, *image, s as int),
        small.is_gray(),
        small.width <= image.width,
        small.height <= image.height,
{
    let iw: usize = image.width;
    let ih: usize = image.height;
    proof {
        assert(iw <= iw * ih && ih <= iw * ih) by (nonlinear_arith)
            requires
                0 < iw,
                0 < ih,
        ;
        lemma_shrunk_len(iw as int, s as int);
        lemma_shrunk_len(ih as int, s as int);
    }
    let w: usize = ((iw as u64) * 0x1_0000 / s) as usize;
    let h: usize = ((ih as u64) * 0x1_0000 / s) as usize;
    assert(w * h <= iw * ih) by (nonlinear_arith)
        requires
            0 <= w <= iw,
            0 <= h <= ih,
    ;
    let total: usize = w * h;
    let mut data: Vec<u8> = Vec::new();
    let mut k: usize = 0;
    while k < total
        invariant
            k <= total,
            total == w * h,
            0 < w <= iw,
            0 < h <= ih,
            iw == image.width,
            ih == image.height,
            image.is_gray(),
            iw <= MAX_PIXELS,
            ih <= MAX_PIXELS,
            total <= MAX_PIXELS,
            ONE <= s <= MAX_SCALE,
            data@.len() == k,
            forall|t: int|
                0 <= t < k ==> #[trigger] data@[t] == sample(
                    image.data@,
                    iw as int,
                    ih as int,
                    (t / (w as int)) * s / 0x1_0000,
                    (t % (w as int)) * s / 0x1_0000,
                ) as u8,
        decreases total - k,
    {
        let row: usize = k / w;
        let col: usize = k % w;
        proof {
            lemma_fundamental_div_mod(k as int, w as int);
            assert(row < h) by (nonlinear_arith)
                requires
                    k == w * row + col,
                    0 <= col < w,
                    k < w * h,
                    0 <= row,
            ;
        }
        let r: u64 = stretch(row, s);
        let c: u64 = stretch(col, s);
        data.push(pick(image, r, c));
        k += 1;
    }
    let small = Image { width: w, height: h, channels: 1, data };
    assert(small.data@ =~= shrunk_data(*image, s as int));
    small
}

/// The sample at `row`, `col`, the image's border repeating beyond it.
fn pick(image: &Image, row: u64, col: u64) -> (v: u8)
    requires
        image.is_gray(),
    ensures
        v == sample(image.data@, image.width as int, image.height as int, row as int, col as int),
{
    let w: usize = image.width;
    let h: usize = image.height;
    proof {
        assert(w <= w * h && h <= w * h) by (nonlinear_arith)
            requires
                0 < w,
                0 < h,
        ;
    }
    let r: usize = if row >= h as u64 { h - 1 } else { row as usize };
    let c: usize = if col >= w as u64 { w - 1 } else { col as usize };
    assert(0 <= r * w + c < w * h) by (nonlinear_arith)
        requires
            0 <= r < h,
            0 <= c < w,
    ;
    image.data[r * w + c]
}

/// The length or coordinate `v` at the scale `s / 65536`, rounded to the
/// nearest integer.
fn carry(v: i32, s: u64) -> (r: i64)
    requires
        ONE <= s <= MAX_SCALE,
    ensures
        r == scaled(v as int, s as int),
{
    assert(-0x4000_0000_0000_0000 <= v * s <= 0x4000_0000_0000_0000) by (nonlinear_arith)
        requires
            -0x8000_0000 <= v <= 0x8000_0000,
            0 <= s <= 0x8000_0000,
    ;
    let product: i128 = (v as i128) * (s as i128);
    let shifted: u128 = (product + 0x8000 + 0x1_0000_0000_0000_0000) as u128;
    let whole: u128 = shifted / 0x1_0000;
    let rest: u128 = shifted % 0x1_0000;
    proof {
        lemma_fundamental_div_mod(shifted as int, 0x1_0000);
        lemma_fundamental_div_mod_converse(
            product + 0x8000,
            0x1_0000,
            whole - 0x1_0000_0000_0000,
            rest as int,
        );
    }
    (whole as i128 - 0x1_0000_0000_0000) as i64
}

/// A coordinate of a hit, carried back to the size of the image, is a
/// coordinate that a rectangle can hold.
proof fn lemma_carry_bounds(len: int, other: int, pad: int, other_pad: int, s: int, x: int, win: int)
    requires
        0 < len,
        0 < other,
        0 <= pad,
        0 <= other_pad,
        (2 * pad + len) * (2 * other_pad + other) <= MAX_PIXELS,
        ONE <= s <= MAX_SCALE,
        shrunk_len(len, s) > 0,
        shrunk_len(other, s) > 0,
        0 < win,
        0 <= x + pad,
        x + pad + win <= pad + shrunk_len(len, s) + pad,
    ensures
        -0x4000_0000 <= scaled(x, s) <= 0x7000_0000,
{
    let small = shrunk_len(len, s);
    let small_other = shrunk_len(other, s);
    lemma_fundamental_div_mod(len * 0x1_0000, s);
    lemma_mod_bound(len * 0x1_0000, s);
    lemma_fundamental_div_mod(other * 0x1_0000, s);
    lemma_mod_bound(other * 0x1_0000, s);
    assert(small * s <= len * 0x1_0000) by (nonlinear_arith)
        requires
            len * 0x1_0000 == s * small + (len * 0x1_0000) % s,
            0 <= (len * 0x1_0000) % s,
    ;
    assert(s <= other * 0x1_0000) by (nonlinear_arith)
        requires
            other * 0x1_0000 == s * small_other + (other * 0x1_0000) % s,
            0 <= (other * 0x1_0000) % s,
            small_other >= 1,
            s >= 1,
    ;
    assert(2 * (pad * other) + len <= MAX_PIXELS) by (nonlinear_arith)
        requires
            (2 * pad + len) * (2 * other_pad + other) <= MAX_PIXELS,
            0 <= pad,
            0 < len,
            0 <= other_pad,
            1 <= other,
    ;
    assert(pad * s <= (pad * other) * 0x1_0000) by (nonlinear_arith)
        requires
            0 <= pad,
            0 <= s <= other * 0x1_0000,
    ;
    assert(x * s <= small * s + pad * s && -(pad * s) <= x * s) by (nonlinear_arith)
        requires
            -pad <= x <= small + pad,
            0 <= s,
    ;
    let top = (len + pad * other) * 0x1_0000 + 0x8000;
    let bottom = -(pad * other) * 0x1_0000;
    vstd::arithmetic::div_mod::lemma_div_is_ordered(x * s + 0x8000, top, 0x1_0000);
    vstd::arithmetic::div_mod::lemma_div_is_ordered(bottom, x * s + 0x8000, 0x1_0000);
    lemma_fundamental_div_mod_converse(top, 0x1_0000, len + pad * other, 0x8000);
    lemma_fundamental_div_mod_converse(bottom, 0x1_0000, -(pad * other), 0);
}

proof fn lemma_win_bounds(win: int, s: int)
    requires
        0 < win <= 0x7fff,
        ONE <= s <= MAX_SCALE,
    ensures
        0 < scaled(win, s) <= 0x4000_0000,
{
    crate::fixed::lemma_scaled_grows(win, s);
    assert(win * s <= 0x7fff * 0x8000_0000) by (nonlinear_arith)
        requires
            0 < win <= 0x7fff,
            0 <= s <= 0x8000_0000,
    ;
    vstd::arithmetic::div_mod::lemma_div_is_ordered(
        win * s + 0x8000,
        0x7fff * 0x8000_0000int + 0x8000,
        0x1_0000,
    );
}

proof fn lemma_smaller_input_ok(image: Image, small: Image, bounds: Seq<crate::gradient::Direction>, padding: Size)
    requires
        gradient_input_ok(image, bounds, padding, padding),
        small.is_gray(),
        small.width <= image.width,
        small.height <= image.height,
    ensures
        gradient_input_ok(small, bounds, padding, padding),
{
    let a = padding.width + small.width + padding.width;
    let b = padding.height + small.height + padding.height;
    let c = padding.width + image.width + padding.width;
    let e = padding.height + image.height + padding.height;
    assert(a * b <= c * e) by (nonlinear_arith)
        requires
            0 <= a <= c,
            0 <= b <= e,
    ;
}

/// The rectangles of the windows found.
pub open spec fn found_rects(f: Seq<Found>) -> Seq<Rect> {
    Seq::new(f.len(), |k: int| f[k].rect)
}

/// The weights of the windows found.
pub open spec fn found_weights(f: Seq<Found>) -> Seq<i64> {
    Seq::new(f.len(), |k: int| f[k].weight)
}

/// A level of zero for each window found.
pub open spec fn no_levels(f: Seq<Found>) -> Seq<i32> {
    Seq::new(f.len(), |k: int| 0i32)
}

/// Why a detection at several scales is refused, if it is: as a detection
/// at one scale is, or for its input where the ratio between levels is not
/// more than one.
pub open spec fn pyramid_refusal(
    d: HOGDescriptor,
    image: Image,
    win_stride: Size,
    padding: Size,
    scale: u64,
) -> Option<DetectError> {
    match hog_refusal(d, image, win_stride, padding) {
        Some(e) => Some(e),
        None => if scale <= ONE {
            Some(DetectError::InvalidInput)
        } else {
            None
        },
    }
}

impl HOGDescriptor {
    /// Detects at every scale and returns the windows found, not grouped.
    ///
    /// Level after level the image is shrunk by `scale`, a ratio in units
    /// of 1/65536, and scanned with the grid of `detect_weights`; at most
    /// 64 levels are scanned. Each hit is carried back to the size of the
    /// image.
    pub fn detect_multi_scale_raw(
        &self,
        img: &Image,
        hit_threshold: i64,
        win_stride: Size,
        padding: Size,
        scale: u64,
    ) -> (res: Result<Vec<Found>, DetectError>)
        ensures
            res matches Ok(v) ==> forall|i: int| 0 <= i < v@.len() ==> (#[trigger] v@[i]).weight > hit_threshold,
            match pyramid_refusal(*self, *img, win_stride, padding, scale) {
                Some(e) => res == Err::<Vec<Found>, DetectError>(e),
                None => res.is_ok() && res->Ok_0@ == all_found(
                    *self,
                    *img,
                    effective_stride(*self, win_stride),
                    padding,
                    hit_threshold,
                    scale as int,
                ),
            },
    {
        let stride: Size = match self.prepare(img, win_stride, padding) {
            Ok(p) => p.1,
            Err(e) => {
                return Err(e);
            },
        };
        if scale <= ONE {
            return Err(DetectError::InvalidInput);
        }
        let ghost factor = scale as int;
        let mut out: Vec<Found> = Vec::new();
        let mut s: u128 = ONE as u128;
        let mut k: usize = 0;
        loop
            invariant
                hog_refusal(*self, *img, win_stride, padding).is_none(),
                stride == effective_stride(*self, win_stride),
                factor == scale as int,
                factor > ONE,
                k <= 64,
                ONE <= s,
                s == level_scale(factor, k as int),
                s <= MAX_SCALE * 0x1_0000_0000_0000_0000,
                forall|j: int|
                    0 <= j < k ==> !level_done(*self, *img, padding, j, #[trigger] level_scale(factor, j)),
                out@ == levels_found(*self, *img, stride, padding, hit_threshold, factor, k as int),
                forall|i: int| 0 <= i < out@.len() ==> (#[trigger] out@[i]).weight > hit_threshold,
            ensures
                out@ == all_found(*self, *img, stride, padding, hit_threshold, factor),
                forall|i: int| 0 <= i < out@.len() ==> (#[trigger] out@[i]).weight > hit_threshold,
            decreases 64 - k,
        {
            let iw: usize = img.width;
            let ih: usize = img.height;
            proof {
                assert(iw <= iw * ih && ih <= iw * ih) by (nonlinear_arith)
                    requires
                        0 < iw,
                        0 < ih,
                ;
            }
            let done: bool = k >= 64 || s > MAX_SCALE as u128 || {
                let w: u128 = (iw as u128) * 0x1_0000 / s;
                let h: u128 = (ih as u128) * 0x1_0000 / s;
                w == 0 || h == 0 || w + 2 * (padding.width as u128) < self.win_size.width as u128 || h + 2
                    * (padding.height as u128) < self.win_size.height as u128
            };
            if done {
                proof {
                    lemma_height_unique(*self, *img, padding, factor, k as int);
                }
                break;
            }
            let small: Image = shrink(img, s as u64);
            proof {
                lemma_shrunk_unique(small, *img, s as int);
                lemma_smaller_input_ok(*img, small, self.bin_bounds@, padding);
            }
            let map: GradientMap = match GradientMap::compute(&small, &self.bin_bounds, padding, padding) {
                Ok(m) => m,
                Err(_) => {
                    assert(false);
                    return Err(DetectError::InvalidInput);
                },
            };
            let level_hits: Vec<Hit> = scan_grid(&map, self, stride, hit_threshold);
            let ghost before = out@;
            let ghost want = level_found(
                *self,
                shrunk(*img, s as int),
                stride,
                padding,
                hit_threshold,
                s as int,
            );
            proof {
                assert(field_of(small, self.bin_bounds@, padding, padding) == field_of(
                    shrunk(*img, s as int),
                    self.bin_bounds@,
                    padding,
                    padding,
                ));
            }
            let mut t: usize = 0;
            while t < level_hits.len()
                invariant
                    t <= level_hits@.len(),
                    hog_refusal(*self, *img, win_stride, padding).is_none(),
                    ONE <= s <= MAX_SCALE,
                    small.width == shrunk_len(img.width as int, s as int),
                    small.height == shrunk_len(img.height as int, s as int),
                    small.width > 0,
                    small.height > 0,
                    map.wf(),
                    map.field() == field_of(small, self.bin_bounds@, padding, padding),
                    forall|i: int|
                        0 <= i < level_hits@.len() ==> location_inside(
                            map.field(),
                            *self,
                            (#[trigger] level_hits@[i]).location,
                        ) && level_hits@[i].weight > hit_threshold,
                    forall|i: int| 0 <= i < out@.len() ==> (#[trigger] out@[i]).weight > hit_threshold,
                    want.len() == level_hits@.len(),
                    forall|i: int|
                        0 <= i < want.len() ==> #[trigger] want[i] == carried(
                            level_hits@[i],
                            self.win_size,
                            s as int,
                        ),
                    out@ == before + want.take(t as int),
                decreases level_hits@.len() - t,
            {
                let h: Hit = level_hits[t];
                proof {
                    assert(location_inside(map.field(), *self, level_hits@[t as int].location));
                    lemma_carry_bounds(
                        img.width as int,
                        img.height as int,
                        padding.width as int,
                        padding.height as int,
                        s as int,
                        h.location.x as int,
                        self.win_size.width as int,
                    );
                    assert((2 * padding.height + img.height) * (2 * padding.width + img.width) == (2
                        * padding.width + img.width) * (2 * padding.height + img.height))
                        by (nonlinear_arith);
                    lemma_carry_bounds(
                        img.height as int,
                        img.width as int,
                        padding.height as int,
                        padding.width as int,
                        s as int,
                        h.location.y as int,
                        self.win_size.height as int,
                    );
                    lemma_win_bounds(self.win_size.width as int, s as int);
                    lemma_win_bounds(self.win_size.height as int, s as int);
                }
                let f = Found {
                    rect: Rect {
                        x: carry(h.location.x, s as u64) as i32,
                        y: carry(h.location.y, s as u64) as i32,
                        width: carry(self.win_size.width, s as u64) as i32,
                        height: carry(self.win_size.height, s as u64) as i32,
                    },
                    weight: h.weight,
                };
                out.push(f);
                proof {
                    assert(f == want[t as int]);
                    assert(out@ =~= before + want.take(t + 1));
                }
                t += 1;
            }
            proof {
                assert(want.take(want.len() as int) =~= want);
                assert(s * scale <= MAX_SCALE * 0x1_0000_0000_0000_0000) by (nonlinear_arith)
                    requires
                        0 <= s <= MAX_SCALE,
                        0 <= scale <= 0xffff_ffff_ffff_ffff,
                ;
                vstd::arithmetic::div_mod::lemma_div_is_ordered_by_denominator(s as int * factor, 1, ONE as int);
                assert(s * factor >= s * 0x1_0000) by (nonlinear_arith)
                    requires
                        s >= 0,
                        factor >= 0x1_0000,
                ;
                vstd::arithmetic::div_mod::lemma_div_is_ordered(s * 0x1_0000, s * factor, 0x1_0000);
                lemma_fundamental_div_mod_converse(s * 0x1_0000, 0x1_0000, s as int, 0);
            }
            s = s * (scale as u128) / (ONE as u128);
            k = k + 1;
        }
        Ok(out)
    }

    /// Detects at every scale, groups the windows found, and reports for
    /// each rectangle of the result the greatest weight of the windows that
    /// went into it.
    ///
    /// The windows of `detect_multi_scale_raw` are grouped with the
    /// threshold `final_threshold` and a tolerance of one fifth. A refused
    /// call changes nothing.
    pub fn detect_multi_scale(
        &self,
        img: &Image,
        found_locations: &mut Vec<Rect>,
        found_weights_out: &mut Vec<i64>,
        hit_threshold: i64,
        win_stride: Size,
        padding: Size,
        scale: u64,
        final_threshold: i32,
    ) -> (res: Result<(), DetectError>)
        ensures
            res.is_ok() ==> final(found_weights_out)@.len() == final(found_locations)@.len(),
            res.is_ok() ==> forall|i: int|
                0 <= i < final(found_weights_out)@.len() ==> #[trigger] final(found_weights_out)@[i]
                    > hit_threshold,
            match pyramid_refusal(*self, *img, win_stride, padding, scale) {
                Some(e) => res == Err::<(), DetectError>(e) && final(found_locations)@ == old(found_locations)@ && final(found_weights_out)@ == old(found_weights_out)@,
                None => {
                    let found = all_found(
                        *self,
                        *img,
                        effective_stride(*self, win_stride),
                        padding,
                        hit_threshold,
                        scale as int,
                    );
                    &&& res.is_ok()
                    &&& final(found_locations)@ == grouped(found_rects(found), 1, 5, final_threshold as int)
                    &&& exists|levels: Seq<i32>|
                        #![trigger same_pairs(levels, final(found_weights_out)@, grouped_strongest(found_rects(found), 1, 5, final_threshold as int, no_levels(found), found_weights(found)))]
                        same_pairs(
                            levels,
                            final(found_weights_out)@,
                            grouped_strongest(
                                found_rects(found),
                                1,
                                5,
                                final_threshold as int,
                                no_levels(found),
                                found_weights(found),
                            ),
                        )
                },
            },
    {
        let found: Vec<Found> = match self.detect_multi_scale_raw(
            img,
            hit_threshold,
            win_stride,
            padding,
            scale,
        ) {
            Ok(f) => f,
            Err(e) => {
                return Err(e);
            },
        };
        let mut rects: Vec<Rect> = Vec::new();
        let mut levels: Vec<i32> = Vec::new();
        let mut weights: Vec<i64> = Vec::new();
        let mut k: usize = 0;
        while k < found.len()
            invariant
                k <= found@.len(),
                rects@ == found_rects(found@).take(k as int),
                levels@ == no_levels(found@).take(k as int),
                weights@ == found_weights(found@).take(k as int),
            decreases found@.len() - k,
        {
            rects.push(found[k].rect);
            levels.push(0);
            weights.push(found[k].weight);
            proof {
                assert(rects@ =~= found_rects(found@).take(k + 1));
                assert(levels@ =~= no_levels(found@).take(k + 1));
                assert(weights@ =~= found_weights(found@).take(k + 1));
            }
            k += 1;
        }
        proof {
            assert(rects@ =~= found_rects(found@));
            assert(levels@ =~= no_levels(found@));
            assert(weights@ =~= found_weights(found@));
        }
        let ghost rects_in = rects@;
        let ghost levels_in = levels@;
        let ghost weights_in = weights@;
        match group_rectangles_weights_rejects(
            &mut rects,
            &mut levels,
            &mut weights,
            final_threshold,
            SimilarRects::standard(),
        ) {
            Ok(()) => {},
            Err(_) => {
                assert(false);
            },
        }
        proof {
            let want = grouped_strongest(rects_in, 1, 5, final_threshold as int, levels_in, weights_in);
            let leaders = crate::grouping::kept_leaders(rects_in, 1, 5, final_threshold as int);
            assert(rects@.len() == want.len());
            assert forall|i: int| 0 <= i < weights@.len() implies #[trigger] weights@[i] > hit_threshold by {
                assert(want[i] == Some((levels@[i] as int, weights@[i] as int)));
                crate::grouping::lemma_strongest_is_a_member(
                    rects_in,
                    1,
                    5,
                    levels_in,
                    weights_in,
                    leaders[i],
                    rects_in.len() as int,
                );
                let j = choose|j: int|
                    0 <= j < rects_in.len() && weights_in[j] as int == weights@[i] as int && levels_in[j] as int
                        == levels@[i] as int;
                assert(weights_in[j] == found@[j].weight);
            }
        }
        *found_locations = rects;
        *found_weights_out = weights;
        Ok(())
    }

    /// Detects at every scale and groups the windows found:
    /// `detect_multi_scale` without the weights.
    pub fn detect_multi_scale_weights(
        &self,
        img: &Image,
        found_locations: &mut Vec<Rect>,
        hit_threshold: i64,
        win_stride: Size,
        padding: Size,
        scale: u64,
        final_threshold: i32,
    ) -> (res: Result<(), DetectError>)
        ensures
            match pyramid_refusal(*self, *img, win_stride, padding, scale) {
                Some(e) => res == Err::<(), DetectError>(e) && final(found_locations)@ == old(found_locations)@,
                None => res.is_ok() && final(found_locations)@ == grouped(
                    found_rects(
                        all_found(
                            *self,
                            *img,
                            effective_stride(*self, win_stride),
                            padding,
                            hit_threshold,
                            scale as int,
                        ),
                    ),
                    1,
                    5,
                    final_threshold as int,
                ),
            },
    {
        let mut weights: Vec<i64> = Vec::new();
        self.detect_multi_scale(
            img,
            found_locations,
            &mut weights,
            hit_threshold,
            win_stride,
            padding,
            scale,
            final_threshold,
        )
    }
}

} // verus!
