//! Detection with a descriptor and its linear classifier: every window of
//! the grid, or every listed window, whose score is above the threshold is
//! a hit.

use vstd::prelude::*;
use vstd::arithmetic::div_mod::lemma_fundamental_div_mod_converse;
use crate::descriptor::{
    classify, compute_window, ints, score, window_descriptor, window_inside,
};
use crate::error::DetectError;
use crate::geometry::{Point, Size};
use crate::gradient::{field_of, gradient_input_ok, Field, GradientMap};
use crate::hog::HOGDescriptor;
use crate::image::{Image, MAX_PIXELS};

verus! {

/// A window whose score is above the threshold.
#[derive(Clone, Copy, Debug, PartialEq, Eq, Structural)]
pub struct Hit {
    /// The top-left pixel of the window, in pixels of the image; outside
    /// the image where the window starts in the margin.
    pub location: Point,
    /// The score of the window, in units of 1/65536, rounded up: above the
    /// threshold, as the score is.
    pub weight: i64,
}

/// The step between windows: `win_stride`, or the cell size where that is
/// zero by zero.
pub open spec fn effective_stride(d: HOGDescriptor, win_stride: Size) -> Size {
    if win_stride.width == 0 && win_stride.height == 0 {
        d.cell_size
    } else {
        win_stride
    }
}

/// The step is positive and a multiple of the block stride.
pub open spec fn stride_ok(d: HOGDescriptor, stride: Size) -> bool {
    &&& 0 < stride.width
    &&& 0 < stride.height
    &&& stride.width % d.block_stride.width == 0
    &&& stride.height % d.block_stride.height == 0
}

/// Why a detection is refused, if it is: for want of a model where the
/// classifier has no coefficients; else where the sizes of the descriptor
/// do not fit together; else where the coefficients do not fit the
/// geometry; else for its input, where the step between windows or the
/// image with its margins is not in order.
pub open spec fn hog_refusal(d: HOGDescriptor, image: Image, win_stride: Size, padding: Size) -> Option<
    DetectError,
> {
    if d.coefficients().len() == 0 {
        Some(DetectError::ModelNotLoaded)
    } else if !d.geometry_ok() {
        Some(DetectError::InvalidInput)
    } else if !d.detector_fits() {
        Some(DetectError::IncompatibleDescriptorSize)
    } else if !stride_ok(d, effective_stride(d, win_stride)) || !gradient_input_ok(
        image,
        d.bin_bounds@,
        padding,
        padding,
    ) {
        Some(DetectError::InvalidInput)
    } else {
        None
    }
}

/// The score of the window at column `wx` and row `wy` of the map.
pub open spec fn window_score(map: Field, d: HOGDescriptor, wx: int, wy: int) -> int {
    score(window_descriptor(map, d, wx, wy), d.coefficients())
}

/// The hit that the window at column `wx` and row `wy` of the map gives:
/// none where its score is not above the threshold.
pub open spec fn hit_at(map: Field, d: HOGDescriptor, wx: int, wy: int, hit_threshold: i64) -> Option<
    Hit,
> {
    let s = window_score(map, d, wx, wy);
    if s > hit_threshold * 0x1_0000 {
        Some(
            Hit {
                location: Point { x: (wx - map.left()) as i32, y: (wy - map.top()) as i32 },
                weight: rounded_up(s) as i64,
            },
        )
    } else {
        None
    }
}

/// The number of windows along a side of `extent` pixels.
pub open spec fn places(extent: int, win: int, stride: int) -> int {
    if win > extent {
        0
    } else {
        (extent - win) / stride + 1
    }
}

/// The hits among the first `upto` windows of the row of windows at `wy`.
pub open spec fn row_hits(
    map: Field,
    d: HOGDescriptor,
    stride: Size,
    hit_threshold: i64,
    wy: int,
    upto: int,
) -> Seq<Hit>
    decreases upto,
{
    if upto <= 0 {
        Seq::empty()
    } else {
        let before = row_hits(map, d, stride, hit_threshold, wy, upto - 1);
        match hit_at(map, d, (upto - 1) * stride.width, wy, hit_threshold) {
            Some(h) => before.push(h),
            None => before,
        }
    }
}

/// The hits in the first `upto` rows of windows.
pub open spec fn grid_hits(
    map: Field,
    d: HOGDescriptor,
    stride: Size,
    hit_threshold: i64,
    upto: int,
) -> Seq<Hit>
    decreases upto,
{
    if upto <= 0 {
        Seq::empty()
    } else {
        grid_hits(map, d, stride, hit_threshold, upto - 1) + row_hits(
            map,
            d,
            stride,
            hit_threshold,
            (upto - 1) * stride.height,
            places(map.width(), d.win_size.width as int, stride.width as int),
        )
    }
}

/// The hits among the first `upto` listed windows. A listed window that
/// does not lie inside the image and its margins gives none.
pub open spec fn listed_hits(
    map: Field,
    d: HOGDescriptor,
    locations: Seq<Point>,
    hit_threshold: i64,
    upto: int,
) -> Seq<Hit>
    decreases upto,
{
    if upto <= 0 {
        Seq::empty()
    } else {
        let before = listed_hits(map, d, locations, hit_threshold, upto - 1);
        let p = locations[upto - 1];
        let wx = p.x + map.left();
        let wy = p.y + map.top();
        if window_inside(map, d, wx, wy) {
            match hit_at(map, d, wx, wy, hit_threshold) {
                Some(h) => before.push(h),
                None => before,
            }
        } else {
            before
        }
    }
}

/// The hits of a detection: of the listed windows where there are any, of
/// the whole grid otherwise, row by row.
pub open spec fn hits(
    map: Field,
    d: HOGDescriptor,
    stride: Size,
    hit_threshold: i64,
    locations: Seq<Point>,
) -> Seq<Hit> {
    if locations.len() > 0 {
        listed_hits(map, d, locations, hit_threshold, locations.len() as int)
    } else {
        grid_hits(
            map,
            d,
            stride,
            hit_threshold,
            places(map.height(), d.win_size.height as int, stride.height as int),
        )
    }
}

/// The score `s`, which is in units of 1/65536 squared, in units of
/// 1/65536, rounded up.
pub open spec fn rounded_up(s: int) -> int {
    (s + 0xffff) / 0x1_0000
}

/// A score above the threshold is above it when rounded up too, and
/// rounding up moves a score by less than one unit.
pub proof fn lemma_rounded_up(s: int, hit_threshold: int)
    ensures
        s > hit_threshold * 0x1_0000 <==> rounded_up(s) > hit_threshold,
        s <= rounded_up(s) * 0x1_0000 < s + 0x1_0000,
{
    let n = s + 0xffff;
    vstd::arithmetic::div_mod::lemma_fundamental_div_mod(n, 0x1_0000);
    vstd::arithmetic::div_mod::lemma_mod_bound(n, 0x1_0000);
    let q = n / 0x1_0000;
    let r = n % 0x1_0000;
    assert(n == 0x1_0000 * q + r);
}

/// The score `s` in units of 1/65536, rounded up.
fn round_up(s: i128) -> (q: i64)
    requires
        -0x100_0000_0000_0000_0000 <= s <= 0x100_0000_0000_0000_0000,
    ensures
        q == rounded_up(s as int),
{
    let shifted: u128 = (s + 0xffff + 0x100_0000_0000_0000_0000) as u128;
    let whole: u128 = shifted / 0x1_0000;
    let rest: u128 = shifted % 0x1_0000;
    proof {
        vstd::arithmetic::div_mod::lemma_fundamental_div_mod(shifted as int, 0x1_0000);
        lemma_fundamental_div_mod_converse(s + 0xffff, 0x1_0000, whole - 0x100_0000_0000_0000, rest as int);
    }
    (whole as i128 - 0x100_0000_0000_0000) as i64
}

/// The location is that of a window inside the field.
pub open spec fn location_inside(map: Field, d: HOGDescriptor, p: Point) -> bool {
    window_inside(map, d, p.x + map.left(), p.y + map.top())
}

/// The hit that one window gives.
fn probe(map: &GradientMap, d: &HOGDescriptor, wx: usize, wy: usize, hit_threshold: i64) -> (h: Option<Hit>)
    requires
        map.wf(),
        d.geometry_ok(),
        d.detector_fits(),
        d.coefficients().len() > 0,
        d.nbins == map.nbins(),
        window_inside(map.field(), *d, wx as int, wy as int),
    ensures
        h == hit_at(map.field(), *d, wx as int, wy as int, hit_threshold),
        h matches Some(hit) ==> location_inside(map.field(), *d, hit.location) && hit.weight
            > hit_threshold,
{
    proof {
        map.lemma_sizes();
        lemma_rounded_up(window_score(map.field(), *d, wx as int, wy as int), hit_threshold as int);
    }
    let desc = compute_window(map, d, wx, wy);
    let s: i128 = classify(&desc, &d.svm_detector);
    if s > (hit_threshold as i128) * 0x1_0000 {
        Some(
            Hit {
                location: Point {
                    x: (wx as i64 - map.left_margin() as i64) as i32,
                    y: (wy as i64 - map.top_margin() as i64) as i32,
                },
                weight: round_up(s),
            },
        )
    } else {
        None
    }
}

proof fn lemma_place_inside(extent: int, win: int, stride: int, i: int)
    requires
        0 < win <= extent,
        0 < stride,
        0 <= i < places(extent, win, stride),
    ensures
        0 <= i * stride,
        i * stride + win <= extent,
{
    let q = (extent - win) / stride;
    vstd::arithmetic::div_mod::lemma_fundamental_div_mod(extent - win, stride);
    vstd::arithmetic::div_mod::lemma_mod_bound(extent - win, stride);
    assert(0 <= i * stride && i * stride <= q * stride) by (nonlinear_arith)
        requires
            0 <= i <= q,
            stride >= 1,
    ;
    assert(stride * q == q * stride) by (nonlinear_arith);
}

/// The hits of the whole grid of windows.
pub(crate) fn scan_grid(map: &GradientMap, d: &HOGDescriptor, stride: Size, hit_threshold: i64) -> (out: Vec<
    Hit,
>)
    requires
        map.wf(),
        d.geometry_ok(),
        d.detector_fits(),
        d.coefficients().len() > 0,
        d.nbins == map.nbins(),
        0 < stride.width,
        0 < stride.height,
    ensures
        out@ == grid_hits(
            map.field(),
            *d,
            stride,
            hit_threshold,
            places(map.height(), d.win_size.height as int, stride.height as int),
        ),
        forall|t: int|
            0 <= t < out@.len() ==> location_inside(map.field(), *d, (#[trigger] out@[t]).location)
                && out@[t].weight > hit_threshold,
{
    proof {
        map.lemma_sizes();
    }
    let mut out: Vec<Hit> = Vec::new();
    let cols: usize = map.cols();
    let rows: usize = map.rows();
    let ww: usize = d.win_size.width as usize;
    let wh: usize = d.win_size.height as usize;
    let sx: usize = stride.width as usize;
    let sy: usize = stride.height as usize;
    if wh > rows {
        return out;
    }
    let ny: usize = (rows - wh) / sy + 1;
    let nx: usize = if ww > cols { 0 } else { (cols - ww) / sx + 1 };
    let mut j: usize = 0;
    while j < ny
        invariant
            j <= ny,
            map.wf(),
            d.geometry_ok(),
            d.detector_fits(),
            d.coefficients().len() > 0,
            d.nbins == map.nbins(),
            cols == map.width(),
            rows == map.height(),
            cols <= MAX_PIXELS,
            rows <= MAX_PIXELS,
            ww == d.win_size.width,
            wh == d.win_size.height,
            0 < wh <= rows,
            sx == stride.width,
            sy == stride.height,
            0 < sx,
            0 < sy,
            ny == places(rows as int, wh as int, sy as int),
            nx == places(cols as int, ww as int, sx as int),
            out@ == grid_hits(map.field(), *d, stride, hit_threshold, j as int),
            forall|t: int|
                0 <= t < out@.len() ==> location_inside(map.field(), *d, (#[trigger] out@[t]).location)
                        && out@[t].weight > hit_threshold,
        decreases ny - j,
    {
        proof {
            lemma_place_inside(rows as int, wh as int, sy as int, j as int);
        }
        let wy: usize = j * sy;
        let ghost row_start = out@;
        let mut i: usize = 0;
        assert(row_start + row_hits(map.field(), *d, stride, hit_threshold, wy as int, 0) =~= row_start);
        while i < nx
            invariant
                i <= nx,
                map.wf(),
                d.geometry_ok(),
                d.detector_fits(),
                d.coefficients().len() > 0,
                d.nbins == map.nbins(),
                cols == map.width(),
                rows == map.height(),
                cols <= MAX_PIXELS,
                ww == d.win_size.width,
                wh == d.win_size.height,
                sx == stride.width,
                0 < sx,
                nx == places(cols as int, ww as int, sx as int),
                wy + wh <= rows,
                out@ == row_start + row_hits(map.field(), *d, stride, hit_threshold, wy as int, i as int),
                forall|t: int|
                    0 <= t < out@.len() ==> location_inside(map.field(), *d, (#[trigger] out@[t]).location)
                        && out@[t].weight > hit_threshold,
            decreases nx - i,
        {
            proof {
                lemma_place_inside(cols as int, ww as int, sx as int, i as int);
            }
            let wx: usize = i * sx;
            match probe(map, d, wx, wy, hit_threshold) {
                Some(h) => {
                    out.push(h);
                },
                None => {},
            }
            proof {
                assert(out@ =~= row_start + row_hits(map.field(), *d, stride, hit_threshold, wy as int, i + 1));
            }
            i += 1;
        }
        proof {
            assert(out@ =~= grid_hits(map.field(), *d, stride, hit_threshold, j + 1));
        }
        j += 1;
    }
    out
}

/// The hits of the listed windows.
fn scan_listed(map: &GradientMap, d: &HOGDescriptor, locations: &Vec<Point>, hit_threshold: i64) -> (out:
    Vec<Hit>)
    requires
        map.wf(),
        d.geometry_ok(),
        d.detector_fits(),
        d.coefficients().len() > 0,
        d.nbins == map.nbins(),
    ensures
        out@ == listed_hits(map.field(), *d, locations@, hit_threshold, locations@.len() as int),
        forall|t: int|
            0 <= t < out@.len() ==> (#[trigger] out@[t]).weight > hit_threshold && locations@.contains(
                out@[t].location,
            ),
{
    let mut out: Vec<Hit> = Vec::new();
    let mut k: usize = 0;
    while k < locations.len()
        invariant
            k <= locations@.len(),
            map.wf(),
            d.geometry_ok(),
            d.detector_fits(),
            d.coefficients().len() > 0,
            d.nbins == map.nbins(),
            out@ == listed_hits(map.field(), *d, locations@, hit_threshold, k as int),
            forall|t: int|
                0 <= t < out@.len() ==> (#[trigger] out@[t]).weight > hit_threshold && locations@.contains(
                    out@[t].location,
                ),
        decreases locations@.len() - k,
    {
        proof {
            map.lemma_sizes();
        }
        let p: Point = locations[k];
        let wx: i64 = p.x as i64 + map.left_margin() as i64;
        let wy: i64 = p.y as i64 + map.top_margin() as i64;
        if 0 <= wx && 0 <= wy && wx + d.win_size.width as i64 <= map.cols() as i64 && wy
            + d.win_size.height as i64 <= map.rows() as i64 {
            match probe(map, d, wx as usize, wy as usize, hit_threshold) {
                Some(h) => {
                    assert(h.location == p);
                    assert(locations@[k as int] == p);
                    out.push(h);
                },
                None => {},
            }
        }
        k += 1;
    }
    out
}

/// The locations of the hits.
pub open spec fn locations_of(h: Seq<Hit>) -> Seq<Point> {
    Seq::new(h.len(), |k: int| h[k].location)
}

/// The weights of the hits.
pub open spec fn hit_weights(h: Seq<Hit>) -> Seq<i64> {
    Seq::new(h.len(), |k: int| h[k].weight)
}

impl HOGDescriptor {
    /// The checks that come before a detection, and the gradients of the
    /// image with its margins.
    pub(crate) fn prepare(&self, img: &Image, win_stride: Size, padding: Size) -> (res: Result<
        (GradientMap, Size),
        DetectError,
    >)
        ensures
            match hog_refusal(*self, *img, win_stride, padding) {
                Some(e) => res == Err::<(GradientMap, Size), DetectError>(e),
                None => res.is_ok() && res->Ok_0.1 == effective_stride(*self, win_stride) && res->Ok_0.0.wf()
                    && res->Ok_0.0.field() == field_of(*img, self.bin_bounds@, padding, padding),
            },
    {
        if self.svm_detector.len() == 0 {
            return Err(DetectError::ModelNotLoaded);
        }
        match self.check_detector_size() {
            Err(e) => {
                return Err(e);
            },
            Ok(fits) => {
                if !fits {
                    return Err(DetectError::IncompatibleDescriptorSize);
                }
            },
        }
        let stride: Size = if win_stride.width == 0 && win_stride.height == 0 {
            self.cell_size
        } else {
            win_stride
        };
        if stride.width <= 0 || stride.height <= 0 || stride.width as u32 % self.block_stride.width as u32
            != 0 || stride.height as u32 % self.block_stride.height as u32 != 0 {
            return Err(DetectError::InvalidInput);
        }
        match GradientMap::compute(img, &self.bin_bounds, padding, padding) {
            Ok(map) => Ok((map, stride)),
            Err(e) => Err(e),
        }
    }

    /// Detects at one scale, and reports the weight of each hit.
    ///
    /// A window is a hit where its score is above `hit_threshold`, which,
    /// like the weights, is in units of 1/65536. The windows are those
    /// listed in `search_locations`, or, where none is listed, those of the
    /// grid with the step `win_stride` over the image and a margin of
    /// `padding` on each side. A refused call changes nothing.
    pub fn detect_weights(
        &self,
        img: &Image,
        found_locations: &mut Vec<Point>,
        weights: &mut Vec<i64>,
        hit_threshold: i64,
        win_stride: Size,
        padding: Size,
        search_locations: &Vec<Point>,
    ) -> (res: Result<(), DetectError>)
        ensures
            res.is_ok() ==> final(weights)@.len() == final(found_locations)@.len(),
            res.is_ok() ==> forall|i: int|
                0 <= i < final(weights)@.len() ==> #[trigger] final(weights)@[i] > hit_threshold,
            res.is_ok() && search_locations@.len() > 0 ==> forall|i: int|
                0 <= i < final(found_locations)@.len() ==> search_locations@.contains(
                    #[trigger] final(found_locations)@[i],
                ),
            match hog_refusal(*self, *img, win_stride, padding) {
                Some(e) => res == Err::<(), DetectError>(e) && final(found_locations)@ == old(found_locations)@ && final(weights)@ == old(weights)@,
                None => res.is_ok() && final(found_locations)@ == locations_of(
                    hits(
                        field_of(*img, self.bin_bounds@, padding, padding),
                        *self,
                        effective_stride(*self, win_stride),
                        hit_threshold,
                        search_locations@,
                    ),
                ) && final(weights)@ == hit_weights(
                    hits(
                        field_of(*img, self.bin_bounds@, padding, padding),
                        *self,
                        effective_stride(*self, win_stride),
                        hit_threshold,
                        search_locations@,
                    ),
                ),
            },
    {
        let (map, stride) = match self.prepare(img, win_stride, padding) {
            Ok(p) => p,
            Err(e) => {
                return Err(e);
            },
        };
        let found: Vec<Hit> = if search_locations.len() > 0 {
            scan_listed(&map, self, search_locations, hit_threshold)
        } else {
            scan_grid(&map, self, stride, hit_threshold)
        };
        let mut points: Vec<Point> = Vec::new();
        let mut values: Vec<i64> = Vec::new();
        let mut k: usize = 0;
        while k < found.len()
            invariant
                k <= found@.len(),
                points@ == locations_of(found@).take(k as int),
                values@ == hit_weights(found@).take(k as int),
            decreases found@.len() - k,
        {
            points.push(found[k].location);
            values.push(found[k].weight);
            proof {
                assert(points@ =~= locations_of(found@).take(k + 1));
                assert(values@ =~= hit_weights(found@).take(k + 1));
            }
            k += 1;
        }
        proof {
            assert(points@ =~= locations_of(found@));
            assert(values@ =~= hit_weights(found@));
        }
        *found_locations = points;
        *weights = values;
        Ok(())
    }

    /// Detects at one scale: `detect_weights` without the weights.
    pub fn detect(
        &self,
        img: &Image,
        found_locations: &mut Vec<Point>,
        hit_threshold: i64,
        win_stride: Size,
        padding: Size,
        search_locations: &Vec<Point>,
    ) -> (res: Result<(), DetectError>)
        ensures
            res.is_ok() && search_locations@.len() > 0 ==> forall|i: int|
                0 <= i < final(found_locations)@.len() ==> search_locations@.contains(
                    #[trigger] final(found_locations)@[i],
                ),
            match hog_refusal(*self, *img, win_stride, padding) {
                Some(e) => res == Err::<(), DetectError>(e) && final(found_locations)@ == old(found_locations)@,
                None => res.is_ok() && final(found_locations)@ == locations_of(
                    hits(
                        field_of(*img, self.bin_bounds@, padding, padding),
                        *self,
                        effective_stride(*self, win_stride),
                        hit_threshold,
                        search_locations@,
                    ),
                ),
            },
    {
        let mut weights: Vec<i64> = Vec::new();
        self.detect_weights(
            img,
            found_locations,
            &mut weights,
            hit_threshold,
            win_stride,
            padding,
            search_locations,
        )
    }
}

/// A descriptor of zeros.
pub open spec fn no_descriptor(d: HOGDescriptor) -> Seq<int> {
    Seq::new(d.descriptor_size() as nat, |i: int| 0int)
}

/// The descriptors of the first `upto` windows of the row of windows at
/// `wy`, one after the other.
pub open spec fn row_descriptors(map: Field, d: HOGDescriptor, stride: Size, wy: int, upto: int) -> Seq<int>
    decreases upto,
{
    if upto <= 0 {
        Seq::empty()
    } else {
        row_descriptors(map, d, stride, wy, upto - 1) + window_descriptor(
            map,
            d,
            (upto - 1) * stride.width,
            wy,
        )
    }
}

/// The descriptors of the first `upto` rows of windows.
pub open spec fn grid_descriptors(map: Field, d: HOGDescriptor, stride: Size, upto: int) -> Seq<int>
    decreases upto,
{
    if upto <= 0 {
        Seq::empty()
    } else {
        grid_descriptors(map, d, stride, upto - 1) + row_descriptors(
            map,
            d,
            stride,
            (upto - 1) * stride.height,
            places(map.width(), d.win_size.width as int, stride.width as int),
        )
    }
}

/// The descriptors of the first `upto` listed windows. A listed window
/// that does not lie inside the image and its margins has a descriptor of
/// zeros.
pub open spec fn listed_descriptors(map: Field, d: HOGDescriptor, locations: Seq<Point>, upto: int) -> Seq<int>
    decreases upto,
{
    if upto <= 0 {
        Seq::empty()
    } else {
        let p = locations[upto - 1];
        let wx = p.x + map.left();
        let wy = p.y + map.top();
        listed_descriptors(map, d, locations, upto - 1) + if window_inside(map, d, wx, wy) {
            window_descriptor(map, d, wx, wy)
        } else {
            no_descriptor(d)
        }
    }
}

/// The descriptors of the listed windows where there are any, of the whole
/// grid otherwise, row by row.
pub open spec fn descriptors_of(map: Field, d: HOGDescriptor, stride: Size, locations: Seq<Point>) -> Seq<int> {
    if locations.len() > 0 {
        listed_descriptors(map, d, locations, locations.len() as int)
    } else {
        grid_descriptors(map, d, stride, places(map.height(), d.win_size.height as int, stride.height as int))
    }
}

/// Appends `v` to `out`.
fn append(out: &mut Vec<u64>, v: &Vec<u64>)
    ensures
        final(out)@ == old(out)@ + v@,
{
    let ghost start = out@;
    let mut k: usize = 0;
    assert(start + v@.take(0) =~= start);
    while k < v.len()
        invariant
            k <= v@.len(),
            out@ == start + v@.take(k as int),
        decreases v@.len() - k,
    {
        out.push(v[k]);
        assert(out@ =~= start + v@.take(k + 1));
        k += 1;
    }
    assert(v@.take(v@.len() as int) =~= v@);
}

proof fn lemma_ints_append(a: Seq<u64>, b: Seq<u64>)
    ensures
        ints(a + b) == ints(a) + ints(b),
{
    assert(ints(a + b) =~= ints(a) + ints(b));
}

impl HOGDescriptor {
    /// Computes the descriptors of the windows of `img`: of those listed in
    /// `locations`, or, where none is listed, of those of the grid with
    /// the step `win_stride` over the image and a margin of `padding` on
    /// each side. The descriptors stand one after the other in
    /// `descriptors`, their entries in units of 1/65536.
    ///
    /// Refused, with nothing changed, where the sizes of the descriptor do
    /// not fit together, or the step or the image with its margins is not
    /// in order.
    pub fn compute(
        &self,
        img: &Image,
        descriptors: &mut Vec<u64>,
        win_stride: Size,
        padding: Size,
        locations: &Vec<Point>,
    ) -> (res: Result<(), DetectError>)
        ensures
            res.is_ok() <==> self.geometry_ok() && stride_ok(*self, effective_stride(*self, win_stride))
                && gradient_input_ok(*img, self.bin_bounds@, padding, padding),
            res.is_err() ==> res == Err::<(), DetectError>(DetectError::InvalidInput) && final(descriptors)@ == old(descriptors)@,
            res.is_ok() ==> ints(final(descriptors)@) == descriptors_of(
                field_of(*img, self.bin_bounds@, padding, padding),
                *self,
                effective_stride(*self, win_stride),
                locations@,
            ),
    {
        if !self.check_geometry() {
            return Err(DetectError::InvalidInput);
        }
        let stride: Size = if win_stride.width == 0 && win_stride.height == 0 {
            self.cell_size
        } else {
            win_stride
        };
        if stride.width <= 0 || stride.height <= 0 || stride.width as u32 % self.block_stride.width as u32
            != 0 || stride.height as u32 % self.block_stride.height as u32 != 0 {
            return Err(DetectError::InvalidInput);
        }
        let map: GradientMap = match GradientMap::compute(img, &self.bin_bounds, padding, padding) {
            Ok(m) => m,
            Err(e) => {
                return Err(e);
            },
        };
        let out: Vec<u64> = if locations.len() > 0 {
            describe_listed(&map, self, locations)
        } else {
            describe_grid(&map, self, stride)
        };
        *descriptors = out;
        Ok(())
    }
}

/// The descriptors of the listed windows.
fn describe_listed(map: &GradientMap, d: &HOGDescriptor, locations: &Vec<Point>) -> (out: Vec<u64>)
    requires
        map.wf(),
        d.geometry_ok(),
        d.nbins == map.nbins(),
    ensures
        ints(out@) == listed_descriptors(map.field(), *d, locations@, locations@.len() as int),
{
    let size: usize = match d.get_descriptor_size() {
        Ok(n) => n,
        Err(_) => 0,
    };
    let mut zeros: Vec<u64> = Vec::new();
    let mut z: usize = 0;
    while z < size
        invariant
            z <= size,
            zeros@.len() == z,
            forall|i: int| 0 <= i < z ==> #[trigger] zeros@[i] == 0,
        decreases size - z,
    {
        zeros.push(0);
        z += 1;
    }
    assert(ints(zeros@) =~= no_descriptor(*d));
    let mut out: Vec<u64> = Vec::new();
    let mut k: usize = 0;
    assert(ints(out@) =~= listed_descriptors(map.field(), *d, locations@, 0));
    while k < locations.len()
        invariant
            k <= locations@.len(),
            map.wf(),
            d.geometry_ok(),
            d.nbins == map.nbins(),
            ints(zeros@) == no_descriptor(*d),
            ints(out@) == listed_descriptors(map.field(), *d, locations@, k as int),
        decreases locations@.len() - k,
    {
        proof {
            map.lemma_sizes();
        }
        let p: Point = locations[k];
        let wx: i64 = p.x as i64 + map.left_margin() as i64;
        let wy: i64 = p.y as i64 + map.top_margin() as i64;
        let ghost before = out@;
        if 0 <= wx && 0 <= wy && wx + d.win_size.width as i64 <= map.cols() as i64 && wy
            + d.win_size.height as i64 <= map.rows() as i64 {
            let desc = compute_window(map, d, wx as usize, wy as usize);
            append(&mut out, &desc);
            proof {
                lemma_ints_append(before, desc@);
            }
        } else {
            append(&mut out, &zeros);
            proof {
                lemma_ints_append(before, zeros@);
            }
        }
        k += 1;
    }
    out
}

/// The descriptors of the whole grid of windows.
fn describe_grid(map: &GradientMap, d: &HOGDescriptor, stride: Size) -> (out: Vec<u64>)
    requires
        map.wf(),
        d.geometry_ok(),
        d.nbins == map.nbins(),
        0 < stride.width,
        0 < stride.height,
    ensures
        ints(out@) == grid_descriptors(
            map.field(),
            *d,
            stride,
            places(map.height(), d.win_size.height as int, stride.height as int),
        ),
{
    proof {
        map.lemma_sizes();
    }
    let mut out: Vec<u64> = Vec::new();
    let cols: usize = map.cols();
    let rows: usize = map.rows();
    let ww: usize = d.win_size.width as usize;
    let wh: usize = d.win_size.height as usize;
    let sx: usize = stride.width as usize;
    let sy: usize = stride.height as usize;
    assert(ints(out@) =~= grid_descriptors(map.field(), *d, stride, 0));
    if wh > rows {
        return out;
    }
    let ny: usize = (rows - wh) / sy + 1;
    let nx: usize = if ww > cols { 0 } else { (cols - ww) / sx + 1 };
    let mut j: usize = 0;
    while j < ny
        invariant
            j <= ny,
            map.wf(),
            d.geometry_ok(),
            d.nbins == map.nbins(),
            cols == map.width(),
            rows == map.height(),
            cols <= MAX_PIXELS,
            rows <= MAX_PIXELS,
            ww == d.win_size.width,
            wh == d.win_size.height,
            0 < wh <= rows,
            sx == stride.width,
            sy == stride.height,
            0 < sx,
            0 < sy,
            ny == places(rows as int, wh as int, sy as int),
            nx == places(cols as int, ww as int, sx as int),
            ints(out@) == grid_descriptors(map.field(), *d, stride, j as int),
        decreases ny - j,
    {
        proof {
            lemma_place_inside(rows as int, wh as int, sy as int, j as int);
        }
        let wy: usize = j * sy;
        let ghost row_start = ints(out@);
        let mut i: usize = 0;
        assert(row_start + row_descriptors(map.field(), *d, stride, wy as int, 0) =~= row_start);
        while i < nx
            invariant
                i <= nx,
                map.wf(),
                d.geometry_ok(),
                d.nbins == map.nbins(),
                cols == map.width(),
                rows == map.height(),
                cols <= MAX_PIXELS,
                ww == d.win_size.width,
                wh == d.win_size.height,
                sx == stride.width,
                0 < sx,
                nx == places(cols as int, ww as int, sx as int),
                wy + wh <= rows,
                ints(out@) == row_start + row_descriptors(map.field(), *d, stride, wy as int, i as int),
            decreases nx - i,
        {
            proof {
                lemma_place_inside(cols as int, ww as int, sx as int, i as int);
            }
            let wx: usize = i * sx;
            let desc = compute_window(map, d, wx, wy);
            let ghost before = out@;
            append(&mut out, &desc);
            proof {
                lemma_ints_append(before, desc@);
                assert(ints(out@) =~= row_start + row_descriptors(map.field(), *d, stride, wy as int, i + 1));
            }
            i += 1;
        }
        proof {
            assert(ints(out@) =~= grid_descriptors(map.field(), *d, stride, j + 1));
        }
        j += 1;
    }
    out
}

} // verus!
