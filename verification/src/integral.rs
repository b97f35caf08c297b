//! Summed-area tables: after one pass over an image, the sum of the samples
//! (or of their squares) over any rectangular region takes four lookups.

use vstd::prelude::*;
use vstd::arithmetic::div_mod::lemma_fundamental_div_mod_converse;
use crate::error::DetectError;
use crate::image::{
    cell, cell_max, lemma_region_from_corners, lemma_region_sum_bounds, lemma_row_sum_bounds,
    region_sum, row_sum, Image, MAX_PIXELS,
};

verus! {

/// Entry `k` of a table over an image of the given width holds the sum over
/// the region from the image's corner to row `k / (width + 1)` and column
/// `k % (width + 1)`.
pub open spec fn is_table(table: Seq<u64>, data: Seq<u8>, width: int, height: int, squared: bool) -> bool {
    &&& table.len() == (height + 1) * (width + 1)
    &&& forall|k: int|
        0 <= k < table.len() ==> #[trigger] table[k] as int == region_sum(
            data,
            width,
            0,
            0,
            k / (width + 1),
            k % (width + 1),
            squared,
        )
}

proof fn lemma_table_place(width: int, height: int, r: int, c: int)
    requires
        0 <= r <= height,
        0 <= c <= width,
    ensures
        0 <= r * (width + 1) + c < (height + 1) * (width + 1),
        (r * (width + 1) + c) / (width + 1) == r,
        (r * (width + 1) + c) % (width + 1) == c,
{
    assert(0 <= r * (width + 1) && r * (width + 1) + width + 1 <= (height + 1) * (width + 1))
        by (nonlinear_arith)
        requires
            0 <= r <= height,
            0 <= width,
    ;
    lemma_fundamental_div_mod_converse(r * (width + 1) + c, width + 1, r, c);
}

proof fn lemma_table_size(width: int, height: int)
    requires
        0 < width,
        0 < height,
        width * height <= MAX_PIXELS,
    ensures
        (height + 1) * (width + 1) <= 3 * MAX_PIXELS + 1,
        width <= MAX_PIXELS,
        height <= MAX_PIXELS,
{
    assert(width <= width * height && height <= width * height) by (nonlinear_arith)
        requires
            0 < width,
            0 < height,
    ;
    assert((height + 1) * (width + 1) == width * height + width + height + 1) by (nonlinear_arith);
}

proof fn lemma_empty_regions(data: Seq<u8>, width: int, r: int, c: int, squared: bool)
    requires
        0 <= r,
        0 <= c,
    ensures
        region_sum(data, width, 0, 0, 0, c, squared) == 0,
        region_sum(data, width, 0, 0, r, 0, squared) == 0,
    decreases r,
{
    if r > 0 {
        lemma_empty_regions(data, width, r - 1, c, squared);
    }
}

/// The table of region sums of `data`, an image of `height` rows of `width`
/// pixels.
fn build_table(data: &Vec<u8>, width: usize, height: usize, squared: bool) -> (table: Vec<u64>)
    requires
        0 < width,
        0 < height,
        width * height <= MAX_PIXELS,
        data@.len() == width * height,
    ensures
        is_table(table@, data@, width as int, height as int, squared),
{
    proof {
        lemma_table_size(width as int, height as int);
    }
    let mut table: Vec<u64> = Vec::new();
    let mut c: usize = 0;
    while c <= width
        invariant
            c <= width + 1,
            width <= MAX_PIXELS,
            table@.len() == c,
            forall|k: int| 0 <= k < c ==> #[trigger] table@[k] == 0,
        decreases width + 1 - c,
    {
        table.push(0);
        c += 1;
    }
    proof {
        assert forall|k: int| 0 <= k < table@.len() implies #[trigger] table@[k] as int == region_sum(
            data@,
            width as int,
            0,
            0,
            k / (width + 1),
            k % (width + 1),
            squared,
        ) by {
            lemma_table_place(width as int, height as int, 0, k);
            lemma_empty_regions(data@, width as int, 0, k, squared);
        }
        assert(1 * (width + 1) == width + 1) by (nonlinear_arith);
    }
    let mut r: usize = 1;
    while r <= height
        invariant
            1 <= r <= height + 1,
            0 < width <= MAX_PIXELS,
            0 < height <= MAX_PIXELS,
            width * height <= MAX_PIXELS,
            (height + 1) * (width + 1) <= 3 * MAX_PIXELS + 1,
            data@.len() == width * height,
            table@.len() == r * (width + 1),
            forall|k: int|
                0 <= k < table@.len() ==> #[trigger] table@[k] as int == region_sum(
                    data@,
                    width as int,
                    0,
                    0,
                    k / (width + 1),
                    k % (width + 1),
                    squared,
                ),
        decreases height + 1 - r,
    {
        proof {
            lemma_table_place(width as int, height as int, r as int, 0);
            lemma_empty_regions(data@, width as int, r as int, 0, squared);
        }
        table.push(0);
        let mut running: u64 = 0;
        let mut c: usize = 1;
        while c <= width
            invariant
                1 <= c <= width + 1,
                1 <= r <= height,
                0 < width <= MAX_PIXELS,
                0 < height <= MAX_PIXELS,
                width * height <= MAX_PIXELS,
                (height + 1) * (width + 1) <= 3 * MAX_PIXELS + 1,
                data@.len() == width * height,
                table@.len() == r * (width + 1) + c,
                running as int == row_sum(data@, width as int, r - 1, 0, c - 1, squared),
                forall|k: int|
                    0 <= k < table@.len() ==> #[trigger] table@[k] as int == region_sum(
                        data@,
                        width as int,
                        0,
                        0,
                        k / (width + 1),
                        k % (width + 1),
                        squared,
                    ),
            decreases width + 1 - c,
        {
            let ghost w = width as int;
            let ghost h = height as int;
            proof {
                lemma_table_place(w, h, r as int, c as int);
                lemma_table_place(w, h, r - 1, c as int);
                assert(0 <= (r - 1) * w + (c - 1) < w * h) by (nonlinear_arith)
                    requires
                        1 <= r <= h,
                        1 <= c <= w,
                ;
                assert((r - 1) * (w + 1) + c == r * (w + 1) + c - (w + 1)) by (nonlinear_arith);
                lemma_row_sum_bounds(data@, w, r - 1, 0, c as int, squared);
                lemma_region_sum_bounds(data@, w, 0, 0, r - 1, c as int, squared);
                lemma_area_bound(r - 1, c as int, w, h, squared);
                assert(cell_max(squared) * (c - 0) <= 65025 * 0x4000_0000) by (nonlinear_arith)
                    requires
                        0 <= c <= 0x4000_0000,
                        0 <= cell_max(squared) <= 65025,
                ;
            }
            let v: u64 = data[(r - 1) * width + (c - 1)] as u64;
            assert(v * v <= 65025) by (nonlinear_arith)
                requires
                    0 <= v <= 255,
            ;
            let add: u64 = if squared { v * v } else { v };
            assert(add as int == cell(data@, w, r - 1, c - 1, squared));
            running = running + add;
            let above: u64 = table[(r - 1) * (width + 1) + c];
            table.push(above + running);
            c += 1;
        }
        proof {
            assert(r * (width + 1) + (width + 1) == (r + 1) * (width + 1)) by (nonlinear_arith);
        }
        r += 1;
    }
    table
}

/// The summed-area tables of one image.
pub struct IntegralImage {
    width: usize,
    height: usize,
    sum: Vec<u64>,
    sqsum: Vec<u64>,
    squares: bool,
    pixels: Ghost<Seq<u8>>,
}

impl IntegralImage {
    /// The samples of the image that the tables were built from.
    pub closed spec fn pixels(&self) -> Seq<u8> {
        self.pixels@
    }

    /// The width of that image.
    pub closed spec fn width(&self) -> int {
        self.width as int
    }

    /// The height of that image.
    pub closed spec fn height(&self) -> int {
        self.height as int
    }

    /// Whether the table of sums of squares was built.
    pub closed spec fn has_squares(&self) -> bool {
        self.squares
    }

    /// The tables hold the region sums of the image.
    pub closed spec fn wf(&self) -> bool {
        &&& 0 < self.width
        &&& 0 < self.height
        &&& self.width * self.height <= MAX_PIXELS
        &&& self.pixels@.len() == self.width * self.height
        &&& is_table(self.sum@, self.pixels@, self.width as int, self.height as int, false)
        &&& self.squares ==> is_table(
            self.sqsum@,
            self.pixels@,
            self.width as int,
            self.height as int,
            true,
        )
    }

    /// The dimensions of a well-formed table are those of an accepted image.
    pub proof fn lemma_dimensions(&self)
        requires
            self.wf(),
        ensures
            0 < self.width() <= MAX_PIXELS,
            0 < self.height() <= MAX_PIXELS,
            self.width() * self.height() <= MAX_PIXELS,
            self.pixels().len() == self.width() * self.height(),
    {
        lemma_table_size(self.width as int, self.height as int);
    }

    /// Builds the tables of `image`; the table of squares only where
    /// `with_squares` asks for it. Refused when the image is empty, has more
    /// than one sample to the pixel, holds another number of samples than
    /// its dimensions give, or has more than `MAX_PIXELS` pixels.
    pub fn build(image: &Image, with_squares: bool) -> (res: Result<IntegralImage, DetectError>)
        ensures
            res.is_ok() <==> image.is_gray(),
            res matches Err(e) ==> e == DetectError::InvalidInput,
            res matches Ok(ii) ==> ii.wf() && ii.pixels() == image.data@ && ii.width() == image.width
                && ii.height() == image.height && ii.has_squares() == with_squares,
    {
        if !image.check_gray() {
            return Err(DetectError::InvalidInput);
        }
        let sum = build_table(&image.data, image.width, image.height, false);
        let sqsum = if with_squares {
            build_table(&image.data, image.width, image.height, true)
        } else {
            Vec::new()
        };
        Ok(
            IntegralImage {
                width: image.width,
                height: image.height,
                sum,
                sqsum,
                squares: with_squares,
                pixels: Ghost(image.data@),
            },
        )
    }

    /// The number of columns of the image.
    pub fn cols(&self) -> (w: usize)
        requires
            self.wf(),
        ensures
            w == self.width(),
    {
        self.width
    }

    /// The number of rows of the image.
    pub fn rows(&self) -> (h: usize)
        requires
            self.wf(),
        ensures
            h == self.height(),
    {
        self.height
    }

    /// Whether the table of sums of squares is there.
    pub fn squares_built(&self) -> (b: bool)
        ensures
            b == self.has_squares(),
    {
        self.squares
    }

    /// The sum of the samples in the rows `r0..r1` and columns `c0..c1`.
    pub fn region(&self, r0: usize, c0: usize, r1: usize, c1: usize) -> (s: u64)
        requires
            self.wf(),
            r0 <= r1 <= self.height(),
            c0 <= c1 <= self.width(),
        ensures
            s == region_sum(self.pixels(), self.width(), r0 as int, c0 as int, r1 as int, c1 as int, false),
            s <= 255 * MAX_PIXELS,
    {
        four_corners(
            &self.sum,
            Ghost(self.pixels@),
            self.width,
            self.height,
            false,
            r0,
            c0,
            r1,
            c1,
        )
    }

    /// The sum of the squares of the samples in the rows `r0..r1` and
    /// columns `c0..c1`.
    pub fn region_squares(&self, r0: usize, c0: usize, r1: usize, c1: usize) -> (s: u64)
        requires
            self.wf(),
            self.has_squares(),
            r0 <= r1 <= self.height(),
            c0 <= c1 <= self.width(),
        ensures
            s == region_sum(self.pixels(), self.width(), r0 as int, c0 as int, r1 as int, c1 as int, true),
            s <= 65025 * MAX_PIXELS,
    {
        four_corners(
            &self.sqsum,
            Ghost(self.pixels@),
            self.width,
            self.height,
            true,
            r0,
            c0,
            r1,
            c1,
        )
    }
}

/// A region sum from the table entries at the region's four corners.
fn four_corners(
    table: &Vec<u64>,
    Ghost(data): Ghost<Seq<u8>>,
    width: usize,
    height: usize,
    squared: bool,
    r0: usize,
    c0: usize,
    r1: usize,
    c1: usize,
) -> (s: u64)
    requires
        0 < width,
        0 < height,
        width * height <= MAX_PIXELS,
        is_table(table@, data, width as int, height as int, squared),
        r0 <= r1 <= height,
        c0 <= c1 <= width,
    ensures
        s == region_sum(data, width as int, r0 as int, c0 as int, r1 as int, c1 as int, squared),
        s <= cell_max(squared) * MAX_PIXELS,
{
    let ghost w = width as int;
    let ghost h = height as int;
    proof {
        assert(0 <= (r1 - r0) * (c1 - c0) <= w * h) by (nonlinear_arith)
            requires
                0 <= r0 <= r1 <= h,
                0 <= c0 <= c1 <= w,
        ;
        assert(cell_max(squared) * ((r1 - r0) * (c1 - c0)) <= cell_max(squared) * MAX_PIXELS)
            by (nonlinear_arith)
            requires
                0 <= (r1 - r0) * (c1 - c0) <= MAX_PIXELS,
                0 <= cell_max(squared),
        ;
        lemma_table_size(w, h);
        lemma_table_place(w, h, r1 as int, c1 as int);
        lemma_table_place(w, h, r0 as int, c1 as int);
        lemma_table_place(w, h, r1 as int, c0 as int);
        lemma_table_place(w, h, r0 as int, c0 as int);
        lemma_region_from_corners(data, w, r0 as int, c0 as int, r1 as int, c1 as int, squared);
        lemma_region_sum_bounds(data, w, r0 as int, c0 as int, r1 as int, c1 as int, squared);
        lemma_region_sum_bounds(data, w, 0, 0, r1 as int, c1 as int, squared);
        lemma_region_sum_bounds(data, w, 0, 0, r0 as int, c0 as int, squared);
        lemma_region_sum_bounds(data, w, 0, 0, r0 as int, c1 as int, squared);
        lemma_region_sum_bounds(data, w, 0, 0, r1 as int, c0 as int, squared);
        lemma_area_bound(r1 as int, c1 as int, w, h, squared);
        lemma_area_bound(r0 as int, c0 as int, w, h, squared);
    }
    let stride: usize = width + 1;
    let a: u64 = table[r1 * stride + c1];
    let b: u64 = table[r0 * stride + c1];
    let c: u64 = table[r1 * stride + c0];
    let d: u64 = table[r0 * stride + c0];
    a + d - b - c
}

proof fn lemma_area_bound(r: int, c: int, width: int, height: int, squared: bool)
    requires
        0 <= r <= height,
        0 <= c <= width,
        width * height <= MAX_PIXELS,
    ensures
        cell_max(squared) * ((r - 0) * (c - 0)) <= 65025 * 0x4000_0000,
{
    assert(0 <= r * c <= width * height) by (nonlinear_arith)
        requires
            0 <= r <= height,
            0 <= c <= width,
    ;
    assert(cell_max(squared) * (r * c) <= 65025 * 0x4000_0000) by (nonlinear_arith)
        requires
            0 <= r * c <= 0x4000_0000,
            0 <= cell_max(squared) <= 65025,
    ;
}

} // verus!
