//! Images as rows of 8-bit samples, and sums over their rectangular regions.

use vstd::prelude::*;

verus! {

/// The largest number of pixels of an image that detection accepts.
pub const MAX_PIXELS: usize = 0x4000_0000;

/// An image of `height` rows of `width` pixels, each pixel `channels`
/// samples of 8 bits, row after row in `data`.
pub struct Image {
    pub width: usize,
    pub height: usize,
    pub channels: usize,
    pub data: Vec<u8>,
}

/// The value that the pixel at `row`, `col` gives to a sum: the sample, or
/// its square.
pub open spec fn cell(data: Seq<u8>, width: int, row: int, col: int, squared: bool) -> int {
    let v = data[row * width + col] as int;
    if squared {
        v * v
    } else {
        v
    }
}

/// The sum over the pixels of `row` in the columns `c0..c1`.
pub open spec fn row_sum(data: Seq<u8>, width: int, row: int, c0: int, c1: int, squared: bool) -> int
    decreases c1 - c0,
{
    if c1 <= c0 {
        0
    } else {
        row_sum(data, width, row, c0, c1 - 1, squared) + cell(data, width, row, c1 - 1, squared)
    }
}

/// The sum over the pixels in the rows `r0..r1` and the columns `c0..c1`.
pub open spec fn region_sum(
    data: Seq<u8>,
    width: int,
    r0: int,
    c0: int,
    r1: int,
    c1: int,
    squared: bool,
) -> int
    decreases r1 - r0,
{
    if r1 <= r0 {
        0
    } else {
        region_sum(data, width, r0, c0, r1 - 1, c1, squared) + row_sum(
            data,
            width,
            r1 - 1,
            c0,
            c1,
            squared,
        )
    }
}

/// The greatest value of a cell: 255, or its square.
pub open spec fn cell_max(squared: bool) -> int {
    if squared {
        65025
    } else {
        255
    }
}

pub proof fn lemma_row_sum_bounds(data: Seq<u8>, width: int, row: int, c0: int, c1: int, squared: bool)
    requires
        c0 <= c1,
    ensures
        0 <= row_sum(data, width, row, c0, c1, squared) <= cell_max(squared) * (c1 - c0),
    decreases c1 - c0,
{
    if c1 > c0 {
        lemma_row_sum_bounds(data, width, row, c0, c1 - 1, squared);
        let v = data[row * width + (c1 - 1)] as int;
        assert(0 <= v * v <= 65025) by (nonlinear_arith)
            requires
                0 <= v <= 255,
        ;
        assert(cell_max(squared) * (c1 - c0) == cell_max(squared) * (c1 - 1 - c0) + cell_max(squared))
            by (nonlinear_arith);
    }
}

/// A region sum is at most the greatest cell value times the area.
pub proof fn lemma_region_sum_bounds(
    data: Seq<u8>,
    width: int,
    r0: int,
    c0: int,
    r1: int,
    c1: int,
    squared: bool,
)
    requires
        r0 <= r1,
        c0 <= c1,
    ensures
        0 <= region_sum(data, width, r0, c0, r1, c1, squared) <= cell_max(squared) * ((r1 - r0) * (c1
            - c0)),
    decreases r1 - r0,
{
    if r1 > r0 {
        lemma_region_sum_bounds(data, width, r0, c0, r1 - 1, c1, squared);
        lemma_row_sum_bounds(data, width, r1 - 1, c0, c1, squared);
        let m = cell_max(squared);
        let w = c1 - c0;
        assert(m * ((r1 - r0) * w) == m * ((r1 - 1 - r0) * w) + m * w) by (nonlinear_arith);
    } else {
        assert(cell_max(squared) * ((r1 - r0) * (c1 - c0)) == 0) by (nonlinear_arith)
            requires
                r1 - r0 == 0,
        ;
    }
}

/// A row sum splits at any column.
pub proof fn lemma_row_sum_split(
    data: Seq<u8>,
    width: int,
    row: int,
    c0: int,
    c1: int,
    c2: int,
    squared: bool,
)
    requires
        c0 <= c1 <= c2,
    ensures
        row_sum(data, width, row, c0, c2, squared) == row_sum(data, width, row, c0, c1, squared)
            + row_sum(data, width, row, c1, c2, squared),
    decreases c2 - c1,
{
    if c2 > c1 {
        lemma_row_sum_split(data, width, row, c0, c1, c2 - 1, squared);
    }
}

/// A region sum splits at any column.
pub proof fn lemma_region_sum_split_cols(
    data: Seq<u8>,
    width: int,
    r0: int,
    c0: int,
    r1: int,
    c1: int,
    c2: int,
    squared: bool,
)
    requires
        c0 <= c1 <= c2,
    ensures
        region_sum(data, width, r0, c0, r1, c2, squared) == region_sum(
            data,
            width,
            r0,
            c0,
            r1,
            c1,
            squared,
        ) + region_sum(data, width, r0, c1, r1, c2, squared),
    decreases r1 - r0,
{
    if r1 > r0 {
        lemma_region_sum_split_cols(data, width, r0, c0, r1 - 1, c1, c2, squared);
        lemma_row_sum_split(data, width, r1 - 1, c0, c1, c2, squared);
    }
}

/// A region sum splits at any row.
pub proof fn lemma_region_sum_split_rows(
    data: Seq<u8>,
    width: int,
    r0: int,
    c0: int,
    r1: int,
    r2: int,
    c1: int,
    squared: bool,
)
    requires
        r0 <= r1 <= r2,
    ensures
        region_sum(data, width, r0, c0, r2, c1, squared) == region_sum(
            data,
            width,
            r0,
            c0,
            r1,
            c1,
            squared,
        ) + region_sum(data, width, r1, c0, r2, c1, squared),
    decreases r2 - r1,
{
    if r2 > r1 {
        lemma_region_sum_split_rows(data, width, r0, c0, r1, r2 - 1, c1, squared);
    }
}

/// The sum over a region from the sums over the four regions that start at
/// the image's corner and end at the region's corners.
pub proof fn lemma_region_from_corners(
    data: Seq<u8>,
    width: int,
    r0: int,
    c0: int,
    r1: int,
    c1: int,
    squared: bool,
)
    requires
        0 <= r0 <= r1,
        0 <= c0 <= c1,
    ensures
        region_sum(data, width, r0, c0, r1, c1, squared) == region_sum(
            data,
            width,
            0,
            0,
            r1,
            c1,
            squared,
        ) - region_sum(data, width, 0, 0, r0, c1, squared) - region_sum(
            data,
            width,
            0,
            0,
            r1,
            c0,
            squared,
        ) + region_sum(data, width, 0, 0, r0, c0, squared),
{
    lemma_region_sum_split_rows(data, width, 0, 0, r0, r1, c1, squared);
    lemma_region_sum_split_rows(data, width, 0, 0, r0, r1, c0, squared);
    lemma_region_sum_split_cols(data, width, r0, 0, r1, c0, c1, squared);
}

impl Image {
    /// The image is one that detection works on: not empty, one sample to
    /// the pixel, `data` of the length that width and height give, and at
    /// most `MAX_PIXELS` pixels.
    pub open spec fn is_gray(&self) -> bool {
        &&& self.width > 0
        &&& self.height > 0
        &&& self.channels == 1
        &&& self.width * self.height <= MAX_PIXELS
        &&& self.data@.len() == self.width * self.height
    }

    /// An image of one sample to the pixel.
    pub fn gray(width: usize, height: usize, data: Vec<u8>) -> (img: Image)
        ensures
            img.width == width,
            img.height == height,
            img.channels == 1,
            img.data@ == data@,
    {
        Image { width, height, channels: 1, data }
    }

    /// Whether detection works on this image.
    pub fn check_gray(&self) -> (ok: bool)
        ensures
            ok == self.is_gray(),
    {
        if self.width == 0 || self.height == 0 || self.channels != 1 {
            return false;
        }
        if self.width > MAX_PIXELS || self.height > MAX_PIXELS {
            assert(self.width * self.height > MAX_PIXELS) by (nonlinear_arith)
                requires
                    self.width > MAX_PIXELS || self.height > MAX_PIXELS,
                    self.width >= 1,
                    self.height >= 1,
            ;
            return false;
        }
        assert(self.width * self.height <= 0x4000_0000 * 0x4000_0000) by (nonlinear_arith)
            requires
                self.width <= 0x4000_0000,
                self.height <= 0x4000_0000,
        ;
        let pixels: u64 = (self.width as u64) * (self.height as u64);
        pixels <= MAX_PIXELS as u64 && self.data.len() as u64 == pixels
    }
}

} // verus!
