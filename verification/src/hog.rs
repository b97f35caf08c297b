//! The descriptor of oriented-gradient histograms: its geometry and its
//! linear classifier. Coefficients and descriptor entries are fixed-point
//! numbers in units of 1/65536.

use vstd::prelude::*;
use crate::error::DetectError;
use crate::fixed::MAX_LENGTH;
use crate::geometry::Size;
use crate::gradient::{bounds_ok, check_bounds, standard_bounds, standard_directions, Direction};

verus! {

/// The most scale levels of a multi-scale detection.
pub const HOGDescriptor_DEFAULT_NLEVELS: i32 = 64;

/// The normalization of block vectors by their Euclidean norm, with
/// clipping.
pub const HOGDescriptor_L2Hys: i32 = 0;

/// The most orientation bins.
pub const MAX_BINS: i32 = 255;

/// The most entries of a descriptor.
pub const MAX_DESCRIPTOR: usize = 0x100_0000;

/// The geometry of a descriptor and the coefficients of its classifier.
#[derive(Clone, Debug)]
pub struct HOGDescriptor {
    /// The size of the detection window.
    pub win_size: Size,
    /// The size of a block; a multiple of the cell size.
    pub block_size: Size,
    /// The step from a block to the next.
    pub block_stride: Size,
    /// The size of a cell.
    pub cell_size: Size,
    /// The number of orientation bins.
    pub nbins: i32,
    /// The boundaries between the orientation bins: one fewer than there
    /// are bins.
    pub bin_bounds: Vec<Direction>,
    /// How block vectors are normalized.
    pub histogram_norm_type: i32,
    /// The coefficients of the classifier, and its bias where there is one
    /// more of them than the descriptor has entries.
    pub svm_detector: Vec<i32>,
}

/// The number of places of a block of side `block` in a window of side
/// `win`, at steps of `stride`.
pub open spec fn blocks_along(win: int, block: int, stride: int) -> int {
    (win - block) / stride + 1
}

impl HOGDescriptor {
    /// The coefficients of the classifier.
    pub open spec fn coefficients(&self) -> Seq<i32> {
        self.svm_detector@
    }

    /// The number of cells in a block.
    pub open spec fn cells_per_block(&self) -> int {
        (self.block_size.width / self.cell_size.width) * (self.block_size.height
            / self.cell_size.height)
    }

    /// The number of blocks in a window.
    pub open spec fn blocks_per_window(&self) -> int {
        blocks_along(
            self.win_size.width as int,
            self.block_size.width as int,
            self.block_stride.width as int,
        ) * blocks_along(
            self.win_size.height as int,
            self.block_size.height as int,
            self.block_stride.height as int,
        )
    }

    /// The number of entries of a block's vector.
    pub open spec fn block_length(&self) -> int {
        self.cells_per_block() * self.nbins
    }

    /// The number of entries of a window's descriptor.
    pub open spec fn descriptor_size(&self) -> int {
        self.blocks_per_window() * self.block_length()
    }

    /// The sizes fit together: cells tile the block, blocks at their stride
    /// tile the window, no side is longer than 32767, there are between one
    /// and 255 bins, with boundaries that divide the half turn into that
    /// many sectors, the descriptor has at most `MAX_DESCRIPTOR` entries,
    /// and block vectors are normalized in the one way there is.
    pub open spec fn geometry_ok(&self) -> bool {
        &&& self.histogram_norm_type == HOGDescriptor_L2Hys
        &&& 0 < self.cell_size.width <= self.block_size.width <= self.win_size.width <= MAX_LENGTH
        &&& 0 < self.cell_size.height <= self.block_size.height <= self.win_size.height <= MAX_LENGTH
        &&& 0 < self.block_stride.width
        &&& 0 < self.block_stride.height
        &&& self.block_size.width % self.cell_size.width == 0
        &&& self.block_size.height % self.cell_size.height == 0
        &&& (self.win_size.width - self.block_size.width) % (self.block_stride.width as int) == 0
        &&& (self.win_size.height - self.block_size.height) % (self.block_stride.height as int) == 0
        &&& 0 < self.nbins <= MAX_BINS
        &&& self.bin_bounds@.len() + 1 == self.nbins
        &&& bounds_ok(self.bin_bounds@)
        &&& self.descriptor_size() <= MAX_DESCRIPTOR
    }

    /// The coefficients fit the geometry: there are none, or one for each
    /// entry of the descriptor, or one more, the last being the bias.
    pub open spec fn detector_fits(&self) -> bool {
        let n = self.coefficients().len();
        n == 0 || n == self.descriptor_size() || n == self.descriptor_size() + 1
    }

    /// A descriptor of the given geometry, without coefficients. Nine bins
    /// are bins of equal angles; any other number of bins divides the unit
    /// diamond evenly, which is not a division into equal angles.
    pub fn with_geometry(
        win_size: Size,
        block_size: Size,
        block_stride: Size,
        cell_size: Size,
        nbins: i32,
    ) -> (d: HOGDescriptor)
        ensures
            d.win_size == win_size,
            d.block_size == block_size,
            d.block_stride == block_stride,
            d.cell_size == cell_size,
            d.nbins == nbins,
            d.bin_bounds@ == standard_directions(nbins as int),
            d.histogram_norm_type == HOGDescriptor_L2Hys,
            d.coefficients().len() == 0,
    {
        HOGDescriptor {
            win_size,
            block_size,
            block_stride,
            cell_size,
            nbins,
            bin_bounds: standard_bounds(nbins),
            histogram_norm_type: HOGDescriptor_L2Hys,
            svm_detector: Vec::new(),
        }
    }

    /// A descriptor of the given geometry, without coefficients, with the
    /// orientation bins that `bin_bounds` divide the half turn into.
    pub fn with_bounds(
        win_size: Size,
        block_size: Size,
        block_stride: Size,
        cell_size: Size,
        bin_bounds: Vec<Direction>,
    ) -> (d: HOGDescriptor)
        ensures
            d.win_size == win_size,
            d.block_size == block_size,
            d.block_stride == block_stride,
            d.cell_size == cell_size,
            d.bin_bounds@ == bin_bounds@,
            bin_bounds@.len() < MAX_BINS ==> d.nbins == bin_bounds@.len() + 1,
            bin_bounds@.len() >= MAX_BINS ==> d.nbins == 0,
            d.histogram_norm_type == HOGDescriptor_L2Hys,
            d.coefficients().len() == 0,
    {
        let nbins: i32 = if bin_bounds.len() < MAX_BINS as usize {
            bin_bounds.len() as i32 + 1
        } else {
            0
        };
        HOGDescriptor {
            win_size,
            block_size,
            block_stride,
            cell_size,
            nbins,
            bin_bounds,
            histogram_norm_type: HOGDescriptor_L2Hys,
            svm_detector: Vec::new(),
        }
    }

    /// The customary geometry: windows of 64 by 128, blocks of 16 by 16 at
    /// steps of 8, cells of 8 by 8, nine bins.
    pub fn default() -> (d: HOGDescriptor)
        ensures
            d.win_size == (Size { width: 64, height: 128 }),
            d.block_size == (Size { width: 16, height: 16 }),
            d.block_stride == (Size { width: 8, height: 8 }),
            d.cell_size == (Size { width: 8, height: 8 }),
            d.nbins == 9,
            d.bin_bounds@ == standard_directions(9),
            d.coefficients().len() == 0,
    {
        HOGDescriptor::with_geometry(
            Size { width: 64, height: 128 },
            Size { width: 16, height: 16 },
            Size { width: 8, height: 8 },
            Size { width: 8, height: 8 },
            9,
        )
    }

    /// A copy of `d`.
    pub fn copy(d: &HOGDescriptor) -> (c: HOGDescriptor)
        ensures
            c.win_size == d.win_size,
            c.block_size == d.block_size,
            c.block_stride == d.block_stride,
            c.cell_size == d.cell_size,
            c.nbins == d.nbins,
            c.bin_bounds@ == d.bin_bounds@,
            c.histogram_norm_type == d.histogram_norm_type,
            c.coefficients() == d.coefficients(),
    {
        let mut bounds: Vec<Direction> = Vec::new();
        let mut b: usize = 0;
        while b < d.bin_bounds.len()
            invariant
                b <= d.bin_bounds@.len(),
                bounds@ == d.bin_bounds@.take(b as int),
            decreases d.bin_bounds@.len() - b,
        {
            bounds.push(d.bin_bounds[b]);
            assert(bounds@ =~= d.bin_bounds@.take(b + 1));
            b += 1;
        }
        assert(bounds@ =~= d.bin_bounds@);
        let mut coefficients: Vec<i32> = Vec::new();
        let mut k: usize = 0;
        while k < d.svm_detector.len()
            invariant
                k <= d.svm_detector@.len(),
                coefficients@ == d.svm_detector@.take(k as int),
            decreases d.svm_detector@.len() - k,
        {
            coefficients.push(d.svm_detector[k]);
            assert(coefficients@ =~= d.svm_detector@.take(k + 1));
            k += 1;
        }
        assert(coefficients@ =~= d.svm_detector@);
        HOGDescriptor {
            win_size: d.win_size,
            block_size: d.block_size,
            block_stride: d.block_stride,
            cell_size: d.cell_size,
            nbins: d.nbins,
            bin_bounds: bounds,
            histogram_norm_type: d.histogram_norm_type,
            svm_detector: coefficients,
        }
    }

    /// Makes `c` a copy of `self`.
    pub fn copy_to(&self, c: &mut HOGDescriptor)
        ensures
            final(c).win_size == self.win_size,
            final(c).block_size == self.block_size,
            final(c).block_stride == self.block_stride,
            final(c).cell_size == self.cell_size,
            final(c).nbins == self.nbins,
            final(c).bin_bounds@ == self.bin_bounds@,
            final(c).histogram_norm_type == self.histogram_norm_type,
            final(c).coefficients() == self.coefficients(),
    {
        *c = HOGDescriptor::copy(self);
    }

    /// Takes over the descriptor `read`, if its sizes fit together and its
    /// coefficients fit its geometry; returns whether it did. A descriptor
    /// that is not taken over changes nothing.
    pub fn load_from(&mut self, read: &HOGDescriptor) -> (loaded: bool)
        ensures
            loaded == (read.geometry_ok() && read.detector_fits()),
            loaded ==> final(self).win_size == read.win_size && final(self).block_size == read.block_size
                && final(self).block_stride == read.block_stride && final(self).cell_size
                == read.cell_size && final(self).nbins == read.nbins && final(self).bin_bounds@
                == read.bin_bounds@ && final(self).histogram_norm_type == read.histogram_norm_type
                && final(self).coefficients() == read.coefficients(),
            !loaded ==> *final(self) == *old(self),
    {
        match read.check_detector_size() {
            Ok(fits) => {
                if fits {
                    *self = HOGDescriptor::copy(read);
                    true
                } else {
                    false
                }
            },
            Err(_) => false,
        }
    }

    /// Whether the sizes fit together.
    pub fn check_geometry(&self) -> (ok: bool)
        ensures
            ok == self.geometry_ok(),
    {
        let win = self.win_size;
        let block = self.block_size;
        let stride = self.block_stride;
        let cell = self.cell_size;
        if self.histogram_norm_type != HOGDescriptor_L2Hys {
            return false;
        }
        if !(0 < cell.width && cell.width <= block.width && block.width <= win.width && win.width
            <= MAX_LENGTH as i32) {
            return false;
        }
        if !(0 < cell.height && cell.height <= block.height && block.height <= win.height
            && win.height <= MAX_LENGTH as i32) {
            return false;
        }
        if stride.width <= 0 || stride.height <= 0 {
            return false;
        }
        if block.width as u32 % cell.width as u32 != 0 || block.height as u32 % cell.height as u32 != 0 {
            return false;
        }
        if (win.width - block.width) as u32 % stride.width as u32 != 0 || (win.height
            - block.height) as u32 % stride.height as u32 != 0 {
            return false;
        }
        if self.nbins <= 0 || self.nbins > MAX_BINS {
            return false;
        }
        if self.bin_bounds.len() != (self.nbins - 1) as usize || !check_bounds(&self.bin_bounds) {
            return false;
        }
        self.size_wide() <= MAX_DESCRIPTOR as u128
    }

    /// The number of entries of a descriptor, for sizes within bounds.
    fn size_wide(&self) -> (n: u128)
        requires
            0 < self.cell_size.width <= self.block_size.width <= self.win_size.width <= MAX_LENGTH,
            0 < self.cell_size.height <= self.block_size.height <= self.win_size.height <= MAX_LENGTH,
            0 < self.block_stride.width,
            0 < self.block_stride.height,
            0 < self.nbins <= MAX_BINS,
        ensures
            n == self.descriptor_size(),
    {
        let cx: u128 = (self.block_size.width as u128) / (self.cell_size.width as u128);
        let cy: u128 = (self.block_size.height as u128) / (self.cell_size.height as u128);
        let bx: u128 = ((self.win_size.width - self.block_size.width) as u128) / (
        self.block_stride.width as u128) + 1;
        let by: u128 = ((self.win_size.height - self.block_size.height) as u128) / (
        self.block_stride.height as u128) + 1;
        proof {
            vstd::arithmetic::div_mod::lemma_div_is_ordered_by_denominator(
                self.block_size.width as int,
                1,
                self.cell_size.width as int,
            );
            vstd::arithmetic::div_mod::lemma_div_is_ordered_by_denominator(
                self.block_size.height as int,
                1,
                self.cell_size.height as int,
            );
            vstd::arithmetic::div_mod::lemma_div_is_ordered_by_denominator(
                self.win_size.width - self.block_size.width,
                1,
                self.block_stride.width as int,
            );
            vstd::arithmetic::div_mod::lemma_div_is_ordered_by_denominator(
                self.win_size.height - self.block_size.height,
                1,
                self.block_stride.height as int,
            );
            assert(cx * cy <= 0x4000_0000) by (nonlinear_arith)
                requires
                    cx <= 0x7fff,
                    cy <= 0x7fff,
            ;
            assert(bx * by <= 0x4000_0000) by (nonlinear_arith)
                requires
                    bx <= 0x8000,
                    by <= 0x8000,
            ;
            assert((cx * cy) * (self.nbins as u128) <= 0x100_0000_0000) by (nonlinear_arith)
                requires
                    cx * cy <= 0x4000_0000,
                    0 < self.nbins <= 255,
            ;
            assert((bx * by) * ((cx * cy) * (self.nbins as u128)) <= 0x40_0000_0000_0000_0000)
                by (nonlinear_arith)
                requires
                    bx * by <= 0x4000_0000,
                    (cx * cy) * (self.nbins as u128) <= 0x100_0000_0000,
            ;
        }
        (bx * by) * ((cx * cy) * (self.nbins as u128))
    }

    /// The number of coefficients that the classifier needs, the bias not
    /// counted. Refused where the sizes do not fit together.
    pub fn get_descriptor_size(&self) -> (res: Result<usize, DetectError>)
        ensures
            res.is_ok() <==> self.geometry_ok(),
            res matches Ok(n) ==> n == self.descriptor_size(),
            res matches Err(e) ==> e == DetectError::InvalidInput,
    {
        if !self.check_geometry() {
            return Err(DetectError::InvalidInput);
        }
        Ok(self.size_wide() as usize)
    }

    /// Whether the coefficients fit the geometry. Refused where the sizes
    /// do not fit together.
    pub fn check_detector_size(&self) -> (res: Result<bool, DetectError>)
        ensures
            res.is_ok() <==> self.geometry_ok(),
            res matches Ok(b) ==> b == self.detector_fits(),
            res matches Err(e) ==> e == DetectError::InvalidInput,
    {
        if !self.check_geometry() {
            return Err(DetectError::InvalidInput);
        }
        let size: usize = self.size_wide() as usize;
        let n: usize = self.svm_detector.len();
        Ok(n == 0 || n == size || n == size + 1)
    }

    /// Sets the coefficients of the classifier. Refused, with the
    /// descriptor unchanged, where the sizes do not fit together or the
    /// coefficients do not fit the geometry.
    pub fn set_svm_detector(&mut self, svm_detector: Vec<i32>) -> (res: Result<(), DetectError>)
        ensures
            !old(self).geometry_ok() ==> res == Err::<(), DetectError>(DetectError::InvalidInput),
            old(self).geometry_ok() && !(svm_detector@.len() == 0 || svm_detector@.len() == old(self).descriptor_size() || svm_detector@.len() == old(self).descriptor_size() + 1) ==> res
                == Err::<(), DetectError>(DetectError::IncompatibleDescriptorSize),
            old(self).geometry_ok() && (svm_detector@.len() == 0 || svm_detector@.len() == old(self).descriptor_size() || svm_detector@.len() == old(self).descriptor_size() + 1)
                ==> res.is_ok(),
            res.is_err() ==> *final(self) == *old(self),
            res.is_ok() ==> final(self).coefficients() == svm_detector@ && final(self).win_size == old(self).win_size && final(self).block_size == old(self).block_size && final(self).block_stride
                == old(self).block_stride && final(self).cell_size == old(self).cell_size && final(self).nbins == old(self).nbins && final(self).bin_bounds@ == old(self).bin_bounds@ && final(self).histogram_norm_type == old(self).histogram_norm_type && final(self).detector_fits(),
    {
        if !self.check_geometry() {
            return Err(DetectError::InvalidInput);
        }
        let size: usize = self.size_wide() as usize;
        let n: usize = svm_detector.len();
        if !(n == 0 || n == size || n == size + 1) {
            return Err(DetectError::IncompatibleDescriptorSize);
        }
        self.svm_detector = svm_detector;
        Ok(())
    }
}

} // verus!
