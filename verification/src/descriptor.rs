//! The descriptor of one window: histograms of gradient orientations over
//! cells, gathered into blocks and normalized block by block.

use vstd::prelude::*;
use vstd::arithmetic::div_mod::{
    lemma_fundamental_div_mod, lemma_fundamental_div_mod_converse, lemma_mod_bound,
};
use crate::fixed::{isqrt, sqrt_floor};
use crate::gradient::{Field, GradientMap};
use crate::hog::{blocks_along, HOGDescriptor, MAX_DESCRIPTOR};
use crate::image::MAX_PIXELS;

verus! {

/// The bound at which the entries of a normalized block vector are
/// clipped: one fifth.
pub const CLIP: u64 = 13107;

/// What the pixel at `row`, `col` gives to the bin `bin`: the strength of
/// its gradient, if that is the bin of its orientation.
pub open spec fn vote(map: Field, row: int, col: int, bin: int) -> int {
    if map.direction(row, col) == bin {
        map.strength(row, col)
    } else {
        0
    }
}

/// The votes for `bin` of the pixels of `row` in the columns `c0..c1`.
pub open spec fn row_votes(map: Field, row: int, c0: int, c1: int, bin: int) -> int
    decreases c1 - c0,
{
    if c1 <= c0 {
        0
    } else {
        row_votes(map, row, c0, c1 - 1, bin) + vote(map, row, c1 - 1, bin)
    }
}

/// The votes for `bin` of the pixels in the rows `r0..r1` and the columns
/// `c0..c1`.
pub open spec fn cell_votes(map: Field, r0: int, c0: int, r1: int, c1: int, bin: int) -> int
    decreases r1 - r0,
{
    if r1 <= r0 {
        0
    } else {
        cell_votes(map, r0, c0, r1 - 1, c1, bin) + row_votes(map, r1 - 1, c0, c1, bin)
    }
}

/// Entry `e` of the vector of the block whose top-left pixel is at column
/// `bx` and row `by` of the map: the cells of the block row by row, and
/// for each cell its bins.
pub open spec fn block_entry(map: Field, d: HOGDescriptor, bx: int, by: int, e: int) -> int {
    let cell = e / (d.nbins as int);
    let bin = e % (d.nbins as int);
    let across = d.block_size.width / d.cell_size.width;
    let cy = cell / (across as int);
    let cx = cell % (across as int);
    cell_votes(
        map,
        by + cy * d.cell_size.height,
        bx + cx * d.cell_size.width,
        by + (cy + 1) * d.cell_size.height,
        bx + (cx + 1) * d.cell_size.width,
        bin,
    )
}

/// The vector of a block before normalization.
pub open spec fn block_raw(map: Field, d: HOGDescriptor, bx: int, by: int) -> Seq<int> {
    Seq::new(d.block_length() as nat, |e: int| block_entry(map, d, bx, by, e))
}

/// The sum of the squares of the first `upto` entries.
pub open spec fn sum_squares(v: Seq<int>, upto: int) -> int
    decreases upto,
{
    if upto <= 0 {
        0
    } else {
        sum_squares(v, upto - 1) + v[upto - 1] * v[upto - 1]
    }
}

/// The number that a vector is divided by: its Euclidean length, rounded
/// down, and one more, so that it is never zero.
pub open spec fn divisor(v: Seq<int>) -> int {
    sqrt_floor(sum_squares(v, v.len() as int)) + 1
}

/// The vector divided by its length: entries in units of 1/65536.
pub open spec fn unit(v: Seq<int>) -> Seq<int> {
    Seq::new(v.len(), |i: int| v[i] * 0x1_0000 / divisor(v))
}

/// The vector with each entry cut down to `CLIP`.
pub open spec fn clipped(v: Seq<int>) -> Seq<int> {
    Seq::new(v.len(), |i: int| if v[i] > CLIP { CLIP as int } else { v[i] })
}

/// The normalized vector of a block: divided by its length, clipped, and
/// divided by its length again.
pub open spec fn block_vector(map: Field, d: HOGDescriptor, bx: int, by: int) -> Seq<int> {
    unit(clipped(unit(block_raw(map, d, bx, by))))
}

/// Entry `i` of the descriptor of the window whose top-left pixel is at
/// column `wx` and row `wy` of the map: the blocks of the window row by
/// row, and for each block its vector.
pub open spec fn descriptor_entry(map: Field, d: HOGDescriptor, wx: int, wy: int, i: int) -> int {
    let block = i / d.block_length();
    let e = i % d.block_length();
    let across = blocks_along(
        d.win_size.width as int,
        d.block_size.width as int,
        d.block_stride.width as int,
    );
    let brow = block / across;
    let bcol = block % across;
    block_vector(map, d, wx + bcol * d.block_stride.width, wy + brow * d.block_stride.height)[e]
}

/// The descriptor of a window.
pub open spec fn window_descriptor(map: Field, d: HOGDescriptor, wx: int, wy: int) -> Seq<int> {
    Seq::new(d.descriptor_size() as nat, |i: int| descriptor_entry(map, d, wx, wy, i))
}

/// The sum of the first `upto` products of an entry and its coefficient.
pub open spec fn dot(desc: Seq<int>, coef: Seq<i32>, upto: int) -> int
    decreases upto,
{
    if upto <= 0 {
        0
    } else {
        dot(desc, coef, upto - 1) + desc[upto - 1] * coef[upto - 1]
    }
}

/// The score of a descriptor, in units of 1/65536 squared: the products of
/// entries and coefficients, and the bias where the coefficients hold one.
pub open spec fn score(desc: Seq<int>, coef: Seq<i32>) -> int {
    dot(desc, coef, desc.len() as int) + if coef.len() > desc.len() {
        coef[desc.len() as int] * 0x1_0000
    } else {
        0
    }
}

/// The integers that a list of unsigned numbers holds.
pub open spec fn ints(v: Seq<u64>) -> Seq<int> {
    Seq::new(v.len(), |i: int| v[i] as int)
}

proof fn lemma_row_votes_bounds(map: Field, row: int, c0: int, c1: int, bin: int)
    requires
        map.wf(),
        0 <= row < map.height(),
        0 <= c0 <= c1 <= map.width(),
    ensures
        0 <= row_votes(map, row, c0, c1, bin) <= 0x2_0000 * (c1 - c0),
    decreases c1 - c0,
{
    if c1 > c0 {
        lemma_row_votes_bounds(map, row, c0, c1 - 1, bin);
        lemma_strength_bound(map, row, c1 - 1);
    }
}

proof fn lemma_strength_bound(map: Field, row: int, col: int)
    ensures
        0 <= map.strength(row, col) <= 0x2_0000,
{
    let dx = crate::gradient::grad_x(
        map.pixels(),
        map.image_width(),
        map.image_height(),
        row - map.top(),
        col - map.left(),
    );
    let dy = crate::gradient::grad_y(
        map.pixels(),
        map.image_width(),
        map.image_height(),
        row - map.top(),
        col - map.left(),
    );
    crate::gradient::lemma_magnitude_bound(dx, dy);
}

proof fn lemma_cell_votes_bounds(map: Field, r0: int, c0: int, r1: int, c1: int, bin: int)
    requires
        map.wf(),
        0 <= r0 <= r1 <= map.height(),
        0 <= c0 <= c1 <= map.width(),
    ensures
        0 <= cell_votes(map, r0, c0, r1, c1, bin) <= 0x2_0000 * ((r1 - r0) * (c1 - c0)),
        (r1 - r0) * (c1 - c0) <= MAX_PIXELS,
    decreases r1 - r0,
{
    map.lemma_sizes();
    let w = c1 - c0;
    assert(0 <= (r1 - r0) * w <= map.height() * map.width()) by (nonlinear_arith)
        requires
            0 <= r1 - r0 <= map.height(),
            0 <= w <= map.width(),
    ;
    assert(map.height() * map.width() == map.width() * map.height()) by (nonlinear_arith);
    if r1 > r0 {
        lemma_cell_votes_bounds(map, r0, c0, r1 - 1, c1, bin);
        lemma_row_votes_bounds(map, r1 - 1, c0, c1, bin);
        assert(0x2_0000 * ((r1 - r0) * w) == 0x2_0000 * ((r1 - 1 - r0) * w) + 0x2_0000 * w)
            by (nonlinear_arith);
    } else {
        assert((r1 - r0) * w == 0) by (nonlinear_arith)
            requires
                r1 - r0 == 0,
        ;
    }
}

/// The votes of the cell in the rows `r0..r1` and columns `c0..c1`, bin by
/// bin.
fn cell_histogram(map: &GradientMap, r0: usize, c0: usize, r1: usize, c1: usize) -> (hist: Vec<u64>)
    requires
        map.wf(),
        r0 <= r1 <= map.height(),
        c0 <= c1 <= map.width(),
    ensures
        hist@.len() == map.nbins(),
        forall|b: int|
            0 <= b < map.nbins() ==> #[trigger] hist@[b] as int == cell_votes(
                map.field(),
                r0 as int,
                c0 as int,
                r1 as int,
                c1 as int,
                b,
            ),
        forall|b: int| 0 <= b < map.nbins() ==> #[trigger] hist@[b] <= 0x2_0000 * MAX_PIXELS,
{
    proof {
        map.lemma_sizes();
    }
    let nbins: usize = map.bin_count();
    let mut hist: Vec<u64> = Vec::new();
    let mut b: usize = 0;
    while b < nbins
        invariant
            b <= nbins,
            hist@.len() == b,
            forall|t: int| 0 <= t < b ==> #[trigger] hist@[t] == 0,
        decreases nbins - b,
    {
        hist.push(0);
        b += 1;
    }
    let mut r: usize = r0;
    while r < r1
        invariant
            map.wf(),
            r0 <= r <= r1 <= map.height(),
            c0 <= c1 <= map.width(),
            nbins == map.nbins(),
            hist@.len() == nbins,
            forall|t: int|
                0 <= t < nbins ==> #[trigger] hist@[t] as int == cell_votes(
                    map.field(),
                    r0 as int,
                    c0 as int,
                    r as int,
                    c1 as int,
                    t,
                ),
        decreases r1 - r,
    {
        let mut c: usize = c0;
        while c < c1
            invariant
                map.wf(),
                r0 <= r < r1 <= map.height(),
                c0 <= c <= c1 <= map.width(),
                nbins == map.nbins(),
                hist@.len() == nbins,
                forall|t: int|
                    0 <= t < nbins ==> #[trigger] hist@[t] as int == cell_votes(
                        map.field(),
                        r0 as int,
                        c0 as int,
                        r as int,
                        c1 as int,
                        t,
                    ) + row_votes(map.field(), r as int, c0 as int, c as int, t),
            decreases c1 - c,
        {
            let g: (u32, u8) = map.at(r, c);
            let at: usize = g.1 as usize;
            let ghost before = hist@;
            proof {
                map.lemma_sizes();
                lemma_cell_votes_bounds(map.field(), r0 as int, c0 as int, r as int, c1 as int, at as int);
                lemma_row_votes_bounds(map.field(), r as int, c0 as int, c as int, at as int);
                assert(0x2_0000 * (c - c0) <= 0x2_0000 * MAX_PIXELS) by (nonlinear_arith)
                    requires
                        0 <= c - c0 <= MAX_PIXELS,
                ;
                assert(0x2_0000 * ((r - r0) * (c1 - c0)) <= 0x2_0000 * MAX_PIXELS) by (nonlinear_arith)
                    requires
                        0 <= (r - r0) * (c1 - c0) <= MAX_PIXELS,
                ;
            }
            let old_value: u64 = hist[at];
            hist.set(at, old_value + g.0 as u64);
            proof {
                assert forall|t: int| 0 <= t < nbins implies #[trigger] hist@[t] as int == cell_votes(
                    map.field(),
                    r0 as int,
                    c0 as int,
                    r as int,
                    c1 as int,
                    t,
                ) + row_votes(map.field(), r as int, c0 as int, c + 1, t) by {
                    assert(before[t] as int == cell_votes(
                        map.field(),
                        r0 as int,
                        c0 as int,
                        r as int,
                        c1 as int,
                        t,
                    ) + row_votes(map.field(), r as int, c0 as int, c as int, t));
                }
            }
            c += 1;
        }
        r += 1;
    }
    proof {
        assert forall|t: int| 0 <= t < nbins implies #[trigger] hist@[t] <= 0x2_0000 * MAX_PIXELS by {
            lemma_cell_votes_bounds(map.field(), r0 as int, c0 as int, r1 as int, c1 as int, t);
            assert(0x2_0000 * ((r1 - r0) * (c1 - c0)) <= 0x2_0000 * MAX_PIXELS) by (nonlinear_arith)
                requires
                    0 <= (r1 - r0) * (c1 - c0) <= MAX_PIXELS,
            ;
        }
    }
    hist
}

/// The block whose top-left pixel is at column `bx` and row `by` lies
/// inside the map.
pub open spec fn block_inside(map: Field, d: HOGDescriptor, bx: int, by: int) -> bool {
    &&& 0 <= bx
    &&& 0 <= by
    &&& bx + d.block_size.width <= map.width()
    &&& by + d.block_size.height <= map.height()
}

/// The window whose top-left pixel is at column `wx` and row `wy` lies
/// inside the map.
pub open spec fn window_inside(map: Field, d: HOGDescriptor, wx: int, wy: int) -> bool {
    &&& 0 <= wx
    &&& 0 <= wy
    &&& wx + d.win_size.width <= map.width()
    &&& wy + d.win_size.height <= map.height()
}

proof fn lemma_grid(total: int, part: int, k: int)
    requires
        0 < part <= total,
        total % part == 0,
        0 <= k < total / part,
    ensures
        0 <= k * part,
        (k + 1) * part <= total,
        k * part + part == (k + 1) * part,
{
    lemma_fundamental_div_mod(total, part);
    let n = total / part;
    assert(total == part * n);
    assert(0 <= k * part && (k + 1) * part <= part * n && k * part + part == (k + 1) * part)
        by (nonlinear_arith)
        requires
            0 <= k < n,
            0 < part,
    ;
}

proof fn lemma_cell_count(d: HOGDescriptor)
    requires
        d.geometry_ok(),
    ensures
        1 <= d.block_size.width / d.cell_size.width <= 0x7fff,
        1 <= d.block_size.height / d.cell_size.height <= 0x7fff,
        1 <= d.cells_per_block() <= 0x4000_0000,
        1 <= d.block_length() <= MAX_DESCRIPTOR,
        1 <= d.blocks_per_window(),
        1 <= blocks_along(
            d.win_size.width as int,
            d.block_size.width as int,
            d.block_stride.width as int,
        ) <= 0x8000,
        1 <= blocks_along(
            d.win_size.height as int,
            d.block_size.height as int,
            d.block_stride.height as int,
        ) <= 0x8000,
        d.blocks_per_window() <= MAX_DESCRIPTOR,
        d.descriptor_size() >= 1,
{
    let ax = d.block_size.width / d.cell_size.width;
    let ay = d.block_size.height / d.cell_size.height;
    lemma_fundamental_div_mod(d.block_size.width as int, d.cell_size.width as int);
    lemma_fundamental_div_mod(d.block_size.height as int, d.cell_size.height as int);
    assert(1 <= ax <= 0x7fff) by (nonlinear_arith)
        requires
            d.block_size.width == d.cell_size.width * ax,
            0 < d.cell_size.width <= d.block_size.width <= 0x7fff,
    ;
    assert(1 <= ay <= 0x7fff) by (nonlinear_arith)
        requires
            d.block_size.height == d.cell_size.height * ay,
            0 < d.cell_size.height <= d.block_size.height <= 0x7fff,
    ;
    let bx = blocks_along(
        d.win_size.width as int,
        d.block_size.width as int,
        d.block_stride.width as int,
    );
    let by = blocks_along(
        d.win_size.height as int,
        d.block_size.height as int,
        d.block_stride.height as int,
    );
    vstd::arithmetic::div_mod::lemma_div_pos_is_pos(
        d.win_size.width - d.block_size.width,
        d.block_stride.width as int,
    );
    vstd::arithmetic::div_mod::lemma_div_pos_is_pos(
        d.win_size.height - d.block_size.height,
        d.block_stride.height as int,
    );
    vstd::arithmetic::div_mod::lemma_div_is_ordered_by_denominator(
        d.win_size.width - d.block_size.width,
        1,
        d.block_stride.width as int,
    );
    vstd::arithmetic::div_mod::lemma_div_is_ordered_by_denominator(
        d.win_size.height - d.block_size.height,
        1,
        d.block_stride.height as int,
    );
    let cells = ax * ay;
    let n = d.nbins as int;
    assert(1 <= cells <= 0x4000_0000) by (nonlinear_arith)
        requires
            cells == ax * ay,
            1 <= ax <= 0x7fff,
            1 <= ay <= 0x7fff,
    ;
    let blocks = bx * by;
    assert(1 <= blocks) by (nonlinear_arith)
        requires
            blocks == bx * by,
            1 <= bx,
            1 <= by,
    ;
    assert(cells * n >= 1 && cells * n <= blocks * (cells * n) && blocks <= blocks * (cells * n))
        by (nonlinear_arith)
        requires
            1 <= cells,
            1 <= n,
            1 <= blocks,
    ;
}

/// The vector of a block before normalization.
fn raw_block(map: &GradientMap, d: &HOGDescriptor, bx: usize, by: usize) -> (v: Vec<u64>)
    requires
        map.wf(),
        d.geometry_ok(),
        d.nbins == map.nbins(),
        block_inside(map.field(), *d, bx as int, by as int),
    ensures
        ints(v@) == block_raw(map.field(), *d, bx as int, by as int),
        v@.len() == d.block_length(),
        forall|i: int| 0 <= i < v@.len() ==> #[trigger] v@[i] <= 0x2_0000 * MAX_PIXELS,
{
    proof {
        lemma_cell_count(*d);
        map.lemma_sizes();
    }
    let nbins: usize = d.nbins as usize;
    let cw: usize = d.cell_size.width as usize;
    let ch: usize = d.cell_size.height as usize;
    let across: usize = d.block_size.width as usize / cw;
    let down: usize = d.block_size.height as usize / ch;
    let cells: usize = across * down;
    let mut v: Vec<u64> = Vec::new();
    let mut cell: usize = 0;
    assert(0 * nbins == 0) by (nonlinear_arith);
    while cell < cells
        invariant
            cell <= cells,
            map.wf(),
            d.geometry_ok(),
            d.nbins == map.nbins(),
            block_inside(map.field(), *d, bx as int, by as int),
            nbins == d.nbins,
            cw == d.cell_size.width,
            ch == d.cell_size.height,
            across == d.block_size.width / d.cell_size.width,
            down == d.block_size.height / d.cell_size.height,
            1 <= across <= 0x7fff,
            1 <= down <= 0x7fff,
            cells == across * down,
            cells == d.cells_per_block(),
            cells * nbins <= MAX_DESCRIPTOR,
            v@.len() == cell * nbins,
            forall|e: int|
                0 <= e < v@.len() ==> #[trigger] v@[e] as int == block_entry(
                    map.field(),
                    *d,
                    bx as int,
                    by as int,
                    e,
                ),
            forall|e: int| 0 <= e < v@.len() ==> #[trigger] v@[e] <= 0x2_0000 * MAX_PIXELS,
        decreases cells - cell,
    {
        let cy: usize = cell / across;
        let cx: usize = cell % across;
        proof {
            lemma_fundamental_div_mod(cell as int, across as int);
            lemma_mod_bound(cell as int, across as int);
            assert(cy < down) by (nonlinear_arith)
                requires
                    cell == across * cy + cx,
                    0 <= cx < across,
                    cell < across * down,
                    0 <= cy,
            ;
            map.lemma_sizes();
            lemma_grid(d.block_size.width as int, cw as int, cx as int);
            lemma_grid(d.block_size.height as int, ch as int, cy as int);
            assert(cell * nbins + nbins == (cell + 1) * nbins && (cell + 1) * nbins <= cells * nbins)
                by (nonlinear_arith)
                requires
                    cell < cells,
                    0 < nbins,
            ;
        }
        let r0: usize = by + cy * ch;
        let c0: usize = bx + cx * cw;
        let hist: Vec<u64> = cell_histogram(map, r0, c0, r0 + ch, c0 + cw);
        let mut b: usize = 0;
        while b < nbins
            invariant
                b <= nbins,
                nbins == d.nbins,
                0 < nbins,
                cell < cells,
                (cell + 1) * nbins <= MAX_DESCRIPTOR,
                cell * nbins + nbins == (cell + 1) * nbins,
                hist@.len() == nbins,
                across == d.block_size.width / d.cell_size.width,
                cy == cell / across,
                cx == cell % across,
                r0 == by + cy * ch,
                c0 == bx + cx * cw,
                cw == d.cell_size.width,
                ch == d.cell_size.height,
                cy * ch + ch == (cy + 1) * ch,
                cx * cw + cw == (cx + 1) * cw,
                forall|t: int|
                    0 <= t < nbins ==> #[trigger] hist@[t] as int == cell_votes(
                        map.field(),
                        r0 as int,
                        c0 as int,
                        r0 + ch,
                        c0 + cw,
                        t,
                    ),
                forall|t: int| 0 <= t < nbins ==> #[trigger] hist@[t] <= 0x2_0000 * MAX_PIXELS,
                v@.len() == cell * nbins + b,
                forall|e: int|
                    0 <= e < v@.len() ==> #[trigger] v@[e] as int == block_entry(
                        map.field(),
                        *d,
                        bx as int,
                        by as int,
                        e,
                    ),
                forall|e: int| 0 <= e < v@.len() ==> #[trigger] v@[e] <= 0x2_0000 * MAX_PIXELS,
            decreases nbins - b,
        {
            proof {
                lemma_fundamental_div_mod_converse(
                    cell * nbins + b,
                    nbins as int,
                    cell as int,
                    b as int,
                );
                assert(cell * nbins == nbins * cell) by (nonlinear_arith);
            }
            v.push(hist[b]);
            b += 1;
        }
        cell += 1;
    }
    assert(ints(v@) =~= block_raw(map.field(), *d, bx as int, by as int));
    v
}

proof fn lemma_sum_squares_bounds(v: Seq<int>, upto: int, bound: int, i: int)
    requires
        0 <= upto <= v.len(),
        forall|k: int| 0 <= k < v.len() ==> 0 <= #[trigger] v[k] <= bound,
        0 <= bound,
    ensures
        0 <= sum_squares(v, upto) <= upto * (bound * bound),
        0 <= i < upto ==> v[i] * v[i] <= sum_squares(v, upto),
    decreases upto,
{
    if upto > 0 {
        lemma_sum_squares_bounds(v, upto - 1, bound, i);
        let x = v[upto - 1];
        assert(0 <= x * x <= bound * bound) by (nonlinear_arith)
            requires
                0 <= x <= bound,
        ;
        assert(upto * (bound * bound) == (upto - 1) * (bound * bound) + bound * bound)
            by (nonlinear_arith);
    }
}

/// The vector divided by its length.
fn normalize(v: &Vec<u64>) -> (u: Vec<u64>)
    requires
        v@.len() <= MAX_DESCRIPTOR,
        forall|i: int| 0 <= i < v@.len() ==> #[trigger] v@[i] <= 0x2_0000 * MAX_PIXELS,
    ensures
        ints(u@) == unit(ints(v@)),
        u@.len() == v@.len(),
        forall|i: int| 0 <= i < u@.len() ==> #[trigger] u@[i] <= 0x1_0000,
{
    let n: usize = v.len();
    let ghost vi = ints(v@);
    let ghost bound: int = 0x2_0000 * MAX_PIXELS;
    let mut total: u128 = 0;
    let mut k: usize = 0;
    while k < n
        invariant
            k <= n,
            n == v@.len(),
            n <= MAX_DESCRIPTOR,
            vi == ints(v@),
            bound == 0x2_0000 * MAX_PIXELS,
            forall|i: int| 0 <= i < v@.len() ==> #[trigger] v@[i] <= 0x2_0000 * MAX_PIXELS,
            total == sum_squares(vi, k as int),
        decreases n - k,
    {
        let x: u128 = v[k] as u128;
        proof {
            assert forall|t: int| 0 <= t < vi.len() implies 0 <= #[trigger] vi[t] <= bound by {
                assert(v@[t] <= 0x2_0000 * MAX_PIXELS);
            }
            lemma_sum_squares_bounds(vi, k as int, bound, 0);
            lemma_sum_squares_bounds(vi, k + 1, bound, 0);
            assert(bound * bound == 0x4000_0000_0000_0000_0000_0000) by (nonlinear_arith)
                requires
                    bound == 0x8000_0000_0000,
            ;
            assert((k + 1) * (bound * bound) <= 0x40_0000_0000_0000_0000_0000_0000_0000)
                by (nonlinear_arith)
                requires
                    k + 1 <= 0x100_0000,
                    bound * bound == 0x4000_0000_0000_0000_0000_0000,
            ;
            assert(x * x <= bound * bound) by (nonlinear_arith)
                requires
                    0 <= x <= bound,
            ;
        }
        total = total + x * x;
        k += 1;
    }
    proof {
        assert forall|t: int| 0 <= t < vi.len() implies 0 <= #[trigger] vi[t] <= bound by {
            assert(v@[t] <= 0x2_0000 * MAX_PIXELS);
        }
        lemma_sum_squares_bounds(vi, n as int, bound, 0);
        assert(bound * bound == 0x4000_0000_0000_0000_0000_0000) by (nonlinear_arith)
            requires
                bound == 0x8000_0000_0000,
        ;
        assert(n * (bound * bound) <= 0x40_0000_0000_0000_0000_0000_0000_0000)
            by (nonlinear_arith)
            requires
                0 <= n <= 0x100_0000,
                bound * bound == 0x4000_0000_0000_0000_0000_0000,
        ;
    }
    let root: u64 = isqrt(total);
    assert(root < 0x8000_0000_0000_0000) by (nonlinear_arith)
        requires
            0 <= root,
            root * root <= total,
            total <= 0x40_0000_0000_0000_0000_0000_0000_0000,
    ;
    let div: u128 = root as u128 + 1;
    assert(div == divisor(vi));
    let mut u: Vec<u64> = Vec::new();
    k = 0;
    while k < n
        invariant
            k <= n,
            n == v@.len(),
            vi == ints(v@),
            bound == 0x2_0000 * MAX_PIXELS,
            forall|i: int| 0 <= i < v@.len() ==> #[trigger] v@[i] <= 0x2_0000 * MAX_PIXELS,
            forall|t: int| 0 <= t < vi.len() ==> 0 <= #[trigger] vi[t] <= bound,
            total == sum_squares(vi, n as int),
            root * root <= total < (root + 1) * (root + 1),
            div == root + 1,
            div == divisor(vi),
            u@.len() == k,
            forall|i: int| 0 <= i < k ==> #[trigger] u@[i] as int == vi[i] * 0x1_0000 / divisor(vi),
            forall|i: int| 0 <= i < k ==> #[trigger] u@[i] <= 0x1_0000,
        decreases n - k,
    {
        let x: u128 = v[k] as u128;
        proof {
            lemma_sum_squares_bounds(vi, n as int, bound, k as int);
            assert(vi[k as int] == x);
            assert(x < div) by (nonlinear_arith)
                requires
                    0 <= x,
                    x * x <= total,
                    total < div * div,
                    0 < div,
            ;
            assert(x * 0x1_0000 < div * 0x1_0000) by (nonlinear_arith)
                requires
                    x < div,
            ;
            lemma_fundamental_div_mod(x * 0x1_0000, div as int);
            lemma_mod_bound(x * 0x1_0000, div as int);
            let q = (x * 0x1_0000) / (div as int);
            assert(q < 0x1_0000) by (nonlinear_arith)
                requires
                    x * 0x1_0000 == div * q + (x * 0x1_0000) % (div as int),
                    0 <= (x * 0x1_0000) % (div as int),
                    x * 0x1_0000 < div * 0x1_0000,
                    0 < div,
            ;
        }
        u.push((x * 0x1_0000 / div) as u64);
        k += 1;
    }
    assert(ints(u@) =~= unit(vi));
    u
}

/// The vector with each entry cut down to `CLIP`.
fn clip(v: &Vec<u64>) -> (u: Vec<u64>)
    ensures
        ints(u@) == clipped(ints(v@)),
        u@.len() == v@.len(),
        forall|i: int| 0 <= i < u@.len() ==> #[trigger] u@[i] <= CLIP,
{
    let mut u: Vec<u64> = Vec::new();
    let mut k: usize = 0;
    while k < v.len()
        invariant
            k <= v@.len(),
            u@.len() == k,
            forall|i: int|
                0 <= i < k ==> #[trigger] u@[i] == if v@[i] > CLIP {
                    CLIP
                } else {
                    v@[i]
                },
        decreases v@.len() - k,
    {
        let x: u64 = v[k];
        u.push(if x > CLIP { CLIP } else { x });
        k += 1;
    }
    assert(ints(u@) =~= clipped(ints(v@)));
    u
}

/// The normalized vector of a block.
fn block(map: &GradientMap, d: &HOGDescriptor, bx: usize, by: usize) -> (v: Vec<u64>)
    requires
        map.wf(),
        d.geometry_ok(),
        d.nbins == map.nbins(),
        block_inside(map.field(), *d, bx as int, by as int),
    ensures
        ints(v@) == block_vector(map.field(), *d, bx as int, by as int),
        v@.len() == d.block_length(),
        forall|i: int| 0 <= i < v@.len() ==> #[trigger] v@[i] <= 0x1_0000,
{
    proof {
        lemma_cell_count(*d);
    }
    let raw = raw_block(map, d, bx, by);
    let first = normalize(&raw);
    let cut = clip(&first);
    normalize(&cut)
}

/// The descriptor of the window whose top-left pixel is at column `wx` and
/// row `wy` of the map.
pub fn compute_window(map: &GradientMap, d: &HOGDescriptor, wx: usize, wy: usize) -> (desc: Vec<u64>)
    requires
        map.wf(),
        d.geometry_ok(),
        d.nbins == map.nbins(),
        window_inside(map.field(), *d, wx as int, wy as int),
    ensures
        ints(desc@) == window_descriptor(map.field(), *d, wx as int, wy as int),
        desc@.len() == d.descriptor_size(),
        forall|i: int| 0 <= i < desc@.len() ==> #[trigger] desc@[i] <= 0x1_0000,
{
    proof {
        lemma_cell_count(*d);
        map.lemma_sizes();
    }
    let sw: usize = d.block_stride.width as usize;
    let sh: usize = d.block_stride.height as usize;
    let across: usize = (d.win_size.width - d.block_size.width) as usize / sw + 1;
    let down: usize = (d.win_size.height - d.block_size.height) as usize / sh + 1;
    let blocks: usize = across * down;
    let ghost len = d.block_length();
    let mut desc: Vec<u64> = Vec::new();
    let mut b: usize = 0;
    assert(0 * len == 0) by (nonlinear_arith);
    while b < blocks
        invariant
            b <= blocks,
            map.wf(),
            d.geometry_ok(),
            d.nbins == map.nbins(),
            window_inside(map.field(), *d, wx as int, wy as int),
            sw == d.block_stride.width,
            sh == d.block_stride.height,
            across == blocks_along(
                d.win_size.width as int,
                d.block_size.width as int,
                d.block_stride.width as int,
            ),
            down == blocks_along(
                d.win_size.height as int,
                d.block_size.height as int,
                d.block_stride.height as int,
            ),
            1 <= across <= 0x8000,
            1 <= down <= 0x8000,
            blocks == across * down,
            blocks == d.blocks_per_window(),
            len == d.block_length(),
            1 <= len,
            blocks * len == d.descriptor_size(),
            desc@.len() == b * len,
            forall|i: int|
                0 <= i < desc@.len() ==> #[trigger] desc@[i] as int == descriptor_entry(
                    map.field(),
                    *d,
                    wx as int,
                    wy as int,
                    i,
                ),
            forall|i: int| 0 <= i < desc@.len() ==> #[trigger] desc@[i] <= 0x1_0000,
        decreases blocks - b,
    {
        let brow: usize = b / across;
        let bcol: usize = b % across;
        proof {
            lemma_fundamental_div_mod(b as int, across as int);
            lemma_mod_bound(b as int, across as int);
            assert(brow < down) by (nonlinear_arith)
                requires
                    b == across * brow + bcol,
                    0 <= bcol < across,
                    b < across * down,
                    0 <= brow,
            ;
            map.lemma_sizes();
            lemma_stride(
                d.win_size.width as int,
                d.block_size.width as int,
                sw as int,
                bcol as int,
            );
            lemma_stride(
                d.win_size.height as int,
                d.block_size.height as int,
                sh as int,
                brow as int,
            );
            assert(b * len + len == (b + 1) * len && (b + 1) * len <= blocks * len) by (nonlinear_arith)
                requires
                    b < blocks,
                    0 < len,
            ;
        }
        let bx: usize = wx + bcol * sw;
        let by: usize = wy + brow * sh;
        let v: Vec<u64> = block(map, d, bx, by);
        let mut e: usize = 0;
        while e < v.len()
            invariant
                e <= v@.len(),
                v@.len() == len,
                1 <= len,
                len == d.block_length(),
                b < blocks,
                b * len + len == (b + 1) * len,
                across == blocks_along(
                    d.win_size.width as int,
                    d.block_size.width as int,
                    d.block_stride.width as int,
                ),
                brow == b / across,
                bcol == b % across,
                bx == wx + bcol * sw,
                by == wy + brow * sh,
                sw == d.block_stride.width,
                sh == d.block_stride.height,
                ints(v@) == block_vector(map.field(), *d, bx as int, by as int),
                forall|i: int| 0 <= i < v@.len() ==> #[trigger] v@[i] <= 0x1_0000,
                desc@.len() == b * len + e,
                forall|i: int|
                    0 <= i < desc@.len() ==> #[trigger] desc@[i] as int == descriptor_entry(
                        map.field(),
                        *d,
                        wx as int,
                        wy as int,
                        i,
                    ),
                forall|i: int| 0 <= i < desc@.len() ==> #[trigger] desc@[i] <= 0x1_0000,
            decreases v@.len() - e,
        {
            proof {
                lemma_fundamental_div_mod_converse(b * len + e, len, b as int, e as int);
                assert(b * len == len * b) by (nonlinear_arith);
                assert(ints(v@)[e as int] == v@[e as int]);
            }
            desc.push(v[e]);
            e += 1;
        }
        b += 1;
    }
    assert(ints(desc@) =~= window_descriptor(map.field(), *d, wx as int, wy as int));
    desc
}

proof fn lemma_stride(win: int, block: int, stride: int, k: int)
    requires
        0 < block <= win,
        0 < stride,
        (win - block) % stride == 0,
        0 <= k < blocks_along(win, block, stride),
    ensures
        0 <= k * stride,
        k * stride + block <= win,
{
    lemma_fundamental_div_mod(win - block, stride);
    let n = (win - block) / stride;
    assert(0 <= k * stride && k * stride <= stride * n) by (nonlinear_arith)
        requires
            0 <= k <= n,
            0 < stride,
    ;
}

/// The score of a descriptor under the classifier with the coefficients
/// `coef`.
pub fn classify(desc: &Vec<u64>, coef: &Vec<i32>) -> (s: i128)
    requires
        desc@.len() <= MAX_DESCRIPTOR,
        coef@.len() == desc@.len() || coef@.len() == desc@.len() + 1,
        forall|i: int| 0 <= i < desc@.len() ==> #[trigger] desc@[i] <= 0x1_0000,
    ensures
        s == score(ints(desc@), coef@),
        -0x100_0000_0000_0000_0000 <= s <= 0x100_0000_0000_0000_0000,
{
    let n: usize = desc.len();
    let ghost di = ints(desc@);
    let mut s: i128 = 0;
    let mut k: usize = 0;
    while k < n
        invariant
            k <= n,
            n == desc@.len(),
            n <= MAX_DESCRIPTOR,
            coef@.len() >= n,
            di == ints(desc@),
            forall|i: int| 0 <= i < desc@.len() ==> #[trigger] desc@[i] <= 0x1_0000,
            s == dot(di, coef@, k as int),
            -k * 0x8000_0000_0000 <= s <= k * 0x8000_0000_0000,
        decreases n - k,
    {
        let x: i128 = desc[k] as i128;
        let c: i128 = coef[k] as i128;
        assert(-0x8000_0000_0000 <= x * c <= 0x8000_0000_0000) by (nonlinear_arith)
            requires
                0 <= x <= 0x1_0000,
                -0x8000_0000 <= c <= 0x8000_0000,
        ;
        assert(di[k as int] == x);
        assert(k * 0x8000_0000_0000 <= 0x100_0000 * 0x8000_0000_0000) by (nonlinear_arith)
            requires
                k <= 0x100_0000,
        ;
        s = s + x * c;
        k += 1;
    }
    assert(k * 0x8000_0000_0000 <= 0x100_0000 * 0x8000_0000_0000) by (nonlinear_arith)
        requires
            k <= 0x100_0000,
    ;
    if coef.len() > n {
        s = s + (coef[n] as i128) * 0x1_0000;
    }
    s
}

} // verus!
