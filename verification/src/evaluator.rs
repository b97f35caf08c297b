//! Evaluation of a cascade on one window: stage after stage, until a stage
//! rejects the window or all have passed it.

use vstd::prelude::*;
use crate::cascade::{
    grid_inside, probe_ok, rect_inside, stage_ok, Branch, CascadeModel, Feature, Probe, Stage, Test,
    TreeNode, WeakClassifier, CV_HAAR_FEATURE_MAX, MAX_WEAK,
};
use crate::fixed::{
    isqrt, lemma_scaled_bound, lemma_scaled_monotone, scale_length, scaled, sqrt_floor, MAX_SCALE,
    ONE,
};
use crate::geometry::Rect;
use crate::image::{region_sum, MAX_PIXELS};
use crate::integral::IntegralImage;

verus! {

/// A window of the scan: its top-left corner in the image, and the factor,
/// in units of 1/65536, by which the training window is enlarged.
#[derive(Clone, Copy, Debug, PartialEq, Eq, Structural)]
pub struct Window {
    pub x: usize,
    pub y: usize,
    pub scale: u64,
}

/// What became of a window.
#[derive(Clone, Copy, Debug, PartialEq, Eq, Structural)]
pub struct PassResult {
    /// Whether every stage passed the window.
    pub passed: bool,
    /// The first stage that rejected it.
    pub failed_stage: Option<usize>,
    /// The margin of the last stage that was evaluated: the sum of its
    /// values less its threshold. Zero for a cascade without stages.
    pub confidence: i64,
    /// How many weak classifiers were evaluated.
    pub weak_evaluations: usize,
}

/// The width in the image of the window `win`.
pub open spec fn window_width(model: CascadeModel, win: Window) -> int {
    scaled(model.window.width as int, win.scale as int)
}

/// The height in the image of the window `win`.
pub open spec fn window_height(model: CascadeModel, win: Window) -> int {
    scaled(model.window.height as int, win.scale as int)
}

/// The window is at least as large as the training window and lies inside
/// an image of the given size.
pub open spec fn window_fits(model: CascadeModel, win: Window, width: int, height: int) -> bool {
    &&& ONE <= win.scale <= MAX_SCALE
    &&& win.x + window_width(model, win) <= width
    &&& win.y + window_height(model, win) <= height
}

/// The sum over the part of the window that, in the training window, spans
/// the columns `x0..x1` and the rows `y0..y1`. The four edges are scaled and
/// rounded each on its own, so that adjoining parts stay adjoining.
pub open spec fn placed_sum(
    pixels: Seq<u8>,
    width: int,
    win: Window,
    x0: int,
    y0: int,
    x1: int,
    y1: int,
    squared: bool,
) -> int {
    region_sum(
        pixels,
        width,
        win.y + scaled(y0, win.scale as int),
        win.x + scaled(x0, win.scale as int),
        win.y + scaled(y1, win.scale as int),
        win.x + scaled(x1, win.scale as int),
        squared,
    )
}

/// The weighted sum of the first `upto` rectangles of a Haar measurement.
pub open spec fn haar_response(
    pixels: Seq<u8>,
    width: int,
    win: Window,
    features: Seq<Feature>,
    upto: int,
) -> int
    decreases upto,
{
    if upto <= 0 {
        0
    } else {
        let f = features[upto - 1];
        haar_response(pixels, width, win, features, upto - 1) + f.weight * placed_sum(
            pixels,
            width,
            win,
            f.rect.x as int,
            f.rect.y as int,
            f.rect.x + f.rect.width,
            f.rect.y + f.rect.height,
            false,
        )
    }
}

/// The sum over the cell in row `i` and column `j` of the grid whose
/// top-left cell is `r`.
pub open spec fn grid_cell_sum(pixels: Seq<u8>, width: int, win: Window, r: Rect, i: int, j: int) -> int {
    placed_sum(
        pixels,
        width,
        win,
        r.x + j * r.width,
        r.y + i * r.height,
        r.x + (j + 1) * r.width,
        r.y + (i + 1) * r.height,
        false,
    )
}

/// `value` where the cell in row `i` and column `j` sums to no less than the
/// centre cell, zero otherwise.
pub open spec fn grid_bit(
    pixels: Seq<u8>,
    width: int,
    win: Window,
    r: Rect,
    i: int,
    j: int,
    value: int,
) -> int {
    if grid_cell_sum(pixels, width, win, r, i, j) >= grid_cell_sum(pixels, width, win, r, 1, 1) {
        value
    } else {
        0
    }
}

/// The local binary pattern of a grid: one bit for each of the eight cells
/// around the centre, clockwise from the top-left cell, which gives the
/// highest bit.
pub open spec fn lbp_code(pixels: Seq<u8>, width: int, win: Window, r: Rect) -> int {
    grid_bit(pixels, width, win, r, 0, 0, 128) + grid_bit(pixels, width, win, r, 0, 1, 64) + grid_bit(
        pixels,
        width,
        win,
        r,
        0,
        2,
        32,
    ) + grid_bit(pixels, width, win, r, 1, 2, 16) + grid_bit(pixels, width, win, r, 2, 2, 8) + grid_bit(
        pixels,
        width,
        win,
        r,
        2,
        1,
        4,
    ) + grid_bit(pixels, width, win, r, 2, 0, 2) + grid_bit(pixels, width, win, r, 1, 0, 1)
}

/// What the probe measures in the window.
pub open spec fn response(pixels: Seq<u8>, width: int, win: Window, p: Probe) -> int {
    match p {
        Probe::Haar(features) => haar_response(pixels, width, win, features@, features@.len() as int),
        Probe::Lbp(r) => lbp_code(pixels, width, win, r),
    }
}

/// The number by which thresholds are multiplied before a Haar measurement
/// is compared with them: the window's area times the standard deviation of
/// its samples, rounded down. The standard deviation counts as one where
/// the model is not normalized, and where the variance is below one.
pub open spec fn norm(pixels: Seq<u8>, width: int, model: CascadeModel, win: Window) -> int {
    let w = window_width(model, win);
    let h = window_height(model, win);
    let area = w * h;
    if !model.normalized {
        area
    } else {
        let sum = region_sum(pixels, width, win.y as int, win.x as int, win.y + h, win.x + w, false);
        let squares = region_sum(pixels, width, win.y as int, win.x as int, win.y + h, win.x + w, true);
        let spread = area * squares - sum * sum;
        if spread < area * area {
            area
        } else {
            sqrt_floor(spread)
        }
    }
}

/// Whether pattern `code` is in the set `words`.
pub open spec fn in_set(words: [u32; 8], code: u32) -> bool {
    (words[(code / 32) as int] >> (code % 32)) & 1 == 1
}

/// The answer of a test to a measurement.
pub open spec fn answers_yes(test: Test, response: int, norm: int) -> bool {
    match test {
        Test::Below(t) => response * 0x1_0000 < t * norm,
        Test::InSet(words) => 0 <= response < 256 && in_set(words, response as u32),
    }
}

/// The value of the leaf that the tree reaches from node `at`. A branch
/// that does not lead forward to a node of the tree counts as a leaf of
/// value zero.
pub open spec fn tree_value(nodes: Seq<TreeNode>, at: int, response: int, norm: int) -> int
    decreases nodes.len() - at,
{
    if 0 <= at < nodes.len() {
        let node = nodes[at];
        let branch = if answers_yes(node.test, response, norm) {
            node.left
        } else {
            node.right
        };
        match branch {
            Branch::Leaf(v) => v as int,
            Branch::Node(k) => if at < k < nodes.len() {
                tree_value(nodes, k as int, response, norm)
            } else {
                0
            },
        }
    } else {
        0
    }
}

/// The value of a weak classifier on the window.
pub open spec fn weak_value(
    pixels: Seq<u8>,
    width: int,
    model: CascadeModel,
    win: Window,
    weak: WeakClassifier,
) -> int {
    tree_value(weak.nodes@, 0, response(pixels, width, win, weak.probe), norm(pixels, width, model, win))
}

/// The sum of the values of the first `upto` weak classifiers of a stage.
pub open spec fn stage_sum(
    pixels: Seq<u8>,
    width: int,
    model: CascadeModel,
    win: Window,
    stage: Stage,
    upto: int,
) -> int
    decreases upto,
{
    if upto <= 0 {
        0
    } else {
        stage_sum(pixels, width, model, win, stage, upto - 1) + weak_value(
            pixels,
            width,
            model,
            win,
            stage.weak@[upto - 1],
        )
    }
}

/// The margin by which the window passes a stage; negative where it fails.
pub open spec fn stage_margin(
    pixels: Seq<u8>,
    width: int,
    model: CascadeModel,
    win: Window,
    stage: Stage,
) -> int {
    stage_sum(pixels, width, model, win, stage, stage.weak@.len() as int) - stage.threshold
}

/// The first of the stages below `upto` that rejects the window.
pub open spec fn first_failing(
    pixels: Seq<u8>,
    width: int,
    model: CascadeModel,
    win: Window,
    upto: int,
) -> Option<int>
    decreases upto,
{
    if upto <= 0 {
        None
    } else {
        match first_failing(pixels, width, model, win, upto - 1) {
            Some(k) => Some(k),
            None => if stage_margin(pixels, width, model, win, model.stages@[upto - 1]) < 0 {
                Some(upto - 1)
            } else {
                None
            },
        }
    }
}

/// The number of weak classifiers in the stages below `upto`.
pub open spec fn weak_total(model: CascadeModel, upto: int) -> int
    decreases upto,
{
    if upto <= 0 {
        0
    } else {
        weak_total(model, upto - 1) + model.stages@[upto - 1].weak@.len()
    }
}

/// What becomes of the window: it is rejected by the first stage that
/// fails it, and from the stages after that one no weak classifier is
/// evaluated.
pub open spec fn evaluation(pixels: Seq<u8>, width: int, model: CascadeModel, win: Window) -> PassResult {
    let n = model.stages@.len() as int;
    match first_failing(pixels, width, model, win, n) {
        Some(k) => PassResult {
            passed: false,
            failed_stage: Some(k as usize),
            confidence: stage_margin(pixels, width, model, win, model.stages@[k]) as i64,
            weak_evaluations: weak_total(model, k + 1) as usize,
        },
        None => PassResult {
            passed: true,
            failed_stage: None,
            confidence: if n == 0 {
                0
            } else {
                stage_margin(pixels, width, model, win, model.stages@[n - 1]) as i64
            },
            weak_evaluations: weak_total(model, n) as usize,
        },
    }
}

/// Once a stage has failed the window, later stages do not change which
/// stage failed it first.
pub proof fn lemma_first_failing_stays(
    pixels: Seq<u8>,
    width: int,
    model: CascadeModel,
    win: Window,
    upto: int,
    later: int,
)
    requires
        upto <= later,
        first_failing(pixels, width, model, win, upto).is_some(),
    ensures
        first_failing(pixels, width, model, win, later) == first_failing(pixels, width, model, win, upto),
    decreases later - upto,
{
    if upto < later {
        lemma_first_failing_stays(pixels, width, model, win, upto, later - 1);
    }
}

proof fn lemma_none_failing(pixels: Seq<u8>, width: int, model: CascadeModel, win: Window, upto: int)
    requires
        0 <= upto <= model.stages@.len(),
        forall|j: int|
            0 <= j < upto ==> stage_margin(pixels, width, model, win, #[trigger] model.stages@[j]) >= 0,
    ensures
        first_failing(pixels, width, model, win, upto).is_none(),
    decreases upto,
{
    if upto > 0 {
        lemma_none_failing(pixels, width, model, win, upto - 1);
        assert(stage_margin(pixels, width, model, win, model.stages@[upto - 1]) >= 0);
    }
}

/// A window that stage `k` fails, and no stage before it, is rejected at
/// stage `k`, and the weak classifiers evaluated are those of the stages up
/// to `k`: none of a later stage.
pub proof fn lemma_rejection_stops_evaluation(
    pixels: Seq<u8>,
    width: int,
    model: CascadeModel,
    win: Window,
    k: int,
)
    requires
        0 <= k < model.stages@.len(),
        stage_margin(pixels, width, model, win, model.stages@[k]) < 0,
        forall|j: int| 0 <= j < k ==> stage_margin(pixels, width, model, win, #[trigger] model.stages@[j]) >= 0,
    ensures
        !evaluation(pixels, width, model, win).passed,
        evaluation(pixels, width, model, win).failed_stage == Some(k as usize),
        evaluation(pixels, width, model, win).weak_evaluations == weak_total(model, k + 1) as usize,
{
    lemma_none_failing(pixels, width, model, win, k);
    assert(first_failing(pixels, width, model, win, k + 1) == Some(k));
    lemma_first_failing_stays(pixels, width, model, win, k + 1, model.stages@.len() as int);
}

/// A window that no stage fails passes, and every weak classifier of the
/// cascade is evaluated on it.
pub proof fn lemma_passing_sees_every_stage(pixels: Seq<u8>, width: int, model: CascadeModel, win: Window)
    requires
        forall|j: int|
            0 <= j < model.stages@.len() ==> stage_margin(
                pixels,
                width,
                model,
                win,
                #[trigger] model.stages@[j],
            ) >= 0,
    ensures
        evaluation(pixels, width, model, win).passed,
        evaluation(pixels, width, model, win).failed_stage.is_none(),
        evaluation(pixels, width, model, win).weak_evaluations == weak_total(
            model,
            model.stages@.len() as int,
        ) as usize,
{
    lemma_none_failing(pixels, width, model, win, model.stages@.len() as int);
}

proof fn lemma_weak_total_bound(model: CascadeModel, upto: int)
    requires
        model.wf(),
        0 <= upto <= model.stages@.len(),
    ensures
        0 <= weak_total(model, upto) <= upto * MAX_WEAK,
    decreases upto,
{
    if upto > 0 {
        lemma_weak_total_bound(model, upto - 1);
        assert(stage_ok(model.stages@[upto - 1], model.window, model.feature_type));
        assert(upto * MAX_WEAK == (upto - 1) * MAX_WEAK + MAX_WEAK) by (nonlinear_arith);
    }
}

proof fn lemma_window_inside(model: CascadeModel, win: Window, width: int, height: int)
    requires
        model.wf(),
        window_fits(model, win, width, height),
        0 < width,
        0 < height,
        width * height <= MAX_PIXELS,
    ensures
        0 < window_width(model, win) <= width,
        0 < window_height(model, win) <= height,
        window_width(model, win) * window_height(model, win) <= MAX_PIXELS,
        0 < window_width(model, win) * window_height(model, win),
{
    crate::fixed::lemma_scaled_grows(model.window.width as int, win.scale as int);
    crate::fixed::lemma_scaled_grows(model.window.height as int, win.scale as int);
    let w = window_width(model, win);
    let h = window_height(model, win);
    assert(0 < w * h <= width * height) by (nonlinear_arith)
        requires
            0 < w <= width,
            0 < h <= height,
    ;
}

/// The sum over a part of the window.
fn placed_region(
    integral: &IntegralImage,
    model: &CascadeModel,
    win: Window,
    x0: u32,
    y0: u32,
    x1: u32,
    y1: u32,
    squared: bool,
) -> (s: u64)
    requires
        integral.wf(),
        model.wf(),
        window_fits(*model, win, integral.width(), integral.height()),
        x0 <= x1 <= model.window.width,
        y0 <= y1 <= model.window.height,
        squared ==> integral.has_squares(),
    ensures
        s == placed_sum(
            integral.pixels(),
            integral.width(),
            win,
            x0 as int,
            y0 as int,
            x1 as int,
            y1 as int,
            squared,
        ),
        s <= 65025 * MAX_PIXELS,
        !squared ==> s <= 255 * MAX_PIXELS,
{
    proof {
        integral.lemma_dimensions();
        let sc = win.scale as int;
        lemma_scaled_monotone(x0 as int, x1 as int, sc);
        lemma_scaled_monotone(x1 as int, model.window.width as int, sc);
        lemma_scaled_monotone(y0 as int, y1 as int, sc);
        lemma_scaled_monotone(y1 as int, model.window.height as int, sc);
    }
    let c0: usize = win.x + scale_length(x0, win.scale) as usize;
    let c1: usize = win.x + scale_length(x1, win.scale) as usize;
    let r0: usize = win.y + scale_length(y0, win.scale) as usize;
    let r1: usize = win.y + scale_length(y1, win.scale) as usize;
    if squared {
        integral.region_squares(r0, c0, r1, c1)
    } else {
        integral.region(r0, c0, r1, c1)
    }
}

/// The weighted sum of a Haar measurement.
fn haar(integral: &IntegralImage, model: &CascadeModel, win: Window, features: &Vec<Feature>) -> (v: i128)
    requires
        integral.wf(),
        model.wf(),
        window_fits(*model, win, integral.width(), integral.height()),
        features@.len() <= CV_HAAR_FEATURE_MAX,
        forall|k: int| 0 <= k < features@.len() ==> rect_inside((#[trigger] features@[k]).rect, model.window),
    ensures
        v == haar_response(integral.pixels(), integral.width(), win, features@, features@.len() as int),
        -0x80_0000_0000_0000_0000 <= v <= 0x80_0000_0000_0000_0000,
{
    let mut v: i128 = 0;
    let mut k: usize = 0;
    while k < features.len()
        invariant
            k <= features@.len() <= 3,
            integral.wf(),
            model.wf(),
            window_fits(*model, win, integral.width(), integral.height()),
            forall|t: int|
                0 <= t < features@.len() ==> rect_inside((#[trigger] features@[t]).rect, model.window),
            v == haar_response(integral.pixels(), integral.width(), win, features@, k as int),
            -k * 0x20_0000_0000_0000_0000 <= v <= k * 0x20_0000_0000_0000_0000,
        decreases features@.len() - k,
    {
        let f: Feature = features[k];
        assert(rect_inside(features@[k as int].rect, model.window));
        let s: u64 = placed_region(
            integral,
            model,
            win,
            f.rect.x as u32,
            f.rect.y as u32,
            (f.rect.x + f.rect.width) as u32,
            (f.rect.y + f.rect.height) as u32,
            false,
        );
        let w: i128 = f.weight as i128;
        let s128: i128 = s as i128;
        assert(-0x20_0000_0000_0000_0000 <= w * s128 <= 0x20_0000_0000_0000_0000) by (nonlinear_arith)
            requires
                -0x8000_0000 <= w <= 0x8000_0000,
                0 <= s128 <= 255 * 0x4000_0000,
        ;
        v = v + w * s128;
        k += 1;
    }
    v
}

/// The sum over one cell of a grid.
fn grid_cell(integral: &IntegralImage, model: &CascadeModel, win: Window, r: &Rect, i: u32, j: u32) -> (s:
    u64)
    requires
        integral.wf(),
        model.wf(),
        window_fits(*model, win, integral.width(), integral.height()),
        grid_inside(*r, model.window),
        i < 3,
        j < 3,
    ensures
        s == grid_cell_sum(integral.pixels(), integral.width(), win, *r, i as int, j as int),
{
    let x: u32 = r.x as u32;
    let y: u32 = r.y as u32;
    let w: u32 = r.width as u32;
    let h: u32 = r.height as u32;
    assert(j * w + w == (j + 1) * w) by (nonlinear_arith);
    assert(i * h + h == (i + 1) * h) by (nonlinear_arith);
    assert(0 <= j * w && (j + 1) * w <= 3 * w) by (nonlinear_arith)
        requires
            0 <= j < 3,
            0 < w,
    ;
    assert(0 <= i * h && (i + 1) * h <= 3 * h) by (nonlinear_arith)
        requires
            0 <= i < 3,
            0 < h,
    ;
    placed_region(integral, model, win, x + j * w, y + i * h, x + j * w + w, y + i * h + h, false)
}

/// The local binary pattern of a grid.
fn lbp(integral: &IntegralImage, model: &CascadeModel, win: Window, r: &Rect) -> (code: u32)
    requires
        integral.wf(),
        model.wf(),
        window_fits(*model, win, integral.width(), integral.height()),
        grid_inside(*r, model.window),
    ensures
        code == lbp_code(integral.pixels(), integral.width(), win, *r),
        code < 256,
{
    let centre: u64 = grid_cell(integral, model, win, r, 1, 1);
    let mut code: u32 = 0;
    if grid_cell(integral, model, win, r, 0, 0) >= centre {
        code = code + 128;
    }
    if grid_cell(integral, model, win, r, 0, 1) >= centre {
        code = code + 64;
    }
    if grid_cell(integral, model, win, r, 0, 2) >= centre {
        code = code + 32;
    }
    if grid_cell(integral, model, win, r, 1, 2) >= centre {
        code = code + 16;
    }
    if grid_cell(integral, model, win, r, 2, 2) >= centre {
        code = code + 8;
    }
    if grid_cell(integral, model, win, r, 2, 1) >= centre {
        code = code + 4;
    }
    if grid_cell(integral, model, win, r, 2, 0) >= centre {
        code = code + 2;
    }
    if grid_cell(integral, model, win, r, 1, 0) >= centre {
        code = code + 1;
    }
    code
}

/// What the probe measures in the window.
fn measure(integral: &IntegralImage, model: &CascadeModel, win: Window, p: &Probe) -> (v: i128)
    requires
        integral.wf(),
        model.wf(),
        window_fits(*model, win, integral.width(), integral.height()),
        probe_ok(*p, model.window),
    ensures
        v == response(integral.pixels(), integral.width(), win, *p),
        -0x80_0000_0000_0000_0000 <= v <= 0x80_0000_0000_0000_0000,
{
    match p {
        Probe::Haar(features) => haar(integral, model, win, features),
        Probe::Lbp(r) => lbp(integral, model, win, r) as i128,
    }
}

/// The norm of the window.
fn window_norm(integral: &IntegralImage, model: &CascadeModel, win: Window) -> (n: i128)
    requires
        integral.wf(),
        model.wf(),
        window_fits(*model, win, integral.width(), integral.height()),
        model.normalized ==> integral.has_squares(),
    ensures
        n == norm(integral.pixels(), integral.width(), *model, win),
        0 <= n <= 0x40_0000_0000,
{
    proof {
        integral.lemma_dimensions();
        lemma_window_inside(*model, win, integral.width(), integral.height());
    }
    let w: u64 = scale_length(model.window.width as u32, win.scale);
    let h: u64 = scale_length(model.window.height as u32, win.scale);
    let area: i128 = (w as i128) * (h as i128);
    if !model.normalized {
        return area;
    }
    let r1: usize = win.y + h as usize;
    let c1: usize = win.x + w as usize;
    let sum: i128 = integral.region(win.y, win.x, r1, c1) as i128;
    let squares: i128 = integral.region_squares(win.y, win.x, r1, c1) as i128;
    assert(0 <= area * squares <= 0x4000_0000 * (65025 * 0x4000_0000)) by (nonlinear_arith)
        requires
            0 <= area <= 0x4000_0000,
            0 <= squares <= 65025 * 0x4000_0000,
    ;
    assert(0 <= sum * sum <= 0x1_0000_0000_0000_0000_0000) by (nonlinear_arith)
        requires
            0 <= sum <= 0x100_0000_0000,
    ;
    assert(0 <= area * area <= 0x4000_0000 * 0x4000_0000) by (nonlinear_arith)
        requires
            0 <= area <= 0x4000_0000,
    ;
    let spread: i128 = area * squares - sum * sum;
    if spread < area * area {
        area
    } else {
        let root: u64 = isqrt(spread as u128);
        assert(root <= 0x40_0000_0000) by (nonlinear_arith)
            requires
                0 <= root,
                root * root <= spread,
                spread <= 0x4000_0000 * (65025 * 0x4000_0000),
        ;
        root as i128
    }
}

/// Whether pattern `code` is in the set `words`.
fn set_holds(words: &[u32; 8], code: u32) -> (b: bool)
    requires
        code < 256,
    ensures
        b == in_set(*words, code),
{
    let word: u32 = words[(code / 32) as usize];
    (word >> (code % 32)) & 1 == 1
}

/// The answer of a test to a measurement.
fn answer(test: &Test, response: i128, norm: i128) -> (yes: bool)
    requires
        -0x80_0000_0000_0000_0000 <= response <= 0x80_0000_0000_0000_0000,
        0 <= norm <= 0x40_0000_0000,
    ensures
        yes == answers_yes(*test, response as int, norm as int),
{
    match test {
        Test::Below(t) => {
            let t128: i128 = *t as i128;
            assert(-0x8000_0000 * 0x40_0000_0000 <= t128 * norm <= 0x8000_0000 * 0x40_0000_0000)
                by (nonlinear_arith)
                requires
                    -0x8000_0000 <= t128 <= 0x8000_0000,
                    0 <= norm <= 0x40_0000_0000,
            ;
            response * 0x1_0000 < t128 * norm
        },
        Test::InSet(words) => {
            if 0 <= response && response < 256 {
                set_holds(words, response as u32)
            } else {
                false
            }
        },
    }
}

/// The value of the leaf that the tree reaches.
fn walk(nodes: &Vec<TreeNode>, response: i128, norm: i128) -> (v: i32)
    requires
        -0x80_0000_0000_0000_0000 <= response <= 0x80_0000_0000_0000_0000,
        0 <= norm <= 0x40_0000_0000,
    ensures
        v == tree_value(nodes@, 0, response as int, norm as int),
{
    if nodes.len() == 0 {
        return 0;
    }
    let mut at: usize = 0;
    loop
        invariant
            at < nodes@.len(),
            -0x80_0000_0000_0000_0000 <= response <= 0x80_0000_0000_0000_0000,
            0 <= norm <= 0x40_0000_0000,
            tree_value(nodes@, at as int, response as int, norm as int) == tree_value(
                nodes@,
                0,
                response as int,
                norm as int,
            ),
        decreases nodes@.len() - at,
    {
        let node: TreeNode = nodes[at];
        let yes: bool = answer(&node.test, response, norm);
        let branch: Branch = if yes { node.left } else { node.right };
        match branch {
            Branch::Leaf(v) => {
                return v;
            },
            Branch::Node(k) => {
                if at < k && k < nodes.len() {
                    at = k;
                } else {
                    return 0;
                }
            },
        }
    }
}

/// The sum of the values of the weak classifiers of a stage.
fn run_stage(integral: &IntegralImage, model: &CascadeModel, win: Window, stage: &Stage, norm: i128) -> (sum:
    i64)
    requires
        integral.wf(),
        model.wf(),
        window_fits(*model, win, integral.width(), integral.height()),
        stage_ok(*stage, model.window, model.feature_type),
        norm == crate::evaluator::norm(integral.pixels(), integral.width(), *model, win),
        0 <= norm <= 0x40_0000_0000,
    ensures
        sum == stage_sum(integral.pixels(), integral.width(), *model, win, *stage, stage.weak@.len() as int),
        -0x8_0000_0000_0000 <= sum <= 0x8_0000_0000_0000,
{
    let mut sum: i64 = 0;
    let mut k: usize = 0;
    while k < stage.weak.len()
        invariant
            k <= stage.weak@.len() <= MAX_WEAK,
            integral.wf(),
            model.wf(),
            window_fits(*model, win, integral.width(), integral.height()),
            stage_ok(*stage, model.window, model.feature_type),
            norm == crate::evaluator::norm(integral.pixels(), integral.width(), *model, win),
            0 <= norm <= 0x40_0000_0000,
            sum == stage_sum(integral.pixels(), integral.width(), *model, win, *stage, k as int),
            -k * 0x8000_0000 <= sum <= k * 0x8000_0000,
        decreases stage.weak@.len() - k,
    {
        let weak: &WeakClassifier = &stage.weak[k];
        assert(probe_ok(stage.weak@[k as int].probe, model.window));
        let measured: i128 = measure(integral, model, win, &weak.probe);
        let v: i32 = walk(&weak.nodes, measured, norm);
        assert((k + 1) * 0x8000_0000 == k * 0x8000_0000 + 0x8000_0000) by (nonlinear_arith);
        assert(k * 0x8000_0000 <= 0x10_0000 * 0x8000_0000) by (nonlinear_arith)
            requires
                k <= 0x10_0000,
        ;
        sum = sum + v as i64;
        k += 1;
    }
    assert(k * 0x8000_0000 <= 0x10_0000 * 0x8000_0000) by (nonlinear_arith)
        requires
            k <= 0x10_0000,
    ;
    sum
}

/// The evaluation of cascades on windows.
pub struct CascadeEvaluator {}

impl CascadeEvaluator {
    /// Whether `window` can be evaluated: it is at least as large as the
    /// training window and lies inside the image.
    pub fn fits(model: &CascadeModel, integral: &IntegralImage, window: Window) -> (ok: bool)
        requires
            model.wf(),
            integral.wf(),
        ensures
            ok == window_fits(*model, window, integral.width(), integral.height()),
    {
        if window.scale < ONE || window.scale > MAX_SCALE {
            return false;
        }
        proof {
            integral.lemma_dimensions();
            lemma_scaled_bound(model.window.width as int, window.scale as int);
            lemma_scaled_bound(model.window.height as int, window.scale as int);
        }
        let w: u64 = scale_length(model.window.width as u32, window.scale);
        let h: u64 = scale_length(model.window.height as u32, window.scale);
        let cols: u64 = integral.cols() as u64;
        let rows: u64 = integral.rows() as u64;
        w <= cols && window.x as u64 <= cols - w && h <= rows && window.y as u64 <= rows - h
    }

    /// Evaluates the cascade on one window. The stages are taken in order;
    /// the first whose sum is below its threshold rejects the window, and
    /// nothing of the later stages is evaluated.
    pub fn evaluate(model: &CascadeModel, integral: &IntegralImage, window: Window) -> (res: PassResult)
        requires
            model.wf(),
            integral.wf(),
            window_fits(*model, window, integral.width(), integral.height()),
            model.normalized ==> integral.has_squares(),
        ensures
            res == evaluation(integral.pixels(), integral.width(), *model, window),
    {
        let ghost pixels = integral.pixels();
        let ghost width = integral.width();
        let n: usize = model.stages.len();
        let norm: i128 = window_norm(integral, model, window);
        let mut k: usize = 0;
        let mut evaluated: usize = 0;
        let mut margin: i64 = 0;
        while k < n
            invariant
                k <= n,
                n == model.stages@.len(),
                model.wf(),
                integral.wf(),
                pixels == integral.pixels(),
                width == integral.width(),
                window_fits(*model, window, integral.width(), integral.height()),
                norm == crate::evaluator::norm(pixels, width, *model, window),
                0 <= norm <= 0x40_0000_0000,
                first_failing(pixels, width, *model, window, k as int).is_none(),
                evaluated == weak_total(*model, k as int),
                margin == if k == 0 {
                    0
                } else {
                    stage_margin(pixels, width, *model, window, model.stages@[k - 1])
                },
            decreases n - k,
        {
            let stage: &Stage = &model.stages[k];
            assert(stage_ok(model.stages@[k as int], model.window, model.feature_type));
            proof {
                lemma_weak_total_bound(*model, k as int);
                lemma_weak_total_bound(*model, k + 1);
                assert((k + 1) * MAX_WEAK <= 1000 * MAX_WEAK) by (nonlinear_arith)
                    requires
                        k + 1 <= 1000,
                ;
            }
            let sum: i64 = run_stage(integral, model, window, stage, norm);
            evaluated = evaluated + stage.weak.len();
            margin = sum - stage.threshold as i64;
            if margin < 0 {
                proof {
                    lemma_first_failing_stays(pixels, width, *model, window, k + 1, n as int);
                }
                return PassResult {
                    passed: false,
                    failed_stage: Some(k),
                    confidence: margin,
                    weak_evaluations: evaluated,
                };
            }
            k += 1;
        }
        PassResult { passed: true, failed_stage: None, confidence: margin, weak_evaluations: evaluated }
    }
}

} // verus!
