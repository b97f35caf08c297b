//! The sliding-window search: the training window, enlarged step by step,
//! is moved across the image, and each window that the cascade passes is
//! recorded.

use vstd::prelude::*;
use crate::cascade::CascadeModel;
use crate::error::DetectError;
use crate::evaluator::{
    evaluation, window_fits, window_height, window_width, CascadeEvaluator, PassResult, Window,
};
use crate::fixed::{lemma_scaled_grows, scale_length, scaled, MAX_SCALE, ONE};
use crate::geometry::{Rect, Size};
use crate::image::{region_sum, Image, MAX_PIXELS};
use crate::integral::IntegralImage;

verus! {

/// A window moves by one tenth of its side, and by one pixel at least.
pub const STEP_DIVISOR: u64 = 10;

/// A window that the cascade passed.
#[derive(Clone, Copy, Debug, PartialEq, Eq, Structural)]
pub struct DetectionCandidate {
    /// The window, in pixels of the image.
    pub rect: Rect,
    /// The margin by which the last stage passed it.
    pub weight: i64,
    /// The number of the scale level that the window belongs to.
    pub scale_index: usize,
    /// The stage that rejected the window: none, for a window that passed.
    pub reject_level: Option<usize>,
}

/// What a scan looks at: the samples of the image, its size, and the
/// samples of the mask, if there is one.
pub struct Scene {
    pub pixels: Seq<u8>,
    pub mask: Option<Seq<u8>>,
    pub width: int,
    pub height: int,
}

/// The step of a window with side `len`.
pub open spec fn step_of(len: int) -> int {
    if len / (STEP_DIVISOR as int) < 1 {
        1
    } else {
        len / (STEP_DIVISOR as int)
    }
}

/// The number of places of a window with side `len` along an image side of
/// `extent` pixels.
pub open spec fn positions(extent: int, len: int) -> int {
    if len > extent {
        0
    } else {
        (extent - len) / step_of(len) + 1
    }
}

/// The mask has no sample other than zero under the window.
pub open spec fn masked_out(scene: Scene, x: int, y: int, w: int, h: int) -> bool {
    match scene.mask {
        Some(m) => region_sum(m, scene.width, y, x, y + h, x + w, false) == 0,
        None => false,
    }
}

/// The candidate that the window gives: none where the mask hides the
/// window, and none where the cascade rejects it.
pub open spec fn candidate_at(scene: Scene, model: CascadeModel, win: Window, level: int) -> Option<
    DetectionCandidate,
> {
    let w = window_width(model, win);
    let h = window_height(model, win);
    if masked_out(scene, win.x as int, win.y as int, w, h) {
        None
    } else {
        let e = evaluation(scene.pixels, scene.width, model, win);
        if e.passed {
            Some(
                DetectionCandidate {
                    rect: Rect { x: win.x as i32, y: win.y as i32, width: w as i32, height: h as i32 },
                    weight: e.confidence,
                    scale_index: level as usize,
                    reject_level: e.failed_stage,
                },
            )
        } else {
            None
        }
    }
}

/// The candidates among the first `upto` windows of the row at `y`.
pub open spec fn row_scan(scene: Scene, model: CascadeModel, scale: u64, level: int, y: int, upto: int) -> Seq<
    DetectionCandidate,
>
    decreases upto,
{
    if upto <= 0 {
        Seq::empty()
    } else {
        let before = row_scan(scene, model, scale, level, y, upto - 1);
        let x = (upto - 1) * step_of(scaled(model.window.width as int, scale as int));
        match candidate_at(scene, model, Window { x: x as usize, y: y as usize, scale }, level) {
            Some(c) => before.push(c),
            None => before,
        }
    }
}

/// The candidates in the first `upto` rows of windows of one scale level.
pub open spec fn level_scan(scene: Scene, model: CascadeModel, scale: u64, level: int, upto: int) -> Seq<
    DetectionCandidate,
>
    decreases upto,
{
    if upto <= 0 {
        Seq::empty()
    } else {
        let w = scaled(model.window.width as int, scale as int);
        let h = scaled(model.window.height as int, scale as int);
        level_scan(scene, model, scale, level, upto - 1) + row_scan(
            scene,
            model,
            scale,
            level,
            (upto - 1) * step_of(h),
            positions(scene.width, w),
        )
    }
}

/// The candidates of one scale level: row after row from the top, each row
/// from the left.
pub open spec fn whole_level(scene: Scene, model: CascadeModel, scale: u64, level: int) -> Seq<
    DetectionCandidate,
> {
    level_scan(
        scene,
        model,
        scale,
        level,
        positions(scene.height, scaled(model.window.height as int, scale as int)),
    )
}

/// The step of a window with side `len`.
fn step(len: u64) -> (s: u64)
    ensures
        s == step_of(len as int),
        s >= 1,
{
    let q: u64 = len / STEP_DIVISOR;
    if q < 1 { 1 } else { q }
}

proof fn lemma_position_inside(extent: int, len: int, i: int)
    requires
        0 < len <= extent,
        0 <= i < positions(extent, len),
    ensures
        0 <= i * step_of(len),
        i * step_of(len) + len <= extent,
{
    let st = step_of(len);
    let q = (extent - len) / st;
    vstd::arithmetic::div_mod::lemma_fundamental_div_mod(extent - len, st);
    vstd::arithmetic::div_mod::lemma_mod_bound(extent - len, st);
    assert(0 <= i * st && i * st <= q * st) by (nonlinear_arith)
        requires
            0 <= i <= q,
            st >= 1,
    ;
    assert(st * q == q * st) by (nonlinear_arith);
}

/// The candidate that one window gives.
fn probe_window(
    model: &CascadeModel,
    integral: &IntegralImage,
    mask: Option<&IntegralImage>,
    win: Window,
    level: usize,
) -> (c: Option<DetectionCandidate>)
    requires
        model.wf(),
        integral.wf(),
        model.normalized ==> integral.has_squares(),
        match mask {
            Some(m) => m.wf() && m.width() == integral.width() && m.height() == integral.height(),
            None => true,
        },
        window_fits(*model, win, integral.width(), integral.height()),
    ensures
        c == candidate_at(
            Scene {
                pixels: integral.pixels(),
                mask: match mask {
                    Some(m) => Some(m.pixels()),
                    None => None,
                },
                width: integral.width(),
                height: integral.height(),
            },
            *model,
            win,
            level as int,
        ),
{
    proof {
        integral.lemma_dimensions();
        lemma_scaled_grows(model.window.width as int, win.scale as int);
        lemma_scaled_grows(model.window.height as int, win.scale as int);
    }
    let w: u64 = scale_length(model.window.width as u32, win.scale);
    let h: u64 = scale_length(model.window.height as u32, win.scale);
    let hidden: bool = match mask {
        Some(m) => m.region(win.y, win.x, win.y + h as usize, win.x + w as usize) == 0,
        None => false,
    };
    if hidden {
        return None;
    }
    let e: PassResult = CascadeEvaluator::evaluate(model, integral, win);
    if e.passed {
        Some(
            DetectionCandidate {
                rect: Rect { x: win.x as i32, y: win.y as i32, width: w as i32, height: h as i32 },
                weight: e.confidence,
                scale_index: level,
                reject_level: e.failed_stage,
            },
        )
    } else {
        None
    }
}

/// Scans one scale level and appends its candidates to `out`.
fn scan_level(
    model: &CascadeModel,
    integral: &IntegralImage,
    mask: Option<&IntegralImage>,
    scale: u64,
    level: usize,
    out: &mut Vec<DetectionCandidate>,
)
    requires
        model.wf(),
        integral.wf(),
        model.normalized ==> integral.has_squares(),
        match mask {
            Some(m) => m.wf() && m.width() == integral.width() && m.height() == integral.height(),
            None => true,
        },
        ONE <= scale <= MAX_SCALE,
        scaled(model.window.width as int, scale as int) <= integral.width(),
        scaled(model.window.height as int, scale as int) <= integral.height(),
    ensures
        final(out)@ == old(out)@ + whole_level(
            Scene {
                pixels: integral.pixels(),
                mask: match mask {
                    Some(m) => Some(m.pixels()),
                    None => None,
                },
                width: integral.width(),
                height: integral.height(),
            },
            *model,
            scale,
            level as int,
        ),
{
    let ghost scene = Scene {
        pixels: integral.pixels(),
        mask: match mask {
            Some(m) => Some(m.pixels()),
            None => None,
        },
        width: integral.width(),
        height: integral.height(),
    };
    let ghost start = out@;
    proof {
        integral.lemma_dimensions();
        lemma_scaled_grows(model.window.width as int, scale as int);
        lemma_scaled_grows(model.window.height as int, scale as int);
    }
    let w: u64 = scale_length(model.window.width as u32, scale);
    let h: u64 = scale_length(model.window.height as u32, scale);
    let step_x: u64 = step(w);
    let step_y: u64 = step(h);
    let cols: u64 = integral.cols() as u64;
    let rows: u64 = integral.rows() as u64;
    let nx: u64 = (cols - w) / step_x + 1;
    let ny: u64 = (rows - h) / step_y + 1;
    let mut j: u64 = 0;
    assert(start + level_scan(scene, *model, scale, level as int, 0) =~= start);
    while j < ny
        invariant
            j <= ny,
            model.wf(),
            integral.wf(),
            model.normalized ==> integral.has_squares(),
            match mask {
                Some(m) => m.wf() && m.width() == integral.width() && m.height() == integral.height(),
                None => true,
            },
            scene == (Scene {
                pixels: integral.pixels(),
                mask: match mask {
                    Some(m) => Some(m.pixels()),
                    None => None,
                },
                width: integral.width(),
                height: integral.height(),
            }),
            ONE <= scale <= MAX_SCALE,
            w == scaled(model.window.width as int, scale as int),
            h == scaled(model.window.height as int, scale as int),
            0 < w <= cols,
            0 < h <= rows,
            cols == integral.width(),
            rows == integral.height(),
            cols <= MAX_PIXELS,
            rows <= MAX_PIXELS,
            step_x == step_of(w as int),
            step_y == step_of(h as int),
            nx == positions(cols as int, w as int),
            ny == positions(rows as int, h as int),
            out@ == start + level_scan(scene, *model, scale, level as int, j as int),
        decreases ny - j,
    {
        proof {
            lemma_position_inside(rows as int, h as int, j as int);
        }
        let y: u64 = j * step_y;
        let ghost row_start = out@;
        let mut i: u64 = 0;
        assert(row_start + row_scan(scene, *model, scale, level as int, y as int, 0) =~= row_start);
        while i < nx
            invariant
                i <= nx,
                model.wf(),
                integral.wf(),
                model.normalized ==> integral.has_squares(),
                match mask {
                    Some(m) => m.wf() && m.width() == integral.width() && m.height() == integral.height(),
                    None => true,
                },
                scene == (Scene {
                    pixels: integral.pixels(),
                    mask: match mask {
                        Some(m) => Some(m.pixels()),
                        None => None,
                    },
                    width: integral.width(),
                    height: integral.height(),
                }),
                ONE <= scale <= MAX_SCALE,
                w == scaled(model.window.width as int, scale as int),
                h == scaled(model.window.height as int, scale as int),
                0 < w <= cols,
                0 < h <= rows,
                cols == integral.width(),
                rows == integral.height(),
                cols <= MAX_PIXELS,
                rows <= MAX_PIXELS,
                step_x == step_of(w as int),
                nx == positions(cols as int, w as int),
                y + h <= rows,
                out@ == row_start + row_scan(scene, *model, scale, level as int, y as int, i as int),
            decreases nx - i,
        {
            proof {
                lemma_position_inside(cols as int, w as int, i as int);
            }
            let x: u64 = i * step_x;
            let win = Window { x: x as usize, y: y as usize, scale };
            let ghost before = out@;
            match probe_window(model, integral, mask, win, level) {
                Some(c) => {
                    out.push(c);
                },
                None => {},
            }
            proof {
                assert(out@ =~= row_start + row_scan(
                    scene,
                    *model,
                    scale,
                    level as int,
                    y as int,
                    i + 1,
                ));
            }
            i += 1;
        }
        proof {
            assert(out@ =~= start + level_scan(scene, *model, scale, level as int, j + 1));
        }
        j += 1;
    }
}

/// Both sides of the size are positive: the size sets a limit.
pub open spec fn size_set(s: Size) -> bool {
    s.width > 0 && s.height > 0
}

/// Both sides are zero: the size sets no limit.
pub open spec fn size_unset(s: Size) -> bool {
    s.width == 0 && s.height == 0
}

/// The size limits make sense: each is a size or unset, the greatest size
/// is not smaller than the training window, and the least size is not
/// greater than the greatest.
pub open spec fn limits_ok(model: CascadeModel, min: Size, max: Size) -> bool {
    &&& size_set(min) || size_unset(min)
    &&& size_set(max) || size_unset(max)
    &&& size_set(max) ==> max.width >= model.window.width && max.height >= model.window.height
    &&& size_set(max) && size_set(min) ==> min.width <= max.width && min.height <= max.height
}

/// The window at scale `s` is too large: for the image, for the greatest
/// size, or for the largest scale that scanning uses.
pub open spec fn beyond(scene: Scene, model: CascadeModel, max: Size, s: int) -> bool {
    let w = scaled(model.window.width as int, s);
    let h = scaled(model.window.height as int, s);
    ||| s > MAX_SCALE
    ||| w > scene.width
    ||| h > scene.height
    ||| size_set(max) && (w > max.width || h > max.height)
}

/// The window at scale `s` is not smaller than the least size.
pub open spec fn usable(model: CascadeModel, min: Size, s: int) -> bool {
    size_set(min) ==> scaled(model.window.width as int, s) >= min.width && scaled(
        model.window.height as int,
        s,
    ) >= min.height
}

/// The scale of level `k`: one for level zero, and from each level to the
/// next the scale times `factor / 65536`, rounded down to a multiple of
/// 1/65536.
pub open spec fn level_scale(factor: int, k: int) -> int
    decreases k,
{
    if k <= 0 {
        ONE as int
    } else {
        level_scale(factor, k - 1) * factor / (ONE as int)
    }
}

/// The candidates of the levels below `upto`, level after level. A level
/// whose window is smaller than the least size gives none.
pub open spec fn scan_levels(
    scene: Scene,
    model: CascadeModel,
    factor: int,
    min: Size,
    upto: int,
) -> Seq<DetectionCandidate>
    decreases upto,
{
    if upto <= 0 {
        Seq::empty()
    } else {
        let s = level_scale(factor, upto - 1);
        scan_levels(scene, model, factor, min, upto - 1) + if usable(model, min, s) {
            whole_level(scene, model, s as u64, upto - 1)
        } else {
            Seq::empty()
        }
    }
}

/// Level `n` is the first whose window is too large.
pub open spec fn is_level_count(scene: Scene, model: CascadeModel, factor: int, max: Size, n: int) -> bool {
    &&& 0 <= n
    &&& beyond(scene, model, max, level_scale(factor, n))
    &&& forall|k: int| 0 <= k < n ==> !beyond(scene, model, max, #[trigger] level_scale(factor, k))
}

/// The number of levels that are scanned.
pub open spec fn level_count(scene: Scene, model: CascadeModel, factor: int, max: Size) -> int {
    choose|n: int| is_level_count(scene, model, factor, max, n)
}

/// The least and the greatest size are the same size: the scan has one
/// level.
pub open spec fn single_scale_mode(min: Size, max: Size) -> bool {
    size_set(min) && min == max
}

/// The scale at which the training window becomes as wide as `size`.
pub open spec fn single_scale(model: CascadeModel, size: Size) -> int {
    size.width * ONE / (model.window.width as int)
}

/// The candidates of a scan.
///
/// Where the least and the greatest size are the same, one level is
/// scanned, at the scale that gives the window that width. Otherwise the
/// levels are scanned from scale one upward until the window is too large.
pub open spec fn scan_result(
    scene: Scene,
    model: CascadeModel,
    factor: int,
    min: Size,
    max: Size,
) -> Seq<DetectionCandidate> {
    if single_scale_mode(min, max) {
        let s = single_scale(model, max);
        if beyond(scene, model, max, s) || !usable(model, min, s) {
            Seq::empty()
        } else {
            whole_level(scene, model, s as u64, 0)
        }
    } else {
        scan_levels(scene, model, factor, min, level_count(scene, model, factor, max))
    }
}

/// From each level to the next the scale grows by 1/65536 at least.
pub proof fn lemma_level_scale_grows(factor: int, k: int)
    requires
        factor > ONE,
        0 <= k,
    ensures
        level_scale(factor, k) >= ONE + k,
        level_scale(factor, k + 1) > level_scale(factor, k),
    decreases k,
{
    if k > 0 {
        lemma_level_scale_grows(factor, k - 1);
    }
    let s = level_scale(factor, k);
    assert(s * factor >= (s + 1) * 0x1_0000) by (nonlinear_arith)
        requires
            s >= 0x1_0000,
            factor >= 0x1_0001,
    ;
    vstd::arithmetic::div_mod::lemma_div_is_ordered((s + 1) * 0x1_0000, s * factor, 0x1_0000);
    vstd::arithmetic::div_mod::lemma_fundamental_div_mod_converse((s + 1) * 0x1_0000, 0x1_0000, s + 1, 0);
}

/// There is one first level whose window is too large.
pub proof fn lemma_level_count_unique(scene: Scene, model: CascadeModel, factor: int, max: Size, n: int)
    requires
        is_level_count(scene, model, factor, max, n),
    ensures
        level_count(scene, model, factor, max) == n,
{
    let m = level_count(scene, model, factor, max);
    assert(is_level_count(scene, model, factor, max, m));
    if m < n {
        assert(!beyond(scene, model, max, level_scale(factor, m)));
    } else if n < m {
        assert(!beyond(scene, model, max, level_scale(factor, n)));
    }
}

fn is_set(s: Size) -> (b: bool)
    ensures
        b == size_set(s),
{
    s.width > 0 && s.height > 0
}

fn is_unset(s: Size) -> (b: bool)
    ensures
        b == size_unset(s),
{
    s.width == 0 && s.height == 0
}

fn check_limits(model: &CascadeModel, min: Size, max: Size) -> (ok: bool)
    ensures
        ok == limits_ok(*model, min, max),
{
    if !(is_set(min) || is_unset(min)) || !(is_set(max) || is_unset(max)) {
        return false;
    }
    if is_set(max) {
        if max.width < model.window.width || max.height < model.window.height {
            return false;
        }
        if is_set(min) && (min.width > max.width || min.height > max.height) {
            return false;
        }
    }
    true
}

/// Whether the window at scale `s` is too large.
fn too_large(model: &CascadeModel, integral: &IntegralImage, max: Size, s: u128) -> (b: bool)
    requires
        model.wf(),
        integral.wf(),
    ensures
        b == beyond(
            Scene {
                pixels: integral.pixels(),
                mask: None,
                width: integral.width(),
                height: integral.height(),
            },
            *model,
            max,
            s as int,
        ),
{
    if s > MAX_SCALE as u128 {
        return true;
    }
    let w: u64 = scale_length(model.window.width as u32, s as u64);
    let h: u64 = scale_length(model.window.height as u32, s as u64);
    if w > integral.cols() as u64 || h > integral.rows() as u64 {
        return true;
    }
    is_set(max) && (w > max.width as u64 || h > max.height as u64)
}

/// Whether the window at scale `s` is not smaller than the least size.
fn large_enough(model: &CascadeModel, min: Size, s: u64) -> (b: bool)
    requires
        model.wf(),
        s <= MAX_SCALE,
    ensures
        b == usable(*model, min, s as int),
{
    if !is_set(min) {
        return true;
    }
    let w: u64 = scale_length(model.window.width as u32, s);
    let h: u64 = scale_length(model.window.height as u32, s);
    w >= min.width as u64 && h >= min.height as u64
}

/// The sliding-window search at several scales.
pub struct MultiScaleScanner {}

impl MultiScaleScanner {
    /// Scans an image whose tables are built.
    pub fn scan_tables(
        model: &CascadeModel,
        integral: &IntegralImage,
        mask: Option<&IntegralImage>,
        scale_factor: u64,
        min_size: Size,
        max_size: Size,
    ) -> (out: Vec<DetectionCandidate>)
        requires
            model.wf(),
            integral.wf(),
            model.normalized ==> integral.has_squares(),
            match mask {
                Some(m) => m.wf() && m.width() == integral.width() && m.height() == integral.height(),
                None => true,
            },
            scale_factor > ONE,
            limits_ok(*model, min_size, max_size),
        ensures
            out@ == scan_result(
                Scene {
                    pixels: integral.pixels(),
                    mask: match mask {
                        Some(m) => Some(m.pixels()),
                        None => None,
                    },
                    width: integral.width(),
                    height: integral.height(),
                },
                *model,
                scale_factor as int,
                min_size,
                max_size,
            ),
    {
        let ghost scene = Scene {
            pixels: integral.pixels(),
            mask: match mask {
                Some(m) => Some(m.pixels()),
                None => None,
            },
            width: integral.width(),
            height: integral.height(),
        };
        let ghost bare = Scene {
            pixels: integral.pixels(),
            mask: None,
            width: integral.width(),
            height: integral.height(),
        };
        let ghost factor = scale_factor as int;
        let mut out: Vec<DetectionCandidate> = Vec::new();
        if is_set(min_size) && min_size.width == max_size.width && min_size.height == max_size.height {
            assert(single_scale_mode(min_size, max_size));
            let s: u64 = (max_size.width as u64) * ONE / (model.window.width as u64);
            proof {
                vstd::arithmetic::div_mod::lemma_div_is_ordered(
                    model.window.width as int * ONE as int,
                    max_size.width as int * ONE as int,
                    model.window.width as int,
                );
                vstd::arithmetic::div_mod::lemma_fundamental_div_mod_converse(
                    model.window.width as int * ONE as int,
                    model.window.width as int,
                    ONE as int,
                    0,
                );
                assert(beyond(bare, *model, max_size, s as int) == beyond(
                    scene,
                    *model,
                    max_size,
                    s as int,
                ));
            }
            if too_large(model, integral, max_size, s as u128) {
                return out;
            }
            if !large_enough(model, min_size, s) {
                return out;
            }
            scan_level(model, integral, mask, s, 0, &mut out);
            assert(out@ =~= whole_level(scene, *model, s, 0));
            return out;
        }
        assert(!single_scale_mode(min_size, max_size));
        let mut s: u128 = ONE as u128;
        let mut k: usize = 0;
        loop
            invariant
                model.wf(),
                integral.wf(),
                model.normalized ==> integral.has_squares(),
                match mask {
                    Some(m) => m.wf() && m.width() == integral.width() && m.height() == integral.height(),
                    None => true,
                },
                scene == (Scene {
                    pixels: integral.pixels(),
                    mask: match mask {
                        Some(m) => Some(m.pixels()),
                        None => None,
                    },
                    width: integral.width(),
                    height: integral.height(),
                }),
                bare == (Scene {
                    pixels: integral.pixels(),
                    mask: None,
                    width: integral.width(),
                    height: integral.height(),
                }),
                factor == scale_factor as int,
                factor > ONE,
                s == level_scale(factor, k as int),
                ONE + k <= s,
                s <= MAX_SCALE * 0x1_0000_0000_0000_0000,
                forall|j: int| 0 <= j < k ==> !beyond(scene, *model, max_size, #[trigger] level_scale(factor, j)),
                out@ == scan_levels(scene, *model, factor, min_size, k as int),
            ensures
                out@ == scan_levels(
                    scene,
                    *model,
                    factor,
                    min_size,
                    level_count(scene, *model, factor, max_size),
                ),
            decreases
                    (if s <= MAX_SCALE {
                        MAX_SCALE + 1 - s
                    } else {
                        0
                    }),
        {
            proof {
                assert(beyond(bare, *model, max_size, s as int) == beyond(
                    scene,
                    *model,
                    max_size,
                    s as int,
                ));
            }
            if too_large(model, integral, max_size, s) {
                proof {
                    lemma_level_count_unique(scene, *model, factor, max_size, k as int);
                }
                break;
            }
            let ghost before = out@;
            if large_enough(model, min_size, s as u64) {
                proof {
                    integral.lemma_dimensions();
                }
                scan_level(model, integral, mask, s as u64, k, &mut out);
            }
            proof {
                assert(out@ =~= scan_levels(scene, *model, factor, min_size, k + 1));
                lemma_level_scale_grows(factor, k as int);
                assert(level_scale(factor, k + 1) == level_scale(factor, k as int) * factor / (ONE as int));
                assert(s as int * factor / (ONE as int) > s);
                assert(s * scale_factor <= MAX_SCALE * 0x1_0000_0000_0000_0000) by (nonlinear_arith)
                    requires
                        0 <= s <= MAX_SCALE,
                        0 <= scale_factor <= 0xffff_ffff_ffff_ffff,
                ;
                vstd::arithmetic::div_mod::lemma_div_is_ordered_by_denominator(
                    s as int * factor,
                    1,
                    ONE as int,
                );
            }
            s = s * (scale_factor as u128) / (ONE as u128);
            k = k + 1;
        }
        out
    }

    /// Scans `image` with the cascade `model`.
    ///
    /// `scale_factor` is the ratio of each scale level to the one before, in
    /// units of 1/65536, and must be more than one. `min_neighbors` is not
    /// used by the scan, but a negative number is refused. Sizes of zero by
    /// zero set no limit. Where `mask` is given, windows under which the
    /// mask holds nothing but zeros are passed over.
    ///
    /// The call is refused before any window is looked at, as
    /// `scan_refusal` says; otherwise the result is `scan_result`.
    pub fn scan(
        model: &CascadeModel,
        image: &Image,
        mask: Option<&Image>,
        scale_factor: u64,
        min_neighbors: i32,
        min_size: Size,
        max_size: Size,
    ) -> (res: Result<Vec<DetectionCandidate>, DetectError>)
        ensures
            match scan_refusal(*model, *image, mask, scale_factor, min_neighbors, min_size, max_size) {
                Some(e) => res == Err::<Vec<DetectionCandidate>, DetectError>(e),
                None => res.is_ok() && res->Ok_0@ == scan_result(
                    scene_of_images(*image, mask),
                    *model,
                    scale_factor as int,
                    min_size,
                    max_size,
                ),
            },
    {
        if !model.validate() || model.stages.len() == 0 {
            return Err(DetectError::ModelNotLoaded);
        }
        if scale_factor <= ONE || min_neighbors < 0 || !check_limits(model, min_size, max_size) {
            return Err(DetectError::InvalidInput);
        }
        let integral = match IntegralImage::build(image, model.normalized) {
            Ok(t) => t,
            Err(_) => {
                return Err(DetectError::InvalidInput);
            },
        };
        match mask {
            Some(m) => {
                if m.width != image.width || m.height != image.height {
                    return Err(DetectError::InvalidInput);
                }
                let mask_tables = match IntegralImage::build(m, false) {
                    Ok(t) => t,
                    Err(_) => {
                        return Err(DetectError::InvalidInput);
                    },
                };
                Ok(
                    MultiScaleScanner::scan_tables(
                        model,
                        &integral,
                        Some(&mask_tables),
                        scale_factor,
                        min_size,
                        max_size,
                    ),
                )
            },
            None => Ok(
                MultiScaleScanner::scan_tables(model, &integral, None, scale_factor, min_size, max_size),
            ),
        }
    }
}

/// The mask, if there is one, is an image that detection works on, of the
/// same size as the scanned image.
pub open spec fn mask_ok(image: Image, mask: Option<&Image>) -> bool {
    match mask {
        Some(m) => m.is_gray() && m.width == image.width && m.height == image.height,
        None => true,
    }
}

/// Why a scan is refused, if it is: for want of a model where the model is
/// malformed or has no stage; else for its input where the image is not one
/// that detection works on, the scale factor is not more than one, the
/// number of neighbours is negative, the size limits make no sense, or the
/// mask does not fit the image.
pub open spec fn scan_refusal(
    model: CascadeModel,
    image: Image,
    mask: Option<&Image>,
    scale_factor: u64,
    min_neighbors: i32,
    min_size: Size,
    max_size: Size,
) -> Option<DetectError> {
    if !model.wf() || model.stages@.len() == 0 {
        Some(DetectError::ModelNotLoaded)
    } else if !image.is_gray() || scale_factor <= ONE || min_neighbors < 0 || !limits_ok(
        model,
        min_size,
        max_size,
    ) || !mask_ok(image, mask) {
        Some(DetectError::InvalidInput)
    } else {
        None
    }
}

/// The scene that an image and a mask stand for.
pub open spec fn scene_of_images(image: Image, mask: Option<&Image>) -> Scene {
    Scene {
        pixels: image.data@,
        mask: match mask {
            Some(m) => Some(m.data@),
            None => None,
        },
        width: image.width as int,
        height: image.height as int,
    }
}

/// Every candidate among the first windows of a row has the size of the
/// level's window and the level's number.
proof fn lemma_row_sizes(scene: Scene, model: CascadeModel, scale: u64, level: int, y: int, upto: int, k: int)
    requires
        0 <= k < row_scan(scene, model, scale, level, y, upto).len(),
    ensures
        ({
            let c = row_scan(scene, model, scale, level, y, upto)[k];
            &&& c.rect.width == scaled(model.window.width as int, scale as int) as i32
            &&& c.rect.height == scaled(model.window.height as int, scale as int) as i32
            &&& c.scale_index == level as usize
        }),
    decreases upto,
{
    if upto > 0 {
        let before = row_scan(scene, model, scale, level, y, upto - 1);
        if k < before.len() {
            lemma_row_sizes(scene, model, scale, level, y, upto - 1, k);
        }
    }
}

/// Every candidate of a level has the size of the level's window and the
/// level's number.
pub proof fn lemma_level_sizes(scene: Scene, model: CascadeModel, scale: u64, level: int, upto: int, k: int)
    requires
        0 <= k < level_scan(scene, model, scale, level, upto).len(),
    ensures
        ({
            let c = level_scan(scene, model, scale, level, upto)[k];
            &&& c.rect.width == scaled(model.window.width as int, scale as int) as i32
            &&& c.rect.height == scaled(model.window.height as int, scale as int) as i32
            &&& c.scale_index == level as usize
        }),
    decreases upto,
{
    if upto > 0 {
        let before = level_scan(scene, model, scale, level, upto - 1);
        if k < before.len() {
            lemma_level_sizes(scene, model, scale, level, upto - 1, k);
        } else {
            let h = scaled(model.window.height as int, scale as int);
            let w = scaled(model.window.width as int, scale as int);
            lemma_row_sizes(
                scene,
                model,
                scale,
                level,
                (upto - 1) * step_of(h),
                positions(scene.width, w),
                k - before.len(),
            );
        }
    }
}

/// At the scale of the single-scale mode the window is exactly as wide as
/// the size asked for.
pub proof fn lemma_single_scale_width(model: CascadeModel, size: Size)
    requires
        0 < model.window.width <= 0x7fff,
        0 <= size.width,
    ensures
        scaled(model.window.width as int, single_scale(model, size)) == size.width,
{
    let w0 = model.window.width as int;
    let m = size.width as int;
    let s = single_scale(model, size);
    vstd::arithmetic::div_mod::lemma_fundamental_div_mod(m * 0x1_0000, w0);
    vstd::arithmetic::div_mod::lemma_mod_bound(m * 0x1_0000, w0);
    let r = (m * 0x1_0000) % w0;
    assert(w0 * s == m * 0x1_0000 - r);
    vstd::arithmetic::div_mod::lemma_fundamental_div_mod_converse(
        w0 * s + 0x8000,
        0x1_0000,
        m,
        0x8000 - r,
    );
}

/// Where the least and the greatest size are the same, every candidate of
/// the scan belongs to one level, and its rectangle has the width asked for
/// and the height that the training window has at that scale.
pub proof fn lemma_single_scale_candidates(
    scene: Scene,
    model: CascadeModel,
    factor: int,
    size: Size,
    k: int,
)
    requires
        model.wf(),
        size_set(size),
        0 <= k < scan_result(scene, model, factor, size, size).len(),
    ensures
        ({
            let c = scan_result(scene, model, factor, size, size)[k];
            &&& c.scale_index == 0
            &&& c.rect.width == size.width
            &&& c.rect.height == scaled(model.window.height as int, single_scale(model, size))
        }),
{
    let s = single_scale(model, size);
    assert(single_scale_mode(size, size));
    assert(!beyond(scene, model, size, s));
    lemma_single_scale_width(model, size);
    lemma_level_sizes(
        scene,
        model,
        s as u64,
        0,
        positions(scene.height, scaled(model.window.height as int, s as u64 as int)),
        k,
    );
    assert(0 <= s <= MAX_SCALE) by {
        assert(size.width * ONE >= 0) by (nonlinear_arith)
            requires
                size.width > 0,
        ;
        vstd::arithmetic::div_mod::lemma_div_pos_is_pos(size.width * ONE, model.window.width as int);
    }
    crate::fixed::lemma_scaled_monotone(0, model.window.height as int, s);
}

proof fn lemma_row_passed(scene: Scene, model: CascadeModel, scale: u64, level: int, y: int, upto: int, k: int)
    requires
        0 <= k < row_scan(scene, model, scale, level, y, upto).len(),
    ensures
        row_scan(scene, model, scale, level, y, upto)[k].reject_level.is_none(),
    decreases upto,
{
    if upto > 0 {
        let before = row_scan(scene, model, scale, level, y, upto - 1);
        if k < before.len() {
            lemma_row_passed(scene, model, scale, level, y, upto - 1, k);
        } else {
            let x = (upto - 1) * step_of(scaled(model.window.width as int, scale as int));
            let win = Window { x: x as usize, y: y as usize, scale };
            lemma_passed_has_no_failing(scene.pixels, scene.width, model, win);
        }
    }
}

/// A window that passed was rejected by no stage.
proof fn lemma_passed_has_no_failing(pixels: Seq<u8>, width: int, model: CascadeModel, win: Window)
    ensures
        evaluation(pixels, width, model, win).passed ==> evaluation(
            pixels,
            width,
            model,
            win,
        ).failed_stage.is_none(),
{
}

proof fn lemma_level_passed(scene: Scene, model: CascadeModel, scale: u64, level: int, upto: int, k: int)
    requires
        0 <= k < level_scan(scene, model, scale, level, upto).len(),
    ensures
        level_scan(scene, model, scale, level, upto)[k].reject_level.is_none(),
    decreases upto,
{
    if upto > 0 {
        let before = level_scan(scene, model, scale, level, upto - 1);
        if k < before.len() {
            lemma_level_passed(scene, model, scale, level, upto - 1, k);
        } else {
            let h = scaled(model.window.height as int, scale as int);
            let w = scaled(model.window.width as int, scale as int);
            lemma_row_passed(
                scene,
                model,
                scale,
                level,
                (upto - 1) * step_of(h),
                positions(scene.width, w),
                k - before.len(),
            );
        }
    }
}

proof fn lemma_levels_passed(scene: Scene, model: CascadeModel, factor: int, min: Size, upto: int, k: int)
    requires
        0 <= k < scan_levels(scene, model, factor, min, upto).len(),
    ensures
        scan_levels(scene, model, factor, min, upto)[k].reject_level.is_none(),
    decreases upto,
{
    if upto > 0 {
        let before = scan_levels(scene, model, factor, min, upto - 1);
        if k < before.len() {
            lemma_levels_passed(scene, model, factor, min, upto - 1, k);
        } else {
            let s = level_scale(factor, upto - 1);
            lemma_level_passed(
                scene,
                model,
                s as u64,
                upto - 1,
                positions(scene.height, scaled(model.window.height as int, s as u64 as int)),
                k - before.len(),
            );
        }
    }
}

/// Every candidate of a scan is a window that every stage passed.
pub proof fn lemma_scan_passed(scene: Scene, model: CascadeModel, factor: int, min: Size, max: Size, k: int)
    requires
        0 <= k < scan_result(scene, model, factor, min, max).len(),
    ensures
        scan_result(scene, model, factor, min, max)[k].reject_level.is_none(),
{
    if single_scale_mode(min, max) {
        let s = single_scale(model, max);
        lemma_level_passed(
            scene,
            model,
            s as u64,
            0,
            positions(scene.height, scaled(model.window.height as int, s as u64 as int)),
            k,
        );
    } else {
        lemma_levels_passed(scene, model, factor, min, level_count(scene, model, factor, max), k);
    }
}

/// The candidate is what some window gives that the mask does not hide
/// and that every stage of the cascade passes: its rectangle is that
/// window, its weight the margin of the last stage.
pub open spec fn from_passing_window(scene: Scene, model: CascadeModel, c: DetectionCandidate) -> bool {
    exists|win: Window, level: int| #[trigger] candidate_at(scene, model, win, level) == Some(c)
}

proof fn lemma_row_from_windows(
    scene: Scene,
    model: CascadeModel,
    scale: u64,
    level: int,
    y: int,
    upto: int,
    k: int,
)
    requires
        0 <= k < row_scan(scene, model, scale, level, y, upto).len(),
    ensures
        from_passing_window(scene, model, row_scan(scene, model, scale, level, y, upto)[k]),
    decreases upto,
{
    if upto > 0 {
        let before = row_scan(scene, model, scale, level, y, upto - 1);
        if k < before.len() {
            lemma_row_from_windows(scene, model, scale, level, y, upto - 1, k);
        } else {
            let x = (upto - 1) * step_of(scaled(model.window.width as int, scale as int));
            let win = Window { x: x as usize, y: y as usize, scale };
            assert(candidate_at(scene, model, win, level) == Some(
                row_scan(scene, model, scale, level, y, upto)[k],
            ));
        }
    }
}

proof fn lemma_level_from_windows(scene: Scene, model: CascadeModel, scale: u64, level: int, upto: int, k: int)
    requires
        0 <= k < level_scan(scene, model, scale, level, upto).len(),
    ensures
        from_passing_window(scene, model, level_scan(scene, model, scale, level, upto)[k]),
    decreases upto,
{
    if upto > 0 {
        let before = level_scan(scene, model, scale, level, upto - 1);
        if k < before.len() {
            lemma_level_from_windows(scene, model, scale, level, upto - 1, k);
        } else {
            let h = scaled(model.window.height as int, scale as int);
            let w = scaled(model.window.width as int, scale as int);
            lemma_row_from_windows(
                scene,
                model,
                scale,
                level,
                (upto - 1) * step_of(h),
                positions(scene.width, w),
                k - before.len(),
            );
        }
    }
}

proof fn lemma_levels_from_windows(
    scene: Scene,
    model: CascadeModel,
    factor: int,
    min: Size,
    upto: int,
    k: int,
)
    requires
        0 <= k < scan_levels(scene, model, factor, min, upto).len(),
    ensures
        from_passing_window(scene, model, scan_levels(scene, model, factor, min, upto)[k]),
    decreases upto,
{
    if upto > 0 {
        let before = scan_levels(scene, model, factor, min, upto - 1);
        if k < before.len() {
            lemma_levels_from_windows(scene, model, factor, min, upto - 1, k);
        } else {
            let s = level_scale(factor, upto - 1);
            lemma_level_from_windows(
                scene,
                model,
                s as u64,
                upto - 1,
                positions(scene.height, scaled(model.window.height as int, s as u64 as int)),
                k - before.len(),
            );
        }
    }
}

/// A scan records nothing but windows that the mask does not hide and that
/// the cascade passes.
pub proof fn lemma_scan_records_passing_windows(
    scene: Scene,
    model: CascadeModel,
    factor: int,
    min: Size,
    max: Size,
    k: int,
)
    requires
        0 <= k < scan_result(scene, model, factor, min, max).len(),
    ensures
        from_passing_window(scene, model, scan_result(scene, model, factor, min, max)[k]),
{
    if single_scale_mode(min, max) {
        let s = single_scale(model, max);
        lemma_level_from_windows(
            scene,
            model,
            s as u64,
            0,
            positions(scene.height, scaled(model.window.height as int, s as u64 as int)),
            k,
        );
    } else {
        lemma_levels_from_windows(scene, model, factor, min, level_count(scene, model, factor, max), k);
    }
}

} // verus!
