//! The in-memory form of a trained cascade: stages of weak classifiers, each
//! a small decision tree over one measurement of the window.
//!
//! Thresholds and leaf values are fixed-point numbers in units of 1/65536.

use vstd::prelude::*;
use crate::fixed::MAX_LENGTH;
use crate::geometry::{Rect, Size};

verus! {

/// The most rectangles that one Haar measurement adds up.
pub const CV_HAAR_FEATURE_MAX: i32 = 3;

/// The most stages of a cascade.
pub const CV_HAAR_STAGE_MAX: i32 = 1000;

/// The most weak classifiers of a stage.
pub const MAX_WEAK: usize = 0x10_0000;

/// The two kinds of measurement.
#[derive(Clone, Copy, Debug, PartialEq, Eq, Structural)]
pub enum FeatureType {
    /// Weighted sums over rectangles.
    Haar,
    /// Local binary patterns.
    Lbp,
}

/// A rectangle of the training window, with the weight that its sum
/// carries in a Haar measurement.
#[derive(Clone, Copy, Debug, PartialEq, Eq, Structural)]
pub struct Feature {
    pub rect: Rect,
    pub weight: i32,
}

/// What a weak classifier measures in a window.
#[derive(Clone, Debug)]
pub enum Probe {
    /// The weighted sum of the samples under up to three rectangles.
    Haar(Vec<Feature>),
    /// The local binary pattern of the three-by-three grid of cells whose
    /// top-left cell is the rectangle.
    Lbp(Rect),
}

/// The question that a tree node asks of the measurement.
#[derive(Clone, Copy, Debug)]
pub enum Test {
    /// Whether the measurement, divided by the window's norm, is below the
    /// threshold.
    Below(i32),
    /// Whether the measurement is a pattern of the set: pattern `c` is in
    /// the set when bit `c % 32` of word `c / 32` is one.
    InSet([u32; 8]),
}

/// Where a tree node leads.
#[derive(Clone, Copy, Debug, PartialEq, Eq, Structural)]
pub enum Branch {
    /// To the node with this index, which must be greater than the index of
    /// the node that leads to it.
    Node(usize),
    /// To a leaf with this value.
    Leaf(i32),
}

/// A node of a decision tree: `left` where the answer to `test` is yes,
/// `right` where it is no.
#[derive(Clone, Copy, Debug)]
pub struct TreeNode {
    pub test: Test,
    pub left: Branch,
    pub right: Branch,
}

/// A decision tree over one measurement. The tree starts at node 0.
#[derive(Clone, Debug)]
pub struct WeakClassifier {
    pub probe: Probe,
    pub nodes: Vec<TreeNode>,
}

/// A stage: a window passes when the values of the stage's weak classifiers
/// add up to the threshold or more.
#[derive(Clone, Debug)]
pub struct Stage {
    pub threshold: i32,
    pub weak: Vec<WeakClassifier>,
}

/// A trained cascade.
#[derive(Clone, Debug)]
pub struct CascadeModel {
    /// The size of the training window.
    pub window: Size,
    /// The kind of measurement that the cascade was trained with.
    pub feature_type: FeatureType,
    /// Whether Haar measurements are divided by the window's standard
    /// deviation.
    pub normalized: bool,
    /// Whether the cascade was read from the older encoding.
    pub old_format: bool,
    pub stages: Vec<Stage>,
}

/// The rectangle lies inside a window of the given size and has an area.
pub open spec fn rect_inside(r: Rect, window: Size) -> bool {
    &&& 0 <= r.x
    &&& 0 <= r.y
    &&& 0 < r.width
    &&& 0 < r.height
    &&& r.x + r.width <= window.width
    &&& r.y + r.height <= window.height
}

/// The three-by-three grid of cells whose top-left cell is `r` lies inside
/// a window of the given size, and the cells have an area.
pub open spec fn grid_inside(r: Rect, window: Size) -> bool {
    &&& 0 <= r.x
    &&& 0 <= r.y
    &&& 0 < r.width
    &&& 0 < r.height
    &&& r.x + 3 * r.width <= window.width
    &&& r.y + 3 * r.height <= window.height
}

pub open spec fn probe_ok(p: Probe, window: Size) -> bool {
    match p {
        Probe::Haar(features) => {
            &&& 1 <= features@.len() <= CV_HAAR_FEATURE_MAX
            &&& forall|k: int|
                0 <= k < features@.len() ==> rect_inside((#[trigger] features@[k]).rect, window)
        },
        Probe::Lbp(r) => grid_inside(r, window),
    }
}

/// The kind of measurement that the probe takes.
pub open spec fn kind_of(p: Probe) -> FeatureType {
    match p {
        Probe::Haar(_) => FeatureType::Haar,
        Probe::Lbp(_) => FeatureType::Lbp,
    }
}

pub open spec fn stage_ok(s: Stage, window: Size, kind: FeatureType) -> bool {
    &&& s.weak@.len() <= MAX_WEAK
    &&& forall|k: int|
        0 <= k < s.weak@.len() ==> probe_ok((#[trigger] s.weak@[k]).probe, window) && kind_of(
            s.weak@[k].probe,
        ) == kind
}

impl CascadeModel {
    /// The training window has an area and sides of at most 32767, no stage
    /// has too many weak classifiers, and every measurement is of the
    /// model's kind and stays inside the training window.
    pub open spec fn wf(&self) -> bool {
        &&& 0 < self.window.width <= MAX_LENGTH
        &&& 0 < self.window.height <= MAX_LENGTH
        &&& self.stages@.len() <= CV_HAAR_STAGE_MAX
        &&& forall|k: int| 0 <= k < self.stages@.len() ==> stage_ok(
            #[trigger] self.stages@[k],
            self.window,
            self.feature_type,
        )
    }

    /// The model as one of the newer encoding; none where the model is
    /// malformed. Both encodings stand for the same stages, so that only
    /// the mark of the encoding changes.
    pub fn into_new_format(self) -> (res: Option<CascadeModel>)
        ensures
            res.is_some() <==> self.wf(),
            res matches Some(m) ==> m.window == self.window && m.feature_type == self.feature_type
                && m.normalized == self.normalized && !m.old_format && m.stages == self.stages && m.wf(),
    {
        if !self.validate() {
            return None;
        }
        let mut m = self;
        m.old_format = false;
        Some(m)
    }

    /// Whether the model is well formed.
    pub fn validate(&self) -> (ok: bool)
        ensures
            ok == self.wf(),
    {
        if self.window.width <= 0 || self.window.width > MAX_LENGTH as i32 || self.window.height <= 0
            || self.window.height > MAX_LENGTH as i32 {
            return false;
        }
        if self.stages.len() > CV_HAAR_STAGE_MAX as usize {
            return false;
        }
        let mut k: usize = 0;
        while k < self.stages.len()
            invariant
                k <= self.stages@.len(),
                0 < self.window.width <= MAX_LENGTH,
                0 < self.window.height <= MAX_LENGTH,
                forall|t: int|
                    0 <= t < k ==> stage_ok(#[trigger] self.stages@[t], self.window, self.feature_type),
            decreases self.stages@.len() - k,
        {
            if !check_stage(&self.stages[k], self.window, self.feature_type) {
                return false;
            }
            k += 1;
        }
        true
    }
}

fn check_rect(r: &Rect, window: Size) -> (ok: bool)
    ensures
        ok == rect_inside(*r, window),
{
    r.x >= 0 && r.y >= 0 && r.width > 0 && r.height > 0 && r.x as i64 + r.width as i64
        <= window.width as i64 && r.y as i64 + r.height as i64 <= window.height as i64
}

fn check_grid(r: &Rect, window: Size) -> (ok: bool)
    ensures
        ok == grid_inside(*r, window),
{
    r.x >= 0 && r.y >= 0 && r.width > 0 && r.height > 0 && r.x as i64 + 3 * (r.width as i64)
        <= window.width as i64 && r.y as i64 + 3 * (r.height as i64) <= window.height as i64
}

fn check_features(features: &Vec<Feature>, window: Size) -> (ok: bool)
    ensures
        ok == (1 <= features@.len() <= CV_HAAR_FEATURE_MAX && forall|k: int|
            0 <= k < features@.len() ==> rect_inside((#[trigger] features@[k]).rect, window)),
{
    if features.len() < 1 || features.len() > CV_HAAR_FEATURE_MAX as usize {
        return false;
    }
    let mut k: usize = 0;
    while k < features.len()
        invariant
            k <= features@.len(),
            forall|t: int| 0 <= t < k ==> rect_inside((#[trigger] features@[t]).rect, window),
        decreases features@.len() - k,
    {
        if !check_rect(&features[k].rect, window) {
            assert(!rect_inside(features@[k as int].rect, window));
            return false;
        }
        k += 1;
    }
    true
}

fn check_probe(p: &Probe, window: Size) -> (ok: bool)
    ensures
        ok == probe_ok(*p, window),
{
    match p {
        Probe::Haar(features) => check_features(features, window),
        Probe::Lbp(r) => check_grid(r, window),
    }
}

fn check_kind(p: &Probe, kind: FeatureType) -> (ok: bool)
    ensures
        ok == (kind_of(*p) == kind),
{
    match p {
        Probe::Haar(_) => match kind {
            FeatureType::Haar => true,
            FeatureType::Lbp => false,
        },
        Probe::Lbp(_) => match kind {
            FeatureType::Haar => false,
            FeatureType::Lbp => true,
        },
    }
}

fn check_stage(s: &Stage, window: Size, kind: FeatureType) -> (ok: bool)
    ensures
        ok == stage_ok(*s, window, kind),
{
    if s.weak.len() > MAX_WEAK {
        return false;
    }
    let mut k: usize = 0;
    while k < s.weak.len()
        invariant
            k <= s.weak@.len(),
            forall|t: int|
                0 <= t < k ==> probe_ok((#[trigger] s.weak@[t]).probe, window) && kind_of(s.weak@[t].probe)
                    == kind,
        decreases s.weak@.len() - k,
    {
        if !check_probe(&s.weak[k].probe, window) || !check_kind(&s.weak[k].probe, kind) {
            assert(!(probe_ok(s.weak@[k as int].probe, window) && kind_of(s.weak@[k as int].probe) == kind));
            return false;
        }
        k += 1;
    }
    true
}

} // verus!
