//! The cascade detector as a whole: scan the image at every scale, then
//! group the windows that passed.

use vstd::prelude::*;
use crate::cascade::{CascadeModel, FeatureType};
use crate::error::DetectError;
use crate::geometry::{Rect, Size, SimilarRects};
use crate::grouping::{
    group_rectangle, group_rectangle_weights, group_rectangles_weights_rejects, grouped,
    grouped_counts, grouped_strongest, same_ints, same_pairs,
};
use crate::image::Image;
use crate::scanner::{
    scan_refusal, scan_result, scene_of_images, DetectionCandidate, MultiScaleScanner,
};

verus! {

pub const CASCADE_DO_CANNY_PRUNING: i32 = 1;

pub const CASCADE_SCALE_IMAGE: i32 = 2;

pub const CASCADE_FIND_BIGGEST_OBJECT: i32 = 4;

pub const CASCADE_DO_ROUGH_SEARCH: i32 = 8;

pub const CV_HAAR_DO_CANNY_PRUNING: i32 = 1;

pub const CV_HAAR_SCALE_IMAGE: i32 = 2;

pub const CV_HAAR_FIND_BIGGEST_OBJECT: i32 = 4;

pub const CV_HAAR_DO_ROUGH_SEARCH: i32 = 8;

pub const CV_HAAR_MAGIC_VAL: i32 = 0x42500000;

/// The tolerance with which the windows of a scan are grouped: one fifth.
pub const GROUP_EPS_NUM: u32 = 1;

pub const GROUP_EPS_DEN: u32 = 5;

/// A source of masks: given an image, it says with a sample other than zero
/// which pixels are worth looking at.
pub trait BaseCascadeClassifier_MaskGenerator {
    /// The mask for `src`.
    fn generate_mask(&mut self, src: &Image) -> Image;

    /// Prepares the generator for images like `src`.
    fn initialize_mask(&mut self, src: &Image);
}

/// A cascade detector: empty, or holding a well-formed model with at least
/// one stage.
pub struct CascadeClassifier {
    model: Option<CascadeModel>,
}

/// The rectangles of the candidates.
pub open spec fn rects_of(c: Seq<DetectionCandidate>) -> Seq<Rect> {
    Seq::new(c.len(), |k: int| c[k].rect)
}

/// The level of each candidate: the number of stages, since every window
/// that a scan records has passed them all.
pub open spec fn levels_of(c: Seq<DetectionCandidate>, stages: int) -> Seq<i32> {
    Seq::new(c.len(), |k: int| stages as i32)
}

/// The weights of the candidates.
pub open spec fn weights_of(c: Seq<DetectionCandidate>) -> Seq<i64> {
    Seq::new(c.len(), |k: int| c[k].weight)
}

fn split_candidates(c: &Vec<DetectionCandidate>, stages: usize) -> (out: (Vec<Rect>, Vec<i32>, Vec<i64>))
    requires
        stages <= i32::MAX,
    ensures
        out.0@ == rects_of(c@),
        out.1@ == levels_of(c@, stages as int),
        out.2@ == weights_of(c@),
{
    let mut rects: Vec<Rect> = Vec::new();
    let mut levels: Vec<i32> = Vec::new();
    let mut weights: Vec<i64> = Vec::new();
    let mut k: usize = 0;
    while k < c.len()
        invariant
            k <= c@.len(),
            stages <= i32::MAX,
            rects@ == rects_of(c@).take(k as int),
            levels@ == levels_of(c@, stages as int).take(k as int),
            weights@ == weights_of(c@).take(k as int),
        decreases c@.len() - k,
    {
        let cand: DetectionCandidate = c[k];
        rects.push(cand.rect);
        levels.push(stages as i32);
        weights.push(cand.weight);
        proof {
            assert(rects@ =~= rects_of(c@).take(k + 1));
            assert(levels@ =~= levels_of(c@, stages as int).take(k + 1));
            assert(weights@ =~= weights_of(c@).take(k + 1));
        }
        k += 1;
    }
    proof {
        assert(rects@ =~= rects_of(c@));
        assert(levels@ =~= levels_of(c@, stages as int));
        assert(weights@ =~= weights_of(c@));
    }
    (rects, levels, weights)
}

impl CascadeClassifier {
    /// The model that the classifier holds.
    pub closed spec fn model(&self) -> Option<CascadeModel> {
        self.model
    }

    /// A classifier without a model.
    pub fn default() -> (c: CascadeClassifier)
        ensures
            c.model().is_none(),
    {
        CascadeClassifier { model: None }
    }

    /// A classifier for `model`; without a model, where `model` is
    /// malformed or has no stage.
    pub fn from_model(model: CascadeModel) -> (c: CascadeClassifier)
        ensures
            c.model() == if model.wf() && model.stages@.len() > 0 {
                Some(model)
            } else {
                None
            },
    {
        if model.validate() && model.stages.len() > 0 {
            CascadeClassifier { model: Some(model) }
        } else {
            CascadeClassifier { model: None }
        }
    }

    /// Replaces the model. Returns whether the classifier now holds one: it
    /// holds none where `model` is malformed or has no stage.
    pub fn load_model(&mut self, model: CascadeModel) -> (loaded: bool)
        ensures
            loaded == (model.wf() && model.stages@.len() > 0),
            final(self).model() == if loaded {
                Some(model)
            } else {
                None
            },
    {
        if model.validate() && model.stages.len() > 0 {
            self.model = Some(model);
            true
        } else {
            self.model = None;
            false
        }
    }

    /// Whether the classifier holds no model.
    pub fn empty(&self) -> (b: bool)
        ensures
            b == self.model().is_none(),
    {
        self.model.is_none()
    }

    /// Whether the model was read from the older encoding.
    pub fn is_old_format_cascade(&self) -> (res: Result<bool, DetectError>)
        ensures
            res == match self.model() {
                Some(m) => Ok::<bool, DetectError>(m.old_format),
                None => Err::<bool, DetectError>(DetectError::ModelNotLoaded),
            },
    {
        match &self.model {
            Some(m) => Ok(m.old_format),
            None => Err(DetectError::ModelNotLoaded),
        }
    }

    /// The size of the model's training window.
    pub fn get_original_window_size(&self) -> (res: Result<Size, DetectError>)
        ensures
            res == match self.model() {
                Some(m) => Ok::<Size, DetectError>(m.window),
                None => Err::<Size, DetectError>(DetectError::ModelNotLoaded),
            },
    {
        match &self.model {
            Some(m) => Ok(m.window),
            None => Err(DetectError::ModelNotLoaded),
        }
    }

    /// The kind of measurement of the model: 0 for Haar, 1 for local binary
    /// patterns.
    pub fn get_feature_type(&self) -> (res: Result<i32, DetectError>)
        ensures
            res == match self.model() {
                Some(m) => Ok::<i32, DetectError>(
                    match m.feature_type {
                        FeatureType::Haar => 0i32,
                        FeatureType::Lbp => 1i32,
                    },
                ),
                None => Err::<i32, DetectError>(DetectError::ModelNotLoaded),
            },
    {
        match &self.model {
            Some(m) => Ok(
                match m.feature_type {
                    FeatureType::Haar => 0,
                    FeatureType::Lbp => 1,
                },
            ),
            None => Err(DetectError::ModelNotLoaded),
        }
    }

    /// Why a detection call is refused, if it is.
    pub open spec fn refusal(
        &self,
        image: Image,
        mask: Option<&Image>,
        scale_factor: u64,
        min_neighbors: i32,
        min_size: Size,
        max_size: Size,
    ) -> Option<DetectError> {
        match self.model() {
            None => Some(DetectError::ModelNotLoaded),
            Some(m) => scan_refusal(m, image, mask, scale_factor, min_neighbors, min_size, max_size),
        }
    }

    /// The windows that the scan of a detection call finds.
    pub open spec fn found(
        &self,
        image: Image,
        mask: Option<&Image>,
        scale_factor: u64,
        min_size: Size,
        max_size: Size,
    ) -> Seq<DetectionCandidate> {
        scan_result(
            scene_of_images(image, mask),
            self.model()->Some_0,
            scale_factor as int,
            min_size,
            max_size,
        )
    }

    fn candidates(
        &self,
        image: &Image,
        mask: Option<&Image>,
        scale_factor: u64,
        min_neighbors: i32,
        min_size: Size,
        max_size: Size,
    ) -> (res: Result<Vec<DetectionCandidate>, DetectError>)
        ensures
            match self.refusal(*image, mask, scale_factor, min_neighbors, min_size, max_size) {
                Some(e) => res == Err::<Vec<DetectionCandidate>, DetectError>(e),
                None => res.is_ok() && res->Ok_0@ == self.found(
                    *image,
                    mask,
                    scale_factor,
                    min_size,
                    max_size,
                ),
            },
    {
        match &self.model {
            None => Err(DetectError::ModelNotLoaded),
            Some(m) => MultiScaleScanner::scan(
                m,
                image,
                mask,
                scale_factor,
                min_neighbors,
                min_size,
                max_size,
            ),
        }
    }

    /// Detects objects in `image` and puts their rectangles into `objects`.
    ///
    /// The image is scanned as `MultiScaleScanner::scan` says, with
    /// `mask` if one is given; the windows that passed are grouped with the
    /// threshold `min_neighbors` and the tolerance `eps`. A refused call
    /// leaves `objects` as it was.
    pub fn detect_multi_scale_with(
        &self,
        image: &Image,
        mask: Option<&Image>,
        objects: &mut Vec<Rect>,
        scale_factor: u64,
        min_neighbors: i32,
        eps: SimilarRects,
        min_size: Size,
        max_size: Size,
    ) -> (res: Result<(), DetectError>)
        ensures
            match self.refusal(*image, mask, scale_factor, min_neighbors, min_size, max_size) {
                Some(e) => res == Err::<(), DetectError>(e) && final(objects)@ == old(objects)@,
                None => res.is_ok() && final(objects)@ == grouped(
                    rects_of(self.found(*image, mask, scale_factor, min_size, max_size)),
                    eps.eps_num as int,
                    eps.eps_den as int,
                    min_neighbors as int,
                ),
            },
    {
        let found = match self.candidates(image, mask, scale_factor, min_neighbors, min_size, max_size) {
            Ok(f) => f,
            Err(e) => {
                return Err(e);
            },
        };
        let (mut rects, _levels, _weights) = split_candidates(&found, 0);
        group_rectangle(&mut rects, min_neighbors, eps);
        *objects = rects;
        Ok(())
    }

    /// Detects objects in `image` under `mask`, if one is given, grouping
    /// with a tolerance of one fifth. `flags` is not used.
    pub fn detect_multi_scale_with_mask(
        &self,
        image: &Image,
        mask: Option<&Image>,
        objects: &mut Vec<Rect>,
        scale_factor: u64,
        min_neighbors: i32,
        flags: i32,
        min_size: Size,
        max_size: Size,
    ) -> (res: Result<(), DetectError>)
        ensures
            match self.refusal(*image, mask, scale_factor, min_neighbors, min_size, max_size) {
                Some(e) => res == Err::<(), DetectError>(e) && final(objects)@ == old(objects)@,
                None => res.is_ok() && final(objects)@ == grouped(
                    rects_of(self.found(*image, mask, scale_factor, min_size, max_size)),
                    GROUP_EPS_NUM as int,
                    GROUP_EPS_DEN as int,
                    min_neighbors as int,
                ),
            },
    {
        self.detect_multi_scale_with(
            image,
            mask,
            objects,
            scale_factor,
            min_neighbors,
            SimilarRects::new(GROUP_EPS_NUM, GROUP_EPS_DEN),
            min_size,
            max_size,
        )
    }

    /// Detects objects in `image` and puts their rectangles into `objects`.
    pub fn detect_multi_scale(
        &self,
        image: &Image,
        objects: &mut Vec<Rect>,
        scale_factor: u64,
        min_neighbors: i32,
        flags: i32,
        min_size: Size,
        max_size: Size,
    ) -> (res: Result<(), DetectError>)
        ensures
            match self.refusal(*image, None, scale_factor, min_neighbors, min_size, max_size) {
                Some(e) => res == Err::<(), DetectError>(e) && final(objects)@ == old(objects)@,
                None => res.is_ok() && final(objects)@ == grouped(
                    rects_of(self.found(*image, None, scale_factor, min_size, max_size)),
                    GROUP_EPS_NUM as int,
                    GROUP_EPS_DEN as int,
                    min_neighbors as int,
                ),
            },
    {
        self.detect_multi_scale_with_mask(
            image,
            None,
            objects,
            scale_factor,
            min_neighbors,
            flags,
            min_size,
            max_size,
        )
    }

    /// Detects objects in `image` under the mask that `generator` makes for
    /// it. The generator is asked once, and only where the classifier holds
    /// a model; what it returns is handed to
    /// `detect_multi_scale_with_mask`.
    pub fn detect_multi_scale_masked<G: BaseCascadeClassifier_MaskGenerator>(
        &self,
        generator: &mut G,
        image: &Image,
        objects: &mut Vec<Rect>,
        scale_factor: u64,
        min_neighbors: i32,
        flags: i32,
        min_size: Size,
        max_size: Size,
    ) -> (res: Result<(), DetectError>)
        ensures
            self.model().is_none() ==> res == Err::<(), DetectError>(DetectError::ModelNotLoaded) && final(objects)@ == old(objects)@,
            self.model().is_some() ==> exists|mask: Image|
                match #[trigger] self.refusal(
                    *image,
                    Some(&mask),
                    scale_factor,
                    min_neighbors,
                    min_size,
                    max_size,
                ) {
                    Some(e) => res == Err::<(), DetectError>(e) && final(objects)@ == old(objects)@,
                    None => res.is_ok() && final(objects)@ == grouped(
                        rects_of(self.found(*image, Some(&mask), scale_factor, min_size, max_size)),
                        GROUP_EPS_NUM as int,
                        GROUP_EPS_DEN as int,
                        min_neighbors as int,
                    ),
                },
    {
        if self.model.is_none() {
            return Err(DetectError::ModelNotLoaded);
        }
        let mask: Image = generator.generate_mask(image);
        self.detect_multi_scale_with_mask(
            image,
            Some(&mask),
            objects,
            scale_factor,
            min_neighbors,
            flags,
            min_size,
            max_size,
        )
    }

    /// What `detect_multi_scale_num` owes: a refusal as `refusal` says; else
    /// a refusal for the input where the scan finds more windows than a
    /// count can hold; else the grouped rectangles, and for each of them
    /// the number of windows that went into it.
    pub open spec fn counted(
        &self,
        image: Image,
        mask: Option<&Image>,
        scale_factor: u64,
        min_neighbors: i32,
        min_size: Size,
        max_size: Size,
        res: Result<(), DetectError>,
        objects: Seq<Rect>,
        num_detections: Seq<i32>,
    ) -> bool {
        match self.refusal(image, mask, scale_factor, min_neighbors, min_size, max_size) {
            Some(e) => res == Err::<(), DetectError>(e),
            None => {
                let found = self.found(image, mask, scale_factor, min_size, max_size);
                if found.len() > i32::MAX {
                    res == Err::<(), DetectError>(DetectError::InvalidInput)
                } else {
                    res.is_ok() && objects == grouped(
                        rects_of(found),
                        GROUP_EPS_NUM as int,
                        GROUP_EPS_DEN as int,
                        min_neighbors as int,
                    ) && same_ints(
                        num_detections,
                        grouped_counts(
                            rects_of(found),
                            GROUP_EPS_NUM as int,
                            GROUP_EPS_DEN as int,
                            min_neighbors as int,
                        ),
                    )
                }
            },
        }
    }

    /// What `detect_multi_scale_levels` owes: a refusal as `refusal` says;
    /// else the grouped rectangles, and, where levels are asked for, for
    /// each of them the strongest pair of level and weight among the
    /// windows that went into it, each window counting with the number of
    /// stages as its level and its margin as its weight. Where levels are
    /// not asked for, the two lists are empty.
    pub open spec fn levelled(
        &self,
        image: Image,
        mask: Option<&Image>,
        scale_factor: u64,
        min_neighbors: i32,
        min_size: Size,
        max_size: Size,
        output_reject_levels: bool,
        res: Result<(), DetectError>,
        objects: Seq<Rect>,
        reject_levels: Seq<i32>,
        level_weights: Seq<i64>,
    ) -> bool {
        match self.refusal(image, mask, scale_factor, min_neighbors, min_size, max_size) {
            Some(e) => res == Err::<(), DetectError>(e),
            None => {
                let found = self.found(image, mask, scale_factor, min_size, max_size);
                &&& res.is_ok()
                &&& objects == grouped(
                    rects_of(found),
                    GROUP_EPS_NUM as int,
                    GROUP_EPS_DEN as int,
                    min_neighbors as int,
                )
                &&& output_reject_levels ==> same_pairs(
                    reject_levels,
                    level_weights,
                    grouped_strongest(
                        rects_of(found),
                        GROUP_EPS_NUM as int,
                        GROUP_EPS_DEN as int,
                        min_neighbors as int,
                        levels_of(found, self.model()->Some_0.stages@.len() as int),
                        weights_of(found),
                    ),
                )
                &&& !output_reject_levels ==> reject_levels.len() == 0 && level_weights.len() == 0
            },
        }
    }

    /// Detects objects in `image`, under `mask` if one is given, and
    /// reports, in `num_detections`, how many windows went into each
    /// rectangle of `objects`. A refused call changes nothing.
    pub fn detect_multi_scale_num_with_mask(
        &self,
        image: &Image,
        mask: Option<&Image>,
        objects: &mut Vec<Rect>,
        num_detections: &mut Vec<i32>,
        scale_factor: u64,
        min_neighbors: i32,
        flags: i32,
        min_size: Size,
        max_size: Size,
    ) -> (res: Result<(), DetectError>)
        ensures
            self.counted(
                *image,
                mask,
                scale_factor,
                min_neighbors,
                min_size,
                max_size,
                res,
                final(objects)@,
                final(num_detections)@,
            ),
            res.is_err() ==> final(objects)@ == old(objects)@ && final(num_detections)@ == old(num_detections)@,
    {
        let found = match self.candidates(image, mask, scale_factor, min_neighbors, min_size, max_size) {
            Ok(f) => f,
            Err(e) => {
                return Err(e);
            },
        };
        let (mut rects, _levels, _weights) = split_candidates(&found, 0);
        let mut counts: Vec<i32> = Vec::new();
        match group_rectangle_weights(
            &mut rects,
            &mut counts,
            min_neighbors,
            SimilarRects::new(GROUP_EPS_NUM, GROUP_EPS_DEN),
        ) {
            Ok(()) => {
                *objects = rects;
                *num_detections = counts;
                Ok(())
            },
            Err(e) => Err(e),
        }
    }

    /// Detects objects in `image` and reports, in `num_detections`, how many
    /// windows went into each rectangle of `objects`.
    pub fn detect_multi_scale_num(
        &self,
        image: &Image,
        objects: &mut Vec<Rect>,
        num_detections: &mut Vec<i32>,
        scale_factor: u64,
        min_neighbors: i32,
        flags: i32,
        min_size: Size,
        max_size: Size,
    ) -> (res: Result<(), DetectError>)
        ensures
            self.counted(
                *image,
                None,
                scale_factor,
                min_neighbors,
                min_size,
                max_size,
                res,
                final(objects)@,
                final(num_detections)@,
            ),
            res.is_err() ==> final(objects)@ == old(objects)@ && final(num_detections)@ == old(num_detections)@,
    {
        self.detect_multi_scale_num_with_mask(
            image,
            None,
            objects,
            num_detections,
            scale_factor,
            min_neighbors,
            flags,
            min_size,
            max_size,
        )
    }

    /// `detect_multi_scale_num` under the mask that `generator` makes for
    /// the image. The generator is asked once, and only where the
    /// classifier holds a model; what it returns is handed to
    /// `detect_multi_scale_num_with_mask`.
    pub fn detect_multi_scale_num_masked<G: BaseCascadeClassifier_MaskGenerator>(
        &self,
        generator: &mut G,
        image: &Image,
        objects: &mut Vec<Rect>,
        num_detections: &mut Vec<i32>,
        scale_factor: u64,
        min_neighbors: i32,
        flags: i32,
        min_size: Size,
        max_size: Size,
    ) -> (res: Result<(), DetectError>)
        ensures
            self.model().is_none() ==> res == Err::<(), DetectError>(DetectError::ModelNotLoaded),
            self.model().is_some() ==> exists|mask: Image|
                #[trigger] self.counted(
                    *image,
                    Some(&mask),
                    scale_factor,
                    min_neighbors,
                    min_size,
                    max_size,
                    res,
                    final(objects)@,
                    final(num_detections)@,
                ),
            res.is_err() ==> final(objects)@ == old(objects)@ && final(num_detections)@ == old(num_detections)@,
    {
        if self.model.is_none() {
            return Err(DetectError::ModelNotLoaded);
        }
        let mask: Image = generator.generate_mask(image);
        let res = self.detect_multi_scale_num_with_mask(
            image,
            Some(&mask),
            objects,
            num_detections,
            scale_factor,
            min_neighbors,
            flags,
            min_size,
            max_size,
        );
        proof {
            assert(self.counted(
                *image,
                Some(&mask),
                scale_factor,
                min_neighbors,
                min_size,
                max_size,
                res,
                objects@,
                num_detections@,
            ));
        }
        res
    }

    /// Detects objects in `image`, under `mask` if one is given. Where
    /// `output_reject_levels` is set, each window counts with the number of
    /// stages it passed as its level and with its margin as its weight, and
    /// `reject_levels` and `level_weights` report for each rectangle of
    /// `objects` the strongest such pair among the windows that went into
    /// it. Where it is not set, the two lists come back empty. A refused
    /// call changes nothing.
    pub fn detect_multi_scale_levels_with_mask(
        &self,
        image: &Image,
        mask: Option<&Image>,
        objects: &mut Vec<Rect>,
        reject_levels: &mut Vec<i32>,
        level_weights: &mut Vec<i64>,
        scale_factor: u64,
        min_neighbors: i32,
        flags: i32,
        min_size: Size,
        max_size: Size,
        output_reject_levels: bool,
    ) -> (res: Result<(), DetectError>)
        ensures
            self.levelled(
                *image,
                mask,
                scale_factor,
                min_neighbors,
                min_size,
                max_size,
                output_reject_levels,
                res,
                final(objects)@,
                final(reject_levels)@,
                final(level_weights)@,
            ),
            res.is_err() ==> final(objects)@ == old(objects)@ && final(reject_levels)@ == old(reject_levels)@ && final(level_weights)@ == old(level_weights)@,
    {
        let found = match self.candidates(image, mask, scale_factor, min_neighbors, min_size, max_size) {
            Ok(f) => f,
            Err(e) => {
                return Err(e);
            },
        };
        let stages: usize = match &self.model {
            Some(m) => m.stages.len(),
            None => 0,
        };
        proof {
            assert(self.model()->Some_0.wf());
        }
        let (mut rects, mut levels, mut weights) = split_candidates(&found, stages);
        let eps = SimilarRects::new(GROUP_EPS_NUM, GROUP_EPS_DEN);
        if output_reject_levels {
            match group_rectangles_weights_rejects(
                &mut rects,
                &mut levels,
                &mut weights,
                min_neighbors,
                eps,
            ) {
                Ok(()) => {},
                Err(_) => {
                    assert(false);
                },
            }
            *objects = rects;
            *reject_levels = levels;
            *level_weights = weights;
        } else {
            group_rectangle(&mut rects, min_neighbors, eps);
            *objects = rects;
            *reject_levels = Vec::new();
            *level_weights = Vec::new();
        }
        Ok(())
    }

    /// Detects objects in `image`, with levels and weights where
    /// `output_reject_levels` asks for them.
    pub fn detect_multi_scale_levels(
        &self,
        image: &Image,
        objects: &mut Vec<Rect>,
        reject_levels: &mut Vec<i32>,
        level_weights: &mut Vec<i64>,
        scale_factor: u64,
        min_neighbors: i32,
        flags: i32,
        min_size: Size,
        max_size: Size,
        output_reject_levels: bool,
    ) -> (res: Result<(), DetectError>)
        ensures
            self.levelled(
                *image,
                None,
                scale_factor,
                min_neighbors,
                min_size,
                max_size,
                output_reject_levels,
                res,
                final(objects)@,
                final(reject_levels)@,
                final(level_weights)@,
            ),
            res.is_err() ==> final(objects)@ == old(objects)@ && final(reject_levels)@ == old(reject_levels)@ && final(level_weights)@ == old(level_weights)@,
    {
        self.detect_multi_scale_levels_with_mask(
            image,
            None,
            objects,
            reject_levels,
            level_weights,
            scale_factor,
            min_neighbors,
            flags,
            min_size,
            max_size,
            output_reject_levels,
        )
    }

    /// `detect_multi_scale_levels` under the mask that `generator` makes
    /// for the image. The generator is asked once, and only where the
    /// classifier holds a model; what it returns is handed to
    /// `detect_multi_scale_levels_with_mask`.
    pub fn detect_multi_scale_levels_masked<G: BaseCascadeClassifier_MaskGenerator>(
        &self,
        generator: &mut G,
        image: &Image,
        objects: &mut Vec<Rect>,
        reject_levels: &mut Vec<i32>,
        level_weights: &mut Vec<i64>,
        scale_factor: u64,
        min_neighbors: i32,
        flags: i32,
        min_size: Size,
        max_size: Size,
        output_reject_levels: bool,
    ) -> (res: Result<(), DetectError>)
        ensures
            self.model().is_none() ==> res == Err::<(), DetectError>(DetectError::ModelNotLoaded),
            self.model().is_some() ==> exists|mask: Image|
                #[trigger] self.levelled(
                    *image,
                    Some(&mask),
                    scale_factor,
                    min_neighbors,
                    min_size,
                    max_size,
                    output_reject_levels,
                    res,
                    final(objects)@,
                    final(reject_levels)@,
                    final(level_weights)@,
                ),
            res.is_err() ==> final(objects)@ == old(objects)@ && final(reject_levels)@ == old(reject_levels)@ && final(level_weights)@ == old(level_weights)@,
    {
        if self.model.is_none() {
            return Err(DetectError::ModelNotLoaded);
        }
        let mask: Image = generator.generate_mask(image);
        let res = self.detect_multi_scale_levels_with_mask(
            image,
            Some(&mask),
            objects,
            reject_levels,
            level_weights,
            scale_factor,
            min_neighbors,
            flags,
            min_size,
            max_size,
            output_reject_levels,
        );
        proof {
            assert(self.levelled(
                *image,
                Some(&mask),
                scale_factor,
                min_neighbors,
                min_size,
                max_size,
                output_reject_levels,
                res,
                objects@,
                reject_levels@,
                level_weights@,
            ));
        }
        res
    }
}

} // verus!
