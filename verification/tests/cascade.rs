use objdetect::cascade::{
    Branch, CascadeModel, Feature, FeatureType, Probe, Stage, Test, TreeNode, WeakClassifier,
};
use objdetect::classifier::{BaseCascadeClassifier_MaskGenerator, CascadeClassifier};
use objdetect::error::DetectError;
use objdetect::evaluator::{CascadeEvaluator, Window};
use objdetect::fixed::{isqrt, scale_length, ONE};
use objdetect::geometry::{Rect, Size};
use objdetect::image::Image;
use objdetect::integral::IntegralImage;
use objdetect::scanner::MultiScaleScanner;

const UNIT: i32 = 0x1_0000;

fn stump(features: Vec<Feature>, threshold: i32, yes: i32, no: i32) -> WeakClassifier {
    WeakClassifier {
        probe: Probe::Haar(features),
        nodes: vec![TreeNode { test: Test::Below(threshold), left: Branch::Leaf(yes), right: Branch::Leaf(no) }],
    }
}

fn whole(side: i32, weight: i32) -> Feature {
    Feature { rect: Rect::new(0, 0, side, side), weight }
}

fn model_of(side: i32, stages: Vec<Stage>) -> CascadeModel {
    CascadeModel {
        window: Size::new(side, side),
        feature_type: FeatureType::Haar,
        normalized: false,
        old_format: false,
        stages,
    }
}

/// Passes every window: one stage whose only leaf is its threshold.
fn accept_all(side: i32) -> CascadeModel {
    model_of(side, vec![Stage { threshold: 0, weak: vec![stump(vec![whole(side, 1)], 0, 0, 0)] }])
}

/// Passes windows whose inner half is bright and whose outer ring is dark.
fn bright_square_model() -> CascadeModel {
    let inner = Feature { rect: Rect::new(5, 5, 10, 10), weight: 1 };
    let inner_off = Feature { rect: Rect::new(5, 5, 10, 10), weight: -1 };
    model_of(
        20,
        vec![
            Stage { threshold: 0, weak: vec![stump(vec![inner], 38 * UNIT, -UNIT, UNIT)] },
            Stage { threshold: 0, weak: vec![stump(vec![whole(20, 1), inner_off], 25 * UNIT, UNIT, -UNIT)] },
        ],
    )
}

fn square_image(side: usize, at: usize, bright: usize) -> Image {
    let mut data = vec![0u8; side * side];
    for y in at..at + bright {
        for x in at..at + bright {
            data[y * side + x] = 255;
        }
    }
    Image::gray(side, side, data)
}

fn no_size() -> Size {
    Size::new(0, 0)
}

#[test]
fn integral_image_gives_region_sums() {
    let data: Vec<u8> = vec![1, 2, 3, 4, 5, 6, 7, 8, 9, 10, 11, 12];
    let img = Image::gray(4, 3, data);
    let ii = IntegralImage::build(&img, true).unwrap();
    assert_eq!(ii.cols(), 4);
    assert_eq!(ii.rows(), 3);
    assert!(ii.squares_built());
    assert_eq!(ii.region(0, 0, 3, 4), 78);
    assert_eq!(ii.region(1, 1, 3, 3), 6 + 7 + 10 + 11);
    assert_eq!(ii.region(2, 3, 3, 4), 12);
    assert_eq!(ii.region(1, 2, 1, 4), 0);
    assert_eq!(ii.region_squares(0, 0, 1, 4), 1 + 4 + 9 + 16);
    assert_eq!(ii.region_squares(1, 1, 3, 3), 36 + 49 + 100 + 121);
}

#[test]
fn integral_image_refuses_what_is_no_gray_image() {
    let empty = Image::gray(0, 0, Vec::new());
    assert!(matches!(IntegralImage::build(&empty, false), Err(DetectError::InvalidInput)));
    let short = Image::gray(4, 3, vec![0u8; 11]);
    assert!(matches!(IntegralImage::build(&short, false), Err(DetectError::InvalidInput)));
    let colour = Image { width: 2, height: 2, channels: 3, data: vec![0u8; 12] };
    assert!(matches!(IntegralImage::build(&colour, false), Err(DetectError::InvalidInput)));
    let fine = Image::gray(2, 2, vec![0u8; 4]);
    let ii = IntegralImage::build(&fine, false).unwrap();
    assert!(!ii.squares_built());
}

#[test]
fn lengths_scale_with_rounding() {
    assert_eq!(scale_length(20, ONE), 20);
    assert_eq!(scale_length(20, ONE + ONE / 2), 30);
    assert_eq!(scale_length(3, ONE / 2), 2);
    assert_eq!(scale_length(5, 72090), 6);
    assert_eq!(scale_length(4, 72090), 4);
}

#[test]
fn integer_square_roots_round_down() {
    assert_eq!(isqrt(0), 0);
    assert_eq!(isqrt(1), 1);
    assert_eq!(isqrt(15), 3);
    assert_eq!(isqrt(16), 4);
    assert_eq!(isqrt(17), 4);
    assert_eq!(isqrt(1u128 << 100), 1u64 << 50);
    assert_eq!(isqrt((1u128 << 100) - 1), (1u64 << 50) - 1);
}

#[test]
fn a_failing_stage_stops_the_evaluation() {
    let pass = || stump(vec![whole(4, 1)], 0, UNIT, UNIT);
    let fail = || stump(vec![whole(4, 1)], 0, -UNIT, -UNIT);
    let model = model_of(
        4,
        vec![
            Stage { threshold: 2 * UNIT, weak: vec![pass(), pass()] },
            Stage { threshold: 0, weak: vec![pass(), fail(), fail()] },
            Stage { threshold: 0, weak: vec![pass(), pass(), pass(), pass()] },
        ],
    );
    assert!(model.validate());
    let img = Image::gray(4, 4, vec![9u8; 16]);
    let ii = IntegralImage::build(&img, false).unwrap();
    let win = Window { x: 0, y: 0, scale: ONE };
    assert!(CascadeEvaluator::fits(&model, &ii, win));
    let res = CascadeEvaluator::evaluate(&model, &ii, win);
    assert!(!res.passed);
    assert_eq!(res.failed_stage, Some(1));
    assert_eq!(res.weak_evaluations, 5);
    assert_eq!(res.confidence, -(UNIT as i64));
}

#[test]
fn a_window_that_passes_has_seen_every_weak_classifier() {
    let pass = || stump(vec![whole(4, 1)], 0, UNIT, UNIT);
    let model = model_of(
        4,
        vec![
            Stage { threshold: UNIT, weak: vec![pass(), pass()] },
            Stage { threshold: UNIT, weak: vec![pass(), pass(), pass()] },
        ],
    );
    let img = Image::gray(5, 5, vec![9u8; 25]);
    let ii = IntegralImage::build(&img, false).unwrap();
    let res = CascadeEvaluator::evaluate(&model, &ii, Window { x: 1, y: 1, scale: ONE });
    assert!(res.passed);
    assert_eq!(res.failed_stage, None);
    assert_eq!(res.weak_evaluations, 5);
    assert_eq!(res.confidence, 2 * UNIT as i64);
    assert!(!CascadeEvaluator::fits(&model, &ii, Window { x: 2, y: 1, scale: ONE }));
    assert!(!CascadeEvaluator::fits(&model, &ii, Window { x: 0, y: 0, scale: ONE - 1 }));
}

#[test]
fn haar_thresholds_compare_the_mean_of_the_window() {
    // mean 100 per pixel of the window: below 101, not below 100
    let img = Image::gray(4, 4, vec![100u8; 16]);
    let ii = IntegralImage::build(&img, false).unwrap();
    let win = Window { x: 0, y: 0, scale: ONE };
    let below = model_of(4, vec![Stage { threshold: 0, weak: vec![stump(vec![whole(4, 1)], 101 * UNIT, 7, -7)] }]);
    assert_eq!(CascadeEvaluator::evaluate(&below, &ii, win).confidence, 7);
    let not = model_of(4, vec![Stage { threshold: 0, weak: vec![stump(vec![whole(4, 1)], 100 * UNIT, 7, -7)] }]);
    assert_eq!(CascadeEvaluator::evaluate(&not, &ii, win).confidence, -7);
    assert!(!CascadeEvaluator::evaluate(&not, &ii, win).passed);
}

#[test]
fn normalized_thresholds_follow_the_standard_deviation() {
    // two halves of 0 and 200: mean 100, standard deviation 100
    let mut data = vec![0u8; 16];
    for i in 8..16 {
        data[i] = 200;
    }
    let img = Image::gray(4, 4, data);
    let ii = IntegralImage::build(&img, true).unwrap();
    let win = Window { x: 0, y: 0, scale: ONE };
    let lower = Feature { rect: Rect::new(0, 2, 4, 2), weight: 1 };
    // response 1600; norm 16 * 100: the normalized response is exactly one
    let mut m = model_of(4, vec![Stage { threshold: 0, weak: vec![stump(vec![lower], UNIT + 1, 1, -1)] }]);
    m.normalized = true;
    assert!(CascadeEvaluator::evaluate(&m, &ii, win).passed);
    let mut m = model_of(4, vec![Stage { threshold: 0, weak: vec![stump(vec![lower], UNIT, 1, -1)] }]);
    m.normalized = true;
    assert!(!CascadeEvaluator::evaluate(&m, &ii, win).passed);
    // a flat window counts with a standard deviation of one
    let flat = Image::gray(4, 4, vec![50u8; 16]);
    let fi = IntegralImage::build(&flat, true).unwrap();
    let mut m = model_of(4, vec![Stage { threshold: 0, weak: vec![stump(vec![whole(4, 1)], 51 * UNIT, 1, -1)] }]);
    m.normalized = true;
    assert!(CascadeEvaluator::evaluate(&m, &fi, win).passed);
    let mut m = model_of(4, vec![Stage { threshold: 0, weak: vec![stump(vec![whole(4, 1)], 50 * UNIT, 1, -1)] }]);
    m.normalized = true;
    assert!(!CascadeEvaluator::evaluate(&m, &fi, win).passed);
}

#[test]
fn trees_are_walked_from_node_to_node() {
    let nodes = vec![
        TreeNode { test: Test::Below(10 * UNIT), left: Branch::Node(1), right: Branch::Node(2) },
        TreeNode { test: Test::Below(5 * UNIT), left: Branch::Leaf(1), right: Branch::Leaf(2) },
        TreeNode { test: Test::Below(20 * UNIT), left: Branch::Leaf(3), right: Branch::Node(0) },
    ];
    let value = |level: u8| {
        let img = Image::gray(2, 2, vec![level; 4]);
        let ii = IntegralImage::build(&img, false).unwrap();
        let weak = WeakClassifier { probe: Probe::Haar(vec![whole(2, 1)]), nodes: nodes.clone() };
        let m = model_of(2, vec![Stage { threshold: 0, weak: vec![weak] }]);
        CascadeEvaluator::evaluate(&m, &ii, Window { x: 0, y: 0, scale: ONE }).confidence
    };
    assert_eq!(value(3), 1);
    assert_eq!(value(7), 2);
    assert_eq!(value(15), 3);
    // the branch back to node 0 does not lead forward: it counts as a leaf of zero
    assert_eq!(value(30), 0);
}

#[test]
fn local_binary_patterns_compare_each_cell_with_the_centre() {
    // cells of one pixel; centre 5
    let data: Vec<u8> = vec![9, 1, 9, 1, 5, 5, 9, 1, 0];
    let img = Image::gray(3, 3, data);
    let ii = IntegralImage::build(&img, false).unwrap();
    // clockwise from the top-left: 1 0 1 1 0 0 1 0
    let code: usize = 0b1011_0010;
    let mut words = [0u32; 8];
    words[code / 32] = 1 << (code % 32);
    let weak = |set: [u32; 8]| WeakClassifier {
        probe: Probe::Lbp(Rect::new(0, 0, 1, 1)),
        nodes: vec![TreeNode { test: Test::InSet(set), left: Branch::Leaf(1), right: Branch::Leaf(-1) }],
    };
    let mut m = model_of(3, vec![Stage { threshold: 0, weak: vec![weak(words)] }]);
    m.feature_type = FeatureType::Lbp;
    assert!(m.validate());
    let win = Window { x: 0, y: 0, scale: ONE };
    assert!(CascadeEvaluator::evaluate(&m, &ii, win).passed);
    let mut others = [u32::MAX; 8];
    others[code / 32] = !(1 << (code % 32));
    let mut m = model_of(3, vec![Stage { threshold: 0, weak: vec![weak(others)] }]);
    m.feature_type = FeatureType::Lbp;
    assert!(!CascadeEvaluator::evaluate(&m, &ii, win).passed);
}

#[test]
fn malformed_models_are_told_apart() {
    assert!(accept_all(20).validate());
    assert!(!model_of(0, Vec::new()).validate());
    assert!(!model_of(0x8000, Vec::new()).validate());
    let outside = Feature { rect: Rect::new(15, 0, 10, 10), weight: 1 };
    assert!(!model_of(20, vec![Stage { threshold: 0, weak: vec![stump(vec![outside], 0, 0, 0)] }]).validate());
    let four = vec![whole(20, 1), whole(20, 1), whole(20, 1), whole(20, 1)];
    assert!(!model_of(20, vec![Stage { threshold: 0, weak: vec![stump(four, 0, 0, 0)] }]).validate());
    assert!(!model_of(20, vec![Stage { threshold: 0, weak: vec![stump(Vec::new(), 0, 0, 0)] }]).validate());
    let grid = WeakClassifier { probe: Probe::Lbp(Rect::new(0, 0, 7, 7)), nodes: Vec::new() };
    assert!(!model_of(20, vec![Stage { threshold: 0, weak: vec![grid] }]).validate());
}

#[test]
fn the_scan_visits_every_level_row_by_row() {
    let img = Image::gray(30, 30, vec![0u8; 900]);
    let found =
        MultiScaleScanner::scan(&accept_all(20), &img, None, ONE + ONE / 2, 0, no_size(), no_size()).unwrap();
    // 20x20 windows every 2 pixels: 6 x 6 places; then one 30x30 window; 45 is too large
    assert_eq!(found.len(), 37);
    assert_eq!(found[0].rect, Rect::new(0, 0, 20, 20));
    assert_eq!(found[1].rect, Rect::new(2, 0, 20, 20));
    assert_eq!(found[6].rect, Rect::new(0, 2, 20, 20));
    assert_eq!(found[35].rect, Rect::new(10, 10, 20, 20));
    assert_eq!(found[35].scale_index, 0);
    assert_eq!(found[36].rect, Rect::new(0, 0, 30, 30));
    assert_eq!(found[36].scale_index, 1);
    assert_eq!(found[36].reject_level, None);
    assert_eq!(found[36].weight, 0);
}

#[test]
fn size_limits_select_the_levels() {
    let img = Image::gray(30, 30, vec![0u8; 900]);
    let scan = |min: Size, max: Size| {
        MultiScaleScanner::scan(&accept_all(20), &img, None, ONE + ONE / 2, 0, min, max).unwrap()
    };
    assert_eq!(scan(Size::new(25, 25), no_size()).len(), 1);
    assert_eq!(scan(no_size(), Size::new(25, 25)).len(), 36);
    assert_eq!(scan(Size::new(21, 21), Size::new(29, 29)).len(), 0);
}

#[test]
fn equal_size_limits_give_one_scale() {
    let img = Image::gray(100, 100, vec![0u8; 10000]);
    let size = Size::new(40, 40);
    let found = MultiScaleScanner::scan(&accept_all(20), &img, None, 72090, 3, size, size).unwrap();
    // 40x40 windows every 4 pixels: 16 x 16 places
    assert_eq!(found.len(), 256);
    for c in found.iter() {
        assert_eq!((c.rect.width, c.rect.height), (40, 40));
        assert_eq!(c.scale_index, 0);
    }
    let odd = Size::new(25, 25);
    let found = MultiScaleScanner::scan(&accept_all(24), &img, None, 72090, 3, odd, odd).unwrap();
    assert!(!found.is_empty());
    assert!(found.iter().all(|c| c.rect.width == 25 && c.rect.height == 25));
    let large = Size::new(120, 120);
    let found = MultiScaleScanner::scan(&accept_all(20), &img, None, 72090, 3, large, large).unwrap();
    assert!(found.is_empty());
}

#[test]
fn scans_are_refused_before_any_window() {
    let img = Image::gray(30, 30, vec![0u8; 900]);
    let m = accept_all(20);
    let scan = |model: &CascadeModel, image: &Image, factor: u64, neighbours: i32, min: Size, max: Size| {
        MultiScaleScanner::scan(model, image, None, factor, neighbours, min, max)
    };
    let refused = |r: Result<Vec<_>, DetectError>, e: DetectError| matches!(r, Err(x) if x == e);
    assert!(refused(
        scan(&model_of(20, Vec::new()), &img, 72090, 3, no_size(), no_size()),
        DetectError::ModelNotLoaded
    ));
    assert!(refused(
        scan(&model_of(0, Vec::new()), &Image::gray(0, 0, Vec::new()), ONE, -1, no_size(), no_size()),
        DetectError::ModelNotLoaded
    ));
    assert!(refused(scan(&m, &Image::gray(0, 0, Vec::new()), 72090, 3, no_size(), no_size()), DetectError::InvalidInput));
    assert!(refused(scan(&m, &img, ONE, 3, no_size(), no_size()), DetectError::InvalidInput));
    assert!(refused(scan(&m, &img, 72090, -1, no_size(), no_size()), DetectError::InvalidInput));
    assert!(refused(scan(&m, &img, 72090, 3, no_size(), Size::new(19, 25)), DetectError::InvalidInput));
    assert!(refused(scan(&m, &img, 72090, 3, Size::new(26, 26), Size::new(25, 25)), DetectError::InvalidInput));
    assert!(refused(scan(&m, &img, 72090, 3, Size::new(0, 5), no_size()), DetectError::InvalidInput));
    assert!(refused(scan(&m, &img, 72090, 3, no_size(), Size::new(-1, -1)), DetectError::InvalidInput));
    let small_mask = Image::gray(29, 30, vec![1u8; 870]);
    assert!(refused(
        MultiScaleScanner::scan(&m, &img, Some(&small_mask), 72090, 3, no_size(), no_size()),
        DetectError::InvalidInput
    ));
    assert!(scan(&m, &img, ONE + 1, 0, no_size(), no_size()).is_ok());
}

#[test]
fn windows_under_an_empty_mask_are_passed_over() {
    let img = Image::gray(30, 30, vec![0u8; 900]);
    let m = accept_all(20);
    let scan = |mask: &Image| {
        MultiScaleScanner::scan(&m, &img, Some(mask), ONE + ONE / 2, 0, no_size(), no_size()).unwrap()
    };
    assert_eq!(scan(&Image::gray(30, 30, vec![1u8; 900])).len(), 37);
    assert_eq!(scan(&Image::gray(30, 30, vec![0u8; 900])).len(), 0);
    // one marked pixel in the last column and row: only windows that reach it
    let mut corner = vec![0u8; 900];
    corner[899] = 255;
    let found = scan(&Image::gray(30, 30, corner));
    assert_eq!(found.len(), 2);
    assert_eq!(found[0].rect, Rect::new(10, 10, 20, 20));
    assert_eq!(found[1].rect, Rect::new(0, 0, 30, 30));
}

#[test]
fn a_bright_square_is_found_at_its_place() {
    let classifier = CascadeClassifier::from_model(bright_square_model());
    assert!(!classifier.empty());
    let img = square_image(100, 30, 40);
    let mut objects: Vec<Rect> = Vec::new();
    classifier.detect_multi_scale(&img, &mut objects, 72090, 1, 0, no_size(), no_size()).unwrap();
    assert_eq!(objects.len(), 1, "{:?}", objects);
    let r = objects[0];
    let cx = r.x * 2 + r.width;
    let cy = r.y * 2 + r.height;
    assert!((cx - 100).abs() <= 10 && (cy - 100).abs() <= 10, "{:?}", r);
}

#[test]
fn a_pattern_is_found_at_each_size_it_is_shown_in() {
    let classifier = CascadeClassifier::from_model(bright_square_model());
    for scaling in [2usize, 3, 4] {
        let side = 50 * scaling;
        let img = square_image(side, 15 * scaling, 20 * scaling);
        let mut objects: Vec<Rect> = Vec::new();
        classifier.detect_multi_scale(&img, &mut objects, 72090, 1, 0, no_size(), no_size()).unwrap();
        assert_eq!(objects.len(), 1, "at {}: {:?}", scaling, objects);
        let r = objects[0];
        let step = (r.width / 10).max(1);
        let centre = 25 * scaling as i32;
        assert!((r.x * 2 + r.width - 2 * centre).abs() <= 2 * step, "at {}: {:?}", scaling, r);
        assert!((r.y * 2 + r.height - 2 * centre).abs() <= 2 * step, "at {}: {:?}", scaling, r);
        // the window's inner half is the pattern
        assert!((r.width - 40 * scaling as i32).abs() <= 2 * step, "at {}: {:?}", scaling, r);
    }
}

#[test]
fn an_empty_classifier_detects_nothing_and_says_so() {
    let mut classifier = CascadeClassifier::default();
    assert!(classifier.empty());
    let img = square_image(100, 30, 40);
    let mut objects = vec![Rect::new(1, 2, 3, 4)];
    let res = classifier.detect_multi_scale(&img, &mut objects, 72090, 1, 0, no_size(), no_size());
    assert_eq!(res, Err(DetectError::ModelNotLoaded));
    assert_eq!(objects, vec![Rect::new(1, 2, 3, 4)]);
    assert_eq!(classifier.get_feature_type(), Err(DetectError::ModelNotLoaded));
    assert_eq!(classifier.get_original_window_size(), Err(DetectError::ModelNotLoaded));
    assert_eq!(classifier.is_old_format_cascade(), Err(DetectError::ModelNotLoaded));
    assert!(!classifier.load_model(model_of(20, Vec::new())));
    assert!(classifier.empty());
    assert!(classifier.load_model(accept_all(20)));
    assert_eq!(classifier.get_feature_type(), Ok(0));
    assert_eq!(classifier.get_original_window_size(), Ok(Size::new(20, 20)));
    assert_eq!(classifier.is_old_format_cascade(), Ok(false));
    let res = classifier.detect_multi_scale(&img, &mut objects, ONE, 1, 0, no_size(), no_size());
    assert_eq!(res, Err(DetectError::InvalidInput));
    assert_eq!(objects, vec![Rect::new(1, 2, 3, 4)]);
}

#[test]
fn detections_come_with_their_counts_and_levels() {
    let classifier = CascadeClassifier::from_model(bright_square_model());
    let img = square_image(100, 30, 40);
    let mut plain: Vec<Rect> = Vec::new();
    classifier.detect_multi_scale(&img, &mut plain, 72090, 1, 0, no_size(), no_size()).unwrap();
    let mut objects: Vec<Rect> = Vec::new();
    let mut counts: Vec<i32> = vec![7];
    classifier.detect_multi_scale_num(&img, &mut objects, &mut counts, 72090, 1, 0, no_size(), no_size()).unwrap();
    assert_eq!(objects, plain);
    assert_eq!(counts.len(), 1);
    assert!(counts[0] > 1);
    let found =
        MultiScaleScanner::scan(&bright_square_model(), &img, None, 72090, 1, no_size(), no_size()).unwrap();
    assert_eq!(counts[0] as usize, found.len());
    let mut levels: Vec<i32> = vec![9];
    let mut weights: Vec<i64> = vec![9];
    classifier
        .detect_multi_scale_levels(&img, &mut objects, &mut levels, &mut weights, 72090, 1, 0, no_size(), no_size(), true)
        .unwrap();
    assert_eq!(objects, plain);
    assert_eq!(levels, vec![2]);
    assert_eq!(weights, vec![UNIT as i64]);
    classifier
        .detect_multi_scale_levels(&img, &mut objects, &mut levels, &mut weights, 72090, 1, 0, no_size(), no_size(), false)
        .unwrap();
    assert_eq!(objects, plain);
    assert!(levels.is_empty() && weights.is_empty());
}

struct LeftHalf {
    asked: usize,
}

impl BaseCascadeClassifier_MaskGenerator for LeftHalf {
    fn generate_mask(&mut self, src: &Image) -> Image {
        self.asked += 1;
        let mut data = vec![0u8; src.width * src.height];
        for y in 0..src.height {
            for x in 0..src.width / 2 {
                data[y * src.width + x] = 1;
            }
        }
        Image::gray(src.width, src.height, data)
    }

    fn initialize_mask(&mut self, _src: &Image) {}
}

#[test]
fn a_mask_generator_is_asked_once_for_each_call() {
    let classifier = CascadeClassifier::from_model(accept_all(10));
    let img = Image::gray(40, 10, vec![0u8; 400]);
    let mut generator = LeftHalf { asked: 0 };
    let mut objects: Vec<Rect> = Vec::new();
    classifier
        .detect_multi_scale_masked(&mut generator, &img, &mut objects, 2 * ONE, 0, 0, no_size(), no_size())
        .unwrap();
    assert_eq!(generator.asked, 1);
    // windows of 10x10 at x = 0, 1, ..., 30; those from x = 20 on see nothing of the mask
    let mut all: Vec<Rect> = Vec::new();
    classifier.detect_multi_scale_with_mask(&img, None, &mut all, 2 * ONE, 0, 0, no_size(), no_size()).unwrap();
    // all windows chain into one class: its average tells which windows were looked at
    assert_eq!(all, vec![Rect::new(15, 0, 10, 10)]);
    assert_eq!(objects, vec![Rect::new(10, 0, 10, 10)]);
    let empty = CascadeClassifier::default();
    let res = empty.detect_multi_scale_masked(&mut generator, &img, &mut objects, 2 * ONE, 0, 0, no_size(), no_size());
    assert_eq!(res, Err(DetectError::ModelNotLoaded));
    assert_eq!(generator.asked, 1);
}

#[test]
fn the_tolerance_of_grouping_can_be_chosen() {
    let classifier = CascadeClassifier::from_model(accept_all(10));
    let img = Image::gray(13, 10, vec![0u8; 130]);
    // windows of 10 x 10 at x = 0, 1, 2, 3: a chain at a slack of one pixel and more
    let mut objects: Vec<Rect> = Vec::new();
    classifier
        .detect_multi_scale_with(&img, None, &mut objects, 2 * ONE, 0, objdetect::geometry::SimilarRects::standard(), no_size(), no_size())
        .unwrap();
    assert_eq!(objects, vec![Rect::new(2, 0, 10, 10)]);
    classifier
        .detect_multi_scale_with(&img, None, &mut objects, 2 * ONE, 0, objdetect::geometry::SimilarRects::new(0, 1), no_size(), no_size())
        .unwrap();
    assert_eq!(objects.len(), 4);
    classifier
        .detect_multi_scale_with(&img, None, &mut objects, 2 * ONE, 0, objdetect::geometry::SimilarRects::new(1, 20), no_size(), no_size())
        .unwrap();
    assert_eq!(objects.len(), 4);
}

#[test]
fn each_level_enlarges_the_window_by_the_scale_factor() {
    let img = Image::gray(30, 30, vec![0u8; 900]);
    let found = MultiScaleScanner::scan(&accept_all(20), &img, None, 72090, 0, no_size(), no_size()).unwrap();
    let mut sides: Vec<(usize, i32)> = found.iter().map(|c| (c.scale_index, c.rect.width)).collect();
    sides.dedup();
    // scales 1, 1.1, 1.21, 1.331, 1.4641 in units of 1/65536, each rounded down; 1.61 is too large
    assert_eq!(sides, vec![(0, 20), (1, 22), (2, 24), (3, 27), (4, 29)]);
    assert!(found.iter().all(|c| c.rect.width == c.rect.height));
    assert!(found.iter().all(|c| c.rect.x + c.rect.width <= 30 && c.rect.y + c.rect.height <= 30));
}

#[test]
fn measurements_must_be_of_the_kind_of_the_model() {
    let grid = || WeakClassifier { probe: Probe::Lbp(Rect::new(0, 0, 2, 2)), nodes: Vec::new() };
    let mut m = model_of(20, vec![Stage { threshold: 0, weak: vec![grid()] }]);
    assert!(!m.validate());
    m.feature_type = FeatureType::Lbp;
    assert!(m.validate());
    assert_eq!(CascadeClassifier::from_model(m).get_feature_type(), Ok(1));
    let mut m = accept_all(20);
    m.feature_type = FeatureType::Lbp;
    assert!(!m.validate());
    assert!(CascadeClassifier::from_model(m).empty());
}

#[test]
fn a_model_of_the_older_encoding_becomes_one_of_the_newer() {
    let mut m = bright_square_model();
    m.old_format = true;
    let new = m.into_new_format().unwrap();
    assert!(!new.old_format);
    assert_eq!(new.window, Size::new(20, 20));
    assert_eq!(new.stages.len(), 2);
    assert!(new.validate());
    assert!(accept_all(20).into_new_format().is_some());
    assert!(model_of(0, Vec::new()).into_new_format().is_none());
    let outside = Feature { rect: Rect::new(15, 0, 10, 10), weight: 1 };
    let bad = model_of(20, vec![Stage { threshold: 0, weak: vec![stump(vec![outside], 0, 0, 0)] }]);
    assert!(bad.into_new_format().is_none());
}

#[test]
fn counts_and_levels_follow_the_mask() {
    let classifier = CascadeClassifier::from_model(accept_all(10));
    let img = Image::gray(40, 10, vec![0u8; 400]);
    let mut generator = LeftHalf { asked: 0 };
    let mask = generator.generate_mask(&img);
    let mut objects: Vec<Rect> = Vec::new();
    let mut counts: Vec<i32> = Vec::new();
    // without a mask 31 windows, under the mask the 20 that reach into the left half
    classifier.detect_multi_scale_num(&img, &mut objects, &mut counts, 2 * ONE, 0, 0, no_size(), no_size()).unwrap();
    assert_eq!(counts, vec![31]);
    classifier
        .detect_multi_scale_num_with_mask(&img, Some(&mask), &mut objects, &mut counts, 2 * ONE, 0, 0, no_size(), no_size())
        .unwrap();
    assert_eq!(objects, vec![Rect::new(10, 0, 10, 10)]);
    assert_eq!(counts, vec![20]);
    generator.asked = 0;
    classifier
        .detect_multi_scale_num_masked(&mut generator, &img, &mut objects, &mut counts, 2 * ONE, 0, 0, no_size(), no_size())
        .unwrap();
    assert_eq!(generator.asked, 1);
    assert_eq!(counts, vec![20]);
    let mut levels: Vec<i32> = Vec::new();
    let mut weights: Vec<i64> = Vec::new();
    classifier
        .detect_multi_scale_levels_masked(
            &mut generator,
            &img,
            &mut objects,
            &mut levels,
            &mut weights,
            2 * ONE,
            0,
            0,
            no_size(),
            no_size(),
            true,
        )
        .unwrap();
    assert_eq!(generator.asked, 2);
    assert_eq!(objects, vec![Rect::new(10, 0, 10, 10)]);
    assert_eq!(levels, vec![1]);
    assert_eq!(weights, vec![0]);
    classifier
        .detect_multi_scale_levels_with_mask(
            &img,
            Some(&Image::gray(40, 10, vec![0u8; 400])),
            &mut objects,
            &mut levels,
            &mut weights,
            2 * ONE,
            0,
            0,
            no_size(),
            no_size(),
            true,
        )
        .unwrap();
    assert!(objects.is_empty() && levels.is_empty() && weights.is_empty());
    // a mask of another size is refused, and nothing changes
    counts = vec![5];
    let small = Image::gray(39, 10, vec![1u8; 390]);
    let res = classifier
        .detect_multi_scale_num_with_mask(&img, Some(&small), &mut objects, &mut counts, 2 * ONE, 0, 0, no_size(), no_size());
    assert_eq!(res, Err(DetectError::InvalidInput));
    assert_eq!(counts, vec![5]);
    let empty = CascadeClassifier::default();
    let res = empty
        .detect_multi_scale_num_masked(&mut generator, &img, &mut objects, &mut counts, 2 * ONE, 0, 0, no_size(), no_size());
    assert_eq!(res, Err(DetectError::ModelNotLoaded));
    assert_eq!(generator.asked, 2);
}
