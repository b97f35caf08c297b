use objdetect::descriptor::{classify, compute_window};
use objdetect::error::DetectError;
use objdetect::fixed::ONE;
use objdetect::geometry::{Point, Rect, Size};
use objdetect::gradient::{check_bounds, standard_bounds, Direction, GradientMap};
use objdetect::hog::HOGDescriptor;
use objdetect::image::Image;

fn tiny() -> HOGDescriptor {
    HOGDescriptor::with_geometry(Size::new(2, 2), Size::new(2, 2), Size::new(2, 2), Size::new(2, 2), 2)
}

fn none() -> Size {
    Size::new(0, 0)
}

/// Columns of 0 and 255 in turn: every pixel has the gradient (255, 0).
fn ramp(width: usize, height: usize) -> Image {
    let mut data = Vec::new();
    for _ in 0..height {
        for x in 0..width {
            data.push(if x % 2 == 0 { 0 } else { 255 });
        }
    }
    Image::gray(width, height, data)
}

#[test]
fn the_customary_descriptor_has_3780_entries() {
    let d = HOGDescriptor::default();
    assert!(d.check_geometry());
    assert_eq!(d.get_descriptor_size(), Ok(3780));
    assert_eq!(d.check_detector_size(), Ok(true));
    assert_eq!(tiny().get_descriptor_size(), Ok(2));
    let d = HOGDescriptor::with_geometry(
        Size::new(48, 96),
        Size::new(16, 16),
        Size::new(8, 8),
        Size::new(8, 8),
        9,
    );
    assert_eq!(d.get_descriptor_size(), Ok(5 * 11 * 4 * 9));
}

#[test]
fn sizes_that_do_not_fit_together_are_refused() {
    let with = |win: (i32, i32), block: (i32, i32), stride: (i32, i32), cell: (i32, i32), bins: i32| {
        HOGDescriptor::with_geometry(
            Size::new(win.0, win.1),
            Size::new(block.0, block.1),
            Size::new(stride.0, stride.1),
            Size::new(cell.0, cell.1),
            bins,
        )
    };
    assert!(with((64, 128), (16, 16), (8, 8), (8, 8), 9).check_geometry());
    assert!(!with((64, 128), (16, 16), (8, 8), (6, 8), 9).check_geometry());
    assert!(!with((60, 128), (16, 16), (8, 8), (8, 8), 9).check_geometry());
    assert!(!with((64, 128), (16, 16), (0, 8), (8, 8), 9).check_geometry());
    assert!(!with((64, 128), (16, 16), (8, 8), (8, 8), 0).check_geometry());
    assert!(!with((64, 128), (16, 16), (8, 8), (8, 8), 256).check_geometry());
    assert!(!with((8, 8), (16, 16), (8, 8), (8, 8), 9).check_geometry());
    assert!(!with((40000, 128), (16, 16), (8, 8), (8, 8), 9).check_geometry());
    // 4096 x 4096 blocks of one cell and one bin: as many entries as a descriptor may have
    assert_eq!(with((4096, 4096), (1, 1), (1, 1), (1, 1), 1).get_descriptor_size(), Ok(1 << 24));
    assert!(!with((4097, 4096), (1, 1), (1, 1), (1, 1), 1).check_geometry());
    assert!(with((4097, 4096), (1, 1), (1, 1), (1, 1), 1).get_descriptor_size().is_err());
    assert!(!with((4096, 4096), (1, 1), (1, 1), (1, 1), 2).check_geometry());
    let mut other = with((64, 128), (16, 16), (8, 8), (8, 8), 9);
    other.histogram_norm_type = 1;
    assert!(!other.check_geometry());
    let bad = with((60, 128), (16, 16), (8, 8), (8, 8), 9);
    assert_eq!(bad.get_descriptor_size(), Err(DetectError::InvalidInput));
    assert_eq!(bad.check_detector_size(), Err(DetectError::InvalidInput));
}

#[test]
fn coefficients_must_fit_the_descriptor() {
    let mut d = tiny();
    assert_eq!(d.set_svm_detector(vec![1, 2, 3, 4]), Err(DetectError::IncompatibleDescriptorSize));
    assert_eq!(d.set_svm_detector(vec![1]), Err(DetectError::IncompatibleDescriptorSize));
    assert!(d.svm_detector.is_empty());
    assert_eq!(d.set_svm_detector(vec![1, 2]), Ok(()));
    assert_eq!(d.svm_detector, vec![1, 2]);
    assert_eq!(d.set_svm_detector(vec![1, 2, 3]), Ok(()));
    assert_eq!(d.check_detector_size(), Ok(true));
    assert_eq!(d.set_svm_detector(Vec::new()), Ok(()));
    let copy = HOGDescriptor::copy(&d);
    assert_eq!(copy.win_size, d.win_size);
    let mut other = HOGDescriptor::default();
    d.set_svm_detector(vec![5, 6]).unwrap();
    d.copy_to(&mut other);
    assert_eq!(other.svm_detector, vec![5, 6]);
    assert_eq!(other.nbins, 2);
    d.svm_detector = vec![1, 2, 3, 4, 5];
    assert_eq!(d.check_detector_size(), Ok(false));
    let mut bad = HOGDescriptor::with_geometry(Size::new(3, 2), Size::new(2, 2), Size::new(2, 2), Size::new(2, 2), 2);
    assert_eq!(bad.set_svm_detector(vec![1, 2]), Err(DetectError::InvalidInput));
}

#[test]
fn gradients_have_a_strength_and_a_bin() {
    // one bright pixel in the middle of a dark 3 x 3 image
    let mut data = vec![0u8; 9];
    data[4] = 200;
    let img = Image::gray(3, 3, data);
    let map = GradientMap::compute(&img, &standard_bounds(9), none(), none()).unwrap();
    assert_eq!((map.cols(), map.rows(), map.bin_count()), (3, 3, 9));
    // left of the bright pixel: gradient (200, 0)
    assert_eq!(map.at(1, 0), (200 * 256, 0));
    // right of it: gradient (-200, 0), the same orientation
    assert_eq!(map.at(1, 2), (200 * 256, 0));
    // above it: gradient (0, 200), a quarter turn: the middle bin
    assert_eq!(map.at(0, 1), (200 * 256, 4));
    assert_eq!(map.at(2, 1), (200 * 256, 4));
    // at the bright pixel and in the corners: no gradient
    assert_eq!(map.at(1, 1), (0, 0));
    assert_eq!(map.at(0, 0), (0, 0));
}

#[test]
fn diagonal_gradients_fall_between_the_axes() {
    // brightness grows along the diagonal: gradient (d, d) in the middle
    let img = Image::gray(3, 3, vec![0, 10, 20, 10, 20, 30, 20, 30, 40]);
    let map = GradientMap::compute(&img, &standard_bounds(9), none(), none()).unwrap();
    let (strength, bin) = map.at(1, 1);
    // 256 * sqrt(20^2 + 20^2) = 7240.77
    assert_eq!(strength, 7240);
    assert_eq!(bin, 2);
    // brightness grows down and to the left: gradient (-d, d)
    let img = Image::gray(3, 3, vec![20, 10, 0, 30, 20, 10, 40, 30, 20]);
    let map = GradientMap::compute(&img, &standard_bounds(9), none(), none()).unwrap();
    assert_eq!(map.at(1, 1), (7240, 6));
}

#[test]
fn margins_repeat_the_border_of_the_image() {
    let img = Image::gray(2, 1, vec![0, 100]);
    let map = GradientMap::compute(&img, &standard_bounds(4), Size::new(2, 1), Size::new(1, 0)).unwrap();
    assert_eq!((map.cols(), map.rows()), (5, 2));
    assert_eq!((map.left_margin(), map.top_margin()), (2, 1));
    // far in the left margin everything is the first pixel
    assert_eq!(map.at(0, 0), (0, 0));
    // next to the image the right neighbour is the first pixel still, at the image the second
    assert_eq!(map.at(1, 1).0, 0);
    assert_eq!(map.at(1, 2).0, 100 * 256);
    assert_eq!(map.at(1, 3).0, 100 * 256);
    assert_eq!(map.at(1, 4).0, 0);
    assert!(GradientMap::compute(&img, &standard_bounds(4), Size::new(-1, 0), none()).is_err());
    let backwards = vec![Direction { x: 0, y: 1 }, Direction { x: 1, y: 1 }];
    assert!(GradientMap::compute(&img, &backwards, none(), none()).is_err());
    let outside = vec![Direction { x: 1, y: 0 }];
    assert!(GradientMap::compute(&img, &outside, none(), none()).is_err());
    assert!(GradientMap::compute(&img, &Vec::new(), none(), none()).is_ok());
    assert!(GradientMap::compute(&img, &standard_bounds(4), Size::new(40000, 40000), none()).is_err());
    assert!(GradientMap::compute(&Image::gray(0, 0, Vec::new()), &standard_bounds(4), none(), none()).is_err());
}

#[test]
fn a_block_is_normalized_clipped_and_normalized_again() {
    let d = tiny();
    let map = GradientMap::compute(&ramp(2, 2), &standard_bounds(2), none(), none()).unwrap();
    // four votes of 255 * 256 for bin 0: the block is (261120, 0);
    // divided by 261121 it is (65535, 0), clipped (13107, 0), divided by 13108 (65531, 0)
    assert_eq!(compute_window(&map, &d, 0, 0), vec![65531, 0]);
    let flat = GradientMap::compute(&Image::gray(2, 2, vec![7; 4]), &standard_bounds(2), none(), none()).unwrap();
    assert_eq!(compute_window(&flat, &d, 0, 0), vec![0, 0]);
}

#[test]
fn descriptors_stand_one_after_the_other() {
    let d = tiny();
    let mut out: Vec<u64> = vec![9];
    d.compute(&ramp(4, 2), &mut out, none(), none(), &Vec::new()).unwrap();
    assert_eq!(out, vec![65531, 0, 65531, 0]);
    // listed windows, one of them outside the image
    let listed = vec![Point { x: 2, y: 0 }, Point { x: 3, y: 0 }, Point { x: 0, y: 0 }];
    d.compute(&ramp(4, 2), &mut out, none(), none(), &listed).unwrap();
    assert_eq!(out, vec![65531, 0, 0, 0, 65531, 0]);
    let res = d.compute(&ramp(4, 2), &mut out, Size::new(3, 2), none(), &Vec::new());
    assert_eq!(res, Err(DetectError::InvalidInput));
    assert_eq!(out.len(), 6);
}

#[test]
fn the_score_is_the_weighted_sum_and_the_bias() {
    assert_eq!(classify(&vec![65531, 0], &vec![ONE as i32, 5]), 65531 * 65536);
    assert_eq!(classify(&vec![65531, 100], &vec![-2, 3, 7]), -2 * 65531 + 300 + 7 * 65536);
    assert_eq!(classify(&Vec::new(), &vec![-4]), -4 * 65536);
}

#[test]
fn windows_above_the_threshold_are_hits() {
    let mut d = tiny();
    d.set_svm_detector(vec![ONE as i32, 0, 10]).unwrap();
    // the left half of the image is a ramp, the right half flat; the window between them
    // sees the step from the one to the other
    let mut data = Vec::new();
    for _ in 0..2 {
        data.extend_from_slice(&[0, 255, 0, 255, 7, 7, 7, 7]);
    }
    let img = Image::gray(8, 2, data);
    let mut places: Vec<Point> = Vec::new();
    let mut weights: Vec<i64> = Vec::new();
    d.detect_weights(&img, &mut places, &mut weights, 60000, none(), none(), &Vec::new()).unwrap();
    assert_eq!(places, vec![Point { x: 0, y: 0 }, Point { x: 2, y: 0 }, Point { x: 4, y: 0 }]);
    assert_eq!(weights[0], 65531 + 10);
    assert_eq!(weights[1], 65531 + 10);
    // the threshold must be exceeded, not met
    d.detect_weights(&img, &mut places, &mut weights, 65541, none(), none(), &Vec::new()).unwrap();
    assert!(places.is_empty() && weights.is_empty());
    d.detect_weights(&img, &mut places, &mut weights, 65540, none(), none(), &Vec::new()).unwrap();
    assert!(places.len() >= 2);
    // below a threshold of zero the flat windows, with the bias alone, are hits too
    d.detect(&img, &mut places, 0, none(), none(), &Vec::new()).unwrap();
    assert_eq!(places.len(), 4);
    // listed windows keep their order
    let listed = vec![Point { x: 6, y: 0 }, Point { x: 1, y: 0 }, Point { x: 7, y: 0 }];
    d.detect_weights(&img, &mut places, &mut weights, 0, none(), none(), &listed).unwrap();
    assert_eq!(places, vec![Point { x: 6, y: 0 }, Point { x: 1, y: 0 }]);
    assert_eq!(weights[0], 10);
    // with a margin the grid starts outside the image
    d.detect(&img, &mut places, 0, none(), Size::new(2, 0), &Vec::new()).unwrap();
    assert_eq!(places.len(), 6);
    assert_eq!(places[0], Point { x: -2, y: 0 });
}

#[test]
fn detection_is_refused_before_any_window() {
    let img = ramp(8, 2);
    let mut places = vec![Point { x: 1, y: 1 }];
    let mut d = tiny();
    assert_eq!(d.detect(&img, &mut places, 0, none(), none(), &Vec::new()), Err(DetectError::ModelNotLoaded));
    d.svm_detector = vec![1, 2, 3, 4];
    assert_eq!(
        d.detect(&img, &mut places, 0, none(), none(), &Vec::new()),
        Err(DetectError::IncompatibleDescriptorSize)
    );
    d.svm_detector = vec![1, 2];
    assert_eq!(d.detect(&img, &mut places, 0, Size::new(1, 2), none(), &Vec::new()), Err(DetectError::InvalidInput));
    assert_eq!(d.detect(&img, &mut places, 0, none(), Size::new(-1, 0), &Vec::new()), Err(DetectError::InvalidInput));
    assert_eq!(
        d.detect(&Image::gray(0, 0, Vec::new()), &mut places, 0, none(), none(), &Vec::new()),
        Err(DetectError::InvalidInput)
    );
    d.win_size = Size::new(3, 2);
    assert_eq!(d.detect(&img, &mut places, 0, none(), none(), &Vec::new()), Err(DetectError::InvalidInput));
    assert_eq!(places, vec![Point { x: 1, y: 1 }]);
    let mut rects: Vec<Rect> = Vec::new();
    let d = {
        let mut d = tiny();
        d.set_svm_detector(vec![1, 2]).unwrap();
        d
    };
    assert_eq!(
        d.detect_multi_scale_weights(&img, &mut rects, 0, none(), none(), ONE, 0),
        Err(DetectError::InvalidInput)
    );
    assert!(d.detect_multi_scale_weights(&img, &mut rects, 0, none(), none(), ONE + 1, 0).is_ok());
}

#[test]
fn each_level_halves_the_image_and_doubles_the_window() {
    let mut d = tiny();
    // every window is a hit
    d.set_svm_detector(vec![0, 0, 1]).unwrap();
    let img = Image::gray(8, 4, vec![0u8; 32]);
    let found = d.detect_multi_scale_raw(&img, 0, none(), none(), 2 * ONE).unwrap();
    // 8 x 4 at scale 1: 4 x 2 windows; 4 x 2 at scale 2: 2 x 1 windows; 2 x 1 is too small
    assert_eq!(found.len(), 10);
    assert_eq!(found[0].rect, Rect::new(0, 0, 2, 2));
    assert_eq!(found[7].rect, Rect::new(6, 2, 2, 2));
    assert_eq!(found[8].rect, Rect::new(0, 0, 4, 4));
    assert_eq!(found[9].rect, Rect::new(4, 0, 4, 4));
    assert!(found.iter().all(|f| f.weight == 1));
    let mut rects: Vec<Rect> = Vec::new();
    let mut weights: Vec<i64> = Vec::new();
    d.detect_multi_scale(&img, &mut rects, &mut weights, 0, none(), none(), 2 * ONE, 0).unwrap();
    // no two of the windows are similar: each is a class of its own
    assert_eq!(rects.len(), 10);
    assert_eq!(weights, vec![1; 10]);
    d.detect_multi_scale(&img, &mut rects, &mut weights, 0, none(), none(), 2 * ONE, 1).unwrap();
    assert!(rects.is_empty() && weights.is_empty());
}

#[test]
fn a_pattern_is_found_at_the_level_that_fits_it() {
    // the classifier wants a strong horizontal gradient in the left cell and less in the right
    let mut d =
        HOGDescriptor::with_geometry(Size::new(4, 2), Size::new(4, 2), Size::new(4, 2), Size::new(2, 2), 2);
    assert_eq!(d.get_descriptor_size(), Ok(4));
    d.set_svm_detector(vec![ONE as i32, 0, -(ONE as i32), 0]).unwrap();
    // flat but for one step from dark to bright, eight pixels from the left
    let mut data = Vec::new();
    for _ in 0..4 {
        data.extend_from_slice(&[0, 0, 0, 0, 0, 0, 0, 0, 255, 255, 255, 255, 255, 255, 255, 255]);
    }
    let img = Image::gray(16, 4, data);
    let found = d.detect_multi_scale_raw(&img, 30000, Size::new(4, 2), none(), 2 * ONE).unwrap();
    // at scale 1 the window at x = 8 has the step in its left cell; at scale 2 the step is
    // four pixels from the left, and the window at x = 4 has it in its left cell
    let rects: Vec<Rect> = found.iter().map(|f| f.rect).collect();
    assert_eq!(
        rects,
        vec![Rect::new(8, 0, 4, 2), Rect::new(8, 2, 4, 2), Rect::new(8, 0, 8, 4)],
        "{:?}",
        found
    );
}

#[test]
fn nine_bins_are_bins_of_equal_angles() {
    let bin = |dx: u8, dy: u8| {
        // the pixel in the middle has the gradient (dx, dy)
        let img = Image::gray(3, 3, vec![0, 0, 0, 0, 0, dx, 0, dy, 0]);
        GradientMap::compute(&img, &standard_bounds(9), none(), none()).unwrap().at(1, 1).1
    };
    // 18.4 degrees: below the boundary at 20
    assert_eq!(bin(30, 10), 0);
    // 21.8 degrees: above it
    assert_eq!(bin(25, 10), 1);
    // 39.8 and 40.2 degrees
    assert_eq!(bin(120, 100), 1);
    assert_eq!(bin(118, 100), 2);
    // 59.9 and 60.1 degrees
    assert_eq!(bin(58, 100), 2);
    assert_eq!(bin(57, 100), 3);
    // 79.9 and 80.5 degrees
    assert_eq!(bin(18, 100), 3);
    assert_eq!(bin(17, 100), 4);
    assert_eq!(bin(0, 100), 4);
    assert_eq!(bin(100, 0), 0);
}

#[test]
fn boundaries_divide_the_half_turn_into_sectors() {
    assert!(check_bounds(&standard_bounds(9)));
    assert_eq!(standard_bounds(9).len(), 8);
    for n in 1..=255 {
        let bounds = standard_bounds(n);
        assert_eq!(bounds.len(), n as usize - 1);
        assert!(check_bounds(&bounds));
    }
    assert!(standard_bounds(0).is_empty());
    assert!(standard_bounds(256).is_empty());
    assert_eq!(standard_bounds(2), vec![Direction { x: 0, y: 2 }]);
    assert_eq!(
        standard_bounds(4),
        vec![Direction { x: 2, y: 2 }, Direction { x: 0, y: 4 }, Direction { x: -2, y: 2 }]
    );
    assert!(!check_bounds(&vec![Direction { x: 1, y: 1 }, Direction { x: 1, y: 1 }]));
    assert!(!check_bounds(&vec![Direction { x: -1, y: 0 }]));
    assert!(!check_bounds(&vec![Direction { x: 0, y: 1 }; 255]));
    // three sectors of sixty degrees, by hand
    let thirds = vec![Direction { x: 1000, y: 1732 }, Direction { x: -1000, y: 1732 }];
    let d = HOGDescriptor::with_bounds(Size::new(2, 2), Size::new(2, 2), Size::new(2, 2), Size::new(2, 2), thirds);
    assert_eq!(d.nbins, 3);
    assert_eq!(d.get_descriptor_size(), Ok(3));
    let mut wrong = tiny();
    wrong.nbins = 3;
    assert!(!wrong.check_geometry());
}

#[test]
fn every_weight_is_above_the_threshold() {
    let mut d = tiny();
    // a coefficient of 1/65536: the score is 10 and 65531/65536 of a unit more
    d.set_svm_detector(vec![1, 0, 10]).unwrap();
    let mut places: Vec<Point> = Vec::new();
    let mut weights: Vec<i64> = Vec::new();
    d.detect_weights(&ramp(2, 2), &mut places, &mut weights, 10, none(), none(), &Vec::new()).unwrap();
    assert_eq!(places, vec![Point { x: 0, y: 0 }]);
    assert_eq!(weights, vec![11]);
    d.detect_weights(&ramp(2, 2), &mut places, &mut weights, 11, none(), none(), &Vec::new()).unwrap();
    assert!(places.is_empty() && weights.is_empty());
    // a score of exactly the threshold is no hit
    d.set_svm_detector(vec![0, 0, 10]).unwrap();
    d.detect_weights(&ramp(2, 2), &mut places, &mut weights, 10, none(), none(), &Vec::new()).unwrap();
    assert!(places.is_empty());
    d.detect_weights(&ramp(2, 2), &mut places, &mut weights, 9, none(), none(), &Vec::new()).unwrap();
    assert_eq!(weights, vec![10]);
    // scores below zero round up too: -65531/65536 is above -1 and gives 0
    d.set_svm_detector(vec![-1, 0, 0]).unwrap();
    d.detect_weights(&ramp(2, 2), &mut places, &mut weights, -1, none(), none(), &Vec::new()).unwrap();
    assert_eq!(weights, vec![0]);
    d.detect_weights(&ramp(2, 2), &mut places, &mut weights, 0, none(), none(), &Vec::new()).unwrap();
    assert!(weights.is_empty());
    // the weights of every scale, grouped or not, are above the threshold
    d.set_svm_detector(vec![1, 0, 10]).unwrap();
    let found = d.detect_multi_scale_raw(&ramp(8, 4), 10, none(), none(), 2 * ONE).unwrap();
    assert!(!found.is_empty());
    assert!(found.iter().all(|f| f.weight > 10));
    let mut rects: Vec<Rect> = Vec::new();
    d.detect_multi_scale(&ramp(8, 4), &mut rects, &mut weights, 10, none(), none(), 2 * ONE, 0).unwrap();
    assert_eq!(rects.len(), weights.len());
    assert!(!weights.is_empty() && weights.iter().all(|w| *w > 10));
}

#[test]
fn a_descriptor_is_taken_over_only_if_it_is_in_order() {
    let mut read = tiny();
    read.set_svm_detector(vec![3, 4, 5]).unwrap();
    let mut d = HOGDescriptor::default();
    assert!(d.load_from(&read));
    assert_eq!(d.win_size, Size::new(2, 2));
    assert_eq!(d.nbins, 2);
    assert_eq!(d.bin_bounds, read.bin_bounds);
    assert_eq!(d.svm_detector, vec![3, 4, 5]);
    // coefficients that do not fit
    read.svm_detector = vec![1, 2, 3, 4];
    let mut e = HOGDescriptor::default();
    assert!(!e.load_from(&read));
    assert_eq!(e.win_size, Size::new(64, 128));
    assert!(e.svm_detector.is_empty());
    // sizes that do not fit
    read.svm_detector = Vec::new();
    read.win_size = Size::new(3, 2);
    assert!(!e.load_from(&read));
    assert_eq!(e.nbins, 9);
    // no coefficients at all fit any geometry
    assert!(e.load_from(&tiny()));
    assert_eq!(e.nbins, 2);
}
