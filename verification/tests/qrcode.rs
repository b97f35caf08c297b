use objdetect::error::DetectError;
use objdetect::geometry::Point;
use objdetect::image::Image;
use objdetect::qrcode::{detect_qr_code, QRCodeDetector, Tolerance};

/// Draws a finder pattern of seven by seven modules with its top-left
/// corner at `(x, y)`.
fn draw(data: &mut Vec<u8>, side: usize, x: usize, y: usize, module: usize) {
    for my in 0..7 {
        for mx in 0..7 {
            let ring = mx.min(my).min(6 - mx).min(6 - my);
            let dark = ring != 1;
            if dark {
                for py in 0..module {
                    for px in 0..module {
                        data[(y + my * module + py) * side + x + mx * module + px] = 0;
                    }
                }
            }
        }
    }
}

fn code(side: usize, module: usize, patterns: &[(usize, usize)]) -> Image {
    let mut data = vec![255u8; side * side];
    for &(x, y) in patterns {
        draw(&mut data, side, x, y, module);
    }
    Image::gray(side, side, data)
}

#[test]
fn three_finder_patterns_span_a_quadrangle() {
    let img = code(33, 1, &[(2, 2), (24, 2), (2, 24)]);
    let mut points: Vec<Point> = vec![Point { x: 9, y: 9 }];
    let found = QRCodeDetector::new().detect(&img, &mut points).unwrap();
    assert!(found);
    assert_eq!(
        points,
        vec![Point { x: 5, y: 5 }, Point { x: 27, y: 5 }, Point { x: 27, y: 27 }, Point { x: 5, y: 27 }]
    );
}

#[test]
fn one_finder_pattern_spans_nothing() {
    let img = code(33, 1, &[(10, 12)]);
    let mut points: Vec<Point> = vec![Point { x: 9, y: 9 }];
    assert_eq!(QRCodeDetector::new().detect(&img, &mut points), Ok(false));
    assert!(points.is_empty());
    let blank = Image::gray(33, 33, vec![255u8; 33 * 33]);
    assert_eq!(QRCodeDetector::new().detect(&blank, &mut points), Ok(false));
    let dark = Image::gray(33, 33, vec![0u8; 33 * 33]);
    assert_eq!(QRCodeDetector::new().detect(&dark, &mut points), Ok(false));
}

#[test]
fn patterns_of_larger_modules_are_found_at_their_middle() {
    let img = code(70, 2, &[(4, 4), (50, 4), (4, 50)]);
    let mut points: Vec<Point> = Vec::new();
    assert_eq!(QRCodeDetector::new().detect(&img, &mut points), Ok(true));
    // the middle run has six pixels: the pixel before its middle is taken
    assert_eq!(points[0], Point { x: 4 + 6, y: 4 + 6 });
    assert_eq!(points[2], Point { x: 50 + 6, y: 50 + 6 });
}

#[test]
fn the_tolerance_decides_what_counts_as_a_pattern() {
    // the patterns on the right are drawn one column too narrow: their last module is missing
    let mut img = code(33, 1, &[(2, 2), (24, 2), (2, 24)]);
    for y in 0..33 {
        img.data[y * 33 + 30] = 255;
    }
    let mut points: Vec<Point> = Vec::new();
    let exact = Tolerance { num: 0, den: 1 };
    let mut detector = QRCodeDetector::new();
    detector.set_eps_x(exact);
    detector.set_eps_y(exact);
    assert_eq!(detector.eps_x, exact);
    // the pattern at the top right has lost its fifth run: the two on the left span no area
    assert_eq!(detector.detect(&img, &mut points), Ok(false));
    let whole = code(33, 1, &[(2, 2), (24, 2), (2, 24)]);
    assert_eq!(detector.detect(&whole, &mut points), Ok(true));
    // a run of two where one is due is off by a seventh and more: one fifth lets it pass
    let mut wide = code(34, 1, &[(2, 2), (2, 24)]);
    draw(&mut wide.data, 34, 25, 2, 1);
    for y in 2..9 {
        wide.data[y * 34 + 24] = 0;
    }
    assert_eq!(detector.detect(&wide, &mut points), Ok(false));
    assert_eq!(detect_qr_code(&wide, &mut points, Tolerance { num: 1, den: 5 }, exact), Ok(true));
    assert_eq!(points[1], Point { x: 28, y: 5 });
}

#[test]
fn what_is_no_gray_image_is_refused() {
    let mut points: Vec<Point> = vec![Point { x: 9, y: 9 }];
    let colour = Image { width: 2, height: 2, channels: 3, data: vec![0u8; 12] };
    assert_eq!(QRCodeDetector::new().detect(&colour, &mut points), Err(DetectError::InvalidInput));
    assert_eq!(points, vec![Point { x: 9, y: 9 }]);
}
