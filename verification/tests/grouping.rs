use objdetect::geometry::{Rect, SimilarRects};
use objdetect::error::DetectError;
use objdetect::grouping::{
    group_rectangle, group_rectangle_levelweights, group_rectangle_weights,
    group_rectangles_weights_rejects, rounded_average,
};

#[test]
fn zero_tolerance_keeps_each_distinct_rectangle_once() {
    let a = Rect::new(0, 0, 10, 10);
    let b = Rect::new(1, 0, 10, 10);
    let mut list = vec![a, b, a, a, b];
    group_rectangle(&mut list, 0, SimilarRects::new(0, 1));
    assert_eq!(list, vec![a, b]);
    let mut again = list.clone();
    group_rectangle(&mut again, 0, SimilarRects::new(0, 1));
    assert_eq!(again, list);
}

#[test]
fn unbounded_tolerance_merges_everything_into_the_average() {
    let mut list = vec![
        Rect::new(0, 0, 10, 10),
        Rect::new(100, 40, 20, 30),
        Rect::new(50, 20, 30, 20),
    ];
    group_rectangle(&mut list, 2, SimilarRects::new(1, 0));
    assert_eq!(list, vec![Rect::new(50, 20, 20, 20)]);
}

#[test]
fn classes_at_or_below_the_threshold_are_dropped() {
    let near = [Rect::new(10, 10, 20, 20), Rect::new(11, 10, 20, 20), Rect::new(10, 11, 20, 20)];
    let far = Rect::new(200, 200, 20, 20);
    let mut list = vec![near[0], far, near[1], near[2]];
    group_rectangle(&mut list, 2, SimilarRects::standard());
    assert_eq!(list, vec![Rect::new(10, 10, 20, 20)]);
    let mut all = vec![near[0], far, near[1], near[2]];
    group_rectangle(&mut all, 0, SimilarRects::standard());
    assert_eq!(all, vec![Rect::new(10, 10, 20, 20), far]);
    let mut none = vec![near[0], far, near[1], near[2]];
    group_rectangle(&mut none, 3, SimilarRects::standard());
    assert!(none.is_empty());
}

#[test]
fn classes_are_chains_not_cliques() {
    // slack for 20x20 rectangles at one fifth is 4: 0-4 and 4-8 are similar, 0-8 is not
    let mut list = vec![Rect::new(0, 0, 20, 20), Rect::new(8, 0, 20, 20), Rect::new(4, 0, 20, 20)];
    assert!(!SimilarRects::standard().test(&list[0], &list[1]));
    assert!(SimilarRects::standard().test(&list[0], &list[2]));
    assert!(SimilarRects::standard().test(&list[2], &list[1]));
    group_rectangle(&mut list, 2, SimilarRects::standard());
    assert_eq!(list, vec![Rect::new(4, 0, 20, 20)]);
}

#[test]
fn order_of_the_input_does_not_change_what_comes_out() {
    let a = vec![
        Rect::new(10, 10, 20, 20),
        Rect::new(200, 200, 40, 40),
        Rect::new(12, 10, 20, 20),
        Rect::new(203, 200, 40, 40),
        Rect::new(500, 0, 8, 8),
    ];
    let mut forward = a.clone();
    let mut backward: Vec<Rect> = a.iter().rev().cloned().collect();
    group_rectangle(&mut forward, 1, SimilarRects::standard());
    group_rectangle(&mut backward, 1, SimilarRects::standard());
    assert_eq!(forward.len(), 2);
    backward.reverse();
    assert_eq!(forward, backward);
}

#[test]
fn averages_round_to_nearest_with_ties_to_even() {
    assert_eq!(rounded_average(7, 2), 4);
    assert_eq!(rounded_average(5, 2), 2);
    assert_eq!(rounded_average(-5, 2), -2);
    assert_eq!(rounded_average(-7, 2), -4);
    assert_eq!(rounded_average(10, 3), 3);
    assert_eq!(rounded_average(11, 3), 4);
    assert_eq!(rounded_average(-11, 3), -4);
    assert_eq!(rounded_average(i32::MAX as i128 * 3, 3), i32::MAX);
    assert_eq!(rounded_average(i32::MIN as i128 * 3, 3), i32::MIN);
}

#[test]
fn negative_threshold_keeps_every_class() {
    let mut list = vec![Rect::new(0, 0, 5, 5), Rect::new(50, 50, 5, 5)];
    group_rectangle(&mut list, -1, SimilarRects::standard());
    assert_eq!(list.len(), 2);
}

#[test]
fn empty_list_stays_empty() {
    let mut list: Vec<Rect> = Vec::new();
    group_rectangle(&mut list, 0, SimilarRects::standard());
    assert!(list.is_empty());
}

fn two_classes() -> Vec<Rect> {
    vec![
        Rect::new(10, 10, 20, 20),
        Rect::new(200, 200, 40, 40),
        Rect::new(12, 10, 20, 20),
        Rect::new(203, 200, 40, 40),
        Rect::new(11, 11, 20, 20),
        Rect::new(500, 0, 8, 8),
    ]
}

#[test]
fn weights_count_the_members_of_each_class() {
    let mut list = two_classes();
    let mut weights: Vec<i32> = vec![7, 7];
    assert_eq!(group_rectangle_weights(&mut list, &mut weights, 0, SimilarRects::standard()), Ok(()));
    assert_eq!(list, vec![Rect::new(11, 10, 20, 20), Rect::new(202, 200, 40, 40), Rect::new(500, 0, 8, 8)]);
    assert_eq!(weights, vec![3, 2, 1]);
    let mut list = two_classes();
    group_rectangle_weights(&mut list, &mut weights, 2, SimilarRects::standard()).unwrap();
    assert_eq!(weights, vec![3]);
}

#[test]
fn the_strongest_level_and_weight_of_each_class_are_reported() {
    let mut list = two_classes();
    let mut levels: Vec<i32> = vec![3, 1, 5, 1, 5, -2];
    let mut weights: Vec<i64> = vec![900, 10, 20, 30, 25, -7];
    let res = group_rectangles_weights_rejects(&mut list, &mut levels, &mut weights, 0, SimilarRects::standard());
    assert_eq!(res, Ok(()));
    assert_eq!(list.len(), 3);
    // the highest level, and the greatest weight among those of that level
    assert_eq!(levels, vec![5, 1, -2]);
    assert_eq!(weights, vec![25, 30, -7]);
}

#[test]
fn lists_of_different_lengths_are_refused() {
    let mut list = two_classes();
    let mut levels: Vec<i32> = vec![1, 2, 3];
    let mut weights: Vec<i64> = vec![1, 2, 3, 4, 5, 6];
    let res = group_rectangles_weights_rejects(&mut list, &mut levels, &mut weights, 0, SimilarRects::standard());
    assert_eq!(res, Err(DetectError::InvalidInput));
    assert_eq!(list, two_classes());
    assert_eq!(levels, vec![1, 2, 3]);
    assert_eq!(weights.len(), 6);
    let res = group_rectangle_levelweights(&mut list, 0, SimilarRects::standard(), &mut levels, &mut weights);
    assert_eq!(res, Err(DetectError::InvalidInput));
    assert_eq!(list, two_classes());
}

#[test]
fn without_levels_the_counts_are_reported() {
    let mut list = two_classes();
    let mut counts: Vec<i32> = Vec::new();
    let mut weights: Vec<i64> = vec![4, 4, 4, 4, 4, 4];
    let res = group_rectangle_levelweights(&mut list, 1, SimilarRects::standard(), &mut counts, &mut weights);
    assert_eq!(res, Ok(()));
    assert_eq!(list.len(), 2);
    assert_eq!(counts, vec![3, 2]);
    assert_eq!(weights, vec![0, 0]);
    let mut list = two_classes();
    let mut levels: Vec<i32> = vec![0, 0, 0, 0, 0, 9];
    let mut weights: Vec<i64> = vec![1, 2, 3, 4, 5, 6];
    let res = group_rectangle_levelweights(&mut list, 1, SimilarRects::standard(), &mut levels, &mut weights);
    assert_eq!(res, Ok(()));
    assert_eq!(levels, vec![0, 0]);
    assert_eq!(weights, vec![5, 4]);
}

#[test]
fn similarity_follows_the_slack_of_the_smaller_sides() {
    let eps = SimilarRects::standard();
    let a = Rect::new(0, 0, 20, 20);
    // slack: one fifth of (20 + 20) / 2 = 4
    assert!(eps.test(&a, &Rect::new(4, 0, 20, 20)));
    assert!(!eps.test(&a, &Rect::new(5, 0, 20, 20)));
    assert!(eps.test(&a, &Rect::new(0, -4, 20, 20)));
    // the right edge moves with the width
    assert!(eps.test(&a, &Rect::new(0, 0, 24, 20)));
    assert!(!eps.test(&a, &Rect::new(0, 0, 25, 20)));
    // slack of (10 + 20) / 2 / 5 = 3
    assert!(eps.test(&Rect::new(0, 0, 10, 20), &Rect::new(3, 0, 10, 20)));
    assert!(!eps.test(&Rect::new(0, 0, 10, 20), &Rect::new(4, 0, 10, 20)));
    let none = SimilarRects::new(0, 1);
    assert!(none.test(&a, &a));
    assert!(!none.test(&a, &Rect::new(1, 0, 20, 20)));
    let any = SimilarRects::new(7, 0);
    assert!(any.test(&a, &Rect::new(1000, -1000, 1, 900)));
    assert!(Rect::new(0, 0, 1, 1).is_valid());
    assert!(!Rect::new(0, 0, 0, 1).is_valid());
}

#[test]
fn averages_stay_in_the_range_of_the_candidates() {
    for threshold in -1..3 {
        for eps in [SimilarRects::new(0, 1), SimilarRects::standard(), SimilarRects::new(3, 1), SimilarRects::new(1, 0)] {
            let mut list = two_classes();
            group_rectangle(&mut list, threshold, eps);
            for r in list.iter() {
                assert!(10 <= r.x && r.x <= 500 && 0 <= r.y && r.y <= 200);
                assert!(8 <= r.width && r.width <= 40 && 8 <= r.height && r.height <= 40);
            }
        }
    }
    // a chain of candidates around one place: one rectangle, within the range of the chain
    let mut chain: Vec<Rect> = (0..9).map(|k| Rect::new(30 + k, 28 + k, 40, 40)).collect();
    group_rectangle(&mut chain, 1, SimilarRects::standard());
    assert_eq!(chain, vec![Rect::new(34, 32, 40, 40)]);
}
