use objdetect::disjoint::DisjointSets;
use objdetect::geometry::{Rect, SimilarRects};
use objdetect::partition::partition;

#[test]
fn new_sets_are_singletons() {
    let mut sets = DisjointSets::new(4);
    assert_eq!(sets.len(), 4);
    for i in 0..4 {
        assert_eq!(sets.find(i), i);
    }
    assert_eq!(DisjointSets::new(0).len(), 0);
}

#[test]
fn the_heavier_class_keeps_its_representative() {
    let mut sets = DisjointSets::new(6);
    sets.union(0, 1);
    // equal weights: the class of the first argument wins
    assert_eq!(sets.find(1), 0);
    sets.union(2, 1);
    // the class of 1 has two members, that of 2 one
    assert_eq!(sets.find(2), 0);
    sets.union(3, 4);
    sets.union(5, 3);
    assert_eq!(sets.find(5), 3);
    sets.union(4, 0);
    // three against three: the first argument's class wins
    assert_eq!(sets.find(0), 3);
    for i in 0..6 {
        assert_eq!(sets.find(i), 3);
    }
    sets.union(1, 2);
    assert_eq!(sets.find(1), 3);
}

#[test]
fn merging_leaves_other_classes_alone() {
    let mut sets = DisjointSets::new(5);
    sets.union(1, 3);
    assert_eq!(sets.find(0), 0);
    assert_eq!(sets.find(2), 2);
    assert_eq!(sets.find(4), 4);
    assert_eq!(sets.find(1), sets.find(3));
    sets.union(3, 1);
    assert_eq!(sets.find(1), sets.find(3));
    assert_eq!(sets.find(2), 2);
}

#[test]
fn labels_name_the_classes_of_similar_rectangles() {
    let rects = vec![
        Rect::new(0, 0, 20, 20),
        Rect::new(100, 100, 20, 20),
        Rect::new(8, 0, 20, 20),
        Rect::new(4, 0, 20, 20),
        Rect::new(101, 100, 20, 20),
    ];
    let labels = partition(&rects, &SimilarRects::standard());
    assert_eq!(labels.len(), 5);
    assert_eq!(labels[0], labels[2]);
    assert_eq!(labels[0], labels[3]);
    assert_eq!(labels[1], labels[4]);
    assert_ne!(labels[0], labels[1]);
    for &l in labels.iter() {
        assert_eq!(labels[l], l);
    }
    assert!(partition(&Vec::new(), &SimilarRects::standard()).is_empty());
}
