//! Multi-scale visual object detection over integer arithmetic: summed-area
//! tables, boosted cascade evaluation, sliding-window scanning, gradient
//! histogram descriptors and the clustering of raw detections.
//!
//! Every quantity that is fractional in the usual presentation of these
//! algorithms (tolerances, scale factors, thresholds) is held as an exact
//! rational or fixed-point integer, so that each contract is a statement of
//! integer arithmetic.
//!
//! Orientations of gradients are sorted into bins by boundary directions,
//! compared exactly. The boundaries that come with nine bins are those of
//! equal angles, to the nearest 1/65536 of their cosines and sines; for
//! another number of bins the boundaries that come with it divide the unit
//! diamond evenly, which is not a division into equal angles, and a caller
//! who wants equal angles hands in boundaries of their own. Scores of
//! linear classifiers are reported in units of 1/65536, rounded up.

pub mod cascade;
pub mod classifier;
pub mod descriptor;
pub mod disjoint;
pub mod error;
pub mod evaluator;
pub mod fixed;
pub mod geometry;
pub mod gradient;
pub mod grouping;
pub mod grouping_laws;
pub mod grouping_order;
pub mod hog;
pub mod hog_detect;
pub mod hog_pyramid;
pub mod image;
pub mod integral;
pub mod partition;
pub mod qrcode;
pub mod rearrange;
pub mod scanner;
