//! Superpixels by simple linear iterative clustering, on whole numbers.
//!
//! The crate holds what decides the segmentation of an image: which centroid
//! takes which pixel in a round of clustering, the pass that makes every
//! segment one connected region, and the overlay of the boundaries between
//! the segments, and the bounded search for the spacing of the centroids.
//! Colours, distances and means are the caller's; distances come in as whole
//! numbers that order as the distances do.

pub mod boundary;
pub mod cluster;
pub mod connectivity;
pub mod count;
pub mod fill;
pub mod grid;
pub mod outline;
pub mod params;
pub mod region;
pub mod spacing;
pub mod tally;

pub use boundary::mark_boundaries;
pub use cluster::{member_counts, sweep, unassigned_labels, Window};
pub use connectivity::{enforce_connectivity, enforce_connectivity_with};
pub use grid::Vec2d;
pub use outline::outline;
pub use params::{check_parameters, SegmentError};
