//! Peak detection in an ordered sequence by a persistence-style sweep.
//!
//! The positions of a sequence are ranked by ascending value, then visited
//! from the highest value down. Each visited position either widens the
//! oldest region that it touches by one step, or founds a region of its own.
//! The position that founded a region is its peak.

pub mod order;
pub mod peaks;
pub mod ranking;
pub mod region;
pub mod tracker;

pub use order::{relate, Relation};
pub use peaks::{find_homologies, get_peaks};
pub use ranking::{sorted_indices, Unsortable};
pub use region::{Direction, Homology};
pub use tracker::{grow_regions, visit_position};
