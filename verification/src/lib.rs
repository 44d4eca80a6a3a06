//! Timbre analysis of agent output: the exact, integer-valued parts of the
//! feature extraction, the cluster assignment and the shift detection.

pub mod cluster;
pub mod density;
pub mod evolution;
pub mod outputs;
pub mod spread;
pub mod style;
pub mod syncopation;
pub mod text;

pub use cluster::assign_clusters;
pub use density::density_extremes;
pub use evolution::shift_positions;
pub use outputs::OutputStats;
pub use spread::{length_spread, LengthSpread};
pub use style::StyleCluster;
pub use syncopation::syncopated_steps;
pub use text::{is_whitespace, word_counts, WordCounts};

use vstd::prelude::*;

verus! {

/// Direction of a trend in a feature over time.
#[derive(Debug, Clone, Copy, PartialEq, Eq, Structural)]
pub enum TrendDirection {
    /// Feature is increasing over time.
    Increasing,
    /// Feature is decreasing over time.
    Decreasing,
    /// Feature is relatively stable.
    Stable,
}

} // verus!
