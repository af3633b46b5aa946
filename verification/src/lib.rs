pub mod changelist;
pub mod double;
pub mod grid;
pub mod radii;
pub mod resize;
pub mod rng;
