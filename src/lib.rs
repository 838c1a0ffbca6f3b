//! Signed distance fields from raster masks.
//!
//! Distances are held as fixed-point integers: one pixel is
//! [`fixed::UNITS_PER_PIXEL`] units. Negative values lie inside the mask,
//! positive values outside, and every magnitude is clamped to the
//! configured maximum distance.

pub mod algorithms;
pub mod brute_force;
pub mod detect;
pub mod error;
pub mod feature_aware;
pub mod fixed;
pub mod geometry;
pub mod jfa;
pub mod laws;
pub mod multi_channel;
pub mod raster;
pub mod regions;
pub mod sdf;

pub use error::SDFError;
pub use raster::Raster;
