//! Core of a Voronoi-animation engine.
//!
//! Given a raster image and a per-pixel assignment of pixels to sites, the
//! kernel tallies per-cell color sums, coordinate sums and areas, averages
//! them into cell colors, and renders the resulting mosaic. The strategy
//! module picks which site to split or which cell to spawn into when the
//! site population grows. Floating-point work (the f32 nearest-site search
//! and the site dynamics) lives with the embedding application; this crate
//! holds the exact integer core and its proofs.

use vstd::prelude::*;

pub mod config;
pub mod kernel;
pub mod mesh;
pub mod palette;
pub mod raster;
pub mod strategy;
pub mod voronoi;

verus! {

/// Error type for Voronoi operations.
#[derive(Clone, Copy, Debug, PartialEq, Eq, Structural)]
pub enum VoronoiError {
    /// The computation was asked to run with an empty site list.
    NoSites,
    /// A strategy name did not parse.
    InvalidStrategy,
}

} // verus!
