//! Raster-to-vector extraction engine.
//!
//! The library turns a rasterized page image (dark ink on a light
//! background) into a compact geometric model: straight line segments,
//! classified junction points, and opaque pixel regions.  The pipeline
//! runs in six stages: scanline run detection, run merging, flood-fill
//! extraction of residual regions, straight-line classification,
//! splitting of lines at nearby endpoints, and junction classification.
//!
//! All coordinates are integer pixel positions; distances are measured
//! with exact integer arithmetic (integer square roots and exact
//! rational comparisons), so every stage carries a precise contract.

pub mod config;
pub mod geometry;
pub mod raster;
pub mod scan;
pub mod merge;
pub mod regions;
pub mod classify;
pub mod split;
pub mod junction;
pub mod pipeline;
