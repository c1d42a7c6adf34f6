//! Adaptive block flattening of RGBA8 rasters.
//!
//! A raster is partitioned into rectangles, always splitting the rectangle
//! with the largest colour variance first, until every rectangle's variance
//! is at or below a tolerance. Each rectangle is then painted with its mean
//! colour into a fresh output raster.

pub mod bound;
pub mod raster;
pub mod stats;
pub mod partition;
pub mod compressor;
pub mod codec;
