//! Binary segmentation masks in three forms (pixel grid, run lengths and
//! compact ASCII run lengths), with area and bounding box computed from runs.
pub mod types;
pub mod rle;
pub mod codec;
pub mod visualize;
pub mod raster;
pub mod segmentation;
