//! Locates bright regions in a grayscale raster.
//!
//! The library takes a decoded grid of 8-bit intensity samples, filters out
//! the pixels brighter than a threshold, and groups the surviving candidate
//! points into rectangular regions by iterative growth around running
//! centroids. Decoding the image and talking to the operator are left to the
//! surrounding program; everything here is pure integer computation with a
//! proved contract.

pub mod cluster;
pub mod extract;
pub mod geometry;
