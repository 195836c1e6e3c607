//! Treemap layout: turns a weighted tree into nested rectangles, partition
//! lines and fitted text labels.
//!
//! All geometry lives on an integer grid: coordinates, extents and node values
//! are whole grid units (a value is an area in square units). A host picks the
//! grid resolution and converts to and from drawing units.

pub mod geometry;
pub mod label;
pub mod split;
pub mod tree;
pub mod compose;
