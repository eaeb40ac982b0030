//! A kernel for kumiko, the Japanese wooden lattice: figures are built from
//! oriented lines, made symmetric by turning, tiled over a honeycomb grid,
//! and clipped to a frame.
//!
//! All geometry lives on a lattice of whole numbers, `LATTICE_SCALE` units to
//! one unit of a drawing. Lines are held exactly; a result is rounded to the
//! lattice only where two lines meet, where a point is taken at a distance
//! along a line, where a mean is taken, and where a point is turned by
//! anything but quarter turns.
//!
//! Where a function of the geometry sets a limit on its arguments, a guard
//! beside it tells whether given arguments are within the limit.
//!
//! - [`oglines`]: lines, strips about a line, polygons from cycles of lines
//! - [`symmetry`]: turns about a pivot and the copies of a wedge
//! - [`kumiko`]: the base on which a figure stands
//! - [`grid`]: the honeycomb grid
//! - [`frame`]: rectangular and zigzag frames
//! - [`operations`]: clipping a tiling to a frame
//! - [`geometry`]: coordinates, line strings and polygons
//! - [`config`]: the widths a figure is cut with
//! - [`cycle`], [`roots`], [`error`]: what the others rest on
//! - [`animals`]: the layering of traits that the configurations use, in
//!   miniature

pub mod animals;
pub mod config;
pub mod cycle;
pub mod error;
pub mod frame;
pub mod geometry;
pub mod grid;
pub mod kumiko;
pub mod oglines;
pub mod operations;
pub mod roots;
pub mod symmetry;
