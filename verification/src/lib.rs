//! Exhaustive placement of axis-aligned boxes inside a rectangular border.
//!
//! The crate is built bottom-up: `geometry` holds the rectangle type and its
//! predicates, `candidates` derives the grid of positions a box may take,
//! and `search` enumerates every collision-free placement of all boxes.
//! `drawing` lays a problem and what was found for it out on a canvas, and
//! `markup` turns the canvas into an SVG document.

pub mod candidates;
pub mod drawing;
pub mod geometry;
pub mod markup;
pub mod search;
