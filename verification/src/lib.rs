//! A grid-maze pathfinder.
//!
//! A square grid of open and blocked cells is searched exhaustively for a
//! shortest simple path from a start cell to the target cell in the
//! bottom-right corner, and the grid can be rendered as text with the path
//! overlaid as glyphs.

pub mod grid;
pub mod render;
pub mod search;
