//! Counting the grid cells where axis-aligned line segments overlap.
//!
//! Text of the form `x1,y1 -> x2,y2`, one segment per line, is read into
//! [`Line`]s; lines that do not read are dropped, diagonal segments are
//! filtered out, the rest are drawn onto a dense [`Grid`] of counters, and
//! the cells reached by at least [`OVERLAP_THRESHOLD`] segments are counted.
pub mod geometry;
pub mod grid;
pub mod input;
pub mod parse;
pub mod pipeline;
pub mod text;

pub use geometry::{Line, Point};
pub use grid::{rasterize, Grid, OVERLAP_THRESHOLD};
pub use input::{filter_orthogonal, parse_lines};
pub use parse::{Coordinate, ParseError};
pub use pipeline::{count_overlaps, get_input, GridBound, GridError};
