//! Wave Function Collapse over grids of luminance levels.
//!
//! A sample grid of levels is scanned into an adjacency model (which levels
//! were seen next to which, in each of the four directions), and a larger
//! grid is then filled by collapsing cells one at a time and propagating the
//! model's constraints to the neighbours.
pub mod config;
pub mod palette;
pub mod utils;
pub mod wfc;
