//! Enumeration of tilings of regions of the triangular lattice by polyhexes.
//!
//! Nodes of the lattice are `(x, y)` coordinates with `x` and `y` of the same
//! parity; `x` grows left to right and `y` top to bottom.  Coordinates are
//! ordered lexicographically, and regions are normalised to start at the
//! origin in many of the data structures below.

pub mod node;

pub use node::{Node, neighbors};
pub use region::Region;
pub use lattice::Graph;
pub use compact::{CompactRegion, BYTES_IN_COMPACT_REGION};
pub use color::Color;
pub use tiling::Tiling;
pub use polyhex::regions;
pub use recomb::{recomb, RecombTable};
pub mod ordset;
pub mod sorting;
pub mod region;
pub mod lattice;
pub mod compact;
pub mod polyhex;
pub mod recomb;
pub mod color;
pub mod tiling;
pub mod enumerate;
pub mod recombine;
pub mod covers;
pub mod reach;
pub mod happy;
pub mod masks;
pub mod concurrency;
pub mod graph;
pub mod metagraph;
pub mod cli;
pub mod timer;
pub mod search;
