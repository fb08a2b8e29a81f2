//! Verified solvers for a collection of small text puzzles.
//!
//! The centrepiece is the guard-patrol simulator in [`area`]: a bounded
//! rectangular grid, a mobile agent with a position and a heading, a set of
//! static obstacles, and loop detection through revisited
//! (position, heading) pairs.  The remaining modules hold the other puzzle
//! pipelines: each one parses a small piece of text, transforms it, and
//! reduces it to a number.

pub mod antennas;
pub mod area;
pub mod disk;
pub mod distances;
pub mod equations;
pub mod garden;
pub mod instructions;
pub mod reports;
pub mod stones;
pub mod text;
pub mod trails;
pub mod updates;
pub mod wordsearch;

pub use text::string_to_i32;
pub use text::string_to_u64;
