//! A solver for Hashiwokakero ("Bridges") puzzles.
//!
//! A board is a set of numbered islands on a grid.  The solver finds an
//! assignment of single or double bridges between aligned islands such that
//! every island's bridge count matches its number, no two bridges cross, and
//! the bridge graph connects all islands.

pub mod board;
pub mod bridges;
pub mod errors;
pub mod geometry;
pub mod laws;
pub mod render;
pub mod seqs;
pub mod solver;
pub mod state;

pub use board::Board;
pub use board::Node;
pub use bridges::NumEdges;
pub use errors::SolveError;
pub use geometry::Edge;
pub use state::SolveState;
