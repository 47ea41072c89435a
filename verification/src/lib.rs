//! Graph colouring on graphs of at most 64 vertices: exact search by
//! enumeration and by DSATUR backtracking, and the Welsh–Powell heuristic.
pub mod bits;
pub mod brute_force;
pub mod clock;
pub mod coloring;
pub mod dsatur;
pub mod graph;
pub mod laws;
pub mod random;
pub mod welsh_powell;

pub use brute_force::brute_force_k_coloring;
pub use coloring::{ColoringResult, GreedyResult, colors_used_by, validate_coloring};
pub use dsatur::dsatur_k_coloring;
pub use graph::{Graph, MAX_VERTICES};
pub use welsh_powell::welsh_powell_coloring;
