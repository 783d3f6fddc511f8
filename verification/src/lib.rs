//! A solver's toolkit for fitting a figure of rigid-ish edges into a polygonal hole.
use vstd::prelude::*;

pub mod geometry;
pub mod task;
pub mod rand;
pub mod helper;
pub mod scores;
pub mod solver;
pub mod grid_solver;
pub mod shifting;
pub mod rec_optimizer;
pub mod rec_optimizer2;
pub mod local_optimizer;
pub mod placement;
pub mod scanner;
pub mod text;
pub mod vizualizer;

pub use geometry::{Point, Shift, Edge};
pub use task::{PointInput, Figure, Bonus, Input, UsedBonus, OutputFormat, Task, conv_input};

verus! {
}
