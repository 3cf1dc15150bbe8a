//! Conway's Game of Life on a fixed-size toroidal grid.
//!
//! The heart of the crate is the generation stepper: a pure function from the
//! set of currently live cells to the set of live cells one generation later,
//! under the standard B3/S23 rule, with the grid wrapping at its edges.
//! `model` holds the mathematical description of the rule, `stepper` the
//! executable code proved against it, and `laws` the properties that hold of
//! the rule itself.

pub mod laws;
pub mod model;
pub mod stepper;

pub use model::Coord;
pub use model::Extent;
pub use stepper::compute_neighbor;
pub use stepper::count_neighbors;
pub use stepper::glider;
pub use stepper::screen_extent;
pub use stepper::step;
pub use stepper::SCREEN_HEIGHT;
pub use stepper::SCREEN_WIDTH;
