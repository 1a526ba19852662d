//! Conway's Game of Life on an unbounded plane.
//!
//! The state of a simulation is a sparse set of live cells. Two engines
//! advance it by one generation: `dense::tick` recounts the neighbours of
//! every cell next to a live cell, and `delta::next` keeps the changes of
//! the last step and looks only at the cells around them. `laws` states
//! that the two agree; `frame` serves a display.

pub mod cell;
pub mod key;
pub mod live_set;
pub mod rule;
pub mod dense;
pub mod delta;
pub mod frame;
pub mod laws;
pub mod patterns;
