//! Conway's Game of Life on a toroidal grid, its text format, a bounded FIFO
//! buffer of samples, and the decisions of the animation loop that shows it.
pub mod adder;
pub mod animation;
pub mod game_of_life;
pub mod grid_text;
pub mod ring_buffer;
