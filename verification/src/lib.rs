//! Core simulation of a falling-block puzzle game: the board state, the
//! active piece's geometry, collision detection against walls and terrain,
//! piece translation and rotation with boundary correction, and the
//! locking / line-clear transition.

pub mod control;
pub mod game;
pub mod grid;
pub mod tetramino;
pub mod utils;
pub mod variant;
