//! The game state: a board that an outer loop drives tick by tick.

use vstd::prelude::*;

use crate::grid::{zero_row, Grid, HEIGHT, WIDTH};
use crate::tetramino::Tetramino;

verus! {

/// The whole game state owned by the driving loop.
pub struct Game {
    pub grid: Grid,
}

impl Game {
    /// A game over an empty board with no active piece.
    pub fn init() -> (g: Game)
        ensures
            g.grid.wf(),
            g.grid.h == HEIGHT && g.grid.l == WIDTH,
            g.grid.current == None::<Tetramino>,
            forall|i: int| 0 <= i < HEIGHT ==> #[trigger] g.grid.cells()[i] == zero_row(),
    {
        Game { grid: Grid::init() }
    }
}

} // verus!
