//! Command and movement vocabularies: what a player may ask for, and in
//! which directions a piece can be translated.

use vstd::prelude::*;

verus! {

/// A player command: lateral moves, a clockwise rotation (`UP`), or a
/// forced one-cell drop (`DOWN`).
#[derive(Clone, Copy, PartialEq, Eq, Structural, Debug)]
pub enum Control {
    LEFT,
    RIGHT,
    UP,
    DOWN,
}

/// A one-cell translation direction for a piece.
#[derive(Clone, Copy, PartialEq, Eq, Structural, Debug)]
pub enum Direction {
    LEFT,
    RIGHT,
    DOWN,
}

/// A rotation request; only the clockwise quarter turn does anything.
#[derive(Clone, Copy, PartialEq, Eq, Structural, Debug)]
pub enum Rotation {
    CLOCKWISE,
    COUNTERCLOCKWISE,
}

} // verus!
