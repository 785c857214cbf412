//! What drives the game: a key that was pressed, or the clock.
use vstd::prelude::*;

verus! {

/// An input `I`, or a tick of the clock.
pub enum GameEvent<I> {
    Input(I),
    Tick,
}

} // verus!
