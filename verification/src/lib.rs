use vstd::prelude::*;

pub mod algorithms;
pub mod candlestick;
pub mod clox;
pub mod deque;
pub mod game2048;
pub mod pretree;
pub mod text;

verus! {

} // verus!
