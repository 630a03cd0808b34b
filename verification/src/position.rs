//! Positions on the screen.

use vstd::prelude::*;

verus! {

/// A cell of the screen: the visual line, and the column on it.
#[derive(Debug, Clone, Copy, PartialEq, Eq, Structural)]
pub struct Position {
    pub row: usize,
    pub col: usize,
}

} // verus!
