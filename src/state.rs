use vstd::prelude::*;

verus! {

/// A cell of the grid: column `x` and row `y`, counted from the top left.
#[derive(Clone, Copy, Debug, PartialEq, Eq, Hash, Structural)]
pub struct State {
    pub x: usize,
    pub y: usize,
}

} // verus!
