//! The hook through which a caller can watch the solver at work.

use crate::grid::Grid;
use vstd::prelude::*;

verus! {

/// Something that can show a grid. The solver offers it the grid whenever a
/// line has changed, after each pass of propagation that has changed
/// something, and before each row decision of the search; it expects nothing
/// back.
pub trait Redraw {
    /// Shows the grid as it stands.
    fn redraw(&mut self, picross: &Grid);
}

/// Shows nothing.
pub struct NoDisplay;

impl Redraw for NoDisplay {
    fn redraw(&mut self, picross: &Grid) {
    }
}

} // verus!
