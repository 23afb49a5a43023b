//! Cells and lines, and the basic relations between a partially known line
//! and a fully resolved one.

use vstd::prelude::*;

verus! {

/// The state of one square of the grid.
#[derive(Clone, Copy, Debug, PartialEq, Eq, Structural)]
pub enum Cell {
    /// Nothing is known about the square yet.
    Unknown,
    /// The square is coloured.
    Filled,
    /// The square is blank.
    Empty,
}

/// A line without any `Unknown` cell.
pub open spec fn resolved(line: Seq<Cell>) -> bool {
    forall|i: int| 0 <= i < line.len() ==> line[i] != Cell::Unknown
}

/// `new` does not contradict `old`: wherever `old` is known, `new` holds the
/// same value. Positions beyond the shorter of the two lines are ignored.
pub open spec fn compatible(old: Seq<Cell>, new: Seq<Cell>) -> bool {
    forall|i: int|
        0 <= i < old.len() && i < new.len() && old[i] != Cell::Unknown ==> new[i] == old[i]
}

/// Checks whether `new` agrees with every known cell of `old`.
pub fn is_row_consistent_with(old: &Vec<Cell>, new: &Vec<Cell>) -> (ok: bool)
    ensures
        ok == compatible(old@, new@),
{
    let n: usize = if old.len() < new.len() { old.len() } else { new.len() };
    let mut i: usize = 0;
    while i < n
        invariant
            i <= n,
            n <= old.len(),
            n <= new.len(),
            forall|j: int| 0 <= j < i && old@[j] != Cell::Unknown ==> new@[j] == old@[j],
        decreases n - i,
    {
        if old[i] != Cell::Unknown && new[i] != old[i] {
            return false;
        }
        i += 1;
    }
    true
}

/// A line of which nothing is known.
pub open spec fn blank(line: Seq<Cell>) -> bool {
    forall|i: int| 0 <= i < line.len() ==> line[i] == Cell::Unknown
}

/// Checks whether the line has no unknown cell.
pub fn is_resolved(line: &Vec<Cell>) -> (ok: bool)
    ensures
        ok == resolved(line@),
{
    let mut i: usize = 0;
    while i < line.len()
        invariant
            i <= line.len(),
            forall|j: int| 0 <= j < i ==> line@[j] != Cell::Unknown,
        decreases line.len() - i,
    {
        if line[i] == Cell::Unknown {
            return false;
        }
        i += 1;
    }
    true
}

/// Checks whether every cell of the line is unknown.
pub fn is_blank(line: &Vec<Cell>) -> (ok: bool)
    ensures
        ok == blank(line@),
{
    let mut i: usize = 0;
    while i < line.len()
        invariant
            i <= line.len(),
            forall|j: int| 0 <= j < i ==> line@[j] == Cell::Unknown,
        decreases line.len() - i,
    {
        if line[i] != Cell::Unknown {
            return false;
        }
        i += 1;
    }
    true
}

} // verus!
