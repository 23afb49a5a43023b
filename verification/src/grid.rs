//! The grid of a puzzle: its cells, and the block specification of each of
//! its rows and columns.

use crate::blocks::{lemma_total_prefix, lemma_total_take, positive, total};
use crate::cell::Cell;
use vstd::prelude::*;

verus! {

/// A rectangle of cells with one block specification for each row and one
/// for each column.
#[derive(Debug)]
pub struct Grid {
    /// The number of rows.
    pub height: usize,
    /// The number of columns.
    pub length: usize,
    /// The cells, row by row.
    pub cells: Vec<Vec<Cell>>,
    /// The block lengths asked of each row, from top to bottom.
    pub row_spec: Vec<Vec<usize>>,
    /// The block lengths asked of each column, from left to right.
    pub col_spec: Vec<Vec<usize>>,
}

/// The lines that the vectors hold.
pub open spec fn lines_of(cells: Seq<Vec<Cell>>) -> Seq<Seq<Cell>> {
    Seq::new(cells.len(), |r: int| cells[r]@)
}

/// The specifications that the vectors hold.
pub open spec fn specs_of(specs: Seq<Vec<usize>>) -> Seq<Seq<usize>> {
    Seq::new(specs.len(), |i: int| specs[i]@)
}

/// `cells` has `height` rows of `length` cells each.
pub open spec fn rectangular(cells: Seq<Seq<Cell>>, height: nat, length: nat) -> bool {
    &&& cells.len() == height
    &&& forall|r: int| 0 <= r < cells.len() ==> (#[trigger] cells[r]).len() == length
}

/// The column at index `c`, from top to bottom.
pub open spec fn column_of(cells: Seq<Seq<Cell>>, c: int) -> Seq<Cell> {
    Seq::new(cells.len(), |r: int| cells[r][c])
}

/// `cells` with the column at index `c` replaced by `col`.
pub open spec fn with_column(cells: Seq<Seq<Cell>>, c: int, col: Seq<Cell>) -> Seq<Seq<Cell>> {
    Seq::new(cells.len(), |r: int| cells[r].update(c, col[r]))
}

/// Every block of every specification has at least one cell.
pub open spec fn all_positive(specs: Seq<Seq<usize>>) -> bool {
    forall|i: int| 0 <= i < specs.len() ==> positive(#[trigger] specs[i])
}

/// The blocks of `spec`, with a blank cell between each two of them, have
/// room in a line of `len` cells.
pub open spec fn fits(spec: Seq<usize>, len: nat) -> bool {
    total(spec) + spec.len() <= len + 1
}

/// Every specification has positive blocks that have room in a line of
/// `len` cells.
pub open spec fn all_fit(specs: Seq<Seq<usize>>, len: nat) -> bool {
    forall|i: int| 0 <= i < specs.len() ==> positive(#[trigger] specs[i]) && fits(specs[i], len)
}

/// The specifications describe a puzzle: every block has at least one cell,
/// and the blocks of every row and of every column have room in it.
pub open spec fn well_specified(row_specs: Seq<Seq<usize>>, col_specs: Seq<Seq<usize>>) -> bool {
    &&& row_specs.len() < usize::MAX
    &&& col_specs.len() < usize::MAX
    &&& all_fit(row_specs, col_specs.len())
    &&& all_fit(col_specs, row_specs.len())
}

impl View for Grid {
    type V = Seq<Seq<Cell>>;

    /// The cells, row by row.
    open spec fn view(&self) -> Seq<Seq<Cell>> {
        lines_of(self.cells@)
    }
}

impl Grid {
    /// The block specifications of the rows.
    pub open spec fn row_specs(&self) -> Seq<Seq<usize>> {
        specs_of(self.row_spec@)
    }

    /// The block specifications of the columns.
    pub open spec fn col_specs(&self) -> Seq<Seq<usize>> {
        specs_of(self.col_spec@)
    }

    /// The grid is a rectangle of the declared size, with one specification
    /// of positive blocks for each row and each column.
    pub open spec fn wf(&self) -> bool {
        &&& self.height < usize::MAX
        &&& self.length < usize::MAX
        &&& rectangular(self@, self.height as nat, self.length as nat)
        &&& self.row_spec@.len() == self.height
        &&& self.col_spec@.len() == self.length
        &&& all_positive(self.row_specs())
        &&& all_positive(self.col_specs())
    }

    /// `other` is the same puzzle: the same size and the same specifications.
    pub open spec fn same_puzzle(&self, other: &Grid) -> bool {
        &&& self.height == other.height
        &&& self.length == other.length
        &&& self.row_specs() == other.row_specs()
        &&& self.col_specs() == other.col_specs()
    }

    /// Creates the grid of a puzzle with nothing known yet: one row for each
    /// specification in `row_spec`, one column for each in `col_spec`.
    ///
    /// Returns `None` where a specification is malformed: it has a block of
    /// no cell, or its blocks have no room in the line.
    pub fn new(row_spec: Vec<Vec<usize>>, col_spec: Vec<Vec<usize>>) -> (res: Option<Grid>)
        ensures
            res is Some <==> well_specified(specs_of(row_spec@), specs_of(col_spec@)),
            res matches Some(grid) ==> {
                &&& grid.wf()
                &&& grid.row_spec == row_spec
                &&& grid.col_spec == col_spec
                &&& forall|r: int, c: int|
                    0 <= r < grid.height && 0 <= c < grid.length ==> #[trigger] grid@[r][c]
                        == Cell::Unknown
            },
    {
        let height = row_spec.len();
        let length = col_spec.len();
        if height == usize::MAX || length == usize::MAX {
            return None;
        }
        if !all_specs_fit(&row_spec, length) || !all_specs_fit(&col_spec, height) {
            return None;
        }
        let mut cells: Vec<Vec<Cell>> = Vec::new();
        let mut r: usize = 0;
        while r < height
            invariant
                r <= height,
                cells@.len() == r,
                forall|i: int| 0 <= i < r ==> (#[trigger] cells@[i])@.len() == length,
                forall|i: int, j: int|
                    0 <= i < r && 0 <= j < length ==> #[trigger] cells@[i]@[j] == Cell::Unknown,
            decreases height - r,
        {
            let mut row: Vec<Cell> = Vec::new();
            let mut c: usize = 0;
            while c < length
                invariant
                    c <= length,
                    row@.len() == c,
                    forall|j: int| 0 <= j < c ==> row@[j] == Cell::Unknown,
                decreases length - c,
            {
                row.push(Cell::Unknown);
                c += 1;
            }
            cells.push(row);
            r += 1;
        }
        Some(Grid { height, length, cells, row_spec, col_spec })
    }

    /// Checks that the grid is a rectangle of the declared size, with one
    /// specification of positive blocks for each row and each column.
    pub fn is_well_formed(&self) -> (ok: bool)
        ensures
            ok == self.wf(),
    {
        if self.height == usize::MAX || self.length == usize::MAX {
            return false;
        }
        if self.cells.len() != self.height || self.row_spec.len() != self.height
            || self.col_spec.len() != self.length {
            return false;
        }
        let mut r: usize = 0;
        while r < self.height
            invariant
                r <= self.height,
                self.cells@.len() == self.height,
                forall|i: int| 0 <= i < r ==> (#[trigger] self@[i]).len() == self.length,
            decreases self.height - r,
        {
            if self.cells[r].len() != self.length {
                assert(self@[r as int].len() != self.length);
                return false;
            }
            r += 1;
        }
        all_blocks_positive(&self.row_spec) && all_blocks_positive(&self.col_spec)
    }

    /// Copies the column at index `c` out of the grid.
    pub fn column(&self, c: usize) -> (col: Vec<Cell>)
        requires
            rectangular(self@, self.height as nat, self.length as nat),
            c < self.length,
        ensures
            col@ == column_of(self@, c as int),
    {
        let mut col: Vec<Cell> = Vec::with_capacity(self.height);
        let mut r: usize = 0;
        while r < self.height
            invariant
                r <= self.height,
                rectangular(self@, self.height as nat, self.length as nat),
                c < self.length,
                col@.len() == r,
                forall|i: int| 0 <= i < r ==> col@[i] == self@[i][c as int],
            decreases self.height - r,
        {
            assert(self@[r as int].len() == self.length);
            col.push(self.cells[r][c]);
            r += 1;
        }
        assert(col@ =~= column_of(self@, c as int));
        col
    }

    /// Writes `col` into the column at index `c`.
    pub fn set_col(&mut self, c: usize, col: Vec<Cell>)
        requires
            rectangular(old(self)@, old(self).height as nat, old(self).length as nat),
            c < old(self).length,
            col@.len() == old(self).height,
        ensures
            final(self)@ == with_column(old(self)@, c as int, col@),
            final(self).height == old(self).height,
            final(self).length == old(self).length,
            final(self).row_spec == old(self).row_spec,
            final(self).col_spec == old(self).col_spec,
    {
        let mut r: usize = 0;
        while r < self.height
            invariant
                r <= self.height,
                self.height == old(self).height,
                self.length == old(self).length,
                self.row_spec == old(self).row_spec,
                self.col_spec == old(self).col_spec,
                c < self.length,
                col@.len() == self.height,
                rectangular(old(self)@, self.height as nat, self.length as nat),
                self.cells@.len() == self.height,
                forall|i: int|
                    0 <= i < r ==> (#[trigger] self.cells@[i])@ == old(self)@[i].update(
                        c as int,
                        col@[i],
                    ),
                forall|i: int|
                    r <= i < self.height ==> (#[trigger] self.cells@[i])@ == old(self)@[i],
            decreases self.height - r,
        {
            assert(old(self)@[r as int].len() == self.length);
            self.cells[r][c] = col[r];
            r += 1;
        }
        assert(self@ =~= with_column(old(self)@, c as int, col@));
    }
}

/// Checks that every block of every specification has at least one cell.
fn all_blocks_positive(specs: &Vec<Vec<usize>>) -> (ok: bool)
    ensures
        ok == all_positive(specs_of(specs@)),
{
    let mut i: usize = 0;
    while i < specs.len()
        invariant
            i <= specs.len(),
            forall|a: int| 0 <= a < i ==> positive(#[trigger] specs_of(specs@)[a]),
        decreases specs.len() - i,
    {
        let mut j: usize = 0;
        while j < specs[i].len()
            invariant
                i < specs.len(),
                j <= specs@[i as int]@.len(),
                forall|b: int| 0 <= b < j ==> specs@[i as int]@[b] >= 1,
            decreases specs@[i as int]@.len() - j,
        {
            if specs[i][j] == 0 {
                assert(!positive(specs_of(specs@)[i as int]));
                return false;
            }
            j += 1;
        }
        assert(positive(specs_of(specs@)[i as int]));
        i += 1;
    }
    true
}

/// Checks that the blocks of `spec` have at least one cell each and have
/// room in a line of `len` cells.
fn spec_fits(spec: &Vec<usize>, len: usize) -> (ok: bool)
    requires
        len < usize::MAX,
    ensures
        ok == (positive(spec@) && fits(spec@, len as nat)),
{
    let mut sum: usize = 0;
    let mut i: usize = 0;
    while i < spec.len()
        invariant
            i <= spec.len(),
            sum == total(spec@.take(i as int)),
            forall|j: int| 0 <= j < i ==> spec@[j] >= 1,
        decreases spec.len() - i,
    {
        proof {
            lemma_total_take(spec@, i as int);
            lemma_total_prefix(spec@, i + 1);
        }
        if spec[i] == 0 {
            return false;
        }
        match sum.checked_add(spec[i]) {
            Some(next) => {
                sum = next;
            },
            None => {
                return false;
            },
        }
        i += 1;
    }
    assert(spec@.take(spec@.len() as int) =~= spec@);
    match sum.checked_add(spec.len()) {
        Some(needed) => needed <= len + 1,
        None => false,
    }
}

/// Checks that every specification has positive blocks that have room in a
/// line of `len` cells.
fn all_specs_fit(specs: &Vec<Vec<usize>>, len: usize) -> (ok: bool)
    requires
        len < usize::MAX,
    ensures
        ok == all_fit(specs_of(specs@), len as nat),
{
    let mut i: usize = 0;
    while i < specs.len()
        invariant
            i <= specs.len(),
            len < usize::MAX,
            forall|a: int|
                0 <= a < i ==> positive(#[trigger] specs_of(specs@)[a]) && fits(
                    specs_of(specs@)[a],
                    len as nat,
                ),
        decreases specs.len() - i,
    {
        if !spec_fits(&specs[i], len) {
            assert(!(positive(specs_of(specs@)[i as int]) && fits(
                specs_of(specs@)[i as int],
                len as nat,
            )));
            return false;
        }
        i += 1;
    }
    true
}

} // verus!
