//! The consistency check: can a partly known line still come to hold
//! exactly the blocks of its specification?
//!
//! The check reads a line up to its first unknown cell. The runs of filled
//! cells that have ended by then must be the first blocks of the
//! specification, and a run that has not ended must not be longer than the
//! block that comes next. A line without unknown cells must hold exactly
//! the blocks of the specification. For a line with unknown cells this is a
//! necessary condition, not a sufficient one.

use crate::blocks::{closed_runs, lemma_open_run_bound, open_run, runs, satisfies};
use crate::cell::{compatible, is_resolved, resolved, Cell};
use crate::grid::{column_of, rectangular, Grid};
use vstd::prelude::*;

verus! {

/// `u` is the index of the first unknown cell of the line.
pub open spec fn is_first_unknown(line: Seq<Cell>, u: int) -> bool {
    &&& 0 <= u < line.len()
    &&& line[u] == Cell::Unknown
    &&& forall|j: int| 0 <= j < u ==> line[j] != Cell::Unknown
}

/// `s` begins with the items of `p`.
pub open spec fn starts_with(s: Seq<usize>, p: Seq<usize>) -> bool {
    &&& p.len() <= s.len()
    &&& forall|i: int| 0 <= i < p.len() ==> s[i] == p[i]
}

/// The known beginning of a line does not yet contradict `spec`: the runs
/// that have ended are the first blocks of `spec`, and a run that has not
/// ended is no longer than the block that comes next.
pub open spec fn prefix_feasible(prefix: Seq<Cell>, spec: Seq<usize>) -> bool {
    let closed = closed_runs(prefix);
    &&& starts_with(spec, closed)
    &&& open_run(prefix) > 0 ==> closed.len() < spec.len() && open_run(prefix)
        <= spec[closed.len() as int]
}

/// What the consistency check decides of one line.
pub open spec fn line_consistent(line: Seq<Cell>, spec: Seq<usize>) -> bool {
    if resolved(line) {
        runs(line) == spec
    } else {
        forall|u: int| is_first_unknown(line, u) ==> prefix_feasible(line.take(u), spec)
    }
}

/// What the consistency check decides of a grid: every column passes.
pub open spec fn columns_consistent(cells: Seq<Seq<Cell>>, col_specs: Seq<Seq<usize>>) -> bool {
    forall|c: int|
        0 <= c < col_specs.len() ==> line_consistent(
            #[trigger] column_of(cells, c),
            col_specs[c],
        )
}

/// A grid without unknown cells in which every row and every column holds
/// exactly the blocks of its specification.
pub open spec fn is_solution(
    s: Seq<Seq<Cell>>,
    row_specs: Seq<Seq<usize>>,
    col_specs: Seq<Seq<usize>>,
) -> bool {
    &&& rectangular(s, row_specs.len(), col_specs.len())
    &&& forall|r: int| 0 <= r < row_specs.len() ==> satisfies(#[trigger] s[r], row_specs[r])
    &&& forall|c: int|
        0 <= c < col_specs.len() ==> satisfies(#[trigger] column_of(s, c), col_specs[c])
}

/// The runs that have ended within a shorter beginning of a line have also
/// ended within a longer one.
pub proof fn lemma_closed_runs_grow(line: Seq<Cell>, a: int, b: int)
    requires
        0 <= a <= b <= line.len(),
    ensures
        starts_with(closed_runs(line.take(b)), closed_runs(line.take(a))),
    decreases b - a,
{
    if a < b {
        lemma_closed_runs_grow(line, a, b - 1);
        assert(line.take(b).drop_last() =~= line.take(b - 1));
    }
}

/// A line with a first unknown cell has only one.
pub proof fn lemma_first_unknown_unique(line: Seq<Cell>, u: int, v: int)
    requires
        is_first_unknown(line, u),
        is_first_unknown(line, v),
    ensures
        u == v,
{
}

/// Checks a line against its specification.
pub fn is_line_consistent(line: &Vec<Cell>, spec: &Vec<usize>) -> (ok: bool)
    ensures
        ok == line_consistent(line@, spec@),
{
    let len = line.len();
    let mut num_block: usize = 0;
    let mut size_block: usize = 0;
    let mut dirty = false;
    let mut pos: usize = 0;
    while pos < len
        invariant_except_break
            !dirty,
        invariant
            len == line@.len(),
            pos <= len,
            forall|j: int| 0 <= j < pos ==> line@[j] != Cell::Unknown,
            num_block <= spec@.len(),
            closed_runs(line@.take(pos as int)) == spec@.take(num_block as int),
            open_run(line@.take(pos as int)) == size_block,
            size_block <= pos,
        ensures
            pos <= len,
            forall|j: int| 0 <= j < pos ==> line@[j] != Cell::Unknown,
            dirty ==> pos < len && line@[pos as int] == Cell::Unknown,
            !dirty ==> pos == len,
            num_block <= spec@.len(),
            closed_runs(line@.take(pos as int)) == spec@.take(num_block as int),
            open_run(line@.take(pos as int)) == size_block,
        decreases len - pos,
    {
        assert(line@.take(pos + 1).drop_last() =~= line@.take(pos as int));
        assert(line@.take(pos + 1).last() == line@[pos as int]);
        match line[pos] {
            Cell::Unknown => {
                dirty = true;
                break ;
            },
            Cell::Filled => {
                size_block += 1;
            },
            Cell::Empty => {
                if size_block > 0 {
                    if num_block >= spec.len() || size_block != spec[num_block] {
                        proof {
                            lemma_bad_run(line@, spec@, pos + 1, num_block as int);
                        }
                        return false;
                    }
                    assert(spec@.take(num_block as int).push(size_block) =~= spec@.take(
                        num_block + 1,
                    ));
                    num_block += 1;
                    size_block = 0;
                }
            },
        }
        pos += 1;
    }
    assert(spec@.take(num_block as int).len() == num_block);
    if dirty {
        // An unknown cell has been met: the line must still be able to hold
        // the blocks.
        assert(is_first_unknown(line@, pos as int));
        assert forall|u: int| is_first_unknown(line@, u) implies u == pos by {
            lemma_first_unknown_unique(line@, u, pos as int);
        }
        if size_block > 0 {
            if num_block >= spec.len() || size_block > spec[num_block] {
                return false;
            }
        }
        true
    } else {
        // The end of the line has been reached: the last block must have
        // exactly its length, and no block may be missing.
        assert(line@.take(pos as int) =~= line@);
        if size_block > 0 {
            if num_block >= spec.len() || size_block != spec[num_block] {
                assert(runs(line@) != spec@) by {
                    if runs(line@) == spec@ {
                        assert(runs(line@).len() == num_block + 1);
                        assert(runs(line@)[num_block as int] == size_block);
                    }
                }
                return false;
            }
            num_block += 1;
            assert(runs(line@) =~= spec@.take(num_block as int));
        }
        if num_block != spec.len() {
            return false;
        }
        assert(spec@.take(num_block as int) =~= spec@);
        true
    }
}

/// Checks every column of the grid against its specification.
pub fn is_consistent(picross: &Grid) -> (ok: bool)
    requires
        picross.wf(),
    ensures
        ok == columns_consistent(picross@, picross.col_specs()),
{
    let mut col: usize = 0;
    while col < picross.length
        invariant
            picross.wf(),
            col <= picross.length,
            forall|c: int|
                0 <= c < col ==> line_consistent(
                    #[trigger] column_of(picross@, c),
                    picross.col_specs()[c],
                ),
        decreases picross.length - col,
    {
        let column = picross.column(col);
        if !is_line_consistent(&column, &picross.col_spec[col]) {
            return false;
        }
        col += 1;
    }
    true
}

/// Checks that the grid is solved: no cell is unknown, and every row and
/// every column holds exactly the blocks of its specification.
pub fn is_valid(picross: &Grid) -> (ok: bool)
    requires
        picross.wf(),
    ensures
        ok == is_solution(picross@, picross.row_specs(), picross.col_specs()),
{
    let mut row: usize = 0;
    while row < picross.height
        invariant
            picross.wf(),
            row <= picross.height,
            forall|r: int|
                0 <= r < row ==> satisfies(#[trigger] picross@[r], picross.row_specs()[r]),
        decreases picross.height - row,
    {
        if !is_resolved(&picross.cells[row]) || !is_line_consistent(
            &picross.cells[row],
            &picross.row_spec[row],
        ) {
            assert(!satisfies(picross@[row as int], picross.row_specs()[row as int]));
            return false;
        }
        row += 1;
    }
    let mut col: usize = 0;
    while col < picross.length
        invariant
            picross.wf(),
            col <= picross.length,
            forall|r: int|
                0 <= r < picross.height ==> satisfies(
                    #[trigger] picross@[r],
                    picross.row_specs()[r],
                ),
            forall|c: int|
                0 <= c < col ==> satisfies(
                    #[trigger] column_of(picross@, c),
                    picross.col_specs()[c],
                ),
        decreases picross.length - col,
    {
        let column = picross.column(col);
        if !is_resolved(&column) || !is_line_consistent(&column, &picross.col_spec[col]) {
            assert(!satisfies(column_of(picross@, col as int), picross.col_specs()[col as int]));
            return false;
        }
        col += 1;
    }
    true
}

/// A run that has ended within the first `upto` cells and is not the block
/// that the specification has at its place rules the line out.
proof fn lemma_bad_run(line: Seq<Cell>, spec: Seq<usize>, upto: int, k: int)
    requires
        0 < upto <= line.len(),
        forall|j: int| 0 <= j < upto ==> line[j] != Cell::Unknown,
        0 <= k < closed_runs(line.take(upto)).len(),
        k >= spec.len() || closed_runs(line.take(upto))[k] != spec[k],
    ensures
        !line_consistent(line, spec),
{
    let bad = closed_runs(line.take(upto));
    if resolved(line) {
        lemma_closed_runs_grow(line, upto, line.len() as int);
        assert(line.take(line.len() as int) =~= line);
        assert(starts_with(runs(line), bad));
    } else {
        let u = choose|u: int| 0 <= u < line.len() && line[u] == Cell::Unknown;
        lemma_has_first_unknown(line, u);
        let f = choose|f: int| is_first_unknown(line, f);
        lemma_closed_runs_grow(line, upto, f);
        assert(starts_with(closed_runs(line.take(f)), bad));
    }
}

/// A line with an unknown cell has a first one.
pub proof fn lemma_has_first_unknown(line: Seq<Cell>, u: int)
    requires
        0 <= u < line.len(),
        line[u] == Cell::Unknown,
    ensures
        exists|f: int| is_first_unknown(line, f),
    decreases u,
{
    if forall|j: int| 0 <= j < u ==> line[j] != Cell::Unknown {
        assert(is_first_unknown(line, u));
    } else {
        let j = choose|j: int| 0 <= j < u && line[j] == Cell::Unknown;
        lemma_has_first_unknown(line, j);
    }
}

/// A run that is open after `a` cells is, after `b` cells, either still open
/// and no shorter, or ended and no shorter.
pub proof fn lemma_open_run_grows(line: Seq<Cell>, a: int, b: int)
    requires
        0 <= a <= b <= line.len() <= usize::MAX,
        open_run(line.take(a)) > 0,
    ensures
        ({
            let k = closed_runs(line.take(a)).len() as int;
            let closed = closed_runs(line.take(b));
            ||| closed.len() == k && open_run(line.take(b)) >= open_run(line.take(a))
            ||| closed.len() > k && closed[k] >= open_run(line.take(a))
        }),
    decreases b - a,
{
    if a < b {
        lemma_open_run_grows(line, a, b - 1);
        lemma_closed_runs_grow(line, b - 1, b);
        lemma_open_run_bound(line.take(b - 1));
        assert(line.take(b).drop_last() =~= line.take(b - 1));
    }
}

/// The check is a necessary condition: a line that can still be completed
/// to one that holds exactly the blocks of `spec` passes it.
pub proof fn lemma_completion_consistent(line: Seq<Cell>, full: Seq<Cell>, spec: Seq<usize>)
    requires
        line.len() == full.len(),
        full.len() <= usize::MAX,
        compatible(line, full),
        resolved(full),
        runs(full) == spec,
    ensures
        line_consistent(line, spec),
{
    if resolved(line) {
        assert(line =~= full);
    } else {
        assert forall|u: int| is_first_unknown(line, u) implies prefix_feasible(
            line.take(u),
            spec,
        ) by {
            let n = full.len() as int;
            assert(line.take(u) =~= full.take(u));
            assert(full.take(n) =~= full);
            lemma_closed_runs_grow(full, u, n);
            lemma_open_run_bound(full);
            let closed = closed_runs(full.take(u));
            assert(starts_with(closed_runs(full), closed));
            assert(starts_with(runs(full), closed_runs(full)));
            assert(starts_with(spec, closed));
            if open_run(full.take(u)) > 0 {
                lemma_open_run_grows(full, u, n);
                let k = closed.len() as int;
                if closed_runs(full).len() == k {
                    assert(runs(full)[k] == open_run(full));
                } else {
                    assert(runs(full)[k] == closed_runs(full)[k]);
                }
            }
        }
    }
}

} // verus!
