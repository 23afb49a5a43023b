//! The block structure of a line: the maximal runs of filled cells that a
//! scan from the first cell to the last meets, and where they lie.

use crate::cell::{resolved, Cell};
use vstd::prelude::*;

verus! {

/// `n` cells, all of them `c`.
pub open spec fn run_of(c: Cell, n: nat) -> Seq<Cell> {
    Seq::new(n, |i: int| c)
}

/// The sum of the block lengths.
pub open spec fn total(spec: Seq<usize>) -> nat
    decreases spec.len(),
{
    if spec.len() == 0 {
        0
    } else {
        total(spec.drop_last()) + spec.last() as nat
    }
}

/// Every block has at least one cell.
pub open spec fn positive(spec: Seq<usize>) -> bool {
    forall|i: int| 0 <= i < spec.len() ==> spec[i] >= 1
}

/// The length of the run of filled cells that the line ends with; 0 where
/// the line is empty or its last cell is not filled.
pub open spec fn open_run(line: Seq<Cell>) -> nat
    decreases line.len(),
{
    if line.len() == 0 {
        0
    } else if line.last() == Cell::Filled {
        open_run(line.drop_last()) + 1
    } else {
        0
    }
}

/// The lengths of the runs of filled cells that have ended before the end of
/// the line, in order: each is followed by a cell that is not filled.
pub open spec fn closed_runs(line: Seq<Cell>) -> Seq<usize>
    decreases line.len(),
{
    if line.len() == 0 {
        Seq::empty()
    } else if line.last() != Cell::Filled && open_run(line.drop_last()) > 0 {
        closed_runs(line.drop_last()).push(open_run(line.drop_last()) as usize)
    } else {
        closed_runs(line.drop_last())
    }
}

/// The lengths of all maximal runs of filled cells of the line, in order.
pub open spec fn runs(line: Seq<Cell>) -> Seq<usize> {
    if open_run(line) > 0 {
        closed_runs(line).push(open_run(line) as usize)
    } else {
        closed_runs(line)
    }
}

/// The number of cells of the line that are not filled.
pub open spec fn blank_count(line: Seq<Cell>) -> nat
    decreases line.len(),
{
    if line.len() == 0 {
        0
    } else if line.last() != Cell::Filled {
        blank_count(line.drop_last()) + 1
    } else {
        blank_count(line.drop_last())
    }
}

/// For each run of filled cells of the line, in order, the number of cells
/// before it that are not filled.
pub open spec fn run_offsets(line: Seq<Cell>) -> Seq<usize>
    decreases line.len(),
{
    if line.len() == 0 {
        Seq::empty()
    } else if line.last() == Cell::Filled && open_run(line.drop_last()) == 0 {
        run_offsets(line.drop_last()).push(blank_count(line.drop_last()) as usize)
    } else {
        run_offsets(line.drop_last())
    }
}

/// A fully resolved line whose runs of filled cells are exactly the blocks
/// of `spec`, in order.
pub open spec fn satisfies(line: Seq<Cell>, spec: Seq<usize>) -> bool {
    resolved(line) && runs(line) == spec
}

/// One more block adds its length to the sum.
pub proof fn lemma_total_take(spec: Seq<usize>, i: int)
    requires
        0 <= i < spec.len(),
    ensures
        total(spec.take(i + 1)) == total(spec.take(i)) + spec[i],
{
    assert(spec.take(i + 1).drop_last() =~= spec.take(i));
}

/// The first blocks of a specification sum to no more than all of them.
pub proof fn lemma_total_prefix(spec: Seq<usize>, i: int)
    requires
        0 <= i <= spec.len(),
    ensures
        total(spec.take(i)) <= total(spec),
    decreases spec.len() - i,
{
    if i == spec.len() {
        assert(spec.take(i) =~= spec);
    } else {
        lemma_total_take(spec, i);
        lemma_total_prefix(spec, i + 1);
    }
}

/// What a scan knows after `g` more cells that are not filled.
pub proof fn lemma_append_blanks(a: Seq<Cell>, g: nat)
    ensures
        open_run(a + run_of(Cell::Empty, g)) == (if g == 0 {
            open_run(a)
        } else {
            0
        }),
        closed_runs(a + run_of(Cell::Empty, g)) == (if g > 0 && open_run(a) > 0 {
            closed_runs(a).push(open_run(a) as usize)
        } else {
            closed_runs(a)
        }),
        blank_count(a + run_of(Cell::Empty, g)) == blank_count(a) + g,
        run_offsets(a + run_of(Cell::Empty, g)) == run_offsets(a),
    decreases g,
{
    let s = a + run_of(Cell::Empty, g);
    if g == 0 {
        assert(s =~= a);
    } else {
        let prev = a + run_of(Cell::Empty, (g - 1) as nat);
        assert(s.drop_last() =~= prev);
        assert(s.last() == Cell::Empty);
        lemma_append_blanks(a, (g - 1) as nat);
    }
}

/// What a scan knows after `b` more filled cells.
pub proof fn lemma_append_filled(a: Seq<Cell>, b: nat)
    ensures
        open_run(a + run_of(Cell::Filled, b)) == open_run(a) + b,
        closed_runs(a + run_of(Cell::Filled, b)) == closed_runs(a),
        blank_count(a + run_of(Cell::Filled, b)) == blank_count(a),
        run_offsets(a + run_of(Cell::Filled, b)) == (if b > 0 && open_run(a) == 0 {
            run_offsets(a).push(blank_count(a) as usize)
        } else {
            run_offsets(a)
        }),
    decreases b,
{
    let s = a + run_of(Cell::Filled, b);
    if b == 0 {
        assert(s =~= a);
    } else {
        let prev = a + run_of(Cell::Filled, (b - 1) as nat);
        assert(s.drop_last() =~= prev);
        assert(s.last() == Cell::Filled);
        lemma_append_filled(a, (b - 1) as nat);
    }
}

/// The run that a line ends with is no longer than the line.
pub proof fn lemma_open_run_bound(line: Seq<Cell>)
    ensures
        open_run(line) <= line.len(),
    decreases line.len(),
{
    if line.len() > 0 {
        lemma_open_run_bound(line.drop_last());
    }
}

/// A line has no more blank cells than cells.
pub proof fn lemma_blank_count_bound(line: Seq<Cell>)
    ensures
        blank_count(line) <= line.len(),
    decreases line.len(),
{
    if line.len() > 0 {
        lemma_blank_count_bound(line.drop_last());
    }
}

/// How the runs of a line and their offsets change with one more cell.
pub proof fn lemma_runs_push(prev: Seq<Cell>, c: Cell)
    requires
        prev.len() < usize::MAX,
    ensures
        c == Cell::Filled && open_run(prev) > 0 ==> {
            &&& runs(prev).len() > 0
            &&& runs(prev).last() == open_run(prev)
            &&& runs(prev.push(c)) == runs(prev).update(
                runs(prev).len() - 1,
                (open_run(prev) + 1) as usize,
            )
            &&& run_offsets(prev.push(c)) == run_offsets(prev)
            &&& blank_count(prev.push(c)) == blank_count(prev)
        },
        c == Cell::Filled && open_run(prev) == 0 ==> {
            &&& runs(prev.push(c)) == runs(prev).push(1)
            &&& run_offsets(prev.push(c)) == run_offsets(prev).push(blank_count(prev) as usize)
            &&& blank_count(prev.push(c)) == blank_count(prev)
        },
        c != Cell::Filled ==> {
            &&& runs(prev.push(c)) == runs(prev)
            &&& run_offsets(prev.push(c)) == run_offsets(prev)
            &&& blank_count(prev.push(c)) == blank_count(prev) + 1
        },
        open_run(prev.push(c)) == (if c == Cell::Filled {
            open_run(prev) + 1
        } else {
            0
        }),
{
    let line = prev.push(c);
    assert(line.drop_last() =~= prev);
    assert(line.last() == c);
    lemma_open_run_bound(prev);
    if c == Cell::Filled && open_run(prev) > 0 {
        assert(runs(line) =~= runs(prev).update(
            runs(prev).len() - 1,
            (open_run(prev) + 1) as usize,
        ));
    }
}

/// The runs of a line without unknown cells and the blank cells before
/// them: each run has at least one cell, runs and blank cells make up the
/// line, and each run has more blank cells before it than the run before.
pub proof fn lemma_scan_shape(line: Seq<Cell>)
    requires
        line.len() < usize::MAX,
    ensures
        run_offsets(line).len() == runs(line).len(),
        positive(runs(line)),
        total(runs(line)) + blank_count(line) == line.len(),
        forall|i: int|
            0 <= i < run_offsets(line).len() ==> run_offsets(line)[i] <= blank_count(line),
        forall|i: int, j: int|
            0 <= i < j < run_offsets(line).len() ==> run_offsets(line)[i] < run_offsets(line)[j],
        open_run(line) > 0 ==> runs(line).len() > 0 && run_offsets(line).last() == blank_count(
            line,
        ),
        open_run(line) == 0 && runs(line).len() > 0 ==> run_offsets(line).last() < blank_count(
            line,
        ),
    decreases line.len(),
{
    if line.len() > 0 {
        let prev = line.drop_last();
        let c = line.last();
        assert(line =~= prev.push(c));
        lemma_scan_shape(prev);
        lemma_runs_push(prev, c);
        lemma_blank_count_bound(prev);
        lemma_open_run_bound(prev);
        let prn = runs(prev);
        let rn = runs(line);
        if c == Cell::Filled && open_run(prev) > 0 {
            assert(rn.drop_last() =~= prn.drop_last());
        } else if c == Cell::Filled {
            assert(rn.drop_last() =~= prn);
        }
    }
}

} // verus!
