//! The candidates of a line: every colouring of a line of a given length
//! whose runs of filled cells are exactly the blocks of a specification.
//!
//! A candidate is described by a strictly increasing series: its value for a
//! block is the number of blank cells before that block. The candidates are
//! produced lazily, in lexicographic order of those series.

use crate::blocks::{
    blank_count, closed_runs, lemma_append_blanks, lemma_append_filled, lemma_blank_count_bound,
    lemma_runs_push, lemma_scan_shape, lemma_total_prefix, lemma_total_take, open_run, positive,
    run_of, run_offsets, runs, satisfies, total,
};
use crate::cell::{resolved, Cell};
use crate::series::{
    all_series, binomial, gen_increasing_series, is_series, lemma_series_complete,
    lemma_series_count, lemma_series_distinct, lemma_series_valid, IncreasingSeriesGenerator,
};
use vstd::prelude::*;

verus! {

/// The number of blank cells between the block at index `i` and the block
/// before it, or before the first block.
pub open spec fn gap_before(series: Seq<usize>, i: int) -> nat {
    if i == 0 {
        series[0] as nat
    } else {
        (series[i] - series[i - 1]) as nat
    }
}

/// The cells of a line up to the end of its first `i` blocks.
pub open spec fn placed(series: Seq<usize>, spec: Seq<usize>, i: nat) -> Seq<Cell>
    decreases i,
{
    if i == 0 {
        Seq::empty()
    } else {
        placed(series, spec, (i - 1) as nat) + run_of(Cell::Empty, gap_before(series, i - 1))
            + run_of(Cell::Filled, spec[i - 1] as nat)
    }
}

/// The line of `len` cells that holds the blocks of `spec`, with
/// `series[i]` blank cells before the block at index `i`.
pub open spec fn line_of(series: Seq<usize>, spec: Seq<usize>, len: nat) -> Seq<Cell> {
    let body = placed(series, spec, spec.len());
    body + run_of(Cell::Empty, (len - body.len()) as nat)
}

/// One more than the number of blank cells that a line of `len` cells has
/// once the blocks of `spec` are in it; 0 where the blocks cannot fit at all.
pub open spec fn slack(len: nat, spec: Seq<usize>) -> nat {
    if total(spec) <= len + 1 {
        (len + 1 - total(spec)) as nat
    } else {
        0
    }
}

/// `series` describes a way to lay the blocks of `spec` in `len` cells.
pub open spec fn is_placement(series: Seq<usize>, spec: Seq<usize>, len: nat) -> bool {
    is_series(series, spec.len(), 0, slack(len, spec) as int)
}

/// Every candidate for a line of `len` cells with the blocks of `spec`, in
/// lexicographic order of the positions of the blocks.
pub open spec fn candidates(len: nat, spec: Seq<usize>) -> Seq<Seq<Cell>> {
    all_series(spec.len(), slack(len, spec)).map_values(|s: Seq<usize>| line_of(s, spec, len))
}

/// How far the first `i` blocks of a placement reach.
pub proof fn lemma_placed_len(series: Seq<usize>, spec: Seq<usize>, len: nat, i: nat)
    requires
        is_placement(series, spec, len),
        i <= spec.len(),
    ensures
        resolved(placed(series, spec, i)),
        placed(series, spec, i).len() == (if i == 0 {
            0
        } else {
            series[i - 1] + total(spec.take(i as int))
        }),
        placed(series, spec, i).len() <= len,
        0 < i < spec.len() ==> placed(series, spec, i).len() < len,
        blank_count(placed(series, spec, i)) == (if i == 0 {
            0
        } else {
            series[i - 1] as int
        }),
    decreases i,
{
    if i > 0 {
        let before = placed(series, spec, (i - 1) as nat);
        let gap = gap_before(series, i - 1);
        lemma_placed_len(series, spec, len, (i - 1) as nat);
        lemma_total_take(spec, i - 1);
        lemma_total_prefix(spec, i as int);
        if i >= 2 {
            assert(series[i - 2] < series[i - 1]);
        }
        if i < spec.len() {
            assert(series[i - 1] < series[i as int]);
        }
        lemma_append_blanks(before, gap);
        lemma_append_filled(before + run_of(Cell::Empty, gap), spec[i - 1] as nat);
    }
}

/// What a scan of the first `i` blocks of a placement finds: the blocks
/// themselves, each where the series puts it.
pub proof fn lemma_placed_scan(series: Seq<usize>, spec: Seq<usize>, len: nat, i: nat)
    requires
        is_placement(series, spec, len),
        positive(spec),
        len < usize::MAX,
        i <= spec.len(),
    ensures
        open_run(placed(series, spec, i)) == (if i == 0 {
            0
        } else {
            spec[i - 1] as int
        }),
        closed_runs(placed(series, spec, i)) == (if i == 0 {
            Seq::<usize>::empty()
        } else {
            spec.take(i - 1)
        }),
        run_offsets(placed(series, spec, i)) == series.take(i as int),
    decreases i,
{
    if i > 0 {
        let before = placed(series, spec, (i - 1) as nat);
        let gap = gap_before(series, i - 1);
        lemma_placed_scan(series, spec, len, (i - 1) as nat);
        lemma_placed_len(series, spec, len, (i - 1) as nat);
        if i >= 2 {
            assert(series[i - 2] < series[i - 1]);
            assert(spec.take(i - 2).push(spec[i - 2]) =~= spec.take(i - 1));
        }
        lemma_append_blanks(before, gap);
        lemma_append_filled(before + run_of(Cell::Empty, gap), spec[i - 1] as nat);
        assert(series.take(i - 1).push(series[i - 1]) =~= series.take(i as int));
    } else {
        assert(series.take(0) =~= Seq::<usize>::empty());
    }
}

/// The line of a placement has the asked length, and its runs of filled
/// cells are the blocks of the specification, each where the series puts it.
pub proof fn lemma_line_of(series: Seq<usize>, spec: Seq<usize>, len: nat)
    requires
        is_placement(series, spec, len),
        positive(spec),
        len < usize::MAX,
    ensures
        line_of(series, spec, len).len() == len,
        satisfies(line_of(series, spec, len), spec),
        run_offsets(line_of(series, spec, len)) == series,
{
    let k = spec.len();
    let body = placed(series, spec, k);
    let tail = (len - body.len()) as nat;
    lemma_placed_len(series, spec, len, k);
    lemma_placed_scan(series, spec, len, k);
    lemma_append_blanks(body, tail);
    assert(series.take(k as int) =~= series);
    let line = line_of(series, spec, len);
    assert(resolved(line)) by {
        assert forall|i: int| 0 <= i < line.len() implies line[i] != Cell::Unknown by {
            if i < body.len() {
                assert(line[i] == body[i]);
            }
        }
    }
    if k > 0 {
        assert(spec.take(k - 1).push(spec[k - 1]) =~= spec);
    }
    assert(runs(line) =~= spec);
}

/// Every candidate has the asked length.
pub proof fn lemma_candidate_len(len: nat, spec: Seq<usize>, i: int)
    requires
        len < usize::MAX,
        0 <= i < candidates(len, spec).len(),
    ensures
        candidates(len, spec)[i].len() == len,
{
    let k = spec.len();
    let m = slack(len, spec);
    lemma_series_valid(0, k, m as int, i);
    lemma_placed_len(all_series(k, m)[i], spec, len, k);
}

/// `line` is one of the candidates for a line of `len` cells with the blocks
/// of `spec`.
pub open spec fn is_candidate(line: Seq<Cell>, len: nat, spec: Seq<usize>) -> bool {
    exists|i: int|
        0 <= i < candidates(len, spec).len() && #[trigger] candidates(len, spec)[i] == line
}

/// The first `i` blocks of a line lie where the first `i` values of the
/// series and of the specification put them.
pub proof fn lemma_placed_prefix(
    series1: Seq<usize>,
    spec1: Seq<usize>,
    series2: Seq<usize>,
    spec2: Seq<usize>,
    i: nat,
)
    requires
        i <= series1.len(),
        i <= series2.len(),
        i <= spec1.len(),
        i <= spec2.len(),
        forall|j: int| 0 <= j < i ==> series1[j] == series2[j],
        forall|j: int| 0 <= j < i ==> spec1[j] == spec2[j],
    ensures
        placed(series1, spec1, i) == placed(series2, spec2, i),
    decreases i,
{
    if i > 0 {
        lemma_placed_prefix(series1, spec1, series2, spec2, (i - 1) as nat);
    }
}

/// One more blank cell at the end of a line is one more blank cell at the
/// end of its layout.
proof fn lemma_layout_push_blank(prev: Seq<Cell>)
    requires
        prev.len() + 1 < usize::MAX,
        is_placement(run_offsets(prev), runs(prev), prev.len()),
        line_of(run_offsets(prev), runs(prev), prev.len()) == prev,
    ensures
        line_of(
            run_offsets(prev.push(Cell::Empty)),
            runs(prev.push(Cell::Empty)),
            prev.len() + 1,
        ) == prev.push(Cell::Empty),
{
    let so = run_offsets(prev);
    let rn = runs(prev);
    lemma_runs_push(prev, Cell::Empty);
    lemma_placed_len(so, rn, prev.len(), rn.len());
    let body = placed(so, rn, rn.len());
    let tail = (prev.len() - body.len()) as nat;
    assert(prev.push(Cell::Empty) =~= body + run_of(Cell::Empty, tail + 1));
}

/// One more filled cell at the end of a line that ends with a filled cell
/// makes the last block of its layout one cell longer.
proof fn lemma_layout_push_longer(prev: Seq<Cell>)
    requires
        prev.len() + 1 < usize::MAX,
        open_run(prev) > 0,
        is_placement(run_offsets(prev), runs(prev), prev.len()),
        line_of(run_offsets(prev), runs(prev), prev.len()) == prev,
    ensures
        line_of(
            run_offsets(prev.push(Cell::Filled)),
            runs(prev.push(Cell::Filled)),
            prev.len() + 1,
        ) == prev.push(Cell::Filled),
{
    let so = run_offsets(prev);
    let prn = runs(prev);
    let rn = runs(prev.push(Cell::Filled));
    let k = prn.len();
    lemma_runs_push(prev, Cell::Filled);
    lemma_scan_shape(prev);
    lemma_scan_shape(prev.push(Cell::Filled));
    lemma_placed_len(so, prn, prev.len(), k);
    assert(prn.take(k as int) =~= prn);
    let head = placed(so, prn, (k - 1) as nat);
    let gap = run_of(Cell::Empty, gap_before(so, k - 1));
    assert(placed(so, prn, k) == head + gap + run_of(Cell::Filled, prn[k - 1] as nat));
    assert(placed(so, prn, k).len() == prev.len());
    assert(prev =~= placed(so, prn, k));
    lemma_placed_prefix(so, rn, so, prn, (k - 1) as nat);
    assert(placed(so, rn, k) == head + gap + run_of(Cell::Filled, rn[k - 1] as nat));
    assert(rn[k - 1] == prn[k - 1] + 1);
    assert(prev.push(Cell::Filled) =~= placed(so, rn, k));
    assert(placed(so, rn, k) + run_of(Cell::Empty, 0) =~= placed(so, rn, k));
}

/// A filled cell at the end of a line that does not end with a filled cell
/// is one more block of its layout, after the blank cells that the line
/// ended with.
proof fn lemma_layout_push_new(prev: Seq<Cell>)
    requires
        prev.len() + 1 < usize::MAX,
        open_run(prev) == 0,
        is_placement(run_offsets(prev), runs(prev), prev.len()),
        line_of(run_offsets(prev), runs(prev), prev.len()) == prev,
    ensures
        line_of(
            run_offsets(prev.push(Cell::Filled)),
            runs(prev.push(Cell::Filled)),
            prev.len() + 1,
        ) == prev.push(Cell::Filled),
{
    let pso = run_offsets(prev);
    let prn = runs(prev);
    let so = run_offsets(prev.push(Cell::Filled));
    let rn = runs(prev.push(Cell::Filled));
    let k = prn.len();
    lemma_runs_push(prev, Cell::Filled);
    lemma_scan_shape(prev);
    lemma_blank_count_bound(prev);
    lemma_placed_len(pso, prn, prev.len(), k);
    assert(prn.take(k as int) =~= prn);
    let body = placed(pso, prn, k);
    let tail = (prev.len() - body.len()) as nat;
    assert(prev == body + run_of(Cell::Empty, tail));
    lemma_placed_prefix(so, rn, pso, prn, k);
    assert(so[k as int] == blank_count(prev));
    assert(gap_before(so, k as int) == tail);
    assert(rn[k as int] == 1);
    assert(placed(so, rn, k + 1) == body + run_of(Cell::Empty, tail) + run_of(Cell::Filled, 1));
    assert(prev.push(Cell::Filled) =~= placed(so, rn, k + 1));
    assert(placed(so, rn, k + 1) + run_of(Cell::Empty, 0) =~= placed(so, rn, k + 1));
}

/// A line without unknown cells is the line that its own runs of filled
/// cells describe: laying them out again, each after as many blank cells as
/// the line has before it, gives the line back.
pub proof fn lemma_scan_inverse(line: Seq<Cell>)
    requires
        resolved(line),
        line.len() < usize::MAX,
    ensures
        is_placement(run_offsets(line), runs(line), line.len()),
        line_of(run_offsets(line), runs(line), line.len()) == line,
    decreases line.len(),
{
    lemma_scan_shape(line);
    if line.len() == 0 {
        assert(line_of(run_offsets(line), runs(line), 0) =~= line);
    } else {
        let prev = line.drop_last();
        assert(resolved(prev));
        assert(line =~= prev.push(line.last()));
        lemma_scan_inverse(prev);
        if line.last() == Cell::Empty {
            lemma_layout_push_blank(prev);
        } else if open_run(prev) > 0 {
            lemma_layout_push_longer(prev);
        } else {
            lemma_layout_push_new(prev);
        }
    }
}

/// Every line of `len` cells that holds exactly the blocks of `spec` is one
/// of the candidates.
pub proof fn lemma_candidates_complete(line: Seq<Cell>, spec: Seq<usize>)
    requires
        satisfies(line, spec),
        line.len() < usize::MAX,
    ensures
        is_candidate(line, line.len(), spec),
{
    lemma_scan_inverse(line);
    let k = spec.len();
    let m = slack(line.len(), spec);
    let idx = lemma_series_complete(0, k, m as int, run_offsets(line));
    assert(candidates(line.len(), spec)[idx] == line);
}

/// The candidates are exactly the lines of the asked length that hold
/// exactly the blocks of the specification.
pub proof fn lemma_candidates_exact(len: nat, spec: Seq<usize>, line: Seq<Cell>)
    requires
        positive(spec),
        len < usize::MAX,
    ensures
        is_candidate(line, len, spec) <==> line.len() == len && satisfies(line, spec),
{
    lemma_candidates(len, spec);
    if line.len() == len && satisfies(line, spec) {
        lemma_candidates_complete(line, spec);
    }
}

/// A specification of positive blocks has `binomial(slack, k)` candidates
/// for its `k` blocks. Each has the asked length and exactly the blocks of
/// the specification, and no two of them are the same line. Where the blocks
/// and the blank cells between them fit in the line, `slack` is the length
/// plus one, less the sum of the blocks.
pub proof fn lemma_candidates(len: nat, spec: Seq<usize>)
    requires
        positive(spec),
        len < usize::MAX,
    ensures
        candidates(len, spec).len() == binomial(slack(len, spec), spec.len()),
        total(spec) + spec.len() <= len + 1 ==> slack(len, spec) == len + 1 - total(spec),
        forall|i: int|
            0 <= i < candidates(len, spec).len() ==> (#[trigger] candidates(len, spec)[i]).len()
                == len && satisfies(candidates(len, spec)[i], spec),
        forall|i: int, j: int|
            0 <= i < candidates(len, spec).len() && 0 <= j < candidates(len, spec).len() && i
                != j ==> #[trigger] candidates(len, spec)[i] != #[trigger] candidates(
                len,
                spec,
            )[j],
{
    let k = spec.len();
    let m = slack(len, spec);
    let all = all_series(k, m);
    lemma_series_count(0, k, m as int);
    assert forall|i: int| 0 <= i < candidates(len, spec).len() implies (#[trigger] candidates(
        len,
        spec,
    )[i]).len() == len && satisfies(candidates(len, spec)[i], spec) by {
        lemma_series_valid(0, k, m as int, i);
        lemma_line_of(all[i], spec, len);
    }
    assert forall|i: int, j: int|
        0 <= i < candidates(len, spec).len() && 0 <= j < candidates(len, spec).len() && i
            != j implies #[trigger] candidates(len, spec)[i] != #[trigger] candidates(
        len,
        spec,
    )[j] by {
        lemma_series_valid(0, k, m as int, i);
        lemma_series_valid(0, k, m as int, j);
        lemma_line_of(all[i], spec, len);
        lemma_line_of(all[j], spec, len);
        lemma_series_distinct(0, k, m as int, i, j);
    }
}

/// Lays the blocks of `spec` in a line of `row_size` cells, with
/// `series[i]` blank cells before the block at index `i`.
pub fn inc_series_to_row(series: &Vec<usize>, spec: &Vec<usize>, row_size: usize) -> (row: Vec<
    Cell,
>)
    requires
        is_placement(series@, spec@, row_size as nat),
        row_size < usize::MAX,
    ensures
        row@ == line_of(series@, spec@, row_size as nat),
{
    let mut row: Vec<Cell> = Vec::new();
    let mut cur_pos: usize = 0;
    let k = series.len();
    let mut i_block: usize = 0;
    while i_block < k
        invariant
            i_block <= k,
            k == series@.len(),
            k == spec@.len(),
            is_placement(series@, spec@, row_size as nat),
            row_size < usize::MAX,
            cur_pos == (if i_block == 0 {
                0
            } else {
                series@[i_block - 1] + 1
            }),
            row@ == placed(series@, spec@, i_block as nat) + run_of(
                Cell::Empty,
                if i_block > 0 && placed(series@, spec@, i_block as nat).len() < row_size {
                    1
                } else {
                    0
                },
            ),
        decreases k - i_block,
    {
        let pos = series[i_block];
        let ghost before = placed(series@, spec@, i_block as nat);
        let ghost gap = gap_before(series@, i_block as int);
        proof {
            lemma_placed_len(series@, spec@, row_size as nat, i_block as nat);
            lemma_placed_len(series@, spec@, row_size as nat, (i_block + 1) as nat);
            if i_block > 0 {
                assert(series@[i_block - 1] < series@[i_block as int]);
            }
        }
        // The blank cells before the block.
        let ghost base = row@;
        let mut c: usize = cur_pos;
        while c < pos
            invariant
                cur_pos <= c <= pos,
                row@ == base + run_of(Cell::Empty, (c - cur_pos) as nat),
            decreases pos - c,
        {
            row.push(Cell::Empty);
            c += 1;
            assert(row@ =~= base + run_of(Cell::Empty, (c - cur_pos) as nat));
        }
        assert(row@ =~= before + run_of(Cell::Empty, gap));
        cur_pos = pos;
        // The block itself.
        let b = spec[i_block];
        let ghost gapped = row@;
        let mut f: usize = 0;
        while f < b
            invariant
                f <= b,
                row@ == gapped + run_of(Cell::Filled, f as nat),
            decreases b - f,
        {
            row.push(Cell::Filled);
            f += 1;
            assert(row@ =~= gapped + run_of(Cell::Filled, f as nat));
        }
        assert(row@ == placed(series@, spec@, (i_block + 1) as nat));
        cur_pos += 1;
        // One blank cell after it, unless the line is full.
        if row.len() != row_size {
            row.push(Cell::Empty);
            assert(row@ =~= placed(series@, spec@, (i_block + 1) as nat) + run_of(
                Cell::Empty,
                1,
            ));
        } else {
            assert(row@ =~= placed(series@, spec@, (i_block + 1) as nat) + run_of(
                Cell::Empty,
                0,
            ));
        }
        i_block += 1;
    }
    let ghost body = placed(series@, spec@, k as nat);
    proof {
        lemma_placed_len(series@, spec@, row_size as nat, k as nat);
    }
    // The blank cells after the last block.
    while row.len() < row_size
        invariant
            body.len() <= row@.len() <= row_size,
            row@ == body + run_of(Cell::Empty, (row@.len() - body.len()) as nat),
        decreases row_size - row.len(),
    {
        row.push(Cell::Empty);
        assert(row@ =~= body + run_of(Cell::Empty, (row@.len() - body.len()) as nat));
    }
    row
}

/// A lazy producer of every candidate for a line of `row_size` cells with
/// the blocks of `spec`. Created by [`gen_picross_rows`].
pub struct PicrossRowGenerator<'a> {
    /// The number of cells of the line.
    row_size: usize,
    /// The lengths of the blocks: `[1, 2]` asks for a block of one cell, then
    /// a block of two.
    spec: &'a Vec<usize>,
    inc_series_gen: IncreasingSeriesGenerator,
}

impl<'a> PicrossRowGenerator<'a> {
    /// The number of cells of each line.
    pub closed spec fn row_size(&self) -> nat {
        self.row_size as nat
    }

    /// The lengths of the blocks of each line.
    pub closed spec fn spec(&self) -> Seq<usize> {
        self.spec@
    }

    /// How many lines have been handed out so far.
    pub closed spec fn produced(&self) -> nat {
        self.inc_series_gen.produced()
    }

    /// Every line that the producer hands out from its creation on, in the
    /// order in which they come.
    pub open spec fn all(&self) -> Seq<Seq<Cell>> {
        candidates(self.row_size(), self.spec())
    }

    /// The lines that are still to come, in the order in which they come.
    pub open spec fn remaining(&self) -> Seq<Seq<Cell>> {
        self.all().skip(self.produced() as int)
    }

    /// The state is one that stepping through the candidates can reach.
    pub closed spec fn wf(&self) -> bool {
        &&& self.inc_series_gen.wf()
        &&& self.inc_series_gen.count() == self.spec@.len()
        &&& self.inc_series_gen.limit() == slack(self.row_size as nat, self.spec@)
        &&& self.row_size < usize::MAX
    }

    /// No more lines have been handed out than there are.
    pub proof fn lemma_bounds(&self)
        requires
            self.wf(),
        ensures
            self.produced() <= self.all().len(),
            self.row_size() < usize::MAX,
    {
        self.inc_series_gen.lemma_bounds();
    }

    /// Hands out the next candidate, or `None` once all have been handed out.
    pub fn next(&mut self) -> (res: Option<Vec<Cell>>)
        requires
            old(self).wf(),
        ensures
            final(self).wf(),
            final(self).row_size() == old(self).row_size(),
            final(self).spec() == old(self).spec(),
            match res {
                Some(row) => {
                    &&& old(self).produced() < old(self).all().len()
                    &&& row@ == old(self).all()[old(self).produced() as int]
                    &&& final(self).produced() == old(self).produced() + 1
                },
                None => {
                    &&& old(self).produced() == old(self).all().len()
                    &&& final(self).produced() == old(self).produced()
                },
            },
    {
        let ghost idx = self.inc_series_gen.produced() as int;
        match self.inc_series_gen.next() {
            Some(vec) => {
                proof {
                    lemma_series_valid(
                        0,
                        self.spec@.len(),
                        slack(self.row_size as nat, self.spec@) as int,
                        idx,
                    );
                }
                Some(inc_series_to_row(&vec, self.spec, self.row_size))
            },
            None => None,
        }
    }
}

/// Creates the producer of every candidate for a line of `row_size` cells
/// with the blocks of `spec`. Where the blocks cannot fit in the line, there
/// is no candidate.
pub fn gen_picross_rows<'a>(row_size: usize, spec: &'a Vec<usize>) -> (g: PicrossRowGenerator<'a>)
    requires
        row_size < usize::MAX,
    ensures
        g.wf(),
        g.row_size() == row_size,
        g.spec() == spec@,
        g.produced() == 0,
{
    // The sum of the blocks, as long as it can be held.
    let mut sum: usize = 0;
    let mut fits = true;
    let mut i: usize = 0;
    while i < spec.len()
        invariant
            i <= spec.len(),
            fits ==> sum == total(spec@.take(i as int)),
            !fits ==> total(spec@.take(i as int)) > usize::MAX,
        decreases spec.len() - i,
    {
        proof {
            lemma_total_take(spec@, i as int);
        }
        if fits {
            match sum.checked_add(spec[i]) {
                Some(next) => {
                    sum = next;
                },
                None => {
                    fits = false;
                },
            }
        }
        i += 1;
    }
    assert(spec@.take(spec@.len() as int) =~= spec@);
    let size = if fits && sum <= row_size + 1 {
        row_size + 1 - sum
    } else {
        0
    };
    PicrossRowGenerator {
        row_size,
        spec,
        inc_series_gen: gen_increasing_series(spec.len(), size),
    }
}

} // verus!
