//! Propagation: reducing every row and every column against its candidates,
//! again and again, until nothing more can be deduced.

use crate::cell::{compatible, Cell};
use crate::display::Redraw;
use crate::grid::{column_of, lines_of, rectangular, Grid};
use crate::reduce::{all_agree, feasible, gcd, lemma_reduced_monotone, reduced};
use crate::rows::{candidates, gen_picross_rows, lemma_candidate_len};
use vstd::prelude::*;

verus! {

/// `b` knows everything that `a` knows: the two have the same shape, and
/// wherever a cell of `a` is known, `b` holds the same value.
pub open spec fn refines(a: Seq<Seq<Cell>>, b: Seq<Seq<Cell>>) -> bool {
    &&& a.len() == b.len()
    &&& forall|r: int|
        0 <= r < a.len() ==> (#[trigger] a[r]).len() == b[r].len() && compatible(a[r], b[r])
}

/// The cells after the rows before index `upto` have been reduced.
pub open spec fn rows_reduced(
    cells: Seq<Seq<Cell>>,
    row_specs: Seq<Seq<usize>>,
    length: nat,
    upto: int,
) -> Seq<Seq<Cell>> {
    Seq::new(
        cells.len(),
        |r: int|
            if r < upto {
                reduced(cells[r], candidates(length, row_specs[r]))
            } else {
                cells[r]
            },
    )
}

/// The cells after the columns before index `upto` have been reduced.
pub open spec fn cols_reduced(
    cells: Seq<Seq<Cell>>,
    col_specs: Seq<Seq<usize>>,
    height: nat,
    upto: int,
) -> Seq<Seq<Cell>> {
    Seq::new(
        cells.len(),
        |r: int|
            Seq::new(
                cells[r].len(),
                |c: int|
                    if c < upto {
                        reduced(column_of(cells, c), candidates(height, col_specs[c]))[r]
                    } else {
                        cells[r][c]
                    },
            ),
    )
}

/// The row at index `r` has a candidate that agrees with what is known.
pub open spec fn row_feasible(
    cells: Seq<Seq<Cell>>,
    row_specs: Seq<Seq<usize>>,
    length: nat,
    r: int,
) -> bool {
    feasible(cells[r], candidates(length, row_specs[r]))
}

/// The column at index `c` has a candidate that agrees with what is known.
pub open spec fn col_feasible(
    cells: Seq<Seq<Cell>>,
    col_specs: Seq<Seq<usize>>,
    height: nat,
    c: int,
) -> bool {
    feasible(column_of(cells, c), candidates(height, col_specs[c]))
}

/// Reduces every row of the grid against its candidates, from top to
/// bottom.
///
/// Returns whether a row has changed, or `None` where a row has no candidate
/// that agrees with what is known of it: the rows above that row have then
/// been reduced, the others are as they were.
pub fn combex_rows<W: Redraw>(picross: &mut Grid, w: &mut W) -> (res: Option<bool>)
    requires
        old(picross).wf(),
    ensures
        final(picross).wf(),
        final(picross).same_puzzle(old(picross)),
        match res {
            Some(dirty) => {
                &&& forall|r: int|
                    0 <= r < old(picross).height ==> row_feasible(
                        old(picross)@,
                        old(picross).row_specs(),
                        old(picross).length as nat,
                        r,
                    )
                &&& final(picross)@ == rows_reduced(
                    old(picross)@,
                    old(picross).row_specs(),
                    old(picross).length as nat,
                    old(picross).height as int,
                )
                &&& dirty == (final(picross)@ != old(picross)@)
            },
            None => exists|f: int|
                {
                    &&& 0 <= f < old(picross).height
                    &&& !row_feasible(
                        old(picross)@,
                        old(picross).row_specs(),
                        old(picross).length as nat,
                        f,
                    )
                    &&& forall|r: int|
                        0 <= r < f ==> row_feasible(
                            old(picross)@,
                            old(picross).row_specs(),
                            old(picross).length as nat,
                            r,
                        )
                    &&& final(picross)@ == rows_reduced(
                        old(picross)@,
                        old(picross).row_specs(),
                        old(picross).length as nat,
                        f,
                    )
                },
        },
{
    let ghost before = picross@;
    let ghost specs = picross.row_specs();
    let ghost length = picross.length as nat;
    let mut dirty = false;
    let mut row: usize = 0;
    assert(picross@ =~= rows_reduced(before, specs, length, 0));
    while row < picross.height
        invariant
            picross.wf(),
            picross.same_puzzle(old(picross)),
            before == old(picross)@,
            specs == picross.row_specs(),
            length == picross.length,
            row <= picross.height,
            forall|r: int| 0 <= r < row ==> row_feasible(before, specs, length, r),
            picross@ == rows_reduced(before, specs, length, row as int),
            dirty == (picross@ != before),
        decreases picross.height - row,
    {
        let ghost cur = picross@;
        assert(cur[row as int] == before[row as int]);
        assert(cur[row as int].len() == length);
        let possible_rows = gen_picross_rows(picross.length, &picross.row_spec[row]);
        assert(possible_rows.remaining() =~= candidates(length, specs[row as int]));
        match gcd(&picross.cells[row], possible_rows) {
            None => {
                return None;
            },
            Some((line, changed)) => {
                picross.cells[row] = line;
                assert(picross@ =~= rows_reduced(before, specs, length, row + 1)) by {
                    assert forall|r: int| 0 <= r < cur.len() implies picross@[r] == rows_reduced(
                        before,
                        specs,
                        length,
                        row + 1,
                    )[r] by {
                        if r != row {
                            assert(picross@[r] == cur[r]);
                        }
                    }
                }
                assert(rectangular(picross@, picross.height as nat, length)) by {
                    assert forall|r: int| 0 <= r < picross@.len() implies (
                    #[trigger] picross@[r]).len() == length by {
                        if r != row {
                            assert(cur[r].len() == length);
                        }
                    }
                }
                proof {
                    if changed {
                        assert(picross@[row as int] != before[row as int]);
                    } else {
                        assert(picross@ =~= cur);
                    }
                }
                if changed {
                    dirty = true;
                    w.redraw(picross);
                }
            },
        }
        row += 1;
    }
    Some(dirty)
}

/// Reduces every column of the grid against its candidates, from left to
/// right.
///
/// Returns whether a column has changed, or `None` where a column has no
/// candidate that agrees with what is known of it: the columns to the left
/// of that column have then been reduced, the others are as they were.
pub fn combex_cols<W: Redraw>(picross: &mut Grid, w: &mut W) -> (res: Option<bool>)
    requires
        old(picross).wf(),
    ensures
        final(picross).wf(),
        final(picross).same_puzzle(old(picross)),
        match res {
            Some(dirty) => {
                &&& forall|c: int|
                    0 <= c < old(picross).length ==> col_feasible(
                        old(picross)@,
                        old(picross).col_specs(),
                        old(picross).height as nat,
                        c,
                    )
                &&& final(picross)@ == cols_reduced(
                    old(picross)@,
                    old(picross).col_specs(),
                    old(picross).height as nat,
                    old(picross).length as int,
                )
                &&& dirty == (final(picross)@ != old(picross)@)
            },
            None => exists|f: int|
                {
                    &&& 0 <= f < old(picross).length
                    &&& !col_feasible(
                        old(picross)@,
                        old(picross).col_specs(),
                        old(picross).height as nat,
                        f,
                    )
                    &&& forall|c: int|
                        0 <= c < f ==> col_feasible(
                            old(picross)@,
                            old(picross).col_specs(),
                            old(picross).height as nat,
                            c,
                        )
                    &&& final(picross)@ == cols_reduced(
                        old(picross)@,
                        old(picross).col_specs(),
                        old(picross).height as nat,
                        f,
                    )
                },
        },
{
    let ghost before = picross@;
    let ghost specs = picross.col_specs();
    let ghost height = picross.height as nat;
    let ghost length = picross.length as nat;
    let mut dirty = false;
    let mut col: usize = 0;
    assert(picross@ =~~= cols_reduced(before, specs, height, 0));
    while col < picross.length
        invariant
            picross.wf(),
            picross.same_puzzle(old(picross)),
            before == old(picross)@,
            specs == picross.col_specs(),
            height == picross.height,
            length == picross.length,
            rectangular(before, height, length),
            col <= picross.length,
            forall|c: int| 0 <= c < col ==> col_feasible(before, specs, height, c),
            picross@ == cols_reduced(before, specs, height, col as int),
            dirty == (picross@ != before),
        decreases picross.length - col,
    {
        let ghost cur = picross@;
        let column = picross.column(col);
        assert(column@ =~= column_of(before, col as int)) by {
            assert forall|r: int| 0 <= r < height implies column@[r] == before[r][col as int] by {
                assert(cur[r].len() == length);
                assert(before[r].len() == length);
            }
        }
        let possible_rows = gen_picross_rows(picross.height, &picross.col_spec[col]);
        assert(possible_rows.remaining() =~= candidates(height, specs[col as int]));
        match gcd(&column, possible_rows) {
            None => {
                return None;
            },
            Some((line, changed)) => {
                picross.set_col(col, line);
                let ghost target = cols_reduced(before, specs, height, col + 1);
                assert(picross@ =~~= target) by {
                    assert forall|r: int| 0 <= r < height implies picross@[r] =~= target[r] by {
                        assert(cur[r].len() == length);
                        assert(before[r].len() == length);
                    }
                }
                assert(rectangular(picross@, height, length)) by {
                    assert forall|r: int| 0 <= r < picross@.len() implies (
                    #[trigger] picross@[r]).len() == length by {
                        assert(cur[r].len() == length);
                    }
                }
                proof {
                    if changed {
                        assert(line@ != column@);
                        if picross@ == before {
                            assert(line@ =~= column@) by {
                                assert forall|r: int| 0 <= r < height implies line@[r]
                                    == column@[r] by {
                                    assert(before[r].len() == length);
                                    assert(picross@[r][col as int] == line@[r]);
                                }
                            }
                        }
                    } else {
                        assert(picross@ =~~= cur) by {
                            assert forall|r: int| 0 <= r < height implies picross@[r]
                                =~= cur[r] by {
                                assert(cur[r].len() == length);
                            }
                        }
                    }
                }
                if changed {
                    dirty = true;
                    w.redraw(picross);
                }
            },
        }
        col += 1;
    }
    Some(dirty)
}

/// Nothing more can be deduced: every row and every column has a candidate
/// that agrees with it, and reducing it changes nothing.
pub open spec fn stable(
    cells: Seq<Seq<Cell>>,
    row_specs: Seq<Seq<usize>>,
    col_specs: Seq<Seq<usize>>,
) -> bool {
    let height = row_specs.len();
    let length = col_specs.len();
    &&& rectangular(cells, height, length)
    &&& forall|r: int|
        0 <= r < height ==> #[trigger] row_feasible(cells, row_specs, length, r) && reduced(
            cells[r],
            candidates(length, row_specs[r]),
        ) == cells[r]
    &&& forall|c: int|
        0 <= c < length ==> #[trigger] col_feasible(cells, col_specs, height, c) && reduced(
            column_of(cells, c),
            candidates(height, col_specs[c]),
        ) == column_of(cells, c)
}

/// There is a way to add knowledge to `start` such that nothing more can be
/// deduced and no line is left without a candidate.
pub open spec fn has_stable_refinement(
    start: Seq<Seq<Cell>>,
    row_specs: Seq<Seq<usize>>,
    col_specs: Seq<Seq<usize>>,
) -> bool {
    exists|h: Seq<Seq<Cell>>| #[trigger] stable(h, row_specs, col_specs) && refines(start, h)
}

/// `cells` knows no more than any stable grid that knows what `start` knows.
pub open spec fn below_every_stable(
    start: Seq<Seq<Cell>>,
    cells: Seq<Seq<Cell>>,
    row_specs: Seq<Seq<usize>>,
    col_specs: Seq<Seq<usize>>,
) -> bool {
    forall|h: Seq<Seq<Cell>>|
        #[trigger] stable(h, row_specs, col_specs) && refines(start, h) ==> refines(cells, h)
}

/// What propagation makes of `before`: where knowledge can be added to
/// `before` such that nothing more can be deduced, `after` is the least such
/// grid; where it cannot, the cells are left as they were.
pub open spec fn propagated(
    before: Seq<Seq<Cell>>,
    after: Seq<Seq<Cell>>,
    ok: bool,
    row_specs: Seq<Seq<usize>>,
    col_specs: Seq<Seq<usize>>,
) -> bool {
    &&& ok == has_stable_refinement(before, row_specs, col_specs)
    &&& ok ==> stable(after, row_specs, col_specs) && refines(before, after)
        && below_every_stable(before, after, row_specs, col_specs)
    &&& !ok ==> after == before
}

/// The number of unknown cells of a line.
pub open spec fn unknowns(line: Seq<Cell>) -> nat
    decreases line.len(),
{
    if line.len() == 0 {
        0
    } else {
        unknowns(line.drop_last()) + if line.last() == Cell::Unknown {
            1nat
        } else {
            0nat
        }
    }
}

/// The number of unknown cells of a grid.
pub open spec fn unknown_cells(cells: Seq<Seq<Cell>>) -> nat
    decreases cells.len(),
{
    if cells.len() == 0 {
        0
    } else {
        unknown_cells(cells.drop_last()) + unknowns(cells.last())
    }
}

/// A grid knows what it knows.
pub proof fn lemma_refines_reflexive(a: Seq<Seq<Cell>>)
    ensures
        refines(a, a),
{
}

/// Knowing more than a grid that knows more is knowing more.
pub proof fn lemma_refines_transitive(a: Seq<Seq<Cell>>, b: Seq<Seq<Cell>>, c: Seq<Seq<Cell>>)
    requires
        refines(a, b),
        refines(b, c),
    ensures
        refines(a, c),
{
    assert forall|r: int| 0 <= r < a.len() implies (#[trigger] a[r]).len() == c[r].len()
        && compatible(a[r], c[r]) by {
        assert(b[r].len() == c[r].len());
    }
}

/// Two grids each of which knows what the other knows are the same grid.
pub proof fn lemma_refines_antisymmetric(a: Seq<Seq<Cell>>, b: Seq<Seq<Cell>>)
    requires
        refines(a, b),
        refines(b, a),
    ensures
        a == b,
{
    assert forall|r: int| 0 <= r < a.len() implies a[r] =~= b[r] by {
        assert(b[r].len() == a[r].len());
    }
    assert(a =~= b);
}

/// Adding knowledge to a line leaves fewer unknown cells.
pub proof fn lemma_unknowns_shrink(a: Seq<Cell>, b: Seq<Cell>)
    requires
        a.len() == b.len(),
        compatible(a, b),
    ensures
        unknowns(b) <= unknowns(a),
        a != b ==> unknowns(b) < unknowns(a),
    decreases a.len(),
{
    if a.len() > 0 {
        lemma_unknowns_shrink(a.drop_last(), b.drop_last());
        assert(a =~= a.drop_last().push(a.last()));
        assert(b =~= b.drop_last().push(b.last()));
    } else {
        assert(a =~= b);
    }
}

/// Adding knowledge to a grid leaves fewer unknown cells.
pub proof fn lemma_unknown_cells_shrink(a: Seq<Seq<Cell>>, b: Seq<Seq<Cell>>)
    requires
        refines(a, b),
    ensures
        unknown_cells(b) <= unknown_cells(a),
        a != b ==> unknown_cells(b) < unknown_cells(a),
    decreases a.len(),
{
    if a.len() > 0 {
        assert(refines(a.drop_last(), b.drop_last())) by {
            let x = a.drop_last();
            let y = b.drop_last();
            assert forall|r: int| 0 <= r < x.len() implies (#[trigger] x[r]).len() == y[r].len()
                && compatible(x[r], y[r]) by {
                assert(x[r] == a[r]);
            }
        }
        lemma_unknown_cells_shrink(a.drop_last(), b.drop_last());
        assert(a.last() == a[a.len() - 1]);
        lemma_unknowns_shrink(a.last(), b.last());
        assert(a =~= a.drop_last().push(a.last()));
        assert(b =~= b.drop_last().push(b.last()));
    } else {
        assert(a =~= b);
    }
}

/// A line that knows more has no more candidates, and its reduction knows
/// more.
pub proof fn lemma_reduced_refines(k1: Seq<Cell>, k2: Seq<Cell>, cands: Seq<Seq<Cell>>)
    requires
        k1.len() == k2.len(),
        compatible(k1, k2),
        feasible(k2, cands),
        forall|i: int| 0 <= i < cands.len() ==> (#[trigger] cands[i]).len() == k1.len(),
    ensures
        feasible(k1, cands),
        compatible(reduced(k1, cands), reduced(k2, cands)),
{
    let w = choose|i: int| 0 <= i < cands.len() && compatible(k2, #[trigger] cands[i]);
    assert forall|i: int|
        0 <= i < cands.len() && compatible(k2, #[trigger] cands[i]) implies compatible(
        k1,
        cands[i],
    ) by {}
    assert(compatible(k1, cands[w]));
    assert forall|p: int|
        0 <= p < k1.len() && reduced(k1, cands)[p] != Cell::Unknown implies reduced(k2, cands)[p]
        == reduced(k1, cands)[p] by {
        let v = reduced(k1, cands)[p];
        assert(all_agree(k1, cands, p, v));
        assert(all_agree(k2, cands, p, v));
        assert(cands[w][p] == v);
    }
}

/// Reducing rows that have candidates only adds knowledge.
pub proof fn lemma_rows_grow(
    cells: Seq<Seq<Cell>>,
    row_specs: Seq<Seq<usize>>,
    length: nat,
    upto: int,
)
    requires
        rectangular(cells, row_specs.len(), length),
        length < usize::MAX,
        0 <= upto <= cells.len(),
        forall|r: int| 0 <= r < upto ==> row_feasible(cells, row_specs, length, r),
    ensures
        refines(cells, rows_reduced(cells, row_specs, length, upto)),
{
    let next = rows_reduced(cells, row_specs, length, upto);
    assert forall|r: int| 0 <= r < cells.len() implies (#[trigger] cells[r]).len() == next[r].len()
        && compatible(cells[r], next[r]) by {
        if r < upto {
            let cands = candidates(length, row_specs[r]);
            assert(row_feasible(cells, row_specs, length, r));
            assert forall|i: int| 0 <= i < cands.len() implies (#[trigger] cands[i]).len()
                == cells[r].len() by {
                lemma_candidate_len(length, row_specs[r], i);
            }
            lemma_reduced_monotone(cells[r], cands);
        }
    }
}

/// Reducing rows keeps the cells below every stable grid that they were
/// below, and such a grid shows that every row has a candidate.
pub proof fn lemma_rows_step(
    cells: Seq<Seq<Cell>>,
    h: Seq<Seq<Cell>>,
    row_specs: Seq<Seq<usize>>,
    col_specs: Seq<Seq<usize>>,
    upto: int,
)
    requires
        col_specs.len() < usize::MAX,
        refines(cells, h),
        stable(h, row_specs, col_specs),
        0 <= upto <= cells.len(),
    ensures
        forall|r: int|
            0 <= r < cells.len() ==> row_feasible(cells, row_specs, col_specs.len(), r),
        refines(rows_reduced(cells, row_specs, col_specs.len(), upto), h),
{
    let length = col_specs.len();
    let next = rows_reduced(cells, row_specs, length, upto);
    assert forall|r: int| 0 <= r < cells.len() implies #[trigger] row_feasible(
        cells,
        row_specs,
        length,
        r,
    ) && compatible(reduced(cells[r], candidates(length, row_specs[r])), h[r]) by {
        let cands = candidates(length, row_specs[r]);
        assert(row_feasible(h, row_specs, length, r));
        assert(cells[r].len() == h[r].len());
        assert forall|i: int| 0 <= i < cands.len() implies (#[trigger] cands[i]).len()
            == cells[r].len() by {
            lemma_candidate_len(length, row_specs[r], i);
        }
        lemma_reduced_refines(cells[r], h[r], cands);
    }
    assert forall|r: int| 0 <= r < cells.len() implies (#[trigger] next[r]).len() == h[r].len()
        && compatible(next[r], h[r]) by {
        assert(row_feasible(cells, row_specs, length, r));
        assert(cells[r].len() == h[r].len());
    }
}

/// Knowing more in every row is knowing more in every column.
pub proof fn lemma_refines_column(a: Seq<Seq<Cell>>, b: Seq<Seq<Cell>>, length: nat, c: int)
    requires
        refines(a, b),
        rectangular(a, a.len(), length),
        0 <= c < length,
    ensures
        column_of(a, c).len() == column_of(b, c).len(),
        compatible(column_of(a, c), column_of(b, c)),
{
    assert forall|r: int|
        0 <= r < a.len() && column_of(a, c)[r] != Cell::Unknown implies column_of(b, c)[r]
        == column_of(a, c)[r] by {
        assert(a[r].len() == length);
    }
}

/// Reducing columns that have candidates only adds knowledge.
pub proof fn lemma_cols_grow(
    cells: Seq<Seq<Cell>>,
    col_specs: Seq<Seq<usize>>,
    height: nat,
    upto: int,
)
    requires
        rectangular(cells, height, col_specs.len()),
        height < usize::MAX,
        0 <= upto <= col_specs.len(),
        forall|c: int| 0 <= c < upto ==> col_feasible(cells, col_specs, height, c),
    ensures
        refines(cells, cols_reduced(cells, col_specs, height, upto)),
{
    let next = cols_reduced(cells, col_specs, height, upto);
    assert forall|r: int| 0 <= r < cells.len() implies (#[trigger] cells[r]).len() == next[r].len()
        && compatible(cells[r], next[r]) by {
        assert forall|c: int|
            0 <= c < cells[r].len() && cells[r][c] != Cell::Unknown implies next[r][c]
            == cells[r][c] by {
            if c < upto {
                let col = column_of(cells, c);
                let cands = candidates(height, col_specs[c]);
                assert(col_feasible(cells, col_specs, height, c));
                assert forall|i: int| 0 <= i < cands.len() implies (#[trigger] cands[i]).len()
                    == col.len() by {
                    lemma_candidate_len(height, col_specs[c], i);
                }
                lemma_reduced_monotone(col, cands);
                assert(col[r] == cells[r][c]);
            }
        }
    }
}

/// Reducing columns keeps the cells below every stable grid that they were
/// below, and such a grid shows that every column has a candidate.
pub proof fn lemma_cols_step(
    cells: Seq<Seq<Cell>>,
    h: Seq<Seq<Cell>>,
    row_specs: Seq<Seq<usize>>,
    col_specs: Seq<Seq<usize>>,
    upto: int,
)
    requires
        row_specs.len() < usize::MAX,
        rectangular(cells, row_specs.len(), col_specs.len()),
        refines(cells, h),
        stable(h, row_specs, col_specs),
        0 <= upto <= col_specs.len(),
    ensures
        forall|c: int|
            0 <= c < col_specs.len() ==> col_feasible(cells, col_specs, row_specs.len(), c),
        refines(cols_reduced(cells, col_specs, row_specs.len(), upto), h),
{
    let height = row_specs.len();
    let length = col_specs.len();
    let next = cols_reduced(cells, col_specs, height, upto);
    assert forall|c: int| 0 <= c < length implies #[trigger] col_feasible(
        cells,
        col_specs,
        height,
        c,
    ) && compatible(
        reduced(column_of(cells, c), candidates(height, col_specs[c])),
        column_of(h, c),
    ) by {
        let cands = candidates(height, col_specs[c]);
        assert(col_feasible(h, col_specs, height, c));
        lemma_refines_column(cells, h, length, c);
        assert forall|i: int| 0 <= i < cands.len() implies (#[trigger] cands[i]).len()
            == column_of(cells, c).len() by {
            lemma_candidate_len(height, col_specs[c], i);
        }
        lemma_reduced_refines(column_of(cells, c), column_of(h, c), cands);
    }
    assert forall|r: int| 0 <= r < next.len() implies (#[trigger] next[r]).len() == h[r].len()
        && compatible(next[r], h[r]) by {
        assert(cells[r].len() == h[r].len());
        assert forall|c: int|
            0 <= c < next[r].len() && next[r][c] != Cell::Unknown implies h[r][c]
            == next[r][c] by {
            assert(col_feasible(cells, col_specs, height, c));
            if c < upto {
                assert(column_of(h, c)[r] == h[r][c]);
            }
        }
    }
}

/// Reduces every row, then every column, again and again until a pass
/// changes nothing.
///
/// Returns `false`, with the cells as they were, where a line has no
/// candidate left. Otherwise the grid then holds all that propagation can
/// deduce.
pub fn propagate<W: Redraw>(picross: &mut Grid, w: &mut W) -> (ok: bool)
    requires
        old(picross).wf(),
    ensures
        final(picross).wf(),
        final(picross).same_puzzle(old(picross)),
        propagated(
            old(picross)@,
            final(picross)@,
            ok,
            old(picross).row_specs(),
            old(picross).col_specs(),
        ),
{
    let saved = picross.cells.clone();
    let ghost start = picross@;
    let ghost rs = picross.row_specs();
    let ghost cs = picross.col_specs();
    assert(lines_of(saved@) =~~= start);
    loop
        invariant
            picross.wf(),
            picross.same_puzzle(old(picross)),
            start == old(picross)@,
            rs == picross.row_specs(),
            cs == picross.col_specs(),
            lines_of(saved@) == start,
            refines(start, picross@),
            below_every_stable(start, picross@, rs, cs),
        decreases unknown_cells(picross@),
    {
        let ghost cur = picross@;
        let dirty_rows = match combex_rows(picross, w) {
            Some(dirty) => dirty,
            None => {
                proof {
                    if has_stable_refinement(start, rs, cs) {
                        let h = choose|h: Seq<Seq<Cell>>| #[trigger]
                            stable(h, rs, cs) && refines(start, h);
                        lemma_rows_step(cur, h, rs, cs, 0);
                    }
                }
                picross.cells = saved;
                return false;
            },
        };
        let ghost mid = picross@;
        proof {
            lemma_rows_grow(cur, rs, cs.len(), cur.len() as int);
            lemma_refines_transitive(start, cur, mid);
            lemma_unknown_cells_shrink(cur, mid);
            assert forall|h: Seq<Seq<Cell>>| #[trigger]
                stable(h, rs, cs) && refines(start, h) implies refines(mid, h) by {
                lemma_rows_step(cur, h, rs, cs, cur.len() as int);
            }
        }
        let dirty_cols = match combex_cols(picross, w) {
            Some(dirty) => dirty,
            None => {
                proof {
                    if has_stable_refinement(start, rs, cs) {
                        let h = choose|h: Seq<Seq<Cell>>| #[trigger]
                            stable(h, rs, cs) && refines(start, h);
                        lemma_cols_step(mid, h, rs, cs, 0);
                    }
                }
                picross.cells = saved;
                return false;
            },
        };
        let ghost next = picross@;
        proof {
            lemma_cols_grow(mid, cs, rs.len(), cs.len() as int);
            lemma_refines_transitive(start, mid, next);
            lemma_unknown_cells_shrink(mid, next);
            assert forall|h: Seq<Seq<Cell>>| #[trigger]
                stable(h, rs, cs) && refines(start, h) implies refines(next, h) by {
                lemma_cols_step(mid, h, rs, cs, cs.len() as int);
            }
        }
        if !dirty_rows && !dirty_cols {
            proof {
                assert forall|r: int| 0 <= r < rs.len() implies #[trigger] row_feasible(
                    next,
                    rs,
                    cs.len(),
                    r,
                ) && reduced(next[r], candidates(cs.len(), rs[r])) == next[r] by {
                    assert(row_feasible(cur, rs, cs.len(), r));
                    assert(mid[r] == reduced(cur[r], candidates(cs.len(), rs[r])));
                }
                assert forall|c: int| 0 <= c < cs.len() implies #[trigger] col_feasible(
                    next,
                    cs,
                    rs.len(),
                    c,
                ) && reduced(column_of(next, c), candidates(rs.len(), cs[c])) == column_of(
                    next,
                    c,
                ) by {
                    assert(col_feasible(mid, cs, rs.len(), c));
                    let line = reduced(column_of(mid, c), candidates(rs.len(), cs[c]));
                    assert forall|r: int| 0 <= r < rs.len() implies line[r] == column_of(
                        next,
                        c,
                    )[r] by {
                        assert(mid[r].len() == cs.len());
                        assert(next[r][c] == line[r]);
                    }
                    assert(line =~= column_of(next, c));
                }
                assert(stable(next, rs, cs));
            }
            return true;
        }
        w.redraw(picross);
    }
}

/// Propagation is idempotent: propagating again what propagation has left
/// ends in the same way and changes nothing.
pub proof fn lemma_propagation_idempotent(
    start: Seq<Seq<Cell>>,
    once: Seq<Seq<Cell>>,
    first: bool,
    twice: Seq<Seq<Cell>>,
    second: bool,
    row_specs: Seq<Seq<usize>>,
    col_specs: Seq<Seq<usize>>,
)
    requires
        propagated(start, once, first, row_specs, col_specs),
        propagated(once, twice, second, row_specs, col_specs),
    ensures
        second == first,
        twice == once,
{
    if first {
        lemma_refines_reflexive(once);
        assert(stable(once, row_specs, col_specs) && refines(once, once));
        lemma_refines_antisymmetric(once, twice);
    }
}

} // verus!
