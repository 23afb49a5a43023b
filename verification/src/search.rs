//! The search: what propagation leaves open is decided row by row, depth
//! first, and undone where it leads nowhere.

use crate::blocks::satisfies;
use crate::cell::{blank, compatible, is_blank, is_resolved, is_row_consistent_with, resolved, Cell};
use crate::consistency::{
    columns_consistent, is_consistent, is_solution, lemma_completion_consistent, line_consistent,
};
use crate::display::Redraw;
use crate::grid::{all_positive, column_of, lines_of, rectangular, Grid};
use crate::propagate::{
    col_feasible, lemma_refines_transitive, propagate, refines, row_feasible, stable,
};
use crate::reduce::{all_agree, feasible, reduced};
use crate::rows::{
    candidates, gen_picross_rows, is_candidate, lemma_candidate_len, lemma_candidates,
    lemma_candidates_complete,
};
use vstd::prelude::*;

verus! {

/// `s` is what a successful search from row `from` on can leave of `cells`:
/// a grid without unknown cells in which every column holds exactly the
/// blocks of its specification. The rows before `from` and the rows without
/// unknown cells are those of `cells`; each other row is a candidate of its
/// specification that agrees with what `cells` knows of it.
pub open spec fn completes(
    cells: Seq<Seq<Cell>>,
    s: Seq<Seq<Cell>>,
    from: int,
    row_specs: Seq<Seq<usize>>,
    col_specs: Seq<Seq<usize>>,
) -> bool {
    let height = row_specs.len();
    let length = col_specs.len();
    &&& rectangular(s, height, length)
    &&& forall|r: int| 0 <= r < height ==> resolved(#[trigger] s[r])
    &&& forall|r: int|
        0 <= r < height && (r < from || resolved(cells[r])) ==> #[trigger] s[r] == cells[r]
    &&& forall|r: int|
        from <= r < height && !resolved(cells[r]) ==> compatible(cells[r], #[trigger] s[r])
            && is_candidate(s[r], length, row_specs[r])
    &&& forall|c: int| 0 <= c < length ==> satisfies(#[trigger] column_of(s, c), col_specs[c])
}

/// No outcome of a search from row `from` on has `line` at row `from`.
pub open spec fn leads_nowhere(
    cells: Seq<Seq<Cell>>,
    from: int,
    line: Seq<Cell>,
    row_specs: Seq<Seq<usize>>,
    col_specs: Seq<Seq<usize>>,
) -> bool {
    forall|s: Seq<Seq<Cell>>| #[trigger]
        completes(cells, s, from, row_specs, col_specs) ==> s[from] != line
}

/// `a` comes before `b` among the candidates for a line of `len` cells with
/// the blocks of `spec`.
pub open spec fn precedes(a: Seq<Cell>, b: Seq<Cell>, len: nat, spec: Seq<usize>) -> bool {
    exists|i: int, j: int|
        0 <= i < j < candidates(len, spec).len() && #[trigger] candidates(len, spec)[i] == a
            && #[trigger] candidates(len, spec)[j] == b
}

/// The rows before index `r` are the same in `s` and in `t`.
pub open spec fn same_rows_before(s: Seq<Seq<Cell>>, t: Seq<Seq<Cell>>, r: int) -> bool {
    forall|q: int| 0 <= q < r ==> s[q] == t[q]
}

/// The search meets `s` before `t`: in the first row in which the two
/// differ, which is row `from` or a later one, the line of `s` comes before
/// the line of `t` among the candidates of that row.
pub open spec fn comes_before(
    s: Seq<Seq<Cell>>,
    t: Seq<Seq<Cell>>,
    from: int,
    row_specs: Seq<Seq<usize>>,
    col_specs: Seq<Seq<usize>>,
) -> bool {
    exists|r: int|
        from <= r < row_specs.len() && #[trigger] same_rows_before(s, t, r) && precedes(
            s[r],
            t[r],
            col_specs.len(),
            row_specs[r],
        )
}

/// `s` is the outcome that a search from row `from` on meets first.
pub open spec fn first_completion(
    cells: Seq<Seq<Cell>>,
    s: Seq<Seq<Cell>>,
    from: int,
    row_specs: Seq<Seq<usize>>,
    col_specs: Seq<Seq<usize>>,
) -> bool {
    &&& completes(cells, s, from, row_specs, col_specs)
    &&& forall|t: Seq<Seq<Cell>>| #[trigger]
        completes(cells, t, from, row_specs, col_specs) && t != s ==> comes_before(
            s,
            t,
            from,
            row_specs,
            col_specs,
        )
}

/// A grid without unknown rows whose columns pass the check is its own
/// outcome.
proof fn lemma_search_done(
    cells: Seq<Seq<Cell>>,
    row_specs: Seq<Seq<usize>>,
    col_specs: Seq<Seq<usize>>,
)
    requires
        rectangular(cells, row_specs.len(), col_specs.len()),
        forall|r: int| 0 <= r < cells.len() ==> resolved(#[trigger] cells[r]),
        columns_consistent(cells, col_specs),
    ensures
        first_completion(cells, cells, cells.len() as int, row_specs, col_specs),
{
    assert forall|c: int| 0 <= c < col_specs.len() implies satisfies(
        #[trigger] column_of(cells, c),
        col_specs[c],
    ) by {
        let col = column_of(cells, c);
        assert forall|r: int| 0 <= r < col.len() implies col[r] != Cell::Unknown by {
            assert(resolved(cells[r]));
            assert(cells[r].len() == col_specs.len());
        }
        assert(line_consistent(col, col_specs[c]));
    }
    assert forall|t: Seq<Seq<Cell>>| #[trigger]
        completes(cells, t, cells.len() as int, row_specs, col_specs) implies t == cells by {
        assert(t =~= cells);
    }
}

/// Skipping a row without unknown cells loses no outcome and adds none.
proof fn lemma_search_skip(
    cells: Seq<Seq<Cell>>,
    s: Seq<Seq<Cell>>,
    from: int,
    row_specs: Seq<Seq<usize>>,
    col_specs: Seq<Seq<usize>>,
)
    requires
        0 <= from < row_specs.len(),
        cells.len() == row_specs.len(),
        resolved(cells[from]),
    ensures
        completes(cells, s, from, row_specs, col_specs) == completes(
            cells,
            s,
            from + 1,
            row_specs,
            col_specs,
        ),
{
    if completes(cells, s, from, row_specs, col_specs) {
        assert(completes(cells, s, from + 1, row_specs, col_specs));
    }
    if completes(cells, s, from + 1, row_specs, col_specs) {
        assert(completes(cells, s, from, row_specs, col_specs));
    }
}

/// An outcome of the search below a tried row is an outcome of the search
/// from that row.
proof fn lemma_search_found(
    cells: Seq<Seq<Cell>>,
    tried: Seq<Seq<Cell>>,
    s: Seq<Seq<Cell>>,
    from: int,
    row_specs: Seq<Seq<usize>>,
    col_specs: Seq<Seq<usize>>,
)
    requires
        0 <= from < row_specs.len(),
        cells.len() == row_specs.len(),
        tried == cells.update(from, tried[from]),
        !resolved(cells[from]),
        resolved(tried[from]),
        compatible(cells[from], tried[from]),
        is_candidate(tried[from], col_specs.len(), row_specs[from]),
        completes(tried, s, from + 1, row_specs, col_specs),
    ensures
        completes(cells, s, from, row_specs, col_specs),
{
    assert forall|r: int|
        0 <= r < row_specs.len() && (r < from || resolved(cells[r])) implies #[trigger] s[r]
        == cells[r] by {
        assert(tried[r] == cells[r]);
    }
    assert forall|r: int| from <= r < row_specs.len() && !resolved(cells[r]) implies compatible(
        cells[r],
        #[trigger] s[r],
    ) && is_candidate(s[r], col_specs.len(), row_specs[r]) by {
        if r == from {
            assert(s[r] == tried[r]);
        } else {
            assert(tried[r] == cells[r]);
        }
    }
}

/// An outcome of the search from a row is, once its line for that row has
/// been written, an outcome of the search below it, and the grid then passes
/// the check.
proof fn lemma_search_tried(
    cells: Seq<Seq<Cell>>,
    tried: Seq<Seq<Cell>>,
    s: Seq<Seq<Cell>>,
    from: int,
    row_specs: Seq<Seq<usize>>,
    col_specs: Seq<Seq<usize>>,
)
    requires
        0 <= from < row_specs.len(),
        row_specs.len() < usize::MAX,
        rectangular(cells, row_specs.len(), col_specs.len()),
        tried == cells.update(from, s[from]),
        completes(cells, s, from, row_specs, col_specs),
    ensures
        completes(tried, s, from + 1, row_specs, col_specs),
        columns_consistent(tried, col_specs),
{
    assert forall|r: int|
        0 <= r < row_specs.len() && (r < from + 1 || resolved(tried[r])) implies #[trigger] s[r]
        == tried[r] by {
        if r != from {
            assert(tried[r] == cells[r]);
        }
    }
    assert forall|r: int|
        from + 1 <= r < row_specs.len() && !resolved(tried[r]) implies compatible(
        tried[r],
        #[trigger] s[r],
    ) && is_candidate(s[r], col_specs.len(), row_specs[r]) by {
        assert(tried[r] == cells[r]);
    }
    assert forall|c: int| 0 <= c < col_specs.len() implies line_consistent(
        #[trigger] column_of(tried, c),
        col_specs[c],
    ) by {
        let line = column_of(tried, c);
        let full = column_of(s, c);
        assert(satisfies(full, col_specs[c]));
        assert forall|r: int| 0 <= r < line.len() && line[r] != Cell::Unknown implies full[r]
            == line[r] by {
            assert(s[r].len() == col_specs.len());
            assert(cells[r].len() == col_specs.len());
            if r != from {
                assert(tried[r] == cells[r]);
                if !(r < from || resolved(cells[r])) {
                    assert(compatible(cells[r], s[r]));
                } else {
                    assert(s[r] == cells[r]);
                }
            }
        }
        lemma_completion_consistent(line, full, col_specs[c]);
    }
}

/// The first outcome below a skipped row is the first outcome from that row.
proof fn lemma_first_skip(
    cells: Seq<Seq<Cell>>,
    s: Seq<Seq<Cell>>,
    from: int,
    row_specs: Seq<Seq<usize>>,
    col_specs: Seq<Seq<usize>>,
)
    requires
        0 <= from < row_specs.len(),
        cells.len() == row_specs.len(),
        resolved(cells[from]),
        first_completion(cells, s, from + 1, row_specs, col_specs),
    ensures
        first_completion(cells, s, from, row_specs, col_specs),
{
    lemma_search_skip(cells, s, from, row_specs, col_specs);
    assert forall|t: Seq<Seq<Cell>>| #[trigger]
        completes(cells, t, from, row_specs, col_specs) && t != s implies comes_before(
        s,
        t,
        from,
        row_specs,
        col_specs,
    ) by {
        lemma_search_skip(cells, t, from, row_specs, col_specs);
        assert(comes_before(s, t, from + 1, row_specs, col_specs));
        let r = choose|r: int|
            from + 1 <= r < row_specs.len() && #[trigger] same_rows_before(s, t, r) && precedes(
                s[r],
                t[r],
                col_specs.len(),
                row_specs[r],
            );
        assert(same_rows_before(s, t, r));
    }
}

/// The first outcome below the first candidate that leads anywhere is the
/// first outcome from its row.
proof fn lemma_first_found(
    cells: Seq<Seq<Cell>>,
    tried: Seq<Seq<Cell>>,
    s: Seq<Seq<Cell>>,
    from: int,
    j: int,
    row_specs: Seq<Seq<usize>>,
    col_specs: Seq<Seq<usize>>,
)
    requires
        0 <= from < row_specs.len(),
        row_specs.len() < usize::MAX,
        rectangular(cells, row_specs.len(), col_specs.len()),
        0 <= j < candidates(col_specs.len(), row_specs[from]).len(),
        tried == cells.update(from, candidates(col_specs.len(), row_specs[from])[j]),
        !resolved(cells[from]),
        resolved(tried[from]),
        compatible(cells[from], tried[from]),
        forall|i: int|
            0 <= i < j ==> leads_nowhere(
                cells,
                from,
                #[trigger] candidates(col_specs.len(), row_specs[from])[i],
                row_specs,
                col_specs,
            ),
        first_completion(tried, s, from + 1, row_specs, col_specs),
    ensures
        first_completion(cells, s, from, row_specs, col_specs),
{
    let cands = candidates(col_specs.len(), row_specs[from]);
    assert(tried[from] == cands[j]);
    assert(is_candidate(tried[from], col_specs.len(), row_specs[from]));
    lemma_search_found(cells, tried, s, from, row_specs, col_specs);
    assert(s[from] == tried[from]);
    assert forall|t: Seq<Seq<Cell>>| #[trigger]
        completes(cells, t, from, row_specs, col_specs) && t != s implies comes_before(
        s,
        t,
        from,
        row_specs,
        col_specs,
    ) by {
        if t[from] == cands[j] {
            assert(tried =~= cells.update(from, t[from]));
            lemma_search_tried(cells, tried, t, from, row_specs, col_specs);
            assert(comes_before(s, t, from + 1, row_specs, col_specs));
            let r = choose|r: int|
                from + 1 <= r < row_specs.len() && #[trigger] same_rows_before(s, t, r)
                    && precedes(s[r], t[r], col_specs.len(), row_specs[r]);
            assert(same_rows_before(s, t, r));
        } else {
            assert(is_candidate(t[from], col_specs.len(), row_specs[from]));
            let i = choose|i: int| 0 <= i < cands.len() && #[trigger] cands[i] == t[from];
            if i < j {
                assert(leads_nowhere(cells, from, cands[i], row_specs, col_specs));
            }
            assert(cands[j] == s[from] && cands[i] == t[from]);
            assert(precedes(s[from], t[from], col_specs.len(), row_specs[from]));
            assert(same_rows_before(s, t, from)) by {
                assert forall|q: int| 0 <= q < from implies s[q] == t[q] by {
                    assert(s[q] == cells[q]);
                    assert(t[q] == cells[q]);
                }
            }
        }
    }
}

/// Decides the rows from `start_row` on, one after the other, and stops at
/// the first way to do so that leaves every column with exactly the blocks
/// of its specification.
///
/// A row without unknown cells is left as it is. For any other row the
/// candidates of its specification that agree with what is known of it are
/// tried in order; a candidate after which a column fails the consistency
/// check is given up at once.
///
/// Returns `false`, with the cells as they were, where there is no such way.
pub fn backtrack_from<W: Redraw>(picross: &mut Grid, start_row: usize, w: &mut W) -> (ok: bool)
    requires
        old(picross).wf(),
        start_row <= old(picross).height,
        forall|r: int| 0 <= r < start_row ==> resolved(#[trigger] old(picross)@[r]),
        columns_consistent(old(picross)@, old(picross).col_specs()),
    ensures
        final(picross).wf(),
        final(picross).same_puzzle(old(picross)),
        ok == exists|s: Seq<Seq<Cell>>|
            completes(
                old(picross)@,
                s,
                start_row as int,
                old(picross).row_specs(),
                old(picross).col_specs(),
            ),
        ok ==> first_completion(
            old(picross)@,
            final(picross)@,
            start_row as int,
            old(picross).row_specs(),
            old(picross).col_specs(),
        ),
        !ok ==> final(picross)@ == old(picross)@,
    decreases old(picross).height - start_row,
{
    let ghost g = picross@;
    let ghost rs = picross.row_specs();
    let ghost cs = picross.col_specs();
    let ghost from = start_row as int;
    if start_row == picross.height {
        proof {
            lemma_search_done(g, rs, cs);
        }
        return true;
    }
    let saved_row = picross.cells[start_row].clone();
    if is_resolved(&saved_row) {
        let found = backtrack_from(picross, start_row + 1, w);
        proof {
            if found {
                lemma_first_skip(g, picross@, from, rs, cs);
            } else {
                assert forall|s: Seq<Seq<Cell>>| !completes(g, s, from, rs, cs) by {
                    lemma_search_skip(g, s, from, rs, cs);
                }
            }
        }
        return found;
    }
    let nothing_known = is_blank(&saved_row);
    let spec = picross.row_spec[start_row].clone();
    let mut rows = gen_picross_rows(picross.length, &spec);
    let ghost cands = candidates(picross.length as nat, rs[from]);
    proof {
        lemma_candidates(picross.length as nat, rs[from]);
    }
    loop
        invariant
            picross.wf(),
            picross.same_puzzle(old(picross)),
            g == old(picross)@,
            rs == picross.row_specs(),
            cs == picross.col_specs(),
            from == start_row,
            start_row < picross.height,
            rectangular(g, picross.height as nat, picross.length as nat),
            forall|r: int| 0 <= r < start_row ==> resolved(#[trigger] g[r]),
            !resolved(g[from]),
            saved_row@ == g[from],
            nothing_known == blank(g[from]),
            rows.wf(),
            rows.all() == cands,
            cands == candidates(picross.length as nat, rs[from]),
            forall|i: int|
                0 <= i < cands.len() ==> (#[trigger] cands[i]).len() == picross.length
                    && satisfies(cands[i], rs[from]),
            forall|r: int| 0 <= r < picross.height && r != from ==> picross@[r] == g[r],
            forall|j: int|
                0 <= j < rows.produced() ==> leads_nowhere(g, from, #[trigger] cands[j], rs, cs),
        ensures
            picross.wf(),
            picross.same_puzzle(old(picross)),
            forall|r: int| 0 <= r < picross.height && r != from ==> picross@[r] == g[r],
            forall|j: int|
                0 <= j < cands.len() ==> leads_nowhere(g, from, #[trigger] cands[j], rs, cs),
        decreases cands.len() - rows.produced(),
    {
        let ghost j = rows.produced() as int;
        match rows.next() {
            None => {
                break ;
            },
            Some(test_row) => {
                w.redraw(picross);
                if nothing_known || is_row_consistent_with(&saved_row, &test_row) {
                    assert(compatible(g[from], cands[j]));
                    picross.cells[start_row] = test_row;
                    let ghost tried = picross@;
                    assert(tried =~= g.update(from, cands[j]));
                    assert(rectangular(tried, picross.height as nat, picross.length as nat));
                    let mut found = false;
                    if is_consistent(picross) {
                        found = backtrack_from(picross, start_row + 1, w);
                    }
                    if found {
                        proof {
                            lemma_first_found(g, tried, picross@, from, j, rs, cs);
                        }
                        return true;
                    }
                    assert(picross@ == tried);
                    assert forall|s: Seq<Seq<Cell>>| #[trigger]
                        completes(g, s, from, rs, cs) implies s[from] != cands[j] by {
                        if s[from] == cands[j] {
                            lemma_search_tried(g, tried, s, from, rs, cs);
                        }
                    }
                } else {
                    assert forall|s: Seq<Seq<Cell>>| #[trigger]
                        completes(g, s, from, rs, cs) implies s[from] != cands[j] by {}
                }
            },
        }
    }
    picross.cells[start_row] = saved_row;
    assert(picross@ =~= g);
    assert forall|s: Seq<Seq<Cell>>| !completes(g, s, from, rs, cs) by {
        if completes(g, s, from, rs, cs) {
            assert(is_candidate(s[from], picross.length as nat, rs[from]));
            let i = choose|i: int|
                0 <= i < candidates(picross.length as nat, rs[from]).len()
                    && #[trigger] candidates(picross.length as nat, rs[from])[i] == s[from];
            assert(leads_nowhere(g, from, cands[i], rs, cs));
        }
    }
    false
}

/// `s` is the solution that agrees with `start` and that the search meets
/// first.
pub open spec fn first_solution(
    start: Seq<Seq<Cell>>,
    s: Seq<Seq<Cell>>,
    row_specs: Seq<Seq<usize>>,
    col_specs: Seq<Seq<usize>>,
) -> bool {
    &&& is_solution(s, row_specs, col_specs)
    &&& refines(start, s)
    &&& forall|t: Seq<Seq<Cell>>| #[trigger]
        is_solution(t, row_specs, col_specs) && refines(start, t) && t != s ==> comes_before(
            s,
            t,
            0,
            row_specs,
            col_specs,
        )
}

/// The search order decides: no two grids are both the first solution.
pub proof fn lemma_first_solution_unique(
    start: Seq<Seq<Cell>>,
    s: Seq<Seq<Cell>>,
    t: Seq<Seq<Cell>>,
    row_specs: Seq<Seq<usize>>,
    col_specs: Seq<Seq<usize>>,
)
    requires
        all_positive(row_specs),
        col_specs.len() < usize::MAX,
        first_solution(start, s, row_specs, col_specs),
        first_solution(start, t, row_specs, col_specs),
    ensures
        s == t,
{
    if s != t {
        let length = col_specs.len();
        assert(comes_before(s, t, 0, row_specs, col_specs));
        assert(comes_before(t, s, 0, row_specs, col_specs));
        let a = choose|r: int|
            0 <= r < row_specs.len() && #[trigger] same_rows_before(s, t, r) && precedes(
                s[r],
                t[r],
                length,
                row_specs[r],
            );
        let b = choose|r: int|
            0 <= r < row_specs.len() && #[trigger] same_rows_before(t, s, r) && precedes(
                t[r],
                s[r],
                length,
                row_specs[r],
            );
        lemma_candidates(length, row_specs[a]);
        lemma_candidates(length, row_specs[b]);
        assert(s[a] != t[a]);
        assert(t[b] != s[b]);
        assert(a == b);
    }
}

/// A line without unknown cells that is one of the candidates is the only
/// candidate that agrees with it, and reducing it changes nothing.
pub proof fn lemma_resolved_line_reduced(line: Seq<Cell>, cands: Seq<Seq<Cell>>, i: int)
    requires
        resolved(line),
        0 <= i < cands.len(),
        cands[i] == line,
        forall|j: int| 0 <= j < cands.len() ==> (#[trigger] cands[j]).len() == line.len(),
    ensures
        feasible(line, cands),
        reduced(line, cands) == line,
{
    assert(compatible(line, cands[i]));
    assert forall|p: int| 0 <= p < line.len() implies reduced(line, cands)[p] == line[p] by {
        assert forall|j: int|
            0 <= j < cands.len() && compatible(line, #[trigger] cands[j]) implies cands[j][p]
            == line[p] by {}
        assert(all_agree(line, cands, p, line[p]));
        if line[p] == Cell::Empty {
            assert(cands[i][p] != Cell::Filled);
            assert(!all_agree(line, cands, p, Cell::Filled));
        }
    }
    assert(reduced(line, cands) =~= line);
}

/// A line without unknown cells that has a candidate that agrees with it is
/// that candidate.
pub proof fn lemma_feasible_resolved(line: Seq<Cell>, len: nat, spec: Seq<usize>)
    requires
        resolved(line),
        line.len() == len,
        len < usize::MAX,
        feasible(line, candidates(len, spec)),
    ensures
        is_candidate(line, len, spec),
{
    let cands = candidates(len, spec);
    let w = choose|i: int| 0 <= i < cands.len() && compatible(line, #[trigger] cands[i]);
    lemma_candidate_len(len, spec, w);
    assert(cands[w] =~= line);
}

/// Nothing more can be deduced of a solution.
pub proof fn lemma_solution_stable(
    s: Seq<Seq<Cell>>,
    row_specs: Seq<Seq<usize>>,
    col_specs: Seq<Seq<usize>>,
)
    requires
        is_solution(s, row_specs, col_specs),
        row_specs.len() < usize::MAX,
        col_specs.len() < usize::MAX,
    ensures
        stable(s, row_specs, col_specs),
{
    let height = row_specs.len();
    let length = col_specs.len();
    assert forall|r: int| 0 <= r < height implies #[trigger] row_feasible(
        s,
        row_specs,
        length,
        r,
    ) && reduced(s[r], candidates(length, row_specs[r])) == s[r] by {
        let cands = candidates(length, row_specs[r]);
        assert(satisfies(s[r], row_specs[r]));
        lemma_candidates_complete(s[r], row_specs[r]);
        let i = choose|i: int| 0 <= i < cands.len() && #[trigger] cands[i] == s[r];
        assert forall|j: int| 0 <= j < cands.len() implies (#[trigger] cands[j]).len()
            == s[r].len() by {
            lemma_candidate_len(length, row_specs[r], j);
        }
        lemma_resolved_line_reduced(s[r], cands, i);
    }
    assert forall|c: int| 0 <= c < length implies #[trigger] col_feasible(
        s,
        col_specs,
        height,
        c,
    ) && reduced(column_of(s, c), candidates(height, col_specs[c])) == column_of(s, c) by {
        let col = column_of(s, c);
        let cands = candidates(height, col_specs[c]);
        assert(satisfies(col, col_specs[c]));
        lemma_candidates_complete(col, col_specs[c]);
        let i = choose|i: int| 0 <= i < cands.len() && #[trigger] cands[i] == col;
        assert forall|j: int| 0 <= j < cands.len() implies (#[trigger] cands[j]).len()
            == col.len() by {
            lemma_candidate_len(height, col_specs[c], j);
        }
        lemma_resolved_line_reduced(col, cands, i);
    }
}

/// A grid of which nothing more can be deduced passes the consistency
/// check.
pub proof fn lemma_stable_consistent(
    cells: Seq<Seq<Cell>>,
    row_specs: Seq<Seq<usize>>,
    col_specs: Seq<Seq<usize>>,
)
    requires
        stable(cells, row_specs, col_specs),
        all_positive(col_specs),
        row_specs.len() < usize::MAX,
    ensures
        columns_consistent(cells, col_specs),
{
    let height = row_specs.len();
    assert forall|c: int| 0 <= c < col_specs.len() implies line_consistent(
        #[trigger] column_of(cells, c),
        col_specs[c],
    ) by {
        let col = column_of(cells, c);
        let cands = candidates(height, col_specs[c]);
        assert(col_feasible(cells, col_specs, height, c));
        let w = choose|i: int| 0 <= i < cands.len() && compatible(col, #[trigger] cands[i]);
        lemma_candidates(height, col_specs[c]);
        lemma_completion_consistent(col, cands[w], col_specs[c]);
    }
}

/// What the search leaves of a grid of which nothing more can be deduced
/// is a solution, and knows what that grid knows.
pub proof fn lemma_completion_is_solution(
    cells: Seq<Seq<Cell>>,
    s: Seq<Seq<Cell>>,
    row_specs: Seq<Seq<usize>>,
    col_specs: Seq<Seq<usize>>,
)
    requires
        stable(cells, row_specs, col_specs),
        completes(cells, s, 0, row_specs, col_specs),
        all_positive(row_specs),
        col_specs.len() < usize::MAX,
    ensures
        is_solution(s, row_specs, col_specs),
        refines(cells, s),
{
    let length = col_specs.len();
    assert forall|r: int| 0 <= r < row_specs.len() implies satisfies(
        #[trigger] s[r],
        row_specs[r],
    ) && cells[r].len() == s[r].len() && compatible(cells[r], s[r]) by {
        lemma_candidates(length, row_specs[r]);
        assert(cells[r].len() == length);
        if resolved(cells[r]) {
            assert(row_feasible(cells, row_specs, length, r));
            lemma_feasible_resolved(cells[r], length, row_specs[r]);
        }
        assert(is_candidate(s[r], length, row_specs[r]));
    }
    assert forall|r: int| 0 <= r < cells.len() implies (#[trigger] cells[r]).len() == s[r].len()
        && compatible(cells[r], s[r]) by {
        assert(satisfies(s[r], row_specs[r]));
    }
}

/// A solution that knows what a grid knows is something that the search can
/// leave of that grid.
pub proof fn lemma_solution_completes(
    cells: Seq<Seq<Cell>>,
    s: Seq<Seq<Cell>>,
    row_specs: Seq<Seq<usize>>,
    col_specs: Seq<Seq<usize>>,
)
    requires
        is_solution(s, row_specs, col_specs),
        refines(cells, s),
        col_specs.len() < usize::MAX,
    ensures
        completes(cells, s, 0, row_specs, col_specs),
{
    assert forall|r: int| 0 <= r < row_specs.len() implies resolved(#[trigger] s[r]) by {
        assert(satisfies(s[r], row_specs[r]));
    }
    assert forall|r: int|
        0 <= r < row_specs.len() && (r < 0 || resolved(cells[r])) implies #[trigger] s[r]
        == cells[r] by {
        assert(cells[r].len() == s[r].len());
        assert(s[r] =~= cells[r]);
    }
    assert forall|r: int| 0 <= r < row_specs.len() && !resolved(cells[r]) implies compatible(
        cells[r],
        #[trigger] s[r],
    ) && is_candidate(s[r], col_specs.len(), row_specs[r]) by {
        assert(cells[r].len() == s[r].len());
        assert(satisfies(s[r], row_specs[r]));
        lemma_candidates_complete(s[r], row_specs[r]);
    }
}

/// Solves the puzzle: propagates, then searches.
///
/// Returns `true` exactly where the puzzle has a solution that agrees with
/// the cells that are known at the start, and the grid then holds such a
/// solution. Otherwise the cells are left as they were.
pub fn solve<W: Redraw>(picross: &mut Grid, w: &mut W) -> (ok: bool)
    requires
        old(picross).wf(),
    ensures
        final(picross).wf(),
        final(picross).same_puzzle(old(picross)),
        ok == exists|s: Seq<Seq<Cell>>|
            is_solution(s, old(picross).row_specs(), old(picross).col_specs()) && refines(
                old(picross)@,
                s,
            ),
        ok ==> first_solution(
            old(picross)@,
            final(picross)@,
            old(picross).row_specs(),
            old(picross).col_specs(),
        ),
        ok ==> columns_consistent(final(picross)@, old(picross).col_specs()) && forall|r: int|
            0 <= r < old(picross).height ==> line_consistent(
                #[trigger] final(picross)@[r],
                old(picross).row_specs()[r],
            ),
        !ok ==> final(picross)@ == old(picross)@,
{
    let ghost start = picross@;
    let ghost rs = picross.row_specs();
    let ghost cs = picross.col_specs();
    let saved = picross.cells.clone();
    assert(lines_of(saved@) =~~= start);
    if !propagate(picross, w) {
        proof {
            assert forall|s: Seq<Seq<Cell>>| !(is_solution(s, rs, cs) && refines(start, s)) by {
                if is_solution(s, rs, cs) && refines(start, s) {
                    lemma_solution_stable(s, rs, cs);
                }
            }
        }
        return false;
    }
    let ghost fixed = picross@;
    proof {
        lemma_stable_consistent(fixed, rs, cs);
    }
    if backtrack_from(picross, 0, w) {
        proof {
            lemma_completion_is_solution(fixed, picross@, rs, cs);
            lemma_refines_transitive(start, fixed, picross@);
            assert forall|t: Seq<Seq<Cell>>| #[trigger]
                is_solution(t, rs, cs) && refines(start, t) && t != picross@ implies comes_before(
                picross@,
                t,
                0,
                rs,
                cs,
            ) by {
                lemma_solution_stable(t, rs, cs);
                lemma_solution_completes(fixed, t, rs, cs);
            }
            assert forall|c: int| 0 <= c < cs.len() implies line_consistent(
                #[trigger] column_of(picross@, c),
                cs[c],
            ) by {
                assert(satisfies(column_of(picross@, c), cs[c]));
            }
            assert forall|r: int| 0 <= r < rs.len() implies line_consistent(
                #[trigger] picross@[r],
                rs[r],
            ) by {
                assert(satisfies(picross@[r], rs[r]));
            }
        }
        return true;
    }
    proof {
        assert forall|s: Seq<Seq<Cell>>| !(is_solution(s, rs, cs) && refines(start, s)) by {
            if is_solution(s, rs, cs) && refines(start, s) {
                lemma_solution_stable(s, rs, cs);
                lemma_solution_completes(fixed, s, rs, cs);
            }
        }
    }
    picross.cells = saved;
    false
}

} // verus!
