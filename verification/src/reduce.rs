//! Line reduction: what all the candidates that agree with the present
//! knowledge of a line have in common.

use crate::cell::{compatible, is_row_consistent_with, Cell};
use crate::rows::{lemma_candidate_len, PicrossRowGenerator};
use vstd::prelude::*;

verus! {

/// At least one of the candidates agrees with every known cell of `known`.
pub open spec fn feasible(known: Seq<Cell>, cands: Seq<Seq<Cell>>) -> bool {
    exists|i: int| 0 <= i < cands.len() && compatible(known, #[trigger] cands[i])
}

/// Every candidate that agrees with `known` holds `v` at position `p`.
pub open spec fn all_agree(known: Seq<Cell>, cands: Seq<Seq<Cell>>, p: int, v: Cell) -> bool {
    forall|i: int|
        0 <= i < cands.len() && compatible(known, #[trigger] cands[i]) ==> cands[i][p] == v
}

/// The most that the candidates tell about the line: at each position the
/// value that all candidates that agree with `known` share, and `Unknown`
/// where two of them differ.
pub open spec fn reduced(known: Seq<Cell>, cands: Seq<Seq<Cell>>) -> Seq<Cell> {
    Seq::new(
        known.len(),
        |p: int|
            if all_agree(known, cands, p, Cell::Filled) {
                Cell::Filled
            } else if all_agree(known, cands, p, Cell::Empty) {
                Cell::Empty
            } else {
                Cell::Unknown
            },
    )
}

/// Reduction never takes knowledge back, and adds only what every candidate
/// that agrees with the known line holds.
pub proof fn lemma_reduced_monotone(known: Seq<Cell>, cands: Seq<Seq<Cell>>)
    requires
        feasible(known, cands),
        forall|i: int| 0 <= i < cands.len() ==> (#[trigger] cands[i]).len() == known.len(),
    ensures
        compatible(known, reduced(known, cands)),
        forall|i: int, p: int|
            0 <= i < cands.len() && compatible(known, cands[i]) && 0 <= p < known.len()
                && reduced(known, cands)[p] != Cell::Unknown ==> #[trigger] cands[i][p]
                == reduced(known, cands)[p],
{
    let w = choose|i: int| 0 <= i < cands.len() && compatible(known, #[trigger] cands[i]);
    assert forall|p: int| 0 <= p < known.len() && known[p] != Cell::Unknown implies reduced(
        known,
        cands,
    )[p] == known[p] by {
        assert(cands[w][p] == known[p]);
        assert(all_agree(known, cands, p, known[p]));
        if known[p] == Cell::Empty {
            assert(!all_agree(known, cands, p, Cell::Filled));
        }
    }
}

/// Reduces `start_row` against the lines that `possible_rows` still holds.
///
/// Returns `None` where none of them agrees with `start_row`. Otherwise
/// returns the reduced line, and whether it differs from `start_row`.
pub fn gcd(start_row: &Vec<Cell>, possible_rows: PicrossRowGenerator) -> (res: Option<
    (Vec<Cell>, bool),
>)
    requires
        possible_rows.wf(),
        possible_rows.row_size() == start_row@.len(),
    ensures
        res is Some <==> feasible(start_row@, possible_rows.remaining()),
        res matches Some((line, dirty)) ==> {
            &&& line@ == reduced(start_row@, possible_rows.remaining())
            &&& dirty == (line@ != start_row@)
            &&& compatible(start_row@, line@)
            &&& forall|i: int, p: int|
                0 <= i < possible_rows.remaining().len() && compatible(
                    start_row@,
                    possible_rows.remaining()[i],
                ) && 0 <= p < line@.len() && line@[p] != Cell::Unknown
                    ==> #[trigger] possible_rows.remaining()[i][p] == line@[p]
        },
{
    let n = start_row.len();
    let ghost all = possible_rows.all();
    let ghost start = possible_rows.produced() as int;
    let ghost cands = possible_rows.remaining();
    let mut rows = possible_rows;
    let mut acc: Vec<Cell> = Vec::new();
    let mut found = false;
    proof {
        possible_rows.lemma_bounds();
        assert forall|i: int| 0 <= i < cands.len() implies (#[trigger] cands[i]).len() == n by {
            lemma_candidate_len(n as nat, possible_rows.spec(), start + i);
        }
    }
    loop
        invariant
            rows.wf(),
            rows.all() == all,
            0 <= start <= rows.produced() <= all.len(),
            cands == all.skip(start),
            n == start_row@.len(),
            forall|i: int| 0 <= i < cands.len() ==> (#[trigger] cands[i]).len() == n,
            !found ==> forall|i: int|
                0 <= i < rows.produced() - start ==> !compatible(start_row@, #[trigger] cands[i]),
            found ==> feasible(start_row@, cands.take(rows.produced() - start)),
            found ==> acc@ == reduced(start_row@, cands.take(rows.produced() - start)),
        ensures
            rows.produced() == all.len(),
            !found ==> !feasible(start_row@, cands),
            found ==> feasible(start_row@, cands),
            found ==> acc@ == reduced(start_row@, cands),
        decreases all.len() - rows.produced(),
    {
        let ghost done = rows.produced() - start;
        match rows.next() {
            None => {
                assert(cands.take(done) =~= cands);
                break ;
            },
            Some(row) => {
                assert(row@ == cands[done]);
                assert(cands.take(done + 1).drop_last() =~= cands.take(done));
                assert(cands.take(done + 1).last() == cands[done]);
                if is_row_consistent_with(start_row, &row) {
                    if !found {
                        found = true;
                        acc = row;
                        proof {
                            lemma_reduced_single(start_row@, cands.take(done + 1));
                        }
                    } else {
                        proof {
                            lemma_reduced_step(start_row@, cands.take(done + 1));
                        }
                        let ghost before = acc@;
                        let mut p: usize = 0;
                        while p < n
                            invariant
                                p <= n,
                                acc@.len() == n,
                                before.len() == n,
                                row@.len() == n,
                                forall|q: int|
                                    0 <= q < p ==> acc@[q] == merged(before[q], row@[q]),
                                forall|q: int| p <= q < n ==> acc@[q] == before[q],
                            decreases n - p,
                        {
                            if acc[p] != Cell::Unknown && row[p] != acc[p] {
                                acc.set(p, Cell::Unknown);
                            }
                            p += 1;
                        }
                        assert(acc@ =~= reduced(start_row@, cands.take(done + 1)));
                    }
                } else {
                    proof {
                        lemma_reduced_skip(start_row@, cands.take(done + 1));
                    }
                }
            },
        }
    }
    if !found {
        return None;
    }
    proof {
        lemma_reduced_monotone(start_row@, cands);
    }
    let mut dirty = false;
    let mut p: usize = 0;
    while p < n
        invariant
            p <= n,
            acc@.len() == n,
            start_row@.len() == n,
            dirty == exists|q: int| 0 <= q < p && acc@[q] != start_row@[q],
        decreases n - p,
    {
        if acc[p] != start_row[p] {
            dirty = true;
        }
        p += 1;
    }
    assert(dirty == (acc@ != start_row@)) by {
        if !dirty {
            assert(acc@ =~= start_row@);
        }
    }
    Some((acc, dirty))
}

/// What the fold holds at a position after one more candidate that agrees
/// with the known line.
pub open spec fn merged(acc: Cell, new: Cell) -> Cell {
    if acc != Cell::Unknown && new == acc {
        acc
    } else {
        Cell::Unknown
    }
}

/// Candidates of which only the last agrees with the known line reduce to
/// that last candidate.
proof fn lemma_reduced_single(known: Seq<Cell>, cands: Seq<Seq<Cell>>)
    requires
        cands.len() > 0,
        compatible(known, cands.last()),
        cands.last().len() == known.len(),
        forall|i: int| 0 <= i < cands.len() - 1 ==> !compatible(known, #[trigger] cands[i]),
    ensures
        feasible(known, cands),
        reduced(known, cands) == cands.last(),
{
    let last = cands.last();
    assert(compatible(known, cands[cands.len() - 1]));
    assert forall|p: int| 0 <= p < known.len() implies reduced(known, cands)[p] == last[p] by {
        assert(all_agree(known, cands, p, last[p]));
        if !(last[p] == Cell::Filled) {
            assert(!all_agree(known, cands, p, Cell::Filled));
        }
        if last[p] == Cell::Unknown {
            assert(!all_agree(known, cands, p, Cell::Empty));
        }
    }
    assert(reduced(known, cands) =~= last);
}

/// One more candidate that agrees with the known line keeps, at each
/// position, only the value that it shares with the reduction so far.
proof fn lemma_reduced_step(known: Seq<Cell>, cands: Seq<Seq<Cell>>)
    requires
        cands.len() > 0,
        compatible(known, cands.last()),
        cands.last().len() == known.len(),
        feasible(known, cands.drop_last()),
    ensures
        feasible(known, cands),
        forall|p: int|
            0 <= p < known.len() ==> #[trigger] reduced(known, cands)[p] == merged(
                reduced(known, cands.drop_last())[p],
                cands.last()[p],
            ),
{
    let prev = cands.drop_last();
    let last = cands.last();
    let w = choose|i: int| 0 <= i < prev.len() && compatible(known, #[trigger] prev[i]);
    assert(prev[w] == cands[w]);
    assert forall|p: int| 0 <= p < known.len() implies #[trigger] reduced(known, cands)[p]
        == merged(reduced(known, prev)[p], last[p]) by {
        assert forall|v: Cell| all_agree(known, cands, p, v) == (all_agree(known, prev, p, v)
            && last[p] == v) by {
            if all_agree(known, cands, p, v) {
                assert(cands[cands.len() - 1][p] == v);
                assert forall|i: int|
                    0 <= i < prev.len() && compatible(known, #[trigger] prev[i]) implies prev[i][p]
                    == v by {
                    assert(prev[i] == cands[i]);
                }
            }
            if all_agree(known, prev, p, v) && last[p] == v {
                assert forall|i: int|
                    0 <= i < cands.len() && compatible(
                        known,
                        #[trigger] cands[i],
                    ) implies cands[i][p] == v by {
                    if i < prev.len() {
                        assert(prev[i] == cands[i]);
                    }
                }
            }
        }
        assert(all_agree(known, prev, p, Cell::Filled) ==> prev[w][p] == Cell::Filled);
        assert(all_agree(known, prev, p, Cell::Empty) ==> prev[w][p] == Cell::Empty);
    }
}

/// One more candidate that does not agree with the known line changes
/// nothing.
proof fn lemma_reduced_skip(known: Seq<Cell>, cands: Seq<Seq<Cell>>)
    requires
        cands.len() > 0,
        !compatible(known, cands.last()),
    ensures
        feasible(known, cands) == feasible(known, cands.drop_last()),
        reduced(known, cands) == reduced(known, cands.drop_last()),
{
    let prev = cands.drop_last();
    assert forall|p: int, v: Cell|
        all_agree(known, cands, p, v) == all_agree(known, prev, p, v) by {
        if all_agree(known, cands, p, v) {
            assert forall|i: int|
                0 <= i < prev.len() && compatible(known, #[trigger] prev[i]) implies prev[i][p]
                == v by {
                assert(prev[i] == cands[i]);
            }
        }
        if all_agree(known, prev, p, v) {
            assert forall|i: int|
                0 <= i < cands.len() && compatible(known, #[trigger] cands[i]) implies cands[i][p]
                == v by {
                if i < prev.len() {
                    assert(prev[i] == cands[i]);
                }
            }
        }
    }
    assert(reduced(known, cands) =~= reduced(known, prev));
    if feasible(known, cands) {
        let w = choose|i: int| 0 <= i < cands.len() && compatible(known, #[trigger] cands[i]);
        assert(prev[w] == cands[w]);
    }
    if feasible(known, prev) {
        let w = choose|i: int| 0 <= i < prev.len() && compatible(known, #[trigger] prev[i]);
        assert(prev[w] == cands[w]);
    }
}

} // verus!
