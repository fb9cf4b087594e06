//! The puzzle orchestrator: a depth-first backtracking search that places
//! every word of a list onto the grid, undoing earlier placements when a
//! later word has no valid candidate left, under an explicit search-step
//! budget.

use vstd::prelude::*;

use crate::difficulty::{Difficulty, Direction};
use crate::rng::shuffle_vec;
use crate::field::{
    axis_pos, col_step, commit_rel, fits, in_bounds, on_path, pos_col, pos_row, row_step,
    uncommit_rel, Coordinate, Field, DEFAULT_CHAR,
};

verus! {

/// The failure of a whole fill operation.
#[derive(PartialEq, Eq, Structural, Debug, Clone, Copy)]
pub enum FillError {
    /// Backtracking tried every reachable placement of every word and found
    /// no full solution.
    SearchExhausted,
    /// The configured search-step budget was hit before the search could
    /// either succeed or prove exhaustion.
    SearchBudgetExceeded,
}

/// A placement the search may try or has committed: a direction and a start
/// coordinate for the word of the search level it belongs to.
#[derive(PartialEq, Eq, Structural, Debug, Clone, Copy)]
pub struct Candidate {
    pub direction: Direction,
    pub start: Coordinate,
}

/// The letters of each word of a word list.
pub open spec fn words_view(ws: Seq<&str>) -> Seq<Seq<char>> {
    ws.map_values(|w: &str| w@)
}

/// Cell `(r, c)` is covered by this candidate placement of word `w`.
pub open spec fn cand_on_path(w: Seq<char>, cd: Candidate, r: int, c: int) -> bool {
    on_path(cd.direction, cd.start.row as int, cd.start.col as int, w.len() as int, r, c)
}

/// How many of the placements `placed` — the `k`-th placing word `ws[k]` —
/// cover cell `(r, c)`.
pub open spec fn cover_count(ws: Seq<Seq<char>>, placed: Seq<Candidate>, r: int, c: int) -> nat
    decreases placed.len(),
{
    if placed.len() == 0 {
        0
    } else {
        cover_count(ws, placed.drop_last(), r, c) + (if cand_on_path(
            ws[placed.len() - 1],
            placed.last(),
            r,
            c,
        ) {
            1nat
        } else {
            0nat
        })
    }
}

/// Appending a placement raises the cover of exactly the cells it covers.
pub proof fn lemma_cover_count_push(
    ws: Seq<Seq<char>>,
    placed: Seq<Candidate>,
    cd: Candidate,
    r: int,
    c: int,
)
    requires
        placed.len() < ws.len(),
    ensures
        cover_count(ws, placed.push(cd), r, c) == cover_count(ws, placed, r, c) + (if cand_on_path(
            ws[placed.len() as int],
            cd,
            r,
            c,
        ) {
            1nat
        } else {
            0nat
        }),
{
    assert(placed.push(cd).drop_last() =~= placed);
    assert(placed.push(cd).last() == cd);
}

/// A cell covered by one of the placements has a positive cover count.
pub proof fn lemma_cover_count_at_least(
    ws: Seq<Seq<char>>,
    placed: Seq<Candidate>,
    k: int,
    r: int,
    c: int,
)
    requires
        0 <= k < placed.len(),
        placed.len() <= ws.len(),
        cand_on_path(ws[k], placed[k], r, c),
    ensures
        cover_count(ws, placed, r, c) >= 1,
    decreases placed.len(),
{
    if k < placed.len() - 1 {
        assert(placed.drop_last()[k] == placed[k]);
        lemma_cover_count_at_least(ws, placed.drop_last(), k, r, c);
    }
}

/// No cell is covered more often than there are placements.
pub proof fn lemma_cover_count_upper(ws: Seq<Seq<char>>, placed: Seq<Candidate>, r: int, c: int)
    requires
        placed.len() <= ws.len(),
    ensures
        cover_count(ws, placed, r, c) <= placed.len(),
    decreases placed.len(),
{
    if placed.len() > 0 {
        lemma_cover_count_upper(ws, placed.drop_last(), r, c);
    }
}

/// The search's grid invariant, relating the current grid `f` to the grid
/// `f0` the fill started from and to the stack of committed placements:
/// every committed word is readable where it was placed, each cell's cover
/// count has grown by exactly the number of placements covering it, and
/// cells no placement covers still hold what they held at the start.
pub open spec fn fill_inv(
    f0: Field,
    f: Field,
    ws: Seq<Seq<char>>,
    dirs: Seq<Direction>,
    placed: Seq<Candidate>,
) -> bool {
    &&& f0.wf()
    &&& f.wf()
    &&& f.n_rows == f0.n_rows
    &&& f.n_cols == f0.n_cols
    &&& placed.len() <= ws.len()
    &&& forall|k: int| 0 <= k < placed.len() ==> dirs.contains((#[trigger] placed[k]).direction)
    &&& forall|k: int|
        0 <= k < placed.len() ==> ws[k].len() >= 1 && fits(
            f0.n_rows as int,
            f0.n_cols as int,
            (#[trigger] placed[k]).direction,
            placed[k].start.row as int,
            placed[k].start.col as int,
            ws[k].len() as int,
        )
    &&& forall|k: int|
        0 <= k < placed.len() ==> f.word_readable_at(
            ws[k],
            (#[trigger] placed[k]).direction,
            placed[k].start.row as int,
            placed[k].start.col as int,
        )
    &&& forall|r: int, c: int|
        in_bounds(f0.n_rows as int, f0.n_cols as int, r, c) ==> #[trigger] f.cnt(r, c) == f0.cnt(
            r,
            c,
        ) + cover_count(ws, placed, r, c)
    &&& forall|r: int, c: int|
        in_bounds(f0.n_rows as int, f0.n_cols as int, r, c) && f0.cnt(r, c) > 0
            ==> #[trigger] f.cell(r, c) == f0.cell(r, c)
    &&& forall|r: int, c: int|
        in_bounds(f0.n_rows as int, f0.n_cols as int, r, c) && cover_count(ws, placed, r, c) == 0
            ==> #[trigger] f.cell(r, c) == f0.cell(r, c)
}

/// With no placement left on the stack, the grid is exactly the grid the
/// fill started from.
pub proof fn lemma_fill_inv_empty(f0: Field, f: Field, ws: Seq<Seq<char>>, dirs: Seq<Direction>)
    requires
        fill_inv(f0, f, ws, dirs, Seq::<Candidate>::empty()),
    ensures
        forall|r: int, c: int|
            in_bounds(f0.n_rows as int, f0.n_cols as int, r, c) ==> #[trigger] f.cell(r, c)
                == f0.cell(r, c) && f.cnt(r, c) == f0.cnt(r, c),
{
    assert forall|r: int, c: int|
        in_bounds(f0.n_rows as int, f0.n_cols as int, r, c) implies #[trigger] f.cell(r, c)
        == f0.cell(r, c) && f.cnt(r, c) == f0.cnt(r, c) by {
        assert(cover_count(ws, Seq::<Candidate>::empty(), r, c) == 0);
        assert(f.cnt(r, c) == f0.cnt(r, c) + cover_count(ws, Seq::<Candidate>::empty(), r, c));
        assert(f.cell(r, c) == f0.cell(r, c));
    }
}

/// Committing a validated candidate for the next word preserves the search
/// invariant with that candidate pushed onto the stack.
pub proof fn lemma_fill_inv_commit(
    f0: Field,
    f: Field,
    f2: Field,
    ws: Seq<Seq<char>>,
    dirs: Seq<Direction>,
    placed: Seq<Candidate>,
    cd: Candidate,
)
    requires
        fill_inv(f0, f, ws, dirs, placed),
        placed.len() < ws.len(),
        ws[placed.len() as int].len() >= 1,
        dirs.contains(cd.direction),
        f.can_place(
            ws[placed.len() as int],
            cd.direction,
            cd.start.row as int,
            cd.start.col as int,
        ),
        commit_rel(
            f,
            f2,
            ws[placed.len() as int],
            cd.direction,
            cd.start.row as int,
            cd.start.col as int,
        ),
        f2.wf(),
    ensures
        fill_inv(f0, f2, ws, dirs, placed.push(cd)),
{
    assert forall|k: int| 0 <= k < placed.push(cd).len() implies dirs.contains(
        (#[trigger] placed.push(cd)[k]).direction,
    ) && ws[k].len() >= 1 && fits(
        f0.n_rows as int,
        f0.n_cols as int,
        placed.push(cd)[k].direction,
        placed.push(cd)[k].start.row as int,
        placed.push(cd)[k].start.col as int,
        ws[k].len() as int,
    ) by {
        if k < placed.len() {
            assert(placed.push(cd)[k] == placed[k]);
        } else {
            assert(placed.push(cd)[k] == cd);
        }
    }
    assert forall|k: int| 0 <= k < placed.push(cd).len() implies f2.word_readable_at(
        ws[k],
        (#[trigger] placed.push(cd)[k]).direction,
        placed.push(cd)[k].start.row as int,
        placed.push(cd)[k].start.col as int,
    ) by {
        if k < placed.len() {
            assert(placed.push(cd)[k] == placed[k]);
            assert(f.word_readable_at(
                ws[k],
                placed[k].direction,
                placed[k].start.row as int,
                placed[k].start.col as int,
            ));
            assert forall|i: int| 0 <= i < ws[k].len() implies #[trigger] f2.cell(
                pos_row(placed[k].direction, placed[k].start.row as int, i),
                pos_col(placed[k].direction, placed[k].start.col as int, i),
            ) == ws[k][i] by {
                assert(0 <= axis_pos(placed[k].start.row as int, row_step(placed[k].direction), i)
                    < f0.n_rows as int);
                assert(0 <= axis_pos(placed[k].start.col as int, col_step(placed[k].direction), i)
                    < f0.n_cols as int);
                let rr = pos_row(placed[k].direction, placed[k].start.row as int, i);
                let cc = pos_col(placed[k].direction, placed[k].start.col as int, i);
                assert(f.cell(rr, cc) == ws[k][i]);
                if on_path(
                    cd.direction,
                    cd.start.row as int,
                    cd.start.col as int,
                    ws[placed.len() as int].len() as int,
                    rr,
                    cc,
                ) {
                    let j = choose|j: int|
                        0 <= j < ws[placed.len() as int].len() && rr == #[trigger] pos_row(
                            cd.direction,
                            cd.start.row as int,
                            j,
                        ) && cc == pos_col(cd.direction, cd.start.col as int, j);
                    assert(f2.cell(
                        pos_row(cd.direction, cd.start.row as int, j),
                        pos_col(cd.direction, cd.start.col as int, j),
                    ) == ws[placed.len() as int][j]);
                    assert(cand_on_path(ws[k], placed[k], rr, cc));
                    lemma_cover_count_at_least(ws, placed, k, rr, cc);
                    assert(f.cnt(rr, cc) >= 1);
                    assert(f.compatible_at(
                        ws[placed.len() as int],
                        cd.direction,
                        cd.start.row as int,
                        cd.start.col as int,
                        j,
                    ));
                    assert(f.cell(rr, cc) == ws[placed.len() as int][j]);
                } else {
                    assert(f2.cell(rr, cc) == f.cell(rr, cc));
                }
            }
        } else {
            assert(placed.push(cd)[k] == cd);
            assert forall|i: int| 0 <= i < ws[k].len() implies #[trigger] f2.cell(
                pos_row(cd.direction, cd.start.row as int, i),
                pos_col(cd.direction, cd.start.col as int, i),
            ) == ws[k][i] by {}
        }
    }
    assert forall|r: int, c: int|
        in_bounds(f0.n_rows as int, f0.n_cols as int, r, c) implies #[trigger] f2.cnt(r, c)
        == f0.cnt(r, c) + cover_count(ws, placed.push(cd), r, c) by {
        lemma_cover_count_push(ws, placed, cd, r, c);
        assert(f.cnt(r, c) == f0.cnt(r, c) + cover_count(ws, placed, r, c));
        if on_path(
            cd.direction,
            cd.start.row as int,
            cd.start.col as int,
            ws[placed.len() as int].len() as int,
            r,
            c,
        ) {
            let j = choose|j: int|
                0 <= j < ws[placed.len() as int].len() && r == #[trigger] pos_row(
                    cd.direction,
                    cd.start.row as int,
                    j,
                ) && c == pos_col(cd.direction, cd.start.col as int, j);
            assert(f2.cnt(
                pos_row(cd.direction, cd.start.row as int, j),
                pos_col(cd.direction, cd.start.col as int, j),
            ) == f.cnt(
                pos_row(cd.direction, cd.start.row as int, j),
                pos_col(cd.direction, cd.start.col as int, j),
            ) + 1);
        } else {
            assert(f2.cnt(r, c) == f.cnt(r, c));
        }
    }
    assert forall|r: int, c: int|
        in_bounds(f0.n_rows as int, f0.n_cols as int, r, c) && f0.cnt(r, c) > 0
        implies #[trigger] f2.cell(r, c) == f0.cell(r, c) by {
        assert(f.cnt(r, c) == f0.cnt(r, c) + cover_count(ws, placed, r, c));
        assert(f.cell(r, c) == f0.cell(r, c));
        if on_path(
            cd.direction,
            cd.start.row as int,
            cd.start.col as int,
            ws[placed.len() as int].len() as int,
            r,
            c,
        ) {
            let j = choose|j: int|
                0 <= j < ws[placed.len() as int].len() && r == #[trigger] pos_row(
                    cd.direction,
                    cd.start.row as int,
                    j,
                ) && c == pos_col(cd.direction, cd.start.col as int, j);
            assert(f.compatible_at(
                ws[placed.len() as int],
                cd.direction,
                cd.start.row as int,
                cd.start.col as int,
                j,
            ));
            assert(f2.cell(
                pos_row(cd.direction, cd.start.row as int, j),
                pos_col(cd.direction, cd.start.col as int, j),
            ) == ws[placed.len() as int][j]);
            assert(f.cell(r, c) == ws[placed.len() as int][j]);
        } else {
            assert(f2.cell(r, c) == f.cell(r, c));
        }
    }
    assert forall|r: int, c: int|
        in_bounds(f0.n_rows as int, f0.n_cols as int, r, c) && cover_count(
            ws,
            placed.push(cd),
            r,
            c,
        ) == 0 implies #[trigger] f2.cell(r, c) == f0.cell(r, c) by {
        lemma_cover_count_push(ws, placed, cd, r, c);
        assert(!cand_on_path(ws[placed.len() as int], cd, r, c));
        assert(cover_count(ws, placed, r, c) == 0);
        assert(f2.cell(r, c) == f.cell(r, c));
        assert(f.cell(r, c) == f0.cell(r, c));
    }
}

/// Undoing the most recent placement preserves the search invariant with
/// that placement popped off the stack.
pub proof fn lemma_fill_inv_uncommit(
    f0: Field,
    f: Field,
    f2: Field,
    ws: Seq<Seq<char>>,
    dirs: Seq<Direction>,
    placed: Seq<Candidate>,
)
    requires
        fill_inv(f0, f, ws, dirs, placed),
        placed.len() >= 1,
        uncommit_rel(
            f,
            f2,
            ws[placed.len() - 1],
            placed.last().direction,
            placed.last().start.row as int,
            placed.last().start.col as int,
        ),
        f2.wf(),
    ensures
        fill_inv(f0, f2, ws, dirs, placed.drop_last()),
{
    assert forall|k: int| 0 <= k < placed.drop_last().len() implies dirs.contains(
        (#[trigger] placed.drop_last()[k]).direction,
    ) && ws[k].len() >= 1 && fits(
        f0.n_rows as int,
        f0.n_cols as int,
        placed.drop_last()[k].direction,
        placed.drop_last()[k].start.row as int,
        placed.drop_last()[k].start.col as int,
        ws[k].len() as int,
    ) by {
        assert(placed.drop_last()[k] == placed[k]);
    }
    assert forall|k: int| 0 <= k < placed.drop_last().len() implies f2.word_readable_at(
        ws[k],
        (#[trigger] placed.drop_last()[k]).direction,
        placed.drop_last()[k].start.row as int,
        placed.drop_last()[k].start.col as int,
    ) by {
        assert(placed.drop_last()[k] == placed[k]);
        assert(f.word_readable_at(
            ws[k],
            placed[k].direction,
            placed[k].start.row as int,
            placed[k].start.col as int,
        ));
        assert forall|i: int| 0 <= i < ws[k].len() implies #[trigger] f2.cell(
            pos_row(placed[k].direction, placed[k].start.row as int, i),
            pos_col(placed[k].direction, placed[k].start.col as int, i),
        ) == ws[k][i] by {
            assert(0 <= axis_pos(placed[k].start.row as int, row_step(placed[k].direction), i)
                < f0.n_rows as int);
            assert(0 <= axis_pos(placed[k].start.col as int, col_step(placed[k].direction), i)
                < f0.n_cols as int);
            let rr = pos_row(placed[k].direction, placed[k].start.row as int, i);
            let cc = pos_col(placed[k].direction, placed[k].start.col as int, i);
            assert(f.cell(rr, cc) == ws[k][i]);
            if on_path(
                placed.last().direction,
                placed.last().start.row as int,
                placed.last().start.col as int,
                ws[placed.len() - 1].len() as int,
                rr,
                cc,
            ) {
                let j = choose|j: int|
                    0 <= j < ws[placed.len() - 1].len() && rr == #[trigger] pos_row(
                        placed.last().direction,
                        placed.last().start.row as int,
                        j,
                    ) && cc == pos_col(placed.last().direction, placed.last().start.col as int, j);
                assert(cand_on_path(ws[k], placed.drop_last()[k], rr, cc));
                lemma_cover_count_at_least(ws, placed.drop_last(), k, rr, cc);
                assert(cand_on_path(ws[placed.len() - 1], placed.last(), rr, cc));
                assert(cover_count(ws, placed, rr, cc) == cover_count(ws, placed.drop_last(), rr, cc)
                    + 1);
                assert(f.cnt(rr, cc) >= 2);
                assert(f2.cell(
                    pos_row(placed.last().direction, placed.last().start.row as int, j),
                    pos_col(placed.last().direction, placed.last().start.col as int, j),
                ) == f.cell(
                    pos_row(placed.last().direction, placed.last().start.row as int, j),
                    pos_col(placed.last().direction, placed.last().start.col as int, j),
                ));
            } else {
                assert(f2.cell(rr, cc) == f.cell(rr, cc));
            }
        }
    }
    assert forall|r: int, c: int|
        in_bounds(f0.n_rows as int, f0.n_cols as int, r, c) implies #[trigger] f2.cnt(r, c)
        == f0.cnt(r, c) + cover_count(ws, placed.drop_last(), r, c) by {
        assert(f.cnt(r, c) == f0.cnt(r, c) + cover_count(ws, placed, r, c));
        if on_path(
            placed.last().direction,
            placed.last().start.row as int,
            placed.last().start.col as int,
            ws[placed.len() - 1].len() as int,
            r,
            c,
        ) {
            let j = choose|j: int|
                0 <= j < ws[placed.len() - 1].len() && r == #[trigger] pos_row(
                    placed.last().direction,
                    placed.last().start.row as int,
                    j,
                ) && c == pos_col(placed.last().direction, placed.last().start.col as int, j);
            assert(f2.cnt(
                pos_row(placed.last().direction, placed.last().start.row as int, j),
                pos_col(placed.last().direction, placed.last().start.col as int, j),
            ) == f.cnt(
                pos_row(placed.last().direction, placed.last().start.row as int, j),
                pos_col(placed.last().direction, placed.last().start.col as int, j),
            ) - 1);
            assert(cand_on_path(ws[placed.len() - 1], placed.last(), r, c));
        } else {
            assert(f2.cnt(r, c) == f.cnt(r, c));
            assert(!cand_on_path(ws[placed.len() - 1], placed.last(), r, c));
        }
    }
    assert forall|r: int, c: int|
        in_bounds(f0.n_rows as int, f0.n_cols as int, r, c) && f0.cnt(r, c) > 0
        implies #[trigger] f2.cell(r, c) == f0.cell(r, c) by {
        assert(f.cnt(r, c) == f0.cnt(r, c) + cover_count(ws, placed, r, c));
        assert(f.cell(r, c) == f0.cell(r, c));
        if on_path(
            placed.last().direction,
            placed.last().start.row as int,
            placed.last().start.col as int,
            ws[placed.len() - 1].len() as int,
            r,
            c,
        ) {
            let j = choose|j: int|
                0 <= j < ws[placed.len() - 1].len() && r == #[trigger] pos_row(
                    placed.last().direction,
                    placed.last().start.row as int,
                    j,
                ) && c == pos_col(placed.last().direction, placed.last().start.col as int, j);
            assert(cand_on_path(ws[placed.len() - 1], placed.last(), r, c));
            assert(f.cnt(r, c) >= 2);
            assert(f2.cell(
                pos_row(placed.last().direction, placed.last().start.row as int, j),
                pos_col(placed.last().direction, placed.last().start.col as int, j),
            ) == f.cell(
                pos_row(placed.last().direction, placed.last().start.row as int, j),
                pos_col(placed.last().direction, placed.last().start.col as int, j),
            ));
        } else {
            assert(f2.cell(r, c) == f.cell(r, c));
        }
    }
    assert forall|r: int, c: int|
        in_bounds(f0.n_rows as int, f0.n_cols as int, r, c) && cover_count(
            ws,
            placed.drop_last(),
            r,
            c,
        ) == 0 implies #[trigger] f2.cell(r, c) == f0.cell(r, c) by {
        assert(f.cnt(r, c) == f0.cnt(r, c) + cover_count(ws, placed, r, c));
        if on_path(
            placed.last().direction,
            placed.last().start.row as int,
            placed.last().start.col as int,
            ws[placed.len() - 1].len() as int,
            r,
            c,
        ) {
            let j = choose|j: int|
                0 <= j < ws[placed.len() - 1].len() && r == #[trigger] pos_row(
                    placed.last().direction,
                    placed.last().start.row as int,
                    j,
                ) && c == pos_col(placed.last().direction, placed.last().start.col as int, j);
            assert(cand_on_path(ws[placed.len() - 1], placed.last(), r, c));
            assert(cover_count(ws, placed, r, c) == 1);
            assert(f.cnt(r, c) == f0.cnt(r, c) + 1);
            assert(f2.cell(
                pos_row(placed.last().direction, placed.last().start.row as int, j),
                pos_col(placed.last().direction, placed.last().start.col as int, j),
            ) == (if f.cnt(
                pos_row(placed.last().direction, placed.last().start.row as int, j),
                pos_col(placed.last().direction, placed.last().start.col as int, j),
            ) == 1 {
                DEFAULT_CHAR
            } else {
                f.cell(
                    pos_row(placed.last().direction, placed.last().start.row as int, j),
                    pos_col(placed.last().direction, placed.last().start.col as int, j),
                )
            }));
            if f0.cnt(r, c) == 0 {
                assert(f0.cell(r, c) == DEFAULT_CHAR);
                assert(f2.cell(r, c) == DEFAULT_CHAR);
            } else {
                assert(f.cnt(r, c) >= 2);
                assert(f.cell(r, c) == f0.cell(r, c));
            }
        } else {
            assert(!cand_on_path(ws[placed.len() - 1], placed.last(), r, c));
            assert(cover_count(ws, placed, r, c) == 0);
            assert(f2.cell(r, c) == f.cell(r, c));
            assert(f.cell(r, c) == f0.cell(r, c));
        }
    }
}

/// Every cell a validated next placement covers still has room in its cover
/// count, provided every cell started with headroom for the whole list.
pub proof fn lemma_fill_commit_pre(
    f0: Field,
    f: Field,
    ws: Seq<Seq<char>>,
    dirs: Seq<Direction>,
    placed: Seq<Candidate>,
    cd: Candidate,
)
    requires
        fill_inv(f0, f, ws, dirs, placed),
        placed.len() < ws.len(),
        f.can_place(
            ws[placed.len() as int],
            cd.direction,
            cd.start.row as int,
            cd.start.col as int,
        ),
        forall|r: int, c: int|
            in_bounds(f0.n_rows as int, f0.n_cols as int, r, c) ==> #[trigger] f0.cnt(r, c)
                + ws.len() <= usize::MAX,
    ensures
        forall|i: int|
            0 <= i < ws[placed.len() as int].len() ==> #[trigger] f.cnt(
                pos_row(cd.direction, cd.start.row as int, i),
                pos_col(cd.direction, cd.start.col as int, i),
            ) < usize::MAX,
{
    assert forall|i: int| 0 <= i < ws[placed.len() as int].len() implies #[trigger] f.cnt(
        pos_row(cd.direction, cd.start.row as int, i),
        pos_col(cd.direction, cd.start.col as int, i),
    ) < usize::MAX by {
        assert(0 <= axis_pos(cd.start.row as int, row_step(cd.direction), i) < f.n_rows as int);
        assert(0 <= axis_pos(cd.start.col as int, col_step(cd.direction), i) < f.n_cols as int);
        lemma_cover_count_upper(
            ws,
            placed,
            pos_row(cd.direction, cd.start.row as int, i),
            pos_col(cd.direction, cd.start.col as int, i),
        );
        assert(f.cnt(pos_row(cd.direction, cd.start.row as int, i), pos_col(cd.direction, cd.start.col as int, i))
            == f0.cnt(pos_row(cd.direction, cd.start.row as int, i), pos_col(cd.direction, cd.start.col as int, i))
            + cover_count(ws, placed, pos_row(cd.direction, cd.start.row as int, i), pos_col(cd.direction, cd.start.col as int, i)));
        assert(f0.cnt(pos_row(cd.direction, cd.start.row as int, i), pos_col(cd.direction, cd.start.col as int, i))
            + ws.len() <= usize::MAX);
    }
}

/// The most recent placement of the stack still fits the grid and still
/// covers each of its cells at least once, so it can be undone.
pub proof fn lemma_fill_uncommit_pre(
    f0: Field,
    f: Field,
    ws: Seq<Seq<char>>,
    dirs: Seq<Direction>,
    placed: Seq<Candidate>,
)
    requires
        fill_inv(f0, f, ws, dirs, placed),
        placed.len() >= 1,
    ensures
        ws[placed.len() - 1].len() >= 1,
        fits(
            f.n_rows as int,
            f.n_cols as int,
            placed.last().direction,
            placed.last().start.row as int,
            placed.last().start.col as int,
            ws[placed.len() - 1].len() as int,
        ),
        forall|i: int|
            0 <= i < ws[placed.len() - 1].len() ==> #[trigger] f.cnt(
                pos_row(placed.last().direction, placed.last().start.row as int, i),
                pos_col(placed.last().direction, placed.last().start.col as int, i),
            ) >= 1,
{
    assert(placed[placed.len() - 1] == placed.last());
    assert(fits(
        f0.n_rows as int,
        f0.n_cols as int,
        placed.last().direction,
        placed.last().start.row as int,
        placed.last().start.col as int,
        ws[placed.len() - 1].len() as int,
    ));
    assert forall|i: int| 0 <= i < ws[placed.len() - 1].len() implies #[trigger] f.cnt(
        pos_row(placed.last().direction, placed.last().start.row as int, i),
        pos_col(placed.last().direction, placed.last().start.col as int, i),
    ) >= 1 by {
        assert(0 <= axis_pos(
            placed.last().start.row as int,
            row_step(placed.last().direction),
            i,
        ) < f0.n_rows as int);
        assert(0 <= axis_pos(
            placed.last().start.col as int,
            col_step(placed.last().direction),
            i,
        ) < f0.n_cols as int);
        assert(cand_on_path(
            ws[placed.len() - 1],
            placed.last(),
            pos_row(placed.last().direction, placed.last().start.row as int, i),
            pos_col(placed.last().direction, placed.last().start.col as int, i),
        ));
        lemma_cover_count_at_least(
            ws,
            placed,
            placed.len() - 1,
            pos_row(placed.last().direction, placed.last().start.row as int, i),
            pos_col(placed.last().direction, placed.last().start.col as int, i),
        );
        assert(f.cnt(
            pos_row(placed.last().direction, placed.last().start.row as int, i),
            pos_col(placed.last().direction, placed.last().start.col as int, i),
        ) == f0.cnt(
            pos_row(placed.last().direction, placed.last().start.row as int, i),
            pos_col(placed.last().direction, placed.last().start.col as int, i),
        ) + cover_count(
            ws,
            placed,
            pos_row(placed.last().direction, placed.last().start.row as int, i),
            pos_col(placed.last().direction, placed.last().start.col as int, i),
        ));
    }
}

/// The committed placement of each frame of the search stack.
pub open spec fn placed_of(stack: Seq<(Vec<Candidate>, Candidate)>) -> Seq<Candidate> {
    stack.map_values(|fr: (Vec<Candidate>, Candidate)| fr.1)
}

pub proof fn lemma_placed_of_push(stack: Seq<(Vec<Candidate>, Candidate)>, fr: (Vec<Candidate>, Candidate))
    ensures
        placed_of(stack.push(fr)) =~= placed_of(stack).push(fr.1),
{
    assert forall|i: int| 0 <= i < stack.len() + 1 implies placed_of(stack.push(fr))[i]
        == placed_of(stack).push(fr.1)[i] by {
        if i < stack.len() {
            assert(stack.push(fr)[i] == stack[i]);
        } else {
            assert(stack.push(fr)[i] == fr);
        }
    }
}

pub proof fn lemma_placed_of_drop_last(stack: Seq<(Vec<Candidate>, Candidate)>)
    requires
        stack.len() >= 1,
    ensures
        placed_of(stack.drop_last()) =~= placed_of(stack).drop_last(),
        placed_of(stack).last() == stack.last().1,
{
    assert forall|i: int| 0 <= i < stack.len() - 1 implies placed_of(stack.drop_last())[i]
        == placed_of(stack).drop_last()[i] by {
        assert(stack.drop_last()[i] == stack[i]);
    }
}

/// Multiplying within nonnegative bounds keeps the product within the
/// bounds' product.
pub proof fn lemma_mul_le(a: int, b: int, x: int, y: int)
    by (nonlinear_arith)
    requires
        0 <= a <= x,
        0 <= b <= y,
    ensures
        0 <= a * b <= x * y,
{
}

/// Every candidate placement of the word that stays inside the grid, the
/// directions grouped in reverse list order so that popping from the end
/// tries them in list order, and the start positions of each direction
/// shuffled by `rng`.
fn gen_candidates(
    field: &Field,
    rng: &mut rand::rngs::StdRng,
    word: &str,
    directions: &Vec<Direction>,
) -> (v: Vec<Candidate>)
    requires
        field.wf(),
        word@.len() >= 1,
    ensures
        forall|cd: Candidate| #[trigger]
            v@.contains(cd) <==> (directions@.contains(cd.direction) && fits(
                field.n_rows as int,
                field.n_cols as int,
                cd.direction,
                cd.start.row as int,
                cd.start.col as int,
                word@.len() as int,
            )),
        v@.len() <= directions@.len() * (field.n_rows as int) * (field.n_cols as int),
{
    let ghost nr = field.n_rows as int;
    let ghost nc = field.n_cols as int;
    let mut v: Vec<Candidate> = Vec::new();
    let mut di: usize = directions.len();
    while di > 0
        invariant
            field.wf(),
            word@.len() >= 1,
            nr == field.n_rows as int,
            nc == field.n_cols as int,
            di <= directions@.len(),
            v@.len() <= (directions@.len() - di) * (nr * nc),
            forall|cd: Candidate| #[trigger]
                v@.contains(cd) <==> ((exists|k: int|
                    di <= k < directions@.len() && #[trigger] directions@[k] == cd.direction)
                    && fits(
                    nr,
                    nc,
                    cd.direction,
                    cd.start.row as int,
                    cd.start.col as int,
                    word@.len() as int,
                )),
        decreases di,
    {
        di -= 1;
        let direction = directions[di];
        let ghost v_before = v@;
        proof {
            lemma_mul_le(nr, nc, nr, nc);
            assert((directions@.len() - di - 1) * (nr * nc) + (nr * nc) == (directions@.len()
                - di) * (nr * nc)) by (nonlinear_arith);
        }
        match field.get_possible_positions(word, &direction) {
            Err(_) => {
                proof {
                    assert forall|cd: Candidate| #[trigger]
                        v@.contains(cd) <==> ((exists|k: int|
                            di <= k < directions@.len() && #[trigger] directions@[k]
                                == cd.direction) && fits(
                            nr,
                            nc,
                            cd.direction,
                            cd.start.row as int,
                            cd.start.col as int,
                            word@.len() as int,
                        )) by {
                        crate::field::lemma_misfit_no_fit(
                            direction,
                            nr,
                            nc,
                            word@.len() as int,
                            cd.start.row as int,
                            cd.start.col as int,
                        );
                        if exists|k: int|
                            di <= k < directions@.len() && #[trigger] directions@[k]
                                == cd.direction {
                            let k = choose|k: int|
                                di <= k < directions@.len() && #[trigger] directions@[k]
                                    == cd.direction;
                            if k == di {
                                assert(cd.direction == direction);
                            } else {
                                assert(di + 1 <= k < directions@.len() && directions@[k]
                                    == cd.direction);
                            }
                        }
                    }
                }
            },
            Ok(pr) => {
                proof {
                    crate::field::lemma_steps_unit(direction);
                    crate::field::lemma_axis_range_nonempty(
                        nr,
                        row_step(direction),
                        word@.len() as int,
                    );
                    crate::field::lemma_axis_range_nonempty(
                        nc,
                        col_step(direction),
                        word@.len() as int,
                    );
                    assert(pr.rows.end <= field.n_rows);
                    assert(pr.cols.end <= field.n_cols);
                }
                let mut starts = crate::field::starts_of_ranges(&pr);
                let ghost built = starts@;
                shuffle_vec(rng, &mut starts);
                proof {
                    assert forall|co: Coordinate| #[trigger]
                        starts@.contains(co) <==> built.contains(co) by {
                        built.to_multiset_ensures();
                        starts@.to_multiset_ensures();
                        assert(starts@.to_multiset().count(co) == built.to_multiset().count(co));
                    }
                }
                proof {
                    lemma_mul_le(
                        pr.rows.end - pr.rows.start,
                        pr.cols.end - pr.cols.start,
                        nr,
                        nc,
                    );
                }
                let mut p: usize = 0;
                while p < starts.len()
                    invariant
                        field.wf(),
                        word@.len() >= 1,
                        nr == field.n_rows as int,
                        nc == field.n_cols as int,
                        di < directions@.len(),
                        direction == directions@[di as int],
                        p <= starts@.len(),
                        forall|co: Coordinate| #[trigger]
                            starts@.contains(co) <==> (pr.rows.start <= (co.row as int) && (co.row
                                as int) < pr.rows.end && pr.cols.start <= (co.col as int) && (
                            co.col as int) < pr.cols.end),
                        pr.rows.start == crate::field::axis_lo(nr, row_step(direction), word@.len() as int),
                        pr.rows.end == crate::field::axis_hi(nr, row_step(direction), word@.len() as int),
                        pr.cols.start == crate::field::axis_lo(nc, col_step(direction), word@.len() as int),
                        pr.cols.end == crate::field::axis_hi(nc, col_step(direction), word@.len() as int),
                        forall|cd: Candidate| #[trigger]
                            v_before.contains(cd) <==> ((exists|k: int|
                                di + 1 <= k < directions@.len() && #[trigger] directions@[k]
                                    == cd.direction) && fits(
                                nr,
                                nc,
                                cd.direction,
                                cd.start.row as int,
                                cd.start.col as int,
                                word@.len() as int,
                            )),
                        forall|cd: Candidate| #[trigger]
                            v@.contains(cd) <==> (v_before.contains(cd) || (cd.direction
                                == direction && (exists|j: int|
                                0 <= j < p && #[trigger] starts@[j] == cd.start))),
                        v@.len() == v_before.len() + p,
                        v_before.len() <= (directions@.len() - di - 1) * (nr * nc),
                        starts@.len() <= nr * nc,
                    decreases starts@.len() - p,
                {
                    let start = starts[p];
                    let ghost prev = v@;
                    v.push(Candidate { direction, start });
                    proof {
                        assert(v@ == prev.push(Candidate { direction, start }));
                        assert(starts@[p as int] == start);
                        assert forall|cd: Candidate| #[trigger]
                            v@.contains(cd) <==> (v_before.contains(cd) || (cd.direction
                                == direction && (exists|j: int|
                                0 <= j < p + 1 && #[trigger] starts@[j] == cd.start))) by {
                            vstd::seq_lib::lemma_seq_contains_after_push(
                                prev,
                                Candidate { direction, start },
                                cd,
                            );
                            if cd == (Candidate { direction, start }) {
                                assert(starts@[p as int] == cd.start);
                            }
                            if prev.contains(cd) && !v_before.contains(cd) {
                                let j = choose|j: int|
                                    0 <= j < p && #[trigger] starts@[j] == cd.start;
                                assert(0 <= j < p + 1 && starts@[j] == cd.start);
                            }
                            if !prev.contains(cd) && cd != (Candidate { direction, start })
                                && cd.direction == direction {
                                if exists|j: int| 0 <= j < p + 1 && #[trigger] starts@[j]
                                    == cd.start {
                                    let j = choose|j: int|
                                        0 <= j < p + 1 && #[trigger] starts@[j] == cd.start;
                                    if j < p {
                                        assert(v@.contains(cd));
                                    } else {
                                        assert(cd.start == start);
                                    }
                                }
                            }
                        }
                    }
                    p += 1;
                }
                proof {
                    assert forall|cd: Candidate| #[trigger]
                        v@.contains(cd) <==> ((exists|k: int|
                            di <= k < directions@.len() && #[trigger] directions@[k]
                                == cd.direction) && fits(
                            nr,
                            nc,
                            cd.direction,
                            cd.start.row as int,
                            cd.start.col as int,
                            word@.len() as int,
                        )) by {
                        crate::field::lemma_ranges_exact(
                            direction,
                            nr,
                            nc,
                            word@.len() as int,
                            cd.start.row as int,
                            cd.start.col as int,
                        );
                        if v@.contains(cd) {
                            if v_before.contains(cd) {
                                let k = choose|k: int|
                                    di + 1 <= k < directions@.len() && #[trigger] directions@[k]
                                        == cd.direction;
                                assert(di <= k < directions@.len() && directions@[k]
                                    == cd.direction);
                            } else {
                                let j = choose|j: int|
                                    0 <= j < starts@.len() && #[trigger] starts@[j] == cd.start;
                                assert(starts@.contains(cd.start));
                                assert(directions@[di as int] == cd.direction);
                            }
                        } else {
                            if (exists|k: int|
                                di <= k < directions@.len() && #[trigger] directions@[k]
                                    == cd.direction) && fits(
                                nr,
                                nc,
                                cd.direction,
                                cd.start.row as int,
                                cd.start.col as int,
                                word@.len() as int,
                            ) {
                                let k = choose|k: int|
                                    di <= k < directions@.len() && #[trigger] directions@[k]
                                        == cd.direction;
                                if k == di {
                                    assert(0 <= axis_pos(cd.start.row as int, row_step(direction), 0) < nr);
                                    assert(0 <= axis_pos(cd.start.col as int, col_step(direction), 0) < nc);
                                    assert(starts@.contains(cd.start));
                                    let j = choose|j: int|
                                        0 <= j < starts@.len() && starts@[j] == cd.start;
                                    assert(starts@[j] == cd.start);
                                    assert(v@.contains(cd));
                                } else {
                                    assert(di + 1 <= k < directions@.len() && directions@[k]
                                        == cd.direction);
                                    assert(v_before.contains(cd));
                                }
                            }
                        }
                    }
                }
            },
        }
    }
    proof {
        assert(directions@.len() * (nr * nc) == directions@.len() * nr * nc)
            by (nonlinear_arith);
        assert forall|cd: Candidate| #[trigger]
            v@.contains(cd) <==> (directions@.contains(cd.direction) && fits(
                nr,
                nc,
                cd.direction,
                cd.start.row as int,
                cd.start.col as int,
                word@.len() as int,
            )) by {
            if directions@.contains(cd.direction) {
                let k = choose|k: int|
                    0 <= k < directions@.len() && directions@[k] == cd.direction;
                assert(0 <= k < directions@.len() && directions@[k] == cd.direction);
            }
            if exists|k: int| 0 <= k < directions@.len() && #[trigger] directions@[k]
                == cd.direction {
                let k = choose|k: int|
                    0 <= k < directions@.len() && #[trigger] directions@[k] == cd.direction;
                assert(directions@.contains(cd.direction));
            }
        }
    }
    v
}

/// A full assignment of a start and direction to every word of the list
/// that would solve the puzzle over grid `f0`: each placement uses a
/// permitted direction, stays in bounds, conflicts with no letter already on
/// `f0`, and any two placements agree on every cell they share.
pub open spec fn solution(
    f0: Field,
    ws: Seq<Seq<char>>,
    dirs: Seq<Direction>,
    asg: Seq<Candidate>,
) -> bool {
    &&& asg.len() == ws.len()
    &&& forall|k: int| 0 <= k < asg.len() ==> dirs.contains((#[trigger] asg[k]).direction)
    &&& forall|k: int|
        0 <= k < asg.len() ==> f0.can_place(
            ws[k],
            (#[trigger] asg[k]).direction,
            asg[k].start.row as int,
            asg[k].start.col as int,
        )
    &&& forall|k1: int, i1: int, k2: int, i2: int|
        #![trigger pos_row(asg[k1].direction, asg[k1].start.row as int, i1), pos_row(asg[k2].direction, asg[k2].start.row as int, i2)]
        0 <= k1 < asg.len() && 0 <= i1 < ws[k1].len() && 0 <= k2 < asg.len() && 0 <= i2
            < ws[k2].len() && pos_row(asg[k1].direction, asg[k1].start.row as int, i1) == pos_row(
            asg[k2].direction,
            asg[k2].start.row as int,
            i2,
        ) && pos_col(asg[k1].direction, asg[k1].start.col as int, i1) == pos_col(
            asg[k2].direction,
            asg[k2].start.col as int,
            i2,
        ) ==> ws[k1][i1] == ws[k2][i2]
}

/// A positive cover count names a covering placement.
pub proof fn lemma_cover_count_witness(
    ws: Seq<Seq<char>>,
    placed: Seq<Candidate>,
    r: int,
    c: int,
)
    requires
        placed.len() <= ws.len(),
        cover_count(ws, placed, r, c) > 0,
    ensures
        exists|l: int| 0 <= l < placed.len() && #[trigger] cand_on_path(ws[l], placed[l], r, c),
    decreases placed.len(),
{
    if cand_on_path(ws[placed.len() - 1], placed.last(), r, c) {
        assert(cand_on_path(ws[placed.len() - 1], placed[placed.len() - 1], r, c));
    } else {
        lemma_cover_count_witness(ws, placed.drop_last(), r, c);
        let l = choose|l: int|
            0 <= l < placed.drop_last().len() && #[trigger] cand_on_path(
                ws[l],
                placed.drop_last()[l],
                r,
                c,
            );
        assert(placed.drop_last()[l] == placed[l]);
        assert(cand_on_path(ws[l], placed[l], r, c));
    }
}

/// When the first `j` placements of a solution are exactly the committed
/// ones, the solution's `j`-th placement still validates against the
/// current grid: its cells are empty or already agree with it.
pub proof fn lemma_solution_can_place(
    f0: Field,
    f: Field,
    ws: Seq<Seq<char>>,
    dirs: Seq<Direction>,
    asg: Seq<Candidate>,
    j: int,
)
    requires
        solution(f0, ws, dirs, asg),
        0 <= j < ws.len(),
        fill_inv(f0, f, ws, dirs, asg.take(j)),
    ensures
        f.can_place(ws[j], asg[j].direction, asg[j].start.row as int, asg[j].start.col as int),
{
    assert(f0.can_place(
        ws[j],
        asg[j].direction,
        asg[j].start.row as int,
        asg[j].start.col as int,
    ));
    assert forall|i: int| 0 <= i < ws[j].len() implies #[trigger] f.compatible_at(
        ws[j],
        asg[j].direction,
        asg[j].start.row as int,
        asg[j].start.col as int,
        i,
    ) by {
        let rr = pos_row(asg[j].direction, asg[j].start.row as int, i);
        let cc = pos_col(asg[j].direction, asg[j].start.col as int, i);
        assert(0 <= axis_pos(asg[j].start.row as int, row_step(asg[j].direction), i)
            < f0.n_rows as int);
        assert(0 <= axis_pos(asg[j].start.col as int, col_step(asg[j].direction), i)
            < f0.n_cols as int);
        assert(in_bounds(f0.n_rows as int, f0.n_cols as int, rr, cc));
        if f.cnt(rr, cc) != 0 {
            assert(f.cnt(rr, cc) == f0.cnt(rr, cc) + cover_count(ws, asg.take(j), rr, cc));
            if f0.cnt(rr, cc) > 0 {
                // The cell held a letter before the fill began: the
                // solution agrees with it, and the fill never changes it.
                assert(f0.compatible_at(
                    ws[j],
                    asg[j].direction,
                    asg[j].start.row as int,
                    asg[j].start.col as int,
                    i,
                ));
                assert(f.cell(rr, cc) == f0.cell(rr, cc));
            } else {
                // The cell is covered by an earlier committed placement,
                // which the solution agrees with on shared cells.
                assert(cover_count(ws, asg.take(j), rr, cc) > 0);
                lemma_cover_count_witness(ws, asg.take(j), rr, cc);
                let l = choose|l: int|
                    0 <= l < asg.take(j).len() && #[trigger] cand_on_path(
                        ws[l],
                        asg.take(j)[l],
                        rr,
                        cc,
                    );
                assert(asg.take(j)[l] == asg[l]);
                let il = choose|il: int|
                    0 <= il < ws[l].len() && rr == #[trigger] pos_row(
                        asg[l].direction,
                        asg[l].start.row as int,
                        il,
                    ) && cc == pos_col(asg[l].direction, asg[l].start.col as int, il);
                assert(f.word_readable_at(
                    ws[l],
                    asg.take(j)[l].direction,
                    asg.take(j)[l].start.row as int,
                    asg.take(j)[l].start.col as int,
                ));
                assert(f.cell(
                    pos_row(asg[l].direction, asg[l].start.row as int, il),
                    pos_col(asg[l].direction, asg[l].start.col as int, il),
                ) == ws[l][il]);
                assert(ws[l][il] == ws[j][i]);
            }
        }
    }
}

/// A full stack of committed placements is itself a solution: each word was
/// validated against the grid it was committed to, so the placements are
/// in bounds, use permitted directions, conflict with nothing the grid held
/// at the start, and agree with one another on every shared cell.
pub proof fn lemma_fill_inv_solution(
    f0: Field,
    f: Field,
    ws: Seq<Seq<char>>,
    dirs: Seq<Direction>,
    placed: Seq<Candidate>,
)
    requires
        fill_inv(f0, f, ws, dirs, placed),
        placed.len() == ws.len(),
    ensures
        solution(f0, ws, dirs, placed),
{
    assert forall|k: int| 0 <= k < placed.len() implies f0.can_place(
        ws[k],
        (#[trigger] placed[k]).direction,
        placed[k].start.row as int,
        placed[k].start.col as int,
    ) by {
        assert forall|i: int| 0 <= i < ws[k].len() implies #[trigger] f0.compatible_at(
            ws[k],
            placed[k].direction,
            placed[k].start.row as int,
            placed[k].start.col as int,
            i,
        ) by {
            assert(0 <= axis_pos(placed[k].start.row as int, row_step(placed[k].direction), i)
                < f0.n_rows as int);
            assert(0 <= axis_pos(placed[k].start.col as int, col_step(placed[k].direction), i)
                < f0.n_cols as int);
            let rr = pos_row(placed[k].direction, placed[k].start.row as int, i);
            let cc = pos_col(placed[k].direction, placed[k].start.col as int, i);
            if f0.cnt(rr, cc) != 0 {
                assert(f.cell(rr, cc) == f0.cell(rr, cc));
                assert(f.cell(
                    pos_row(placed[k].direction, placed[k].start.row as int, i),
                    pos_col(placed[k].direction, placed[k].start.col as int, i),
                ) == ws[k][i]);
            }
        }
    }
    assert forall|k1: int, i1: int, k2: int, i2: int|
        #![trigger pos_row(placed[k1].direction, placed[k1].start.row as int, i1), pos_row(placed[k2].direction, placed[k2].start.row as int, i2)]
        0 <= k1 < placed.len() && 0 <= i1 < ws[k1].len() && 0 <= k2 < placed.len() && 0 <= i2
            < ws[k2].len() && pos_row(placed[k1].direction, placed[k1].start.row as int, i1)
            == pos_row(placed[k2].direction, placed[k2].start.row as int, i2) && pos_col(
            placed[k1].direction,
            placed[k1].start.col as int,
            i1,
        ) == pos_col(placed[k2].direction, placed[k2].start.col as int, i2) implies ws[k1][i1]
        == ws[k2][i2] by {
        assert(f.cell(
            pos_row(placed[k1].direction, placed[k1].start.row as int, i1),
            pos_col(placed[k1].direction, placed[k1].start.col as int, i1),
        ) == ws[k1][i1]);
        assert(f.cell(
            pos_row(placed[k2].direction, placed[k2].start.row as int, i2),
            pos_col(placed[k2].direction, placed[k2].start.col as int, i2),
        ) == ws[k2][i2]);
    }
}

/// Solution `asg` is still ahead of the search: its first `j` placements
/// are exactly the committed ones, and its `j`-th placement is still among
/// the untried candidates of level `j` (the saved list of a stacked frame,
/// or the pending list of the current level).
pub open spec fn live_at(
    asg: Seq<Candidate>,
    pending: Seq<Candidate>,
    stack: Seq<(Vec<Candidate>, Candidate)>,
    j: int,
) -> bool {
    &&& 0 <= j <= stack.len()
    &&& forall|l: int| 0 <= l < j ==> asg[l] == #[trigger] placed_of(stack)[l]
    &&& if j < stack.len() {
        stack[j].0@.contains(asg[j])
    } else {
        pending.contains(asg[j])
    }
}

/// The search in its current state can still reach solution `asg`.
pub open spec fn reachable(
    asg: Seq<Candidate>,
    pending: Seq<Candidate>,
    stack: Seq<(Vec<Candidate>, Candidate)>,
) -> bool {
    exists|j: int| #[trigger] live_at(asg, pending, stack, j)
}

/// The word is readable somewhere on the grid along a permitted direction.
pub open spec fn word_placed(f: Field, dirs: Seq<Direction>, w: Seq<char>) -> bool {
    exists|d: Direction, r0: int, c0: int|
        dirs.contains(d) && #[trigger] f.word_readable_at(w, d, r0, c0)
}

/// Every candidate of the list uses a permitted direction.
pub open spec fn cands_dirs_ok(dirs: Seq<Direction>, cands: Seq<Candidate>) -> bool {
    forall|j: int| 0 <= j < cands.len() ==> dirs.contains((#[trigger] cands[j]).direction)
}

/// Worst-case number of search steps one candidate of level `j` can cost:
/// its own step, plus a full sub-search over the later levels with up to
/// `per` candidates each, plus the step that closes that sub-search.
pub open spec fn search_cost(n: int, j: int, per: int) -> int
    decreases n - j,
{
    if j >= n - 1 {
        1
    } else {
        2 + per * search_cost(n, j + 1, per)
    }
}

pub proof fn lemma_search_cost_pos(n: int, j: int, per: int)
    requires
        per >= 0,
    ensures
        search_cost(n, j, per) >= 1,
    decreases n - j,
{
    if j < n - 1 {
        lemma_search_cost_pos(n, j + 1, per);
        lemma_mul_le(0, 0, per, search_cost(n, j + 1, per));
    }
}

/// The remaining worst-case work of the stacked levels: each frame's saved
/// candidates at that level's cost, plus one closing step per frame.
pub open spec fn stack_phi(stack: Seq<(Vec<Candidate>, Candidate)>, n: int, per: int) -> int
    decreases stack.len(),
{
    if stack.len() == 0 {
        0
    } else {
        stack_phi(stack.drop_last(), n, per) + stack.last().0@.len() * search_cost(
            n,
            stack.len() - 1,
            per,
        ) + 1
    }
}

pub proof fn lemma_stack_phi_nonneg(stack: Seq<(Vec<Candidate>, Candidate)>, n: int, per: int)
    requires
        per >= 0,
    ensures
        stack_phi(stack, n, per) >= 0,
    decreases stack.len(),
{
    if stack.len() > 0 {
        lemma_stack_phi_nonneg(stack.drop_last(), n, per);
        lemma_search_cost_pos(n, stack.len() - 1, per);
        lemma_mul_le(0, 0, stack.last().0@.len() as int, search_cost(n, stack.len() - 1, per));
    }
}

/// The remaining worst-case work of the whole search state.
pub open spec fn phi(
    stack: Seq<(Vec<Candidate>, Candidate)>,
    pending: Seq<Candidate>,
    n: int,
    per: int,
) -> int {
    stack_phi(stack, n, per) + pending.len() * search_cost(n, stack.len() as int, per)
}

pub proof fn lemma_phi_nonneg(
    stack: Seq<(Vec<Candidate>, Candidate)>,
    pending: Seq<Candidate>,
    n: int,
    per: int,
)
    requires
        per >= 0,
    ensures
        phi(stack, pending, n, per) >= 0,
{
    lemma_stack_phi_nonneg(stack, n, per);
    lemma_search_cost_pos(n, stack.len() as int, per);
    lemma_mul_le(0, 0, pending.len() as int, search_cost(n, stack.len() as int, per));
}

/// An upper bound on how many candidate placements any one word can have.
pub open spec fn per_level_bound(f: Field, dirs: Seq<Direction>) -> int {
    dirs.len() * (f.n_rows as int) * (f.n_cols as int)
}

/// A search-step budget that is always enough: with at least this many
/// steps the search never stops for want of budget, so it ends in success
/// or in genuine exhaustion.
pub open spec fn search_step_bound(f: Field, dirs: Seq<Direction>, n: int) -> int {
    per_level_bound(f, dirs) * search_cost(n, 0, per_level_bound(f, dirs)) + 1
}

/// A word-search puzzle: a grid together with the difficulty tier that
/// fixes which directions placements may use.
pub struct Puzzle {
    pub field: Field,
    pub difficulty: Difficulty,
    pub directions: Vec<Direction>,
}

impl Puzzle {
    /// An empty puzzle of the given extents whose permitted directions are
    /// those of the difficulty tier.
    pub fn new(lines: usize, columns: usize, difficulty: Difficulty) -> (p: Puzzle)
        requires
            lines <= isize::MAX as usize,
            columns <= isize::MAX as usize,
        ensures
            p.field.wf(),
            p.field.n_rows == lines,
            p.field.n_cols == columns,
            p.field.all_empty(),
            forall|r: int, c: int|
                in_bounds(lines as int, columns as int, r, c) ==> #[trigger] p.field.cell(r, c)
                    == DEFAULT_CHAR,
            p.difficulty == difficulty,
            p.directions@ == difficulty.directions_spec(),
    {
        let field = Field::new(lines, columns);
        let directions = difficulty.directions();

        Self { field, difficulty, directions }
    }

    /// Fill the grid with every word of the list, in list order, by
    /// depth-first backtracking search over the candidate placements the
    /// difficulty permits, spending at most `max_steps` search steps.
    ///
    /// On success every word of the list is readable on the grid along one
    /// of the permitted directions, and every cell off the placed words is
    /// untouched.  On either failure — exhaustion of the search space or of
    /// the step budget — the grid is restored to exactly its state before
    /// the call.  `SearchExhausted` proves infeasibility: no assignment of
    /// a permitted, in-bounds, letter-compatible placement to every word
    /// exists over the starting grid.  With a budget of at least
    /// [`search_step_bound`] steps the budget never runs out, so a word
    /// list that has such an assignment is owed success.
    pub fn fill(
        &mut self,
        rng: &mut rand::rngs::StdRng,
        word_list: &Vec<&str>,
        max_steps: usize,
    ) -> (r: Result<(), FillError>)
        requires
            old(self).field.wf(),
            forall|k: int| 0 <= k < word_list@.len() ==> (#[trigger] word_list@[k])@.len() >= 1,
            forall|rr: int, cc: int|
                in_bounds(old(self).field.n_rows as int, old(self).field.n_cols as int, rr, cc)
                    ==> #[trigger] old(self).field.cnt(rr, cc) + word_list@.len() <= usize::MAX,
        ensures
            final(self).field.wf(),
            final(self).field.n_rows == old(self).field.n_rows,
            final(self).field.n_cols == old(self).field.n_cols,
            final(self).difficulty == old(self).difficulty,
            final(self).directions == old(self).directions,
            r is Ok ==> forall|k: int|
                0 <= k < word_list@.len() ==> #[trigger] word_placed(
                    final(self).field,
                    old(self).directions@,
                    words_view(word_list@)[k],
                ),
            r is Ok ==> (exists|placements: Seq<Candidate>|
                placements.len() == word_list@.len() && #[trigger] fill_inv(
                    old(self).field,
                    final(self).field,
                    words_view(word_list@),
                    old(self).directions@,
                    placements,
                )),
            r is Ok ==> (exists|asg: Seq<Candidate>| #[trigger] solution(
                old(self).field,
                words_view(word_list@),
                old(self).directions@,
                asg,
            )),
            r is Err ==> forall|rr: int, cc: int|
                in_bounds(old(self).field.n_rows as int, old(self).field.n_cols as int, rr, cc)
                    ==> #[trigger] final(self).field.cell(rr, cc) == old(self).field.cell(rr, cc)
                    && final(self).field.cnt(rr, cc) == old(self).field.cnt(rr, cc),
            word_list@.len() == 0 ==> r is Ok,
            max_steps >= search_step_bound(
                old(self).field,
                old(self).directions@,
                word_list@.len() as int,
            ) ==> r != Err::<(), FillError>(FillError::SearchBudgetExceeded),
            (max_steps >= search_step_bound(
                old(self).field,
                old(self).directions@,
                word_list@.len() as int,
            ) && (exists|asg: Seq<Candidate>| #[trigger] solution(
                old(self).field,
                words_view(word_list@),
                old(self).directions@,
                asg,
            ))) ==> r is Ok,
            r == Err::<(), FillError>(FillError::SearchExhausted) ==> forall|
                asg: Seq<Candidate>,
            |
                !#[trigger] solution(
                    old(self).field,
                    words_view(word_list@),
                    old(self).directions@,
                    asg,
                ),
            (word_list@.len() == 1 && r == Err::<(), FillError>(FillError::SearchExhausted))
                ==> forall|
                d: Direction,
                r0: int,
                c0: int,
            |
                old(self).directions@.contains(d) ==> !#[trigger] old(self).field.can_place(
                    words_view(word_list@)[0],
                    d,
                    r0,
                    c0,
                ),
    {
        let ghost nr0 = old(self).field.n_rows as int;
        let ghost nc0 = old(self).field.n_cols as int;
        let ghost n_words = word_list@.len() as int;
        let ghost per = per_level_bound(old(self).field, old(self).directions@);
        proof {
            lemma_mul_le(old(self).directions@.len() as int, nr0, old(self).directions@.len() as int, nr0);
            lemma_mul_le(old(self).directions@.len() * nr0, nc0, old(self).directions@.len() * nr0, nc0);
            assert(per >= 0);
        }
        if word_list.len() == 0 {
            proof {
                assert forall|rr: int, cc: int| in_bounds(nr0, nc0, rr, cc) implies #[trigger] self.field.cnt(
                    rr,
                    cc,
                ) == old(self).field.cnt(rr, cc) + cover_count(
                    words_view(word_list@),
                    Seq::<Candidate>::empty(),
                    rr,
                    cc,
                ) by {
                    assert(cover_count(words_view(word_list@), Seq::<Candidate>::empty(), rr, cc)
                        == 0);
                }
                assert(Seq::<Candidate>::empty().len() == word_list@.len());
                assert(fill_inv(
                    old(self).field,
                    self.field,
                    words_view(word_list@),
                    old(self).directions@,
                    Seq::<Candidate>::empty(),
                ));
                assert(solution(
                    old(self).field,
                    words_view(word_list@),
                    old(self).directions@,
                    Seq::<Candidate>::empty(),
                ));
            }
            return Ok(());
        }
        proof {
            assert(words_view(word_list@)[0] == word_list@[0]@);
            assert(word_list@[0]@.len() >= 1);
        }
        let first_word = word_list[0];
        let mut pending: Vec<Candidate> = gen_candidates(
            &self.field,
            rng,
            first_word,
            &self.directions,
        );
        let mut stack: Vec<(Vec<Candidate>, Candidate)> = Vec::new();
        let mut steps: usize = 0;
        proof {
            assert forall|j: int| 0 <= j < pending@.len() implies old(self).directions@.contains(
                (#[trigger] pending@[j]).direction,
            ) by {
                assert(pending@.contains(pending@[j]));
            }
            assert(placed_of(stack@) =~= Seq::<Candidate>::empty());
            assert forall|rr: int, cc: int| in_bounds(nr0, nc0, rr, cc) implies #[trigger] self.field.cnt(
                rr,
                cc,
            ) == old(self).field.cnt(rr, cc) + cover_count(
                words_view(word_list@),
                placed_of(stack@),
                rr,
                cc,
            ) by {
                assert(cover_count(words_view(word_list@), Seq::<Candidate>::empty(), rr, cc)
                    == 0);
            }
            assert(fill_inv(
                old(self).field,
                self.field,
                words_view(word_list@),
                old(self).directions@,
                placed_of(stack@),
            ));
            assert forall|asg: Seq<Candidate>| #[trigger] solution(
                old(self).field,
                words_view(word_list@),
                old(self).directions@,
                asg,
            ) implies reachable(asg, pending@, stack@) by {
                assert(old(self).field.can_place(
                    words_view(word_list@)[0],
                    asg[0].direction,
                    asg[0].start.row as int,
                    asg[0].start.col as int,
                ));
                assert(pending@.contains(asg[0]));
                assert(live_at(asg, pending@, stack@, 0));
            }
            assert(pending@.len() <= per);
            lemma_search_cost_pos(n_words, 0, per);
            lemma_mul_le(
                pending@.len() as int,
                search_cost(n_words, 0, per),
                per,
                search_cost(n_words, 0, per),
            );
            assert(stack_phi(stack@, n_words, per) == 0);
            assert(steps + phi(stack@, pending@, n_words, per) <= per * search_cost(
                n_words,
                0,
                per,
            ));
        }
        loop
            invariant
                word_list@.len() >= 1,
                stack@.len() < word_list@.len(),
                self.difficulty == old(self).difficulty,
                self.directions == old(self).directions,
                nr0 == old(self).field.n_rows as int,
                nc0 == old(self).field.n_cols as int,
                forall|k: int| 0 <= k < word_list@.len() ==> (#[trigger] word_list@[k])@.len() >= 1,
                forall|rr: int, cc: int|
                    in_bounds(nr0, nc0, rr, cc) ==> #[trigger] old(self).field.cnt(rr, cc)
                        + word_list@.len() <= usize::MAX,
                fill_inv(
                    old(self).field,
                    self.field,
                    words_view(word_list@),
                    old(self).directions@,
                    placed_of(stack@),
                ),
                cands_dirs_ok(old(self).directions@, pending@),
                forall|fi: int|
                    0 <= fi < stack@.len() ==> cands_dirs_ok(
                        old(self).directions@,
                        (#[trigger] stack@[fi]).0@,
                    ),
                forall|asg: Seq<Candidate>| #[trigger] solution(
                    old(self).field,
                    words_view(word_list@),
                    old(self).directions@,
                    asg,
                ) ==> reachable(asg, pending@, stack@),
                n_words == word_list@.len() as int,
                per == per_level_bound(old(self).field, old(self).directions@),
                per >= 0,
                pending@.len() <= per,
                forall|fi: int|
                    0 <= fi < stack@.len() ==> (#[trigger] stack@[fi]).0@.len() <= per,
                steps + phi(stack@, pending@, n_words, per) <= per * search_cost(
                    n_words,
                    0,
                    per,
                ),
                word_list@.len() == 1 ==> stack@.len() == 0 && self.field == old(self).field,
                word_list@.len() == 1 ==> forall|cd: Candidate|
                    (old(self).directions@.contains(cd.direction) && old(self).field.can_place(
                        words_view(word_list@)[0],
                        cd.direction,
                        cd.start.row as int,
                        cd.start.col as int,
                    )) ==> #[trigger] pending@.contains(cd),
                steps <= max_steps,
            decreases max_steps - steps,
        {
            if steps >= max_steps {
                proof {
                    // The budget only runs out below the worst-case bound.
                    lemma_phi_nonneg(stack@, pending@, n_words, per);
                    assert(steps <= per * search_cost(n_words, 0, per));
                    assert(max_steps < search_step_bound(
                        old(self).field,
                        old(self).directions@,
                        word_list@.len() as int,
                    ));
                }
                // Budget exhausted: undo every committed placement, so the
                // grid leaves exactly as it came.
                while stack.len() > 0
                    invariant
                        self.difficulty == old(self).difficulty,
                        self.directions == old(self).directions,
                        nr0 == old(self).field.n_rows as int,
                        nc0 == old(self).field.n_cols as int,
                        forall|k: int|
                            0 <= k < word_list@.len() ==> (#[trigger] word_list@[k])@.len() >= 1,
                        stack@.len() < word_list@.len(),
                        fill_inv(
                            old(self).field,
                            self.field,
                            words_view(word_list@),
                            old(self).directions@,
                            placed_of(stack@),
                        ),
                    decreases stack@.len(),
                {
                    let ghost stack_before = stack@;
                    let ghost field_before = self.field;
                    match stack.pop() {
                        Some(frame) => {
                            let undo_word = word_list[stack.len()];
                            proof {
                                lemma_placed_of_drop_last(stack_before);
                                lemma_fill_uncommit_pre(
                                    old(self).field,
                                    field_before,
                                    words_view(word_list@),
                                    old(self).directions@,
                                    placed_of(stack_before),
                                );
                                assert(frame == stack_before.last());
                                assert(frame.1 == placed_of(stack_before).last());
                                assert(undo_word@ == words_view(word_list@)[stack_before.len()
                                    - 1]);
                            }
                            self.field.remove_from_grid(
                                undo_word,
                                &frame.1.direction,
                                &frame.1.start,
                            );
                            proof {
                                lemma_fill_inv_uncommit(
                                    old(self).field,
                                    field_before,
                                    self.field,
                                    words_view(word_list@),
                                    old(self).directions@,
                                    placed_of(stack_before),
                                );
                                assert(placed_of(stack@) =~= placed_of(stack_before).drop_last());
                            }
                        },
                        None => {
                            proof {
                                assert(false);
                            }
                        },
                    }
                }
                proof {
                    assert(placed_of(stack@) =~= Seq::<Candidate>::empty());
                    lemma_fill_inv_empty(
                        old(self).field,
                        self.field,
                        words_view(word_list@),
                        old(self).directions@,
                    );
                }
                return Err(FillError::SearchBudgetExceeded);
            }
            steps += 1;
            let ghost pending_before = pending@;
            match pending.pop() {
                Some(cd) => {
                    let k = stack.len();
                    proof {
                        assert(cd == pending_before[pending_before.len() - 1]);
                        assert(old(self).directions@.contains(cd.direction));
                        assert forall|j: int| 0 <= j < pending@.len() implies old(
                            self,
                        ).directions@.contains((#[trigger] pending@[j]).direction) by {
                            assert(pending@[j] == pending_before[j]);
                        }
                        assert(word_list@[k as int]@.len() >= 1);
                        assert(words_view(word_list@)[k as int] == word_list@[k as int]@);
                    }
                    let word = word_list[k];
                    let fit = self.field.try_fit(word, &cd.direction, &cd.start);
                    if fit.is_ok() {
                        proof {
                            assert(self.field.can_place(
                                words_view(word_list@)[k as int],
                                cd.direction,
                                cd.start.row as int,
                                cd.start.col as int,
                            ));
                            lemma_fill_commit_pre(
                                old(self).field,
                                self.field,
                                words_view(word_list@),
                                old(self).directions@,
                                placed_of(stack@),
                                cd,
                            );
                        }
                        let ghost field_before = self.field;
                        let ghost stack_before = stack@;
                        self.field.put_into_grid(word, &cd.direction, &cd.start);
                        proof {
                            assert(commit_rel(
                                field_before,
                                self.field,
                                words_view(word_list@)[k as int],
                                cd.direction,
                                cd.start.row as int,
                                cd.start.col as int,
                            ));
                            lemma_fill_inv_commit(
                                old(self).field,
                                field_before,
                                self.field,
                                words_view(word_list@),
                                old(self).directions@,
                                placed_of(stack_before),
                                cd,
                            );
                        }
                        stack.push((pending, cd));
                        proof {
                            assert(stack@ == stack_before.push(stack@.last()));
                            lemma_placed_of_push(stack_before, stack@.last());
                            assert(stack@.last().1 == cd);
                            assert(placed_of(stack@) =~= placed_of(stack_before).push(cd));
                            assert forall|fi: int| 0 <= fi < stack@.len() implies cands_dirs_ok(
                                old(self).directions@,
                                (#[trigger] stack@[fi]).0@,
                            ) by {
                                if fi < stack_before.len() {
                                    assert(stack@[fi] == stack_before[fi]);
                                }
                            }
                        }
                        if stack.len() == word_list.len() {
                            proof {
                                assert forall|kk: int|
                                    0 <= kk < word_list@.len() implies #[trigger] word_placed(
                                    self.field,
                                    old(self).directions@,
                                    words_view(word_list@)[kk],
                                ) by {
                                    assert(old(self).directions@.contains(
                                        placed_of(stack@)[kk].direction,
                                    ));
                                    assert(self.field.word_readable_at(
                                        words_view(word_list@)[kk],
                                        placed_of(stack@)[kk].direction,
                                        placed_of(stack@)[kk].start.row as int,
                                        placed_of(stack@)[kk].start.col as int,
                                    ));
                                }
                                assert(placed_of(stack@).len() == word_list@.len());
                                assert(fill_inv(
                                    old(self).field,
                                    self.field,
                                    words_view(word_list@),
                                    old(self).directions@,
                                    placed_of(stack@),
                                ));
                                lemma_fill_inv_solution(
                                    old(self).field,
                                    self.field,
                                    words_view(word_list@),
                                    old(self).directions@,
                                    placed_of(stack@),
                                );
                            }
                            return Ok(());
                        }
                        proof {
                            assert(word_list@[stack@.len() as int]@.len() >= 1);
                            assert(words_view(word_list@)[stack@.len() as int] == word_list@[stack@.len() as int]@);
                        }
                        let next_word = word_list[stack.len()];
                        pending = gen_candidates(&self.field, rng, next_word, &self.directions);
                        proof {
                            assert forall|j: int| 0 <= j < pending@.len() implies old(
                                self,
                            ).directions@.contains((#[trigger] pending@[j]).direction) by {
                                assert(pending@.contains(pending@[j]));
                            }
                            assert forall|asg: Seq<Candidate>| #[trigger] solution(
                                old(self).field,
                                words_view(word_list@),
                                old(self).directions@,
                                asg,
                            ) implies reachable(asg, pending@, stack@) by {
                                assert(reachable(asg, pending_before, stack_before));
                                let j = choose|j: int| #[trigger] live_at(
                                    asg,
                                    pending_before,
                                    stack_before,
                                    j,
                                );
                                if j < stack_before.len() {
                                    assert(stack@[j] == stack_before[j]);
                                    assert forall|l: int| 0 <= l < j implies asg[l]
                                        == #[trigger] placed_of(stack@)[l] by {
                                        assert(placed_of(stack@)[l] == placed_of(
                                            stack_before,
                                        )[l]);
                                        assert(asg[l] == placed_of(stack_before)[l]);
                                    }
                                    assert(live_at(asg, pending@, stack@, j));
                                } else {
                                    if asg[j] == cd {
                                        assert forall|l: int| 0 <= l < j + 1 implies asg[l]
                                            == #[trigger] placed_of(stack@)[l] by {
                                            if l < j {
                                                assert(placed_of(stack@)[l] == placed_of(
                                                    stack_before,
                                                )[l]);
                                                assert(asg[l] == placed_of(stack_before)[l]);
                                            } else {
                                                assert(placed_of(stack@)[l] == cd);
                                            }
                                        }
                                        assert(old(self).field.can_place(
                                            words_view(word_list@)[j + 1],
                                            asg[j + 1].direction,
                                            asg[j + 1].start.row as int,
                                            asg[j + 1].start.col as int,
                                        ));
                                        assert(pending@.contains(asg[j + 1]));
                                        assert(live_at(asg, pending@, stack@, j + 1));
                                    } else {
                                        assert(pending_before =~= stack@.last().0@.push(cd));
                                        vstd::seq_lib::lemma_seq_contains_after_push(
                                            stack@.last().0@,
                                            cd,
                                            asg[j],
                                        );
                                        assert(stack@[j] == stack@.last());
                                        assert(stack@[j].0@.contains(asg[j]));
                                        assert forall|l: int| 0 <= l < j implies asg[l]
                                            == #[trigger] placed_of(stack@)[l] by {
                                            assert(placed_of(stack@)[l] == placed_of(
                                                stack_before,
                                            )[l]);
                                            assert(asg[l] == placed_of(stack_before)[l]);
                                        }
                                        assert(live_at(asg, pending@, stack@, j));
                                    }
                                }
                            }
                            assert(pending@.len() <= per);
                            assert(stack@.drop_last() =~= stack_before);
                            assert(stack_phi(stack@, n_words, per) == stack_phi(
                                stack_before,
                                n_words,
                                per,
                            ) + stack@.last().0@.len() * search_cost(n_words, stack@.len() - 1, per)
                                + 1);
                            assert(stack@.last().0@.len() == pending_before.len() - 1);
                            assert(search_cost(n_words, stack_before.len() as int, per) == 2 + per
                                * search_cost(n_words, stack@.len() as int, per));
                            lemma_search_cost_pos(n_words, stack@.len() as int, per);
                            assert((pending_before.len() - 1) * search_cost(
                                n_words,
                                stack_before.len() as int,
                                per,
                            ) == pending_before.len() * search_cost(
                                n_words,
                                stack_before.len() as int,
                                per,
                            ) - search_cost(n_words, stack_before.len() as int, per))
                                by (nonlinear_arith);
                            lemma_mul_le(
                                pending@.len() as int,
                                search_cost(n_words, stack@.len() as int, per),
                                per,
                                search_cost(n_words, stack@.len() as int, per),
                            );
                            assert(steps + phi(stack@, pending@, n_words, per) <= per
                                * search_cost(n_words, 0, per));
                            assert forall|fi: int|
                                0 <= fi < stack@.len() implies (#[trigger] stack@[fi]).0@.len()
                                <= per by {
                                if fi < stack_before.len() {
                                    assert(stack@[fi] == stack_before[fi]);
                                }
                            }
                        }
                    } else {
                        proof {
                            if word_list@.len() == 1 {
                                assert(!self.field.can_place(
                                    word@,
                                    cd.direction,
                                    cd.start.row as int,
                                    cd.start.col as int,
                                ));
                                assert(!old(self).field.can_place(
                                    words_view(word_list@)[0],
                                    cd.direction,
                                    cd.start.row as int,
                                    cd.start.col as int,
                                ));
                                assert forall|cd2: Candidate|
                                    (old(self).directions@.contains(cd2.direction) && old(
                                        self,
                                    ).field.can_place(
                                        words_view(word_list@)[0],
                                        cd2.direction,
                                        cd2.start.row as int,
                                        cd2.start.col as int,
                                    )) implies #[trigger] pending@.contains(cd2) by {
                                    assert(pending_before.contains(cd2));
                                    assert(pending_before =~= pending@.push(cd));
                                    vstd::seq_lib::lemma_seq_contains_after_push(
                                        pending@,
                                        cd,
                                        cd2,
                                    );
                                    assert(cd2 != cd);
                                }
                            }
                            assert forall|asg: Seq<Candidate>| #[trigger] solution(
                                old(self).field,
                                words_view(word_list@),
                                old(self).directions@,
                                asg,
                            ) implies reachable(asg, pending@, stack@) by {
                                assert(reachable(asg, pending_before, stack@));
                                let j = choose|j: int| #[trigger] live_at(
                                    asg,
                                    pending_before,
                                    stack@,
                                    j,
                                );
                                if j == stack@.len() {
                                    assert(pending_before =~= pending@.push(cd));
                                    vstd::seq_lib::lemma_seq_contains_after_push(
                                        pending@,
                                        cd,
                                        asg[j],
                                    );
                                    if asg[j] == cd {
                                        // The failed candidate cannot be the
                                        // solution's next placement: that one
                                        // still validates here.
                                        assert(placed_of(stack@) =~= asg.take(j));
                                        lemma_solution_can_place(
                                            old(self).field,
                                            self.field,
                                            words_view(word_list@),
                                            old(self).directions@,
                                            asg,
                                            j,
                                        );
                                        assert(words_view(word_list@)[j] == word_list@[j]@);
                                        assert(false);
                                    }
                                    assert(pending@.contains(asg[j]));
                                    assert(live_at(asg, pending@, stack@, j));
                                } else {
                                    assert(live_at(asg, pending@, stack@, j));
                                }
                            }
                            lemma_search_cost_pos(n_words, stack@.len() as int, per);
                            assert((pending_before.len() - 1) * search_cost(
                                n_words,
                                stack@.len() as int,
                                per,
                            ) == pending_before.len() * search_cost(n_words, stack@.len() as int, per)
                                - search_cost(n_words, stack@.len() as int, per))
                                by (nonlinear_arith);
                            assert(pending@.len() == pending_before.len() - 1);
                            assert(steps + phi(stack@, pending@, n_words, per) <= per
                                * search_cost(n_words, 0, per));
                        }
                    }
                },
                None => {
                    let ghost stack_before = stack@;
                    let ghost field_before = self.field;
                    match stack.pop() {
                        Some(frame) => {
                            let undo_word = word_list[stack.len()];
                            proof {
                                lemma_placed_of_drop_last(stack_before);
                                lemma_fill_uncommit_pre(
                                    old(self).field,
                                    field_before,
                                    words_view(word_list@),
                                    old(self).directions@,
                                    placed_of(stack_before),
                                );
                                assert(frame == stack_before.last());
                                assert(frame.1 == placed_of(stack_before).last());
                                assert(undo_word@ == words_view(word_list@)[stack_before.len()
                                    - 1]);
                            }
                            self.field.remove_from_grid(
                                undo_word,
                                &frame.1.direction,
                                &frame.1.start,
                            );
                            proof {
                                lemma_fill_inv_uncommit(
                                    old(self).field,
                                    field_before,
                                    self.field,
                                    words_view(word_list@),
                                    old(self).directions@,
                                    placed_of(stack_before),
                                );
                                assert(placed_of(stack@) =~= placed_of(stack_before).drop_last());
                            }
                            proof {
                                assert(stack_before[stack_before.len() - 1] == frame);
                                assert(cands_dirs_ok(old(self).directions@, frame.0@));
                            }
                            pending = frame.0;
                            proof {
                                assert forall|asg: Seq<Candidate>| #[trigger] solution(
                                    old(self).field,
                                    words_view(word_list@),
                                    old(self).directions@,
                                    asg,
                                ) implies reachable(asg, pending@, stack@) by {
                                    assert(reachable(asg, pending_before, stack_before));
                                    let j = choose|j: int| #[trigger] live_at(
                                        asg,
                                        pending_before,
                                        stack_before,
                                        j,
                                    );
                                    if j == stack_before.len() {
                                        assert(pending_before.contains(asg[j]));
                                        assert(pending_before.len() == 0);
                                        assert(false);
                                    } else {
                                        assert forall|l: int| 0 <= l < j implies asg[l]
                                            == #[trigger] placed_of(stack@)[l] by {
                                            assert(placed_of(stack@)[l] == placed_of(
                                                stack_before,
                                            )[l]);
                                            assert(asg[l] == placed_of(stack_before)[l]);
                                        }
                                        if j == stack_before.len() - 1 {
                                            assert(stack_before[j].0@ == frame.0@);
                                            assert(pending@ == frame.0@);
                                            assert(live_at(asg, pending@, stack@, j));
                                        } else {
                                            assert(stack@[j] == stack_before[j]);
                                            assert(live_at(asg, pending@, stack@, j));
                                        }
                                    }
                                }
                                assert(pending_before.len() * search_cost(
                                    n_words,
                                    stack_before.len() as int,
                                    per,
                                ) == 0) by (nonlinear_arith)
                                    requires
                                        pending_before.len() == 0,
                                ;
                                assert(stack_before.drop_last() =~= stack@);
                                assert(stack_phi(stack_before, n_words, per) == stack_phi(
                                    stack@,
                                    n_words,
                                    per,
                                ) + stack_before.last().0@.len() * search_cost(
                                    n_words,
                                    stack_before.len() - 1,
                                    per,
                                ) + 1);
                                assert(stack_before.last() == frame);
                                assert(pending@ == frame.0@);
                                assert(stack_before[stack_before.len() - 1].0@.len() <= per);
                                assert(pending@.len() <= per);
                                assert(steps + phi(stack@, pending@, n_words, per) <= per
                                    * search_cost(n_words, 0, per));
                            }
                        },
                        None => {
                            proof {
                                assert(placed_of(stack@) =~= Seq::<Candidate>::empty());
                                lemma_fill_inv_empty(
                                    old(self).field,
                                    self.field,
                                    words_view(word_list@),
                                    old(self).directions@,
                                );
                                assert forall|asg: Seq<Candidate>| !#[trigger] solution(
                                    old(self).field,
                                    words_view(word_list@),
                                    old(self).directions@,
                                    asg,
                                ) by {
                                    if solution(
                                        old(self).field,
                                        words_view(word_list@),
                                        old(self).directions@,
                                        asg,
                                    ) {
                                        assert(reachable(asg, pending_before, stack@));
                                        let j = choose|j: int| #[trigger] live_at(
                                            asg,
                                            pending_before,
                                            stack@,
                                            j,
                                        );
                                        assert(j == 0);
                                        assert(pending_before.contains(asg[0]));
                                        assert(pending_before.len() == 0);
                                    }
                                }
                                if word_list@.len() == 1 {
                                    assert forall|d: Direction, r0: int, c0: int|
                                        old(self).directions@.contains(d) implies !#[trigger] old(
                                        self,
                                    ).field.can_place(words_view(word_list@)[0], d, r0, c0) by {
                                        if old(self).field.can_place(
                                            words_view(word_list@)[0],
                                            d,
                                            r0,
                                            c0,
                                        ) {
                                            assert(words_view(word_list@)[0]
                                                == word_list@[0]@);
                                            assert(word_list@[0]@.len() >= 1);
                                            assert(0 <= axis_pos(r0, row_step(d), 0) < nr0);
                                            assert(0 <= axis_pos(c0, col_step(d), 0) < nc0);
                                            let cdw = Candidate {
                                                direction: d,
                                                start: Coordinate {
                                                    row: r0 as isize,
                                                    col: c0 as isize,
                                                },
                                            };
                                            assert(cdw.start.row as int == r0);
                                            assert(cdw.start.col as int == c0);
                                            assert(pending@.contains(cdw));
                                            assert(pending@.len() == 0);
                                        }
                                    }
                                }
                            }
                            return Err(FillError::SearchExhausted);
                        },
                    }
                },
            }
        }
    }
}

} // verus!
