use vstd::prelude::*;

use crate::grid::{cell_write, grid_dims_ok, CellState};
use crate::nonogram_target::NonogramTarget;

verus! {

/// One reversible cell change: the cell at (`col`, `row`) went from
/// `old_state` to `new_state`.
#[derive(Clone, Copy, PartialEq, Eq, Structural, Debug)]
pub struct TransactionDetails {
    pub col: usize,
    pub row: usize,
    pub old_state: CellState,
    pub new_state: CellState,
}

/// An atomic, reversible, ordered list of cell changes, produced by diffing
/// two grid snapshots.
#[derive(Debug)]
pub struct Transaction {
    pub changes: Vec<TransactionDetails>,
}

impl Transaction {
    /// An element-for-element copy of this transaction.
    pub fn duplicate(&self) -> (t: Transaction)
        ensures
            t.changes@ == self.changes@,
    {
        let mut changes: Vec<TransactionDetails> = Vec::new();
        let mut i: usize = 0;
        while i < self.changes.len()
            invariant
                i <= self.changes@.len(),
                changes@ == self.changes@.take(i as int),
            decreases self.changes@.len() - i,
        {
            changes.push(self.changes[i]);
            proof {
                assert(self.changes@.take(i as int).push(self.changes@[i as int]) =~= self
                    .changes@.take(i as int + 1));
            }
            i = i + 1;
        }
        proof {
            assert(self.changes@.take(self.changes@.len() as int) =~= self.changes@);
        }
        Transaction { changes }
    }
}

/// `g` after replaying the `new_state` of every change, in order.
pub open spec fn applied(g: Seq<Seq<CellState>>, changes: Seq<TransactionDetails>) -> Seq<
    Seq<CellState>,
>
    decreases changes.len(),
{
    if changes.len() == 0 {
        g
    } else {
        applied(
            cell_write(g, changes[0].col as int, changes[0].row as int, changes[0].new_state),
            changes.drop_first(),
        )
    }
}

/// `g` after replaying the `old_state` of every change, in order.
pub open spec fn rolled_back(g: Seq<Seq<CellState>>, changes: Seq<TransactionDetails>) -> Seq<
    Seq<CellState>,
>
    decreases changes.len(),
{
    if changes.len() == 0 {
        g
    } else {
        rolled_back(
            cell_write(g, changes[0].col as int, changes[0].row as int, changes[0].old_state),
            changes.drop_first(),
        )
    }
}

/// Every change addresses a cell inside a `height` x `width` grid.
pub open spec fn changes_in_bounds(
    changes: Seq<TransactionDetails>,
    height: int,
    width: int,
) -> bool {
    forall|i: int|
        0 <= i < changes.len() ==> (#[trigger] changes[i]).row < height && changes[i].col < width
}

/// Every change records `g`'s current value as its old state and is a real
/// change (old differs from new).
pub open spec fn changes_match_old(
    changes: Seq<TransactionDetails>,
    g: Seq<Seq<CellState>>,
) -> bool {
    forall|i: int|
        0 <= i < changes.len() ==> {
            let ch = #[trigger] changes[i];
            ch.old_state == g[ch.row as int][ch.col as int] && ch.old_state != ch.new_state
        }
}

/// No two changes address the same cell.
pub open spec fn changes_distinct(changes: Seq<TransactionDetails>) -> bool {
    forall|i: int, j: int|
        0 <= i < j < changes.len() ==> !(#[trigger] changes[i].col == #[trigger] changes[j].col
            && changes[i].row == changes[j].row)
}

/// The changes of a cell-by-cell diff of column `col`, restricted to rows at
/// or below `row`, in row order.
pub open spec fn diff_in_col(
    gold: Seq<Seq<CellState>>,
    gnew: Seq<Seq<CellState>>,
    col: int,
    row: int,
) -> Seq<TransactionDetails>
    decreases gold.len() - row,
{
    if row < 0 || row >= gold.len() {
        Seq::<TransactionDetails>::empty()
    } else {
        let rest = diff_in_col(gold, gnew, col, row + 1);
        if gold[row][col] != gnew[row][col] {
            seq![
                TransactionDetails {
                    col: col as usize,
                    row: row as usize,
                    old_state: gold[row][col],
                    new_state: gnew[row][col],
                },
            ] + rest
        } else {
            rest
        }
    }
}

/// The changes of a cell-by-cell diff of the columns at or right of `col`,
/// column by column.
pub open spec fn diff_cols_from(
    gold: Seq<Seq<CellState>>,
    gnew: Seq<Seq<CellState>>,
    width: int,
    col: int,
) -> Seq<TransactionDetails>
    decreases width - col,
{
    if col < 0 || col >= width {
        Seq::<TransactionDetails>::empty()
    } else {
        diff_in_col(gold, gnew, col, 0) + diff_cols_from(gold, gnew, width, col + 1)
    }
}

/// The cell-by-cell diff of two equally sized grids: one change per
/// differing cell, column-major, carrying the old and the new value.
pub open spec fn diff_grids(
    gold: Seq<Seq<CellState>>,
    gnew: Seq<Seq<CellState>>,
    width: int,
) -> Seq<TransactionDetails> {
    diff_cols_from(gold, gnew, width, 0)
}

/// Replaying one more change on the end replays it last.
pub proof fn lemma_applied_snoc(
    g: Seq<Seq<CellState>>,
    changes: Seq<TransactionDetails>,
    ch: TransactionDetails,
)
    ensures
        applied(g, changes.push(ch)) == cell_write(
            applied(g, changes),
            ch.col as int,
            ch.row as int,
            ch.new_state,
        ),
    decreases changes.len(),
{
    reveal_with_fuel(applied, 3);
    if changes.len() == 0 {
        assert(changes.push(ch).drop_first() =~= Seq::<TransactionDetails>::empty());
        assert(changes.push(ch)[0] == ch);
    } else {
        assert(changes.push(ch).drop_first() =~= changes.drop_first().push(ch));
        assert(changes.push(ch)[0] == changes[0]);
        lemma_applied_snoc(
            cell_write(g, changes[0].col as int, changes[0].row as int, changes[0].new_state),
            changes.drop_first(),
            ch,
        );
    }
}

/// Rolling back one more change on the end replays its old state last.
pub proof fn lemma_rolled_back_snoc(
    g: Seq<Seq<CellState>>,
    changes: Seq<TransactionDetails>,
    ch: TransactionDetails,
)
    ensures
        rolled_back(g, changes.push(ch)) == cell_write(
            rolled_back(g, changes),
            ch.col as int,
            ch.row as int,
            ch.old_state,
        ),
    decreases changes.len(),
{
    reveal_with_fuel(rolled_back, 3);
    if changes.len() == 0 {
        assert(changes.push(ch).drop_first() =~= Seq::<TransactionDetails>::empty());
        assert(changes.push(ch)[0] == ch);
    } else {
        assert(changes.push(ch).drop_first() =~= changes.drop_first().push(ch));
        assert(changes.push(ch)[0] == changes[0]);
        lemma_rolled_back_snoc(
            cell_write(g, changes[0].col as int, changes[0].row as int, changes[0].old_state),
            changes.drop_first(),
            ch,
        );
    }
}

/// Replaying in-bounds changes never alters the grid's dimensions.
pub proof fn lemma_applied_dims(
    g: Seq<Seq<CellState>>,
    changes: Seq<TransactionDetails>,
    width: int,
)
    requires
        grid_dims_ok(g, width),
        changes_in_bounds(changes, g.len() as int, width),
    ensures
        applied(g, changes).len() == g.len(),
        grid_dims_ok(applied(g, changes), width),
        rolled_back(g, changes).len() == g.len(),
        grid_dims_ok(rolled_back(g, changes), width),
    decreases changes.len(),
{
    if changes.len() != 0 {
        let ch = changes[0];
        let ga = cell_write(g, ch.col as int, ch.row as int, ch.new_state);
        let gr = cell_write(g, ch.col as int, ch.row as int, ch.old_state);
        assert(ga.len() == g.len());
        assert(gr.len() == g.len());
        assert(grid_dims_ok(ga, width));
        assert(grid_dims_ok(gr, width));
        assert forall|i: int| 0 <= i < changes.drop_first().len() implies (#[trigger] changes
            .drop_first()[i]).row < g.len() && changes.drop_first()[i].col < width by {
            assert(changes.drop_first()[i] == changes[i + 1]);
        }
        lemma_applied_dims(ga, changes.drop_first(), width);
        lemma_applied_dims(gr, changes.drop_first(), width);
        assert(applied(g, changes) == applied(ga, changes.drop_first()));
        assert(rolled_back(g, changes) == rolled_back(gr, changes.drop_first()));
    }
}

/// Some change addresses the cell at (`col`, `row`).
pub open spec fn changes_cover(changes: Seq<TransactionDetails>, col: int, row: int) -> bool {
    exists|i: int|
        0 <= i < changes.len() && (#[trigger] changes[i]).col as int == col && changes[i].row as int
            == row
}

proof fn lemma_diff_in_col_props(
    gold: Seq<Seq<CellState>>,
    gnew: Seq<Seq<CellState>>,
    col: int,
    row: int,
    width: int,
)
    requires
        gold.len() == gnew.len(),
        gold.len() <= usize::MAX,
        width <= usize::MAX,
        grid_dims_ok(gold, width),
        grid_dims_ok(gnew, width),
        0 <= col < width,
        0 <= row,
    ensures
        forall|i: int|
            0 <= i < diff_in_col(gold, gnew, col, row).len() ==> {
                let ch = #[trigger] diff_in_col(gold, gnew, col, row)[i];
                &&& ch.col as int == col
                &&& row <= ch.row as int
                &&& (ch.row as int) < gold.len()
                &&& ch.old_state == gold[ch.row as int][col]
                &&& ch.new_state == gnew[ch.row as int][col]
                &&& ch.old_state != ch.new_state
            },
        forall|i: int, j: int|
            0 <= i < j < diff_in_col(gold, gnew, col, row).len() ==> (#[trigger] diff_in_col(
                gold,
                gnew,
                col,
                row,
            )[i]).row < (#[trigger] diff_in_col(gold, gnew, col, row)[j]).row,
        forall|rr: int|
            row <= rr < gold.len() && gold[rr][col] != (#[trigger] gnew[rr])[col]
                ==> changes_cover(diff_in_col(gold, gnew, col, row), col, rr),
    decreases gold.len() - row,
{
    if row < 0 || row >= gold.len() {
    } else {
        lemma_diff_in_col_props(gold, gnew, col, row + 1, width);
        let rest = diff_in_col(gold, gnew, col, row + 1);
        let d = diff_in_col(gold, gnew, col, row);
        if gold[row][col] != gnew[row][col] {
            let ch0 = TransactionDetails {
                col: col as usize,
                row: row as usize,
                old_state: gold[row][col],
                new_state: gnew[row][col],
            };
            assert(d == seq![ch0] + rest);
            assert(d[0] == ch0);
            assert forall|i: int| 1 <= i < d.len() implies d[i] == rest[i - 1] by {}
            assert forall|rr: int|
                row <= rr < gold.len() && gold[rr][col] != (#[trigger] gnew[rr])[col] implies
                changes_cover(d, col, rr) by {
                if rr == row {
                    assert(d[0].col as int == col && d[0].row as int == rr);
                } else {
                    let wi = choose|i: int|
                        0 <= i < rest.len() && (#[trigger] rest[i]).col as int == col
                            && rest[i].row as int == rr;
                    assert(d[wi + 1].col as int == col && d[wi + 1].row as int == rr);
                }
            }
        } else {
            assert(d == rest);
        }
    }
}

proof fn lemma_diff_cols_props(
    gold: Seq<Seq<CellState>>,
    gnew: Seq<Seq<CellState>>,
    width: int,
    col: int,
)
    requires
        gold.len() == gnew.len(),
        gold.len() <= usize::MAX,
        width <= usize::MAX,
        grid_dims_ok(gold, width),
        grid_dims_ok(gnew, width),
        0 <= col,
    ensures
        forall|i: int|
            0 <= i < diff_cols_from(gold, gnew, width, col).len() ==> {
                let ch = #[trigger] diff_cols_from(gold, gnew, width, col)[i];
                &&& col <= ch.col as int
                &&& (ch.col as int) < width
                &&& 0 <= ch.row as int
                &&& (ch.row as int) < gold.len()
                &&& ch.old_state == gold[ch.row as int][ch.col as int]
                &&& ch.new_state == gnew[ch.row as int][ch.col as int]
                &&& ch.old_state != ch.new_state
            },
        forall|i: int, j: int|
            0 <= i < j < diff_cols_from(gold, gnew, width, col).len() ==> {
                let chi = #[trigger] diff_cols_from(gold, gnew, width, col)[i];
                let chj = #[trigger] diff_cols_from(gold, gnew, width, col)[j];
                chi.col < chj.col || (chi.col == chj.col && chi.row < chj.row)
            },
        forall|cc: int, rr: int|
            col <= cc < width && 0 <= rr < gold.len() && (#[trigger] gold[rr][cc]) != gnew[rr][cc]
                ==> changes_cover(diff_cols_from(gold, gnew, width, col), cc, rr),
    decreases width - col,
{
    if col >= width {
    } else {
        lemma_diff_in_col_props(gold, gnew, col, 0, width);
        lemma_diff_cols_props(gold, gnew, width, col + 1);
        let head = diff_in_col(gold, gnew, col, 0);
        let rest = diff_cols_from(gold, gnew, width, col + 1);
        let d = diff_cols_from(gold, gnew, width, col);
        assert(d == head + rest);
        assert forall|i: int| 0 <= i < head.len() implies d[i] == head[i] by {}
        assert forall|i: int| head.len() <= i < d.len() implies d[i] == rest[i - head.len()] by {}
        assert forall|cc: int, rr: int|
            col <= cc < width && 0 <= rr < gold.len() && (#[trigger] gold[rr][cc]) != gnew[rr][cc]
                implies changes_cover(d, cc, rr) by {
            if cc == col {
                assert(gold[rr][col] != (gnew[rr])[col]);
                assert(changes_cover(head, col, rr));
                let wi = choose|i: int|
                    0 <= i < head.len() && (#[trigger] head[i]).col as int == col && head[i].row
                        as int == rr;
                assert(d[wi].col as int == cc && d[wi].row as int == rr);
            } else {
                assert(changes_cover(rest, cc, rr));
                let wi = choose|i: int|
                    0 <= i < rest.len() && (#[trigger] rest[i]).col as int == cc && rest[i].row
                        as int == rr;
                assert(d[wi + head.len()].col as int == cc && d[wi + head.len()].row as int == rr);
            }
        }
    }
}

/// What the cell-by-cell diff of two equally sized grids holds: one change
/// for every differing cell and nothing else, each recording the old and the
/// new value of its cell, no two changes addressing the same cell.
pub proof fn lemma_diff_grids_props(gold: Seq<Seq<CellState>>, gnew: Seq<Seq<CellState>>, width: int)
    requires
        gold.len() == gnew.len(),
        gold.len() <= usize::MAX,
        0 <= width <= usize::MAX,
        grid_dims_ok(gold, width),
        grid_dims_ok(gnew, width),
    ensures
        changes_in_bounds(diff_grids(gold, gnew, width), gold.len() as int, width),
        changes_match_old(diff_grids(gold, gnew, width), gold),
        changes_distinct(diff_grids(gold, gnew, width)),
        forall|i: int|
            0 <= i < diff_grids(gold, gnew, width).len() ==> {
                let ch = #[trigger] diff_grids(gold, gnew, width)[i];
                ch.new_state == gnew[ch.row as int][ch.col as int]
            },
        forall|cc: int, rr: int|
            0 <= cc < width && 0 <= rr < gold.len() && (#[trigger] gold[rr][cc]) != gnew[rr][cc]
                ==> changes_cover(diff_grids(gold, gnew, width), cc, rr),
{
    lemma_diff_cols_props(gold, gnew, width, 0);
}

/// A diff is empty exactly when the two grids agree on every cell.
pub proof fn lemma_diff_empty_iff(gold: Seq<Seq<CellState>>, gnew: Seq<Seq<CellState>>, width: int)
    requires
        gold.len() == gnew.len(),
        gold.len() <= usize::MAX,
        0 <= width <= usize::MAX,
        grid_dims_ok(gold, width),
        grid_dims_ok(gnew, width),
    ensures
        diff_grids(gold, gnew, width).len() == 0 <==> gold == gnew,
{
    lemma_diff_grids_props(gold, gnew, width);
    let d = diff_grids(gold, gnew, width);
    if d.len() == 0 {
        assert forall|rr: int| 0 <= rr < gold.len() implies gold[rr] == gnew[rr] by {
            assert forall|cc: int| 0 <= cc < width implies gold[rr][cc] == gnew[rr][cc] by {
                if gold[rr][cc] != gnew[rr][cc] {
                    assert(changes_cover(d, cc, rr));
                }
            }
            assert(gold[rr] =~= gnew[rr]);
        }
        assert(gold =~= gnew);
    }
    if gold == gnew {
        if d.len() > 0 {
            let ch = d[0];
            assert(ch.old_state == gold[ch.row as int][ch.col as int]);
            assert(ch.new_state == gnew[ch.row as int][ch.col as int]);
        }
    }
}

proof fn lemma_applied_pointwise(g: Seq<Seq<CellState>>, changes: Seq<TransactionDetails>, width: int)
    requires
        grid_dims_ok(g, width),
        g.len() <= usize::MAX,
        0 <= width <= usize::MAX,
        changes_in_bounds(changes, g.len() as int, width),
        changes_distinct(changes),
    ensures
        forall|i: int|
            0 <= i < changes.len() ==> applied(g, changes)[(#[trigger] changes[i]).row as int][
                changes[i].col as int
            ] == changes[i].new_state,
        forall|i: int|
            0 <= i < changes.len() ==> rolled_back(g, changes)[(#[trigger] changes[i]).row as int][
                changes[i].col as int
            ] == changes[i].old_state,
        forall|rr: int, cc: int|
            0 <= rr < g.len() && 0 <= cc < width && !changes_cover(changes, cc, rr) ==> (
            #[trigger] applied(g, changes)[rr][cc]) == g[rr][cc],
        forall|rr: int, cc: int|
            0 <= rr < g.len() && 0 <= cc < width && !changes_cover(changes, cc, rr) ==> (
            #[trigger] rolled_back(g, changes)[rr][cc]) == g[rr][cc],
    decreases changes.len(),
{
    lemma_applied_dims(g, changes, width);
    if changes.len() != 0 {
        let ch0 = changes[0];
        let ga = cell_write(g, ch0.col as int, ch0.row as int, ch0.new_state);
        let gr = cell_write(g, ch0.col as int, ch0.row as int, ch0.old_state);
        let rest = changes.drop_first();
        assert forall|i: int| 0 <= i < rest.len() implies (#[trigger] rest[i]) == changes[i
            + 1] by {}
        lemma_applied_pointwise(ga, rest, width);
        lemma_applied_pointwise(gr, rest, width);
        assert(applied(g, changes) == applied(ga, rest));
        assert(rolled_back(g, changes) == rolled_back(gr, rest));
        assert(!changes_cover(rest, ch0.col as int, ch0.row as int));
        assert(applied(ga, rest)[ch0.row as int][ch0.col as int] == ga[ch0.row as int][ch0.col
            as int]);
        assert(ga[ch0.row as int][ch0.col as int] == ch0.new_state);
        assert(rolled_back(gr, rest)[ch0.row as int][ch0.col as int] == gr[ch0.row as int][ch0.col
            as int]);
        assert(gr[ch0.row as int][ch0.col as int] == ch0.old_state);
        assert forall|i: int| 0 <= i < changes.len() implies applied(g, changes)[(
        #[trigger] changes[i]).row as int][changes[i].col as int] == changes[i].new_state by {
            if i > 0 {
                assert(changes[i] == rest[i - 1]);
            }
        }
        assert forall|i: int| 0 <= i < changes.len() implies rolled_back(g, changes)[(
        #[trigger] changes[i]).row as int][changes[i].col as int] == changes[i].old_state by {
            if i > 0 {
                assert(changes[i] == rest[i - 1]);
            }
        }
        assert forall|rr: int, cc: int|
            0 <= rr < g.len() && 0 <= cc < width && !changes_cover(changes, cc, rr) implies (
        #[trigger] applied(g, changes)[rr][cc]) == g[rr][cc] && (#[trigger] rolled_back(
            g,
            changes,
        )[rr][cc]) == g[rr][cc] by {
            assert(!(ch0.col as int == cc && ch0.row as int == rr));
            assert forall|i: int|
                0 <= i < rest.len() implies !((#[trigger] rest[i]).col as int == cc && rest[i].row
                as int == rr) by {
                assert(rest[i] == changes[i + 1]);
                assert(!changes_cover(changes, cc, rr));
            }
            assert(!changes_cover(rest, cc, rr));
            assert(ga[rr][cc] == g[rr][cc]);
            assert(gr[rr][cc] == g[rr][cc]);
            assert(applied(ga, rest)[rr][cc] == ga[rr][cc]);
            assert(rolled_back(gr, rest)[rr][cc] == gr[rr][cc]);
        }
    }
}

/// Round trip: applying a valid transaction and then rolling the same
/// transaction back reproduces the original grid, cell for cell.
pub proof fn lemma_transaction_round_trip(
    g: Seq<Seq<CellState>>,
    changes: Seq<TransactionDetails>,
    width: int,
)
    requires
        grid_dims_ok(g, width),
        g.len() <= usize::MAX,
        0 <= width <= usize::MAX,
        changes_in_bounds(changes, g.len() as int, width),
        changes_match_old(changes, g),
        changes_distinct(changes),
    ensures
        rolled_back(applied(g, changes), changes) == g,
{
    let ga = applied(g, changes);
    lemma_applied_dims(g, changes, width);
    lemma_applied_pointwise(g, changes, width);
    lemma_applied_dims(ga, changes, width);
    lemma_applied_pointwise(ga, changes, width);
    let gb = rolled_back(ga, changes);
    assert(gb.len() == g.len());
    assert forall|rr: int| 0 <= rr < g.len() implies gb[rr] == g[rr] by {
        assert(gb[rr].len() == width);
        assert(g[rr].len() == width);
        assert forall|cc: int| 0 <= cc < width implies gb[rr][cc] == g[rr][cc] by {
            if changes_cover(changes, cc, rr) {
                let i = choose|i: int|
                    0 <= i < changes.len() && (#[trigger] changes[i]).col as int == cc
                        && changes[i].row as int == rr;
                assert(gb[changes[i].row as int][changes[i].col as int] == changes[i].old_state);
                assert(changes[i].old_state == g[rr][cc]);
            } else {
                assert(gb[rr][cc] == ga[rr][cc]);
                assert(ga[rr][cc] == g[rr][cc]);
            }
        }
        assert(gb[rr] =~= g[rr]);
    }
    assert(gb =~= g);
}

/// Applying the diff of two grids to the first grid yields the second.
pub proof fn lemma_diff_applied(gold: Seq<Seq<CellState>>, gnew: Seq<Seq<CellState>>, width: int)
    requires
        gold.len() == gnew.len(),
        gold.len() <= usize::MAX,
        0 <= width <= usize::MAX,
        grid_dims_ok(gold, width),
        grid_dims_ok(gnew, width),
    ensures
        applied(gold, diff_grids(gold, gnew, width)) == gnew,
{
    let d = diff_grids(gold, gnew, width);
    lemma_diff_grids_props(gold, gnew, width);
    lemma_applied_dims(gold, d, width);
    lemma_applied_pointwise(gold, d, width);
    let ga = applied(gold, d);
    assert forall|rr: int| 0 <= rr < gold.len() implies ga[rr] == gnew[rr] by {
        assert forall|cc: int| 0 <= cc < width implies ga[rr][cc] == gnew[rr][cc] by {
            if changes_cover(d, cc, rr) {
                let i = choose|i: int|
                    0 <= i < d.len() && (#[trigger] d[i]).col as int == cc && d[i].row as int == rr;
                assert(ga[d[i].row as int][d[i].col as int] == d[i].new_state);
                assert(d[i].new_state == gnew[rr][cc]);
            } else {
                assert(ga[rr][cc] == gold[rr][cc]);
                if gold[rr][cc] != gnew[rr][cc] {
                    assert(changes_cover(d, cc, rr));
                }
            }
        }
        assert(ga[rr] =~= gnew[rr]);
    }
    assert(ga =~= gnew);
}

/// The scratch buffer of the transaction engine: a deep copy of a grid that
/// itself satisfies the grid capability, so staged edits and the propagation
/// rule can run on it without touching the live grid.
pub struct TransactionBuilder {
    grid: Vec<Vec<CellState>>,
    height: usize,
    width: usize,
}

impl NonogramTarget for TransactionBuilder {
    closed spec fn gview(&self) -> Seq<Seq<CellState>> {
        self.grid@.map_values(|r: Vec<CellState>| r@)
    }

    closed spec fn spec_width(&self) -> int {
        self.width as int
    }

    closed spec fn inv(&self) -> bool {
        &&& self.grid@.len() == self.height
        &&& forall|r: int|
            0 <= r < self.grid@.len() ==> (#[trigger] self.grid@[r])@.len() == self.width
    }

    proof fn inv_dims(&self) {
        assert(self.spec_width() == self.width as int);
        assert(self.gview().len() == self.grid@.len());
    }

    fn width(&self) -> (w: usize) {
        self.width
    }

    fn height(&self) -> (h: usize) {
        self.height
    }

    fn get(&self, col: usize, row: usize) -> (r: CellState) {
        self.grid[row][col]
    }

    fn set(&mut self, col: usize, row: usize, state: CellState) {
        let row_vec: &mut Vec<CellState> = &mut self.grid[row];
        row_vec[col] = state;
        proof {
            assert(self.gview() =~~= cell_write(old(self).gview(), col as int, row as int, state));
        }
    }
}

impl TransactionBuilder {
    /// A new scratch buffer holding a deep copy of the target's current
    /// contents.
    pub fn new<T: NonogramTarget>(target: &T) -> (b: TransactionBuilder)
        requires
            target.inv(),
        ensures
            b.inv(),
            b.gview() == target.gview(),
            b.spec_width() == target.spec_width(),
    {
        proof {
            target.inv_dims();
        }
        let height = target.height();
        let width = target.width();
        let mut grid: Vec<Vec<CellState>> = Vec::new();
        let mut r: usize = 0;
        while r < height
            invariant
                target.inv(),
                r <= height,
                height == target.gview().len(),
                grid@.len() == r,
                forall|j: int| 0 <= j < r ==> (#[trigger] grid@[j])@ == target.gview()[j],
            decreases height - r,
        {
            grid.push(target.row_to_line(r));
            r = r + 1;
        }
        let b = TransactionBuilder { grid, height, width };
        proof {
            target.inv_dims();
            assert(b.gview() =~= target.gview());
        }
        b
    }

    /// Diff the scratch buffer against the live target, cell by cell in
    /// column-major order, and return the changed cells as one transaction.
    pub fn to_transaction<T: NonogramTarget>(&self, target: &T) -> (t: Transaction)
        requires
            self.inv(),
            target.inv(),
            target.gview().len() == self.gview().len(),
            target.spec_width() == self.spec_width(),
        ensures
            t.changes@ == diff_grids(target.gview(), self.gview(), self.spec_width()),
    {
        proof {
            self.inv_dims();
            target.inv_dims();
        }
        let gold = Ghost(target.gview());
        let gnew = Ghost(self.gview());
        let w = Ghost(self.spec_width());
        let width = self.width();
        let height = self.height();
        let mut changes: Vec<TransactionDetails> = Vec::new();
        let mut col: usize = 0;
        while col < width
            invariant
                self.inv(),
                target.inv(),
                gold@ == target.gview(),
                gnew@ == self.gview(),
                w@ == self.spec_width(),
                target.gview().len() == self.gview().len(),
                target.spec_width() == self.spec_width(),
                width as int == self.spec_width(),
                height == self.gview().len(),
                col <= width,
                changes@ + diff_cols_from(gold@, gnew@, w@, col as int) == diff_grids(
                    gold@,
                    gnew@,
                    w@,
                ),
            decreases width - col,
        {
            let mut row: usize = 0;
            while row < height
                invariant
                    self.inv(),
                    target.inv(),
                    gold@ == target.gview(),
                    gnew@ == self.gview(),
                    w@ == self.spec_width(),
                    target.gview().len() == self.gview().len(),
                    target.spec_width() == self.spec_width(),
                    width as int == self.spec_width(),
                    height == self.gview().len(),
                    col < width,
                    row <= height,
                    changes@ + diff_in_col(gold@, gnew@, col as int, row as int) + diff_cols_from(
                        gold@,
                        gnew@,
                        w@,
                        col as int + 1,
                    ) == diff_grids(gold@, gnew@, w@),
                decreases height - row,
            {
                proof {
                    self.inv_dims();
                    target.inv_dims();
                }
                let old_state = target.get(col, row);
                let new_state = self.get(col, row);
                if old_state != new_state {
                    let ch = TransactionDetails { col, row, old_state, new_state };
                    proof {
                        assert(diff_in_col(gold@, gnew@, col as int, row as int) == seq![ch]
                            + diff_in_col(gold@, gnew@, col as int, row as int + 1));
                        assert(changes@.push(ch) + diff_in_col(
                            gold@,
                            gnew@,
                            col as int,
                            row as int + 1,
                        ) =~= changes@ + (seq![ch] + diff_in_col(
                            gold@,
                            gnew@,
                            col as int,
                            row as int + 1,
                        )));
                        assert(changes@.push(ch) + diff_in_col(
                            gold@,
                            gnew@,
                            col as int,
                            row as int + 1,
                        ) + diff_cols_from(gold@, gnew@, w@, col as int + 1) =~= changes@
                            + diff_in_col(gold@, gnew@, col as int, row as int) + diff_cols_from(
                            gold@,
                            gnew@,
                            w@,
                            col as int + 1,
                        ));
                    }
                    changes.push(ch);
                }
                row = row + 1;
            }
            proof {
                assert(diff_in_col(gold@, gnew@, col as int, height as int) =~= Seq::<
                    TransactionDetails,
                >::empty());
                assert(changes@ + Seq::<TransactionDetails>::empty() =~= changes@);
            }
            col = col + 1;
        }
        proof {
            assert(diff_cols_from(gold@, gnew@, w@, width as int) =~= Seq::<
                TransactionDetails,
            >::empty());
            assert(changes@ + Seq::<TransactionDetails>::empty() =~= changes@);
        }
        Transaction { changes }
    }
}

} // verus!
