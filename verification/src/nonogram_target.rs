use vstd::prelude::*;

use crate::grid::{col_seq, cell_write, grid_dims_ok, CellState};
use crate::transaction::{
    applied, changes_in_bounds, lemma_applied_dims, lemma_applied_snoc, lemma_rolled_back_snoc,
    rolled_back, Transaction,
};

verus! {

/// Capability over a two-dimensional cell array, addressed as
/// (column, row): the live grid and the transaction scratch buffer both
/// provide it, so staged edits and the propagation rule can run against
/// either.
pub trait NonogramTarget: Sized {
    /// The grid contents as a sequence of rows.
    spec fn gview(&self) -> Seq<Seq<CellState>>;

    /// The number of columns.
    spec fn spec_width(&self) -> int;

    /// The representation invariant of the implementing type.
    spec fn inv(&self) -> bool;

    /// A well-formed target is a proper rectangle: every row has the
    /// advertised width.
    proof fn inv_dims(&self)
        requires
            self.inv(),
        ensures
            0 <= self.spec_width() <= usize::MAX,
            self.gview().len() <= usize::MAX,
            forall|r: int|
                0 <= r < self.gview().len() ==> (#[trigger] self.gview()[r]).len()
                    == self.spec_width(),
    ;

    fn width(&self) -> (w: usize)
        requires
            self.inv(),
        ensures
            w as int == self.spec_width(),
    ;

    fn height(&self) -> (h: usize)
        requires
            self.inv(),
        ensures
            h as int == self.gview().len(),
    ;

    fn get(&self, col: usize, row: usize) -> (r: CellState)
        requires
            self.inv(),
            row < self.gview().len(),
            col < self.spec_width(),
        ensures
            r == self.gview()[row as int][col as int],
    ;

    fn set(&mut self, col: usize, row: usize, state: CellState)
        requires
            old(self).inv(),
            row < old(self).gview().len(),
            col < old(self).spec_width(),
        ensures
            final(self).inv(),
            final(self).spec_width() == old(self).spec_width(),
            final(self).gview() == cell_write(old(self).gview(), col as int, row as int, state),
    ;

    /// Row `row` materialized as an ordered sequence of cells.
    fn row_to_line(&self, row: usize) -> (line: Vec<CellState>)
        requires
            self.inv(),
            row < self.gview().len(),
        ensures
            line@ == self.gview()[row as int],
    {
        proof {
            self.inv_dims();
        }
        let width = self.width();
        let mut line: Vec<CellState> = Vec::new();
        let mut i: usize = 0;
        while i < width
            invariant
                self.inv(),
                row < self.gview().len(),
                i <= width,
                width as int == self.spec_width(),
                line@.len() == i,
                forall|j: int| 0 <= j < i ==> line@[j] == self.gview()[row as int][j],
            decreases width - i,
        {
            line.push(self.get(i, row));
            i = i + 1;
        }
        proof {
            self.inv_dims();
            assert(line@ =~= self.gview()[row as int]);
        }
        line
    }

    /// Column `col` materialized as an ordered sequence of cells.
    fn col_to_line(&self, col: usize) -> (line: Vec<CellState>)
        requires
            self.inv(),
            col < self.spec_width(),
        ensures
            line@ == col_seq(self.gview(), col as int),
    {
        let height = self.height();
        let mut line: Vec<CellState> = Vec::new();
        let mut i: usize = 0;
        while i < height
            invariant
                self.inv(),
                col < self.spec_width(),
                i <= height,
                height as int == self.gview().len(),
                line@.len() == i,
                forall|j: int| 0 <= j < i ==> line@[j] == self.gview()[j][col as int],
            decreases height - i,
        {
            line.push(self.get(col, i));
            i = i + 1;
        }
        proof {
            assert(line@ =~= col_seq(self.gview(), col as int));
        }
        line
    }

    /// Replay the new state of every change of the transaction, in order.
    fn apply_transaction(&mut self, transaction: &Transaction)
        requires
            old(self).inv(),
            changes_in_bounds(
                transaction.changes@,
                old(self).gview().len() as int,
                old(self).spec_width(),
            ),
        ensures
            final(self).inv(),
            final(self).spec_width() == old(self).spec_width(),
            final(self).gview() == applied(old(self).gview(), transaction.changes@),
    {
        proof {
            self.inv_dims();
        }
        let g0 = Ghost(self.gview());
        let w = Ghost(self.spec_width());
        let mut i: usize = 0;
        while i < transaction.changes.len()
            invariant
                self.inv(),
                self.spec_width() == w@,
                grid_dims_ok(g0@, w@),
                changes_in_bounds(transaction.changes@, g0@.len() as int, w@),
                i <= transaction.changes@.len(),
                self.gview() == applied(g0@, transaction.changes@.take(i as int)),
            decreases transaction.changes@.len() - i,
        {
            let ch = transaction.changes[i];
            proof {
                assert(transaction.changes@[i as int] == ch);
                assert forall|k: int|
                    0 <= k < transaction.changes@.take(i as int).len() implies (
                #[trigger] transaction.changes@.take(i as int)[k]).row < g0@.len() as int
                    && transaction.changes@.take(i as int)[k].col < w@ by {
                    assert(transaction.changes@.take(i as int)[k] == transaction.changes@[k]);
                }
                lemma_applied_dims(g0@, transaction.changes@.take(i as int), w@);
                lemma_applied_snoc(g0@, transaction.changes@.take(i as int), ch);
                assert(transaction.changes@.take(i as int).push(ch) =~= transaction.changes@.take(
                    i as int + 1,
                ));
            }
            self.set(ch.col, ch.row, ch.new_state);
            i = i + 1;
        }
        proof {
            assert(transaction.changes@.take(transaction.changes@.len() as int)
                =~= transaction.changes@);
        }
    }

    /// Replay the old state of every change of the transaction, in order,
    /// reverting what applying it did.
    fn rollback_transaction(&mut self, transaction: &Transaction)
        requires
            old(self).inv(),
            changes_in_bounds(
                transaction.changes@,
                old(self).gview().len() as int,
                old(self).spec_width(),
            ),
        ensures
            final(self).inv(),
            final(self).spec_width() == old(self).spec_width(),
            final(self).gview() == rolled_back(old(self).gview(), transaction.changes@),
    {
        proof {
            self.inv_dims();
        }
        let g0 = Ghost(self.gview());
        let w = Ghost(self.spec_width());
        let mut i: usize = 0;
        while i < transaction.changes.len()
            invariant
                self.inv(),
                self.spec_width() == w@,
                grid_dims_ok(g0@, w@),
                changes_in_bounds(transaction.changes@, g0@.len() as int, w@),
                i <= transaction.changes@.len(),
                self.gview() == rolled_back(g0@, transaction.changes@.take(i as int)),
            decreases transaction.changes@.len() - i,
        {
            let ch = transaction.changes[i];
            proof {
                assert(transaction.changes@[i as int] == ch);
                assert forall|k: int|
                    0 <= k < transaction.changes@.take(i as int).len() implies (
                #[trigger] transaction.changes@.take(i as int)[k]).row < g0@.len() as int
                    && transaction.changes@.take(i as int)[k].col < w@ by {
                    assert(transaction.changes@.take(i as int)[k] == transaction.changes@[k]);
                }
                lemma_applied_dims(g0@, transaction.changes@.take(i as int), w@);
                lemma_rolled_back_snoc(g0@, transaction.changes@.take(i as int), ch);
                assert(transaction.changes@.take(i as int).push(ch) =~= transaction.changes@.take(
                    i as int + 1,
                ));
            }
            self.set(ch.col, ch.row, ch.old_state);
            i = i + 1;
        }
        proof {
            assert(transaction.changes@.take(transaction.changes@.len() as int)
                =~= transaction.changes@);
        }
    }
}

} // verus!
