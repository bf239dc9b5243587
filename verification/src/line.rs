use vstd::prelude::*;

use crate::grid::{cell_write, col_seq, CellState};
use crate::nonogram_target::NonogramTarget;

verus! {

/// A thin adapter exposing one row or one column of a grid as a
/// one-dimensional addressable sequence, so the solving strategy can be
/// written once for both orientations. The grid itself is passed to every
/// operation.
pub trait Line<T: NonogramTarget>: Sized {
    /// The line denotes a valid row or column of the target.
    spec fn lwf(&self, target: T) -> bool;

    /// The line's cells, in order.
    spec fn lview(&self, target: T) -> Seq<CellState>;

    /// The targets have the same dimensions and agree on every cell off
    /// this line.
    spec fn frame(&self, before: T, after: T) -> bool;

    /// A target is framed against itself.
    proof fn frame_refl(&self, target: T)
        ensures
            self.frame(target, target),
    ;

    /// Framing is transitive.
    proof fn frame_trans(&self, a: T, b: T, c: T)
        requires
            self.frame(a, b),
            self.frame(b, c),
        ensures
            self.frame(a, c),
    ;

    /// The line's length: the grid's width for a row, its height for a
    /// column.
    fn len(&self, target: &T) -> (n: usize)
        requires
            target.inv(),
            self.lwf(*target),
        ensures
            n == self.lview(*target).len(),
    ;

    /// The cell at position `pos` of the line.
    fn get(&self, target: &T, pos: usize) -> (r: CellState)
        requires
            target.inv(),
            self.lwf(*target),
            pos < self.lview(*target).len(),
        ensures
            r == self.lview(*target)[pos as int],
    ;

    /// Write `cell_state` at position `pos` of the line; no other cell of
    /// the grid changes.
    fn set(&self, target: &mut T, pos: usize, cell_state: CellState)
        requires
            old(target).inv(),
            self.lwf(*old(target)),
            pos < self.lview(*old(target)).len(),
        ensures
            final(target).inv(),
            final(target).spec_width() == old(target).spec_width(),
            self.lwf(*final(target)),
            self.lview(*final(target)) == self.lview(*old(target)).update(pos as int, cell_state),
            self.frame(*old(target), *final(target)),
    ;
}

/// A row of the grid, viewed as a line.
pub struct RowLine {
    pub row_num: usize,
}

impl RowLine {
    /// The view of row `row_num`.
    pub fn new(row_num: usize) -> (r: RowLine)
        ensures
            r.row_num == row_num,
    {
        RowLine { row_num }
    }
}

impl<T: NonogramTarget> Line<T> for RowLine {
    open spec fn lwf(&self, target: T) -> bool {
        target.inv() && (self.row_num as int) < target.gview().len()
    }

    open spec fn lview(&self, target: T) -> Seq<CellState> {
        target.gview()[self.row_num as int]
    }

    open spec fn frame(&self, before: T, after: T) -> bool {
        &&& after.gview().len() == before.gview().len()
        &&& after.spec_width() == before.spec_width()
        &&& forall|r: int|
            0 <= r < before.gview().len() && r != self.row_num as int
                ==> #[trigger] after.gview()[r] == before.gview()[r]
    }

    proof fn frame_refl(&self, target: T) {
    }

    proof fn frame_trans(&self, a: T, b: T, c: T) {
    }

    fn len(&self, target: &T) -> (n: usize) {
        proof {
            target.inv_dims();
        }
        target.width()
    }

    fn get(&self, target: &T, pos: usize) -> (r: CellState) {
        proof {
            target.inv_dims();
        }
        target.get(pos, self.row_num)
    }

    fn set(&self, target: &mut T, pos: usize, cell_state: CellState) {
        proof {
            target.inv_dims();
        }
        target.set(pos, self.row_num, cell_state);
    }
}

/// A column of the grid, viewed as a line.
pub struct ColLine {
    pub col_num: usize,
}

impl ColLine {
    /// The view of column `col_num`.
    pub fn new(col_num: usize) -> (r: ColLine)
        ensures
            r.col_num == col_num,
    {
        ColLine { col_num }
    }
}

impl<T: NonogramTarget> Line<T> for ColLine {
    open spec fn lwf(&self, target: T) -> bool {
        target.inv() && (self.col_num as int) < target.spec_width()
    }

    open spec fn lview(&self, target: T) -> Seq<CellState> {
        col_seq(target.gview(), self.col_num as int)
    }

    open spec fn frame(&self, before: T, after: T) -> bool {
        &&& after.gview().len() == before.gview().len()
        &&& after.spec_width() == before.spec_width()
        &&& forall|r: int|
            0 <= r < before.gview().len() ==> (#[trigger] after.gview()[r]).len()
                == before.gview()[r].len()
        &&& forall|r: int, c: int|
            0 <= r < before.gview().len() && 0 <= c < before.gview()[r].len() && c != self.col_num
                as int ==> (#[trigger] after.gview()[r][c]) == before.gview()[r][c]
    }

    proof fn frame_refl(&self, target: T) {
    }

    proof fn frame_trans(&self, a: T, b: T, c: T) {
    }

    fn len(&self, target: &T) -> (n: usize) {
        proof {
            target.inv_dims();
        }
        target.height()
    }

    fn get(&self, target: &T, pos: usize) -> (r: CellState) {
        proof {
            target.inv_dims();
        }
        target.get(self.col_num, pos)
    }

    fn set(&self, target: &mut T, pos: usize, cell_state: CellState) {
        proof {
            target.inv_dims();
        }
        target.set(self.col_num, pos, cell_state);
        proof {
            let before = old(target).gview();
            let after = target.gview();
            assert(after == cell_write(before, self.col_num as int, pos as int, cell_state));
            assert(self.lview(*target) =~= self.lview(*old(target)).update(
                pos as int,
                cell_state,
            ));
        }
    }
}

} // verus!
