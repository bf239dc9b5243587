use vstd::prelude::*;

use crate::nonogram_target::NonogramTarget;

verus! {

/// The three-valued mark a cell can hold. `Empty` means undetermined,
/// `Filled` means part of a run, `Crossed` means provably not part of any
/// run.
#[derive(Clone, Copy, PartialEq, Eq, Structural, Debug)]
pub enum CellState {
    Empty,
    Filled,
    Crossed,
}

/// The run-length decomposition of `line`, given that `run` Filled cells
/// immediately precede it: counting continues through leading Filled cells,
/// a non-Filled cell flushes a nonzero count, and a trailing nonzero count
/// is flushed at the end.
pub open spec fn decomposition_from(line: Seq<CellState>, run: int) -> Seq<int>
    decreases line.len(),
{
    if line.len() == 0 {
        if run != 0 {
            seq![run]
        } else {
            Seq::<int>::empty()
        }
    } else if line[0] == CellState::Filled {
        decomposition_from(line.drop_first(), run + 1)
    } else if run != 0 {
        seq![run] + decomposition_from(line.drop_first(), 0)
    } else {
        decomposition_from(line.drop_first(), 0)
    }
}

/// The ordered lengths of the maximal Filled runs of a line. Empty and
/// Crossed cells both merely separate runs.
pub open spec fn decomposition(line: Seq<CellState>) -> Seq<int> {
    decomposition_from(line, 0)
}

/// A sequence of usize counts, read as mathematical integers.
pub open spec fn as_ints(v: Seq<usize>) -> Seq<int> {
    v.map_values(|x: usize| x as int)
}

proof fn lemma_decomposition_from_filled_agreement(a: Seq<CellState>, b: Seq<CellState>, run: int)
    requires
        a.len() == b.len(),
        forall|i: int|
            0 <= i < a.len() ==> ((a[i] == CellState::Filled) <==> (b[i] == CellState::Filled)),
    ensures
        decomposition_from(a, run) == decomposition_from(b, run),
    decreases a.len(),
{
    if a.len() != 0 {
        assert forall|i: int|
            0 <= i < a.drop_first().len() implies ((a.drop_first()[i] == CellState::Filled) <==> (
        b.drop_first()[i] == CellState::Filled)) by {
            assert(a.drop_first()[i] == a[i + 1]);
            assert(b.drop_first()[i] == b[i + 1]);
        }
        if a[0] == CellState::Filled {
            lemma_decomposition_from_filled_agreement(a.drop_first(), b.drop_first(), run + 1);
        } else {
            lemma_decomposition_from_filled_agreement(a.drop_first(), b.drop_first(), 0);
        }
    }
}

/// The decomposition reads only which cells are Filled: two lines of equal
/// length that agree, cell for cell, on which cells are Filled decompose
/// identically. In particular, Empty and Crossed are interchangeable.
pub proof fn lemma_decomposition_filled_agreement(a: Seq<CellState>, b: Seq<CellState>)
    requires
        a.len() == b.len(),
        forall|i: int|
            0 <= i < a.len() ==> ((a[i] == CellState::Filled) <==> (b[i] == CellState::Filled)),
    ensures
        decomposition(a) == decomposition(b),
{
    lemma_decomposition_from_filled_agreement(a, b, 0);
}

/// Reading counts as integers loses nothing: two count sequences are equal
/// exactly when their integer readings are.
pub proof fn lemma_as_ints_injective(a: Seq<usize>, b: Seq<usize>)
    ensures
        (as_ints(a) == as_ints(b)) == (a == b),
{
    if as_ints(a) == as_ints(b) {
        assert(a.len() == as_ints(a).len());
        assert(b.len() == as_ints(b).len());
        assert forall|i: int| 0 <= i < a.len() implies a[i] == b[i] by {
            assert(as_ints(a)[i] == a[i] as int);
            assert(as_ints(b)[i] == b[i] as int);
        }
        assert(a =~= b);
    }
}

/// All rows of `g` have length `width`.
pub open spec fn grid_dims_ok(g: Seq<Seq<CellState>>, width: int) -> bool {
    forall|r: int| 0 <= r < g.len() ==> (#[trigger] g[r]).len() == width
}

/// `g` with the single cell at (`col`, `row`) set to `val`.
pub open spec fn cell_write(g: Seq<Seq<CellState>>, col: int, row: int, val: CellState) -> Seq<
    Seq<CellState>,
> {
    g.update(row, g[row].update(col, val))
}

/// Column `col` of `g`, top to bottom.
pub open spec fn col_seq(g: Seq<Seq<CellState>>, col: int) -> Seq<CellState> {
    Seq::new(g.len(), |i: int| g[i][col])
}

/// Scan a line left to right: accumulate a counter over Filled cells, flush
/// it on any non-Filled cell, and flush a trailing nonzero counter at the
/// end of the line.
pub fn line_to_description(line: &Vec<CellState>) -> (result: Vec<usize>)
    ensures
        as_ints(result@) == decomposition(line@),
{
    let mut result: Vec<usize> = Vec::new();
    let mut buffer: usize = 0;
    let mut i: usize = 0;
    proof {
        assert(line@.skip(0) =~= line@);
        assert(as_ints(Seq::<usize>::empty()) =~= Seq::<int>::empty());
        assert(Seq::<int>::empty() + decomposition(line@) =~= decomposition(line@));
    }
    while i < line.len()
        invariant
            i <= line@.len(),
            buffer <= i,
            decomposition(line@) == as_ints(result@) + decomposition_from(
                line@.skip(i as int),
                buffer as int,
            ),
        decreases line@.len() - i,
    {
        let cell = line[i];
        proof {
            assert(line@.skip(i as int)[0] == line@[i as int]);
            assert(line@.skip(i as int).drop_first() =~= line@.skip(i as int + 1));
        }
        if cell != CellState::Filled {
            if buffer != 0 {
                proof {
                    assert(as_ints(result@.push(buffer)) =~= as_ints(result@) + seq![
                        buffer as int,
                    ]);
                    assert(as_ints(result@) + (seq![buffer as int] + decomposition_from(
                        line@.skip(i as int + 1),
                        0,
                    )) =~= as_ints(result@.push(buffer)) + decomposition_from(
                        line@.skip(i as int + 1),
                        0,
                    ));
                }
                result.push(buffer);
                buffer = 0;
            }
        } else {
            buffer = buffer + 1;
        }
        i = i + 1;
    }
    proof {
        assert(line@.skip(line@.len() as int) =~= Seq::<CellState>::empty());
    }
    if buffer != 0 {
        proof {
            assert(as_ints(result@.push(buffer)) =~= as_ints(result@) + seq![buffer as int]);
        }
        result.push(buffer);
    }
    result
}

/// A height x width array of cells; the outer sequence holds the rows.
pub struct GameGridState {
    cells: Vec<Vec<CellState>>,
    height: usize,
    width: usize,
}

impl GameGridState {
    /// A fresh grid of the given dimensions with every cell Empty.
    pub fn new(width: usize, height: usize) -> (g: GameGridState)
        ensures
            g.inv(),
            g.spec_width() == width,
            g.gview().len() == height,
            forall|r: int, c: int|
                0 <= r < height && 0 <= c < width ==> g.gview()[r][c] == CellState::Empty,
    {
        let mut cells: Vec<Vec<CellState>> = Vec::new();
        let mut r: usize = 0;
        while r < height
            invariant
                r <= height,
                cells@.len() == r,
                forall|j: int| 0 <= j < r ==> (#[trigger] cells@[j])@.len() == width,
                forall|j: int, c: int|
                    0 <= j < r && 0 <= c < width ==> (#[trigger] cells@[j]@[c]) == CellState::Empty,
            decreases height - r,
        {
            let mut row: Vec<CellState> = Vec::new();
            let mut c: usize = 0;
            while c < width
                invariant
                    c <= width,
                    row@.len() == c,
                    forall|k: int| 0 <= k < c ==> row@[k] == CellState::Empty,
                decreases width - c,
            {
                row.push(CellState::Empty);
                c = c + 1;
            }
            cells.push(row);
            r = r + 1;
        }
        GameGridState { cells, height, width }
    }
}

impl NonogramTarget for GameGridState {
    closed spec fn gview(&self) -> Seq<Seq<CellState>> {
        self.cells@.map_values(|r: Vec<CellState>| r@)
    }

    closed spec fn spec_width(&self) -> int {
        self.width as int
    }

    closed spec fn inv(&self) -> bool {
        &&& self.cells@.len() == self.height
        &&& forall|r: int| 0 <= r < self.cells@.len() ==> (#[trigger] self.cells@[r])@.len() == self.width
    }

    proof fn inv_dims(&self) {
        assert(self.spec_width() == self.width as int);
        assert(self.gview().len() == self.cells@.len());
    }

    fn width(&self) -> (w: usize) {
        self.width
    }

    fn height(&self) -> (h: usize) {
        self.height
    }

    fn get(&self, col: usize, row: usize) -> (r: CellState) {
        self.cells[row][col]
    }

    fn set(&mut self, col: usize, row: usize, state: CellState) {
        let row_vec: &mut Vec<CellState> = &mut self.cells[row];
        row_vec[col] = state;
        proof {
            assert(self.gview() =~~= cell_write(old(self).gview(), col as int, row as int, state));
        }
    }
}

} // verus!
