use vstd::prelude::*;

use crate::description::{parts_all_completed, parts_counts, LevelDescription, LineDescription, LineDescriptionPart};
use crate::grid::{
    as_ints, cell_write, col_seq, decomposition, grid_dims_ok, lemma_as_ints_injective,
    lemma_decomposition_filled_agreement, line_to_description, CellState, GameGridState,
};
use crate::nonogram_target::NonogramTarget;
use crate::transaction::{
    applied, changes_in_bounds, diff_grids, rolled_back, Transaction, TransactionBuilder,
    TransactionDetails,
};

verus! {

/// An Empty cell becomes Crossed; anything else is untouched.
pub open spec fn cross_cell(c: CellState) -> CellState {
    if c == CellState::Empty {
        CellState::Crossed
    } else {
        c
    }
}

/// The line with every Empty cell crossed.
pub open spec fn crossed_line(line: Seq<CellState>) -> Seq<CellState> {
    line.map_values(|c: CellState| cross_cell(c))
}

/// The grid with every Empty cell of row `row` crossed.
pub open spec fn cross_row(g: Seq<Seq<CellState>>, row: int) -> Seq<Seq<CellState>> {
    g.update(row, crossed_line(g[row]))
}

/// The grid with every Empty cell of column `col` crossed.
pub open spec fn cross_col(g: Seq<Seq<CellState>>, col: int) -> Seq<Seq<CellState>> {
    Seq::new(g.len(), |r: int| g[r].update(col, cross_cell(g[r][col])))
}

/// The actual contents of column `col` decompose exactly into the column's
/// clue.
pub open spec fn col_matches(g: Seq<Seq<CellState>>, lvl: LevelDescription, col: int) -> bool {
    decomposition(col_seq(g, col)) == parts_counts(lvl.cols@[col].parts@)
}

/// The actual contents of row `row` decompose exactly into the row's clue.
pub open spec fn row_matches(g: Seq<Seq<CellState>>, lvl: LevelDescription, row: int) -> bool {
    decomposition(g[row]) == parts_counts(lvl.rows@[row].parts@)
}

/// The auto-cross pass for one edit touching (`col`, `row`): if the touched
/// column now matches its clue, its remaining Empty cells are crossed; then
/// likewise for the touched row, judged against the intermediate grid.
pub open spec fn propagate(
    g: Seq<Seq<CellState>>,
    lvl: LevelDescription,
    col: int,
    row: int,
) -> Seq<Seq<CellState>> {
    let g1 = if col_matches(g, lvl, col) {
        cross_col(g, col)
    } else {
        g
    };
    if row_matches(g1, lvl, row) {
        cross_row(g1, row)
    } else {
        g1
    }
}

/// Two grids of the same dimensions agree, cell for cell, on which cells
/// are Filled.
pub open spec fn filled_agree(a: Seq<Seq<CellState>>, b: Seq<Seq<CellState>>) -> bool {
    &&& a.len() == b.len()
    &&& forall|r: int| 0 <= r < a.len() ==> (#[trigger] a[r]).len() == b[r].len()
    &&& forall|r: int, c: int|
        0 <= r < a.len() && 0 <= c < a[r].len() ==> (((#[trigger] a[r][c]) == CellState::Filled)
            <==> ((#[trigger] b[r][c]) == CellState::Filled))
}

/// The propagation pass preserves the grid's dimensions, and every cell it
/// touches goes from Empty to Crossed; no other cell changes.
pub proof fn lemma_propagate_only_crosses(
    g: Seq<Seq<CellState>>,
    lvl: LevelDescription,
    col: int,
    row: int,
    width: int,
)
    requires
        grid_dims_ok(g, width),
        0 <= col < width,
        0 <= row < g.len(),
    ensures
        propagate(g, lvl, col, row).len() == g.len(),
        grid_dims_ok(propagate(g, lvl, col, row), width),
        forall|r: int, c: int|
            0 <= r < g.len() && 0 <= c < width ==> (#[trigger] propagate(g, lvl, col, row)[r][c])
                == g[r][c] || (g[r][c] == CellState::Empty && propagate(g, lvl, col, row)[r][c]
                == CellState::Crossed),
{
    let g1 = if col_matches(g, lvl, col) {
        cross_col(g, col)
    } else {
        g
    };
    let g2 = propagate(g, lvl, col, row);
    assert(g1.len() == g.len());
    assert forall|r: int| 0 <= r < g.len() implies (#[trigger] g1[r]).len() == width && forall|
        c: int,
    |
        0 <= c < width ==> (#[trigger] g1[r][c]) == g[r][c] || (g[r][c] == CellState::Empty
            && g1[r][c] == CellState::Crossed) by {
        if col_matches(g, lvl, col) {
            assert(g1[r] == g[r].update(col, cross_cell(g[r][col])));
        }
    }
    assert(grid_dims_ok(g1, width));
    assert(g2.len() == g1.len());
    assert forall|r: int| 0 <= r < g.len() implies (#[trigger] g2[r]).len() == width && forall|
        c: int,
    |
        0 <= c < width ==> (#[trigger] g2[r][c]) == g1[r][c] || (g1[r][c] == CellState::Empty
            && g2[r][c] == CellState::Crossed) by {
        if row_matches(g1, lvl, row) {
            if r == row {
                assert(g2[r] == crossed_line(g1[row]));
                assert forall|c: int| 0 <= c < width implies (#[trigger] g2[r][c]) == cross_cell(
                    g1[r][c],
                ) by {}
            } else {
                assert(g2[r] == g1[r]);
            }
        }
    }
    assert(grid_dims_ok(g2, width));
}

/// Whether a line matches its clue depends only on which cells are Filled,
/// so two filled-agreeing grids match exactly the same rows and columns.
pub proof fn lemma_filled_agree_matches(
    a: Seq<Seq<CellState>>,
    b: Seq<Seq<CellState>>,
    lvl: LevelDescription,
    width: int,
)
    requires
        filled_agree(a, b),
        grid_dims_ok(a, width),
        grid_dims_ok(b, width),
    ensures
        forall|c: int| 0 <= c < width ==> col_matches(a, lvl, c) == col_matches(b, lvl, c),
        forall|r: int| 0 <= r < a.len() ==> row_matches(a, lvl, r) == row_matches(b, lvl, r),
{
    assert forall|c: int| 0 <= c < width implies col_matches(a, lvl, c) == col_matches(
        b,
        lvl,
        c,
    ) by {
        let sa = col_seq(a, c);
        let sb = col_seq(b, c);
        assert forall|i: int|
            0 <= i < sa.len() implies ((sa[i] == CellState::Filled) <==> (sb[i]
            == CellState::Filled)) by {
            assert(sa[i] == a[i][c]);
            assert(sb[i] == b[i][c]);
        }
        lemma_decomposition_filled_agreement(sa, sb);
    }
    assert forall|r: int| 0 <= r < a.len() implies row_matches(a, lvl, r) == row_matches(
        b,
        lvl,
        r,
    ) by {
        lemma_decomposition_filled_agreement(a[r], b[r]);
    }
}

/// The propagation pass does not change whether any line matches its clue:
/// it only crosses cells, and crossing never alters a decomposition.
pub proof fn lemma_propagate_preserves_matches(
    g: Seq<Seq<CellState>>,
    lvl: LevelDescription,
    col: int,
    row: int,
    width: int,
)
    requires
        grid_dims_ok(g, width),
        0 <= col < width,
        0 <= row < g.len(),
    ensures
        forall|c: int|
            0 <= c < width ==> col_matches(propagate(g, lvl, col, row), lvl, c) == col_matches(
                g,
                lvl,
                c,
            ),
        forall|r: int|
            0 <= r < g.len() ==> row_matches(propagate(g, lvl, col, row), lvl, r) == row_matches(
                g,
                lvl,
                r,
            ),
{
    lemma_propagate_only_crosses(g, lvl, col, row, width);
    let g2 = propagate(g, lvl, col, row);
    assert(filled_agree(g, g2));
    lemma_filled_agree_matches(g, g2, lvl, width);
}

/// Idempotence of the propagation rule: running the pass a second time for
/// the same touched cell changes nothing, so a second pass produces an
/// empty diff.
pub proof fn lemma_propagate_idempotent(
    g: Seq<Seq<CellState>>,
    lvl: LevelDescription,
    col: int,
    row: int,
    width: int,
)
    requires
        grid_dims_ok(g, width),
        0 <= col < width,
        0 <= row < g.len(),
    ensures
        propagate(propagate(g, lvl, col, row), lvl, col, row) == propagate(g, lvl, col, row),
{
    let g1 = if col_matches(g, lvl, col) {
        cross_col(g, col)
    } else {
        g
    };
    let p = propagate(g, lvl, col, row);
    lemma_propagate_only_crosses(g, lvl, col, row, width);
    lemma_propagate_preserves_matches(g, lvl, col, row, width);
    // The column pass on p is the identity.
    if col_matches(p, lvl, col) {
        assert(col_matches(g, lvl, col));
        assert forall|r: int| 0 <= r < p.len() implies p[r][col] != CellState::Empty by {
            assert(g1[r] == g[r].update(col, cross_cell(g[r][col])));
            assert(g1[r][col] == cross_cell(g[r][col]));
            if row_matches(g1, lvl, row) {
                if r == row {
                    assert(p[r] == crossed_line(g1[row]));
                    assert(p[r][col] == cross_cell(g1[r][col]));
                } else {
                    assert(p[r] == g1[r]);
                }
            }
        }
        assert forall|r: int| 0 <= r < p.len() implies #[trigger] cross_col(p, col)[r] == p[r] by {
            assert(cross_col(p, col)[r] == p[r].update(col, cross_cell(p[r][col])));
            assert(cross_cell(p[r][col]) == p[r][col]);
            assert(p[r].update(col, p[r][col]) =~= p[r]);
        }
        assert(cross_col(p, col) =~= p);
    }
    let q1 = if col_matches(p, lvl, col) {
        cross_col(p, col)
    } else {
        p
    };
    assert(q1 == p);
    // The row pass on p is the identity.
    assert(filled_agree(g1, p)) by {
        assert(g1.len() == p.len());
        assert forall|r: int| 0 <= r < g1.len() implies (#[trigger] g1[r]).len() == p[r].len() by {
            if col_matches(g, lvl, col) {
                assert(g1[r] == g[r].update(col, cross_cell(g[r][col])));
            }
        }
        assert forall|r: int, c: int|
            0 <= r < g1.len() && 0 <= c < g1[r].len() implies (((#[trigger] g1[r][c])
            == CellState::Filled) <==> ((#[trigger] p[r][c]) == CellState::Filled)) by {
            if row_matches(g1, lvl, row) {
                if r == row {
                    assert(p[r] == crossed_line(g1[row]));
                    assert(p[r][c] == cross_cell(g1[r][c]));
                } else {
                    assert(p[r] == g1[r]);
                }
            }
        }
    }
    assert(grid_dims_ok(g1, width)) by {
        assert forall|r: int| 0 <= r < g1.len() implies (#[trigger] g1[r]).len() == width by {
            if col_matches(g, lvl, col) {
                assert(g1[r] == g[r].update(col, cross_cell(g[r][col])));
            }
        }
    }
    lemma_filled_agree_matches(g1, p, lvl, width);
    assert(row_matches(p, lvl, row) == row_matches(g1, lvl, row));
    if row_matches(p, lvl, row) {
        assert forall|c: int| 0 <= c < p[row].len() implies p[row][c] != CellState::Empty by {
            assert(p[row] == crossed_line(g1[row]));
            assert(p[row][c] == cross_cell(g1[row][c]));
        }
        assert(crossed_line(p[row]) =~= p[row]) by {
            assert forall|c: int| 0 <= c < p[row].len() implies crossed_line(p[row])[c]
                == p[row][c] by {
                assert(crossed_line(p[row])[c] == cross_cell(p[row][c]));
            }
        }
        assert(cross_row(p, row) =~= p) by {
            assert(cross_row(p, row) == p.update(row, crossed_line(p[row])));
            assert(cross_row(p, row)[row] == p[row]);
            assert forall|r: int| 0 <= r < p.len() implies #[trigger] cross_row(p, row)[r]
                == p[r] by {}
        }
    }
    assert(propagate(p, lvl, col, row) == p);
}

/// Whether two count vectors are equal, element for element.
fn descriptions_equal(a: &Vec<usize>, b: &Vec<usize>) -> (r: bool)
    ensures
        r == (a@ == b@),
{
    if a.len() != b.len() {
        proof {
            assert(a@ != b@);
        }
        return false;
    }
    let mut i: usize = 0;
    while i < a.len()
        invariant
            a@.len() == b@.len(),
            i <= a@.len(),
            forall|k: int| 0 <= k < i ==> a@[k] == b@[k],
        decreases a@.len() - i,
    {
        if a[i] != b[i] {
            proof {
                assert(a@[i as int] != b@[i as int]);
            }
            return false;
        }
        i = i + 1;
    }
    proof {
        assert(a@ =~= b@);
    }
    true
}

/// The run-length decomposition of a line of cells (see
/// [`crate::grid::line_to_description`]).
pub fn line_to_line_description(line: &Vec<CellState>) -> (result: Vec<usize>)
    ensures
        as_ints(result@) == decomposition(line@),
{
    line_to_description(line)
}

/// Run the auto-cross pass for one edit touching (`col`, `row`) against the
/// target: cross the remaining Empty cells of the touched column if it now
/// matches its clue, then likewise for the touched row.
pub fn update_nonogram<T: NonogramTarget>(
    target: &mut T,
    lvl_desc: &LevelDescription,
    col: usize,
    row: usize,
)
    requires
        old(target).inv(),
        col < old(target).spec_width(),
        row < old(target).gview().len(),
        lvl_desc.cols@.len() == old(target).spec_width(),
        lvl_desc.rows@.len() == old(target).gview().len(),
    ensures
        final(target).inv(),
        final(target).spec_width() == old(target).spec_width(),
        final(target).gview() == propagate(old(target).gview(), *lvl_desc, col as int, row as int),
{
    proof {
        target.inv_dims();
    }
    let g0 = Ghost(target.gview());
    let w = Ghost(target.spec_width());
    let col_line = target.col_to_line(col);
    let col_expected = lvl_desc.col_to_line_description(col);
    let col_actual = line_to_description(&col_line);
    let col_eq = descriptions_equal(&col_expected, &col_actual);
    proof {
        lemma_as_ints_injective(col_expected@, col_actual@);
        assert(col_eq == col_matches(g0@, *lvl_desc, col as int));
    }
    if col_eq {
        let height = target.height();
        let mut i: usize = 0;
        while i < height
            invariant
                target.inv(),
                target.spec_width() == w@,
                col < w@,
                grid_dims_ok(g0@, w@),
                height == g0@.len(),
                i <= height,
                target.gview().len() == g0@.len(),
                forall|r: int|
                    0 <= r < i ==> #[trigger] target.gview()[r] == g0@[r].update(
                        col as int,
                        cross_cell(g0@[r][col as int]),
                    ),
                forall|r: int| i <= r < g0@.len() ==> #[trigger] target.gview()[r] == g0@[r],
            decreases height - i,
        {
            proof {
                target.inv_dims();
            }
            if target.get(col, i) == CellState::Empty {
                target.set(col, i, CellState::Crossed);
                proof {
                    assert(target.gview()[i as int] == g0@[i as int].update(
                        col as int,
                        CellState::Crossed,
                    ));
                    assert(cross_cell(g0@[i as int][col as int]) == CellState::Crossed);
                }
            } else {
                proof {
                    assert(g0@[i as int].update(col as int, cross_cell(g0@[i as int][col as int]))
                        =~= g0@[i as int]);
                }
            }
            i = i + 1;
        }
        proof {
            assert(target.gview() =~= cross_col(g0@, col as int));
        }
    }
    let g1 = Ghost(target.gview());
    proof {
        assert(g1@ == if col_matches(g0@, *lvl_desc, col as int) {
            cross_col(g0@, col as int)
        } else {
            g0@
        });
    }
    let row_line = target.row_to_line(row);
    let row_expected = lvl_desc.row_to_line_description(row);
    let row_actual = line_to_description(&row_line);
    let row_eq = descriptions_equal(&row_expected, &row_actual);
    proof {
        lemma_as_ints_injective(row_expected@, row_actual@);
        assert(row_eq == row_matches(g1@, *lvl_desc, row as int));
    }
    if row_eq {
        proof {
            target.inv_dims();
        }
        let width = target.width();
        let mut i: usize = 0;
        while i < width
            invariant
                target.inv(),
                target.spec_width() == w@,
                width == w@,
                row < g1@.len(),
                grid_dims_ok(g1@, w@),
                i <= width,
                target.gview().len() == g1@.len(),
                forall|r: int| 0 <= r < g1@.len() && r != row ==> #[trigger] target.gview()[r]
                    == g1@[r],
                target.gview()[row as int].len() == w@,
                forall|c: int|
                    0 <= c < i ==> #[trigger] target.gview()[row as int][c] == cross_cell(
                        g1@[row as int][c],
                    ),
                forall|c: int| i <= c < w@ ==> #[trigger] target.gview()[row as int][c]
                    == g1@[row as int][c],
            decreases width - i,
        {
            proof {
                target.inv_dims();
            }
            if target.get(i, row) == CellState::Empty {
                target.set(i, row, CellState::Crossed);
            }
            proof {
                assert(cross_cell(g1@[row as int][i as int]) == target.gview()[row as int][
                    i as int
                ]);
            }
            i = i + 1;
        }
        proof {
            assert(target.gview()[row as int] =~= crossed_line(g1@[row as int]));
            assert(target.gview() =~= cross_row(g1@, row as int));
        }
    }
}

/// The parts keep their run lengths and all carry the given completion
/// flag.
pub open spec fn line_flags_set(
    old_parts: Seq<LineDescriptionPart>,
    new_parts: Seq<LineDescriptionPart>,
    flag: bool,
) -> bool {
    new_parts.len() == old_parts.len() && forall|j: int|
        0 <= j < new_parts.len() ==> (#[trigger] new_parts[j]).elements_count
            == old_parts[j].elements_count && new_parts[j].is_completed == flag
}

/// The clue model after the completion pass for one edit touching
/// (`col`, `row`), judged against grid `g`: the touched column's and row's
/// flags are set to whether they match `g`, every other line is untouched.
pub open spec fn flags_updated(
    before: LevelDescription,
    after: LevelDescription,
    g: Seq<Seq<CellState>>,
    col: int,
    row: int,
) -> bool {
    &&& after.rows@.len() == before.rows@.len()
    &&& after.cols@.len() == before.cols@.len()
    &&& forall|i: int|
        0 <= i < before.cols@.len() && i != col ==> (#[trigger] after.cols@[i]).parts@
            == before.cols@[i].parts@
    &&& forall|i: int|
        0 <= i < before.rows@.len() && i != row ==> (#[trigger] after.rows@[i]).parts@
            == before.rows@[i].parts@
    &&& line_flags_set(
        before.cols@[col].parts@,
        after.cols@[col].parts@,
        col_matches(g, before, col),
    )
    &&& line_flags_set(
        before.rows@[row].parts@,
        after.rows@[row].parts@,
        row_matches(g, before, row),
    )
}

/// Recompute the completion flags of the column and the row touched by an
/// edit, against the target's current contents: all parts of a line are
/// marked completed exactly when the line matches its clue.
pub fn update_level_description<T: NonogramTarget>(
    target: &T,
    lvl_desc: &mut LevelDescription,
    col: usize,
    row: usize,
)
    requires
        target.inv(),
        col < target.spec_width(),
        row < target.gview().len(),
        old(lvl_desc).cols@.len() == target.spec_width(),
        old(lvl_desc).rows@.len() == target.gview().len(),
    ensures
        flags_updated(
            *old(lvl_desc),
            *final(lvl_desc),
            target.gview(),
            col as int,
            row as int,
        ),
{
    proof {
        target.inv_dims();
    }
    let before = Ghost(*lvl_desc);
    let col_line = target.col_to_line(col);
    let col_expected = lvl_desc.col_to_line_description(col);
    let col_actual = line_to_description(&col_line);
    let col_flag = descriptions_equal(&col_expected, &col_actual);
    proof {
        lemma_as_ints_injective(col_expected@, col_actual@);
        assert(col_flag == col_matches(target.gview(), before@, col as int));
    }
    let new_col_parts = reflag_parts(&lvl_desc.cols[col].parts, col_flag);
    lvl_desc.cols[col] = LineDescription { parts: new_col_parts };
    let row_line = target.row_to_line(row);
    let row_expected = lvl_desc.row_to_line_description(row);
    let row_actual = line_to_description(&row_line);
    let row_flag = descriptions_equal(&row_expected, &row_actual);
    proof {
        assert(lvl_desc.rows@[row as int].parts@ == before@.rows@[row as int].parts@);
        assert(parts_counts(lvl_desc.rows@[row as int].parts@) == parts_counts(
            before@.rows@[row as int].parts@,
        ));
        lemma_as_ints_injective(row_expected@, row_actual@);
        assert(row_flag == row_matches(target.gview(), before@, row as int));
    }
    let new_row_parts = reflag_parts(&lvl_desc.rows[row].parts, row_flag);
    lvl_desc.rows[row] = LineDescription { parts: new_row_parts };
}

/// The staged grid after running the propagation pass, in order, for every
/// change that wrote Filled or Empty (a write of Crossed does not trigger
/// propagation).
pub open spec fn propagate_changes(
    g: Seq<Seq<CellState>>,
    lvl: LevelDescription,
    changes: Seq<TransactionDetails>,
) -> Seq<Seq<CellState>>
    decreases changes.len(),
{
    if changes.len() == 0 {
        g
    } else {
        let gn = if changes[0].new_state == CellState::Filled || changes[0].new_state
            == CellState::Empty {
            propagate(g, lvl, changes[0].col as int, changes[0].row as int)
        } else {
            g
        };
        propagate_changes(gn, lvl, changes.drop_first())
    }
}

/// Running the pass for one more change on the end runs it last.
pub proof fn lemma_propagate_changes_snoc(
    g: Seq<Seq<CellState>>,
    lvl: LevelDescription,
    changes: Seq<TransactionDetails>,
    ch: TransactionDetails,
)
    ensures
        propagate_changes(g, lvl, changes.push(ch)) == (if ch.new_state == CellState::Filled
            || ch.new_state == CellState::Empty {
            propagate(propagate_changes(g, lvl, changes), lvl, ch.col as int, ch.row as int)
        } else {
            propagate_changes(g, lvl, changes)
        }),
    decreases changes.len(),
{
    reveal_with_fuel(propagate_changes, 3);
    if changes.len() == 0 {
        assert(changes.push(ch).drop_first() =~= Seq::<TransactionDetails>::empty());
        assert(changes.push(ch)[0] == ch);
    } else {
        assert(changes.push(ch).drop_first() =~= changes.drop_first().push(ch));
        assert(changes.push(ch)[0] == changes[0]);
        let gn = if changes[0].new_state == CellState::Filled || changes[0].new_state
            == CellState::Empty {
            propagate(g, lvl, changes[0].col as int, changes[0].row as int)
        } else {
            g
        };
        lemma_propagate_changes_snoc(gn, lvl, changes.drop_first(), ch);
    }
}

/// Some change of the list wrote Filled or Empty into column `c`.
pub open spec fn col_touched(changes: Seq<TransactionDetails>, c: int) -> bool {
    exists|i: int|
        0 <= i < changes.len() && (#[trigger] changes[i]).col as int == c && (changes[i].new_state
            == CellState::Filled || changes[i].new_state == CellState::Empty)
}

/// Some change of the list wrote Filled or Empty into row `r`.
pub open spec fn row_touched(changes: Seq<TransactionDetails>, r: int) -> bool {
    exists|i: int|
        0 <= i < changes.len() && (#[trigger] changes[i]).row as int == r && (changes[i].new_state
            == CellState::Filled || changes[i].new_state == CellState::Empty)
}

/// Some change of the list addresses column `c`, whatever it wrote.
pub open spec fn col_listed(changes: Seq<TransactionDetails>, c: int) -> bool {
    exists|i: int| 0 <= i < changes.len() && (#[trigger] changes[i]).col as int == c
}

/// Some change of the list addresses row `r`, whatever it wrote.
pub open spec fn row_listed(changes: Seq<TransactionDetails>, r: int) -> bool {
    exists|i: int| 0 <= i < changes.len() && (#[trigger] changes[i]).row as int == r
}

proof fn lemma_touched_take_step(changes: Seq<TransactionDetails>, i: int)
    requires
        0 <= i < changes.len(),
    ensures
        forall|c: int|
            #[trigger] col_touched(changes.take(i + 1), c) == (col_touched(changes.take(i), c) || (
            changes[i].col as int == c && (changes[i].new_state == CellState::Filled
                || changes[i].new_state == CellState::Empty))),
        forall|r: int|
            #[trigger] row_touched(changes.take(i + 1), r) == (row_touched(changes.take(i), r) || (
            changes[i].row as int == r && (changes[i].new_state == CellState::Filled
                || changes[i].new_state == CellState::Empty))),
        forall|c: int|
            #[trigger] col_listed(changes.take(i + 1), c) == (col_listed(changes.take(i), c)
                || changes[i].col as int == c),
        forall|r: int|
            #[trigger] row_listed(changes.take(i + 1), r) == (row_listed(changes.take(i), r)
                || changes[i].row as int == r),
{
    let a = changes.take(i);
    let b = changes.take(i + 1);
    assert(b =~= a.push(changes[i]));
    assert forall|k: int| 0 <= k < b.len() implies (#[trigger] b[k]) == changes[k] by {}
    assert forall|k: int| 0 <= k < a.len() implies (#[trigger] a[k]) == changes[k] by {}
    assert forall|c: int|
        #[trigger] col_touched(b, c) == (col_touched(a, c) || (changes[i].col as int == c && (
        changes[i].new_state == CellState::Filled || changes[i].new_state
            == CellState::Empty))) by {
        if col_touched(b, c) {
            let j = choose|j: int|
                0 <= j < b.len() && (#[trigger] b[j]).col as int == c && (b[j].new_state
                    == CellState::Filled || b[j].new_state == CellState::Empty);
            if j < i {
                assert(a[j] == b[j]);
                assert(col_touched(a, c));
            }
        }
        if col_touched(a, c) {
            let j = choose|j: int|
                0 <= j < a.len() && (#[trigger] a[j]).col as int == c && (a[j].new_state
                    == CellState::Filled || a[j].new_state == CellState::Empty);
            assert(b[j] == a[j]);
            assert(col_touched(b, c));
        }
        if changes[i].col as int == c && (changes[i].new_state == CellState::Filled
            || changes[i].new_state == CellState::Empty) {
            assert(b[i] == changes[i]);
            assert(col_touched(b, c));
        }
    }
    assert forall|r: int|
        #[trigger] row_touched(b, r) == (row_touched(a, r) || (changes[i].row as int == r && (
        changes[i].new_state == CellState::Filled || changes[i].new_state
            == CellState::Empty))) by {
        if row_touched(b, r) {
            let j = choose|j: int|
                0 <= j < b.len() && (#[trigger] b[j]).row as int == r && (b[j].new_state
                    == CellState::Filled || b[j].new_state == CellState::Empty);
            if j < i {
                assert(a[j] == b[j]);
                assert(row_touched(a, r));
            }
        }
        if row_touched(a, r) {
            let j = choose|j: int|
                0 <= j < a.len() && (#[trigger] a[j]).row as int == r && (a[j].new_state
                    == CellState::Filled || a[j].new_state == CellState::Empty);
            assert(b[j] == a[j]);
            assert(row_touched(b, r));
        }
        if changes[i].row as int == r && (changes[i].new_state == CellState::Filled
            || changes[i].new_state == CellState::Empty) {
            assert(b[i] == changes[i]);
            assert(row_touched(b, r));
        }
    }
    assert forall|c: int|
        #[trigger] col_listed(b, c) == (col_listed(a, c) || changes[i].col as int == c) by {
        if col_listed(b, c) {
            let j = choose|j: int| 0 <= j < b.len() && (#[trigger] b[j]).col as int == c;
            if j < i {
                assert(a[j] == b[j]);
                assert(col_listed(a, c));
            }
        }
        if col_listed(a, c) {
            let j = choose|j: int| 0 <= j < a.len() && (#[trigger] a[j]).col as int == c;
            assert(b[j] == a[j]);
            assert(col_listed(b, c));
        }
        if changes[i].col as int == c {
            assert(b[i] == changes[i]);
            assert(col_listed(b, c));
        }
    }
    assert forall|r: int|
        #[trigger] row_listed(b, r) == (row_listed(a, r) || changes[i].row as int == r) by {
        if row_listed(b, r) {
            let j = choose|j: int| 0 <= j < b.len() && (#[trigger] b[j]).row as int == r;
            if j < i {
                assert(a[j] == b[j]);
                assert(row_listed(a, r));
            }
        }
        if row_listed(a, r) {
            let j = choose|j: int| 0 <= j < a.len() && (#[trigger] a[j]).row as int == r;
            assert(b[j] == a[j]);
            assert(row_listed(b, r));
        }
        if changes[i].row as int == r {
            assert(b[i] == changes[i]);
            assert(row_listed(b, r));
        }
    }
}

/// Reflagged parts keep the same run lengths.
pub proof fn lemma_line_flags_counts(
    a: Seq<LineDescriptionPart>,
    b: Seq<LineDescriptionPart>,
    flag: bool,
)
    requires
        line_flags_set(a, b, flag),
    ensures
        parts_counts(b) == parts_counts(a),
{
    assert(parts_counts(b) =~= parts_counts(a));
}

/// Two clue models carry the same run lengths, line for line (their flags
/// may differ).
pub open spec fn same_counts(a: LevelDescription, b: LevelDescription) -> bool {
    &&& b.rows@.len() == a.rows@.len()
    &&& b.cols@.len() == a.cols@.len()
    &&& forall|i: int|
        0 <= i < a.rows@.len() ==> parts_counts((#[trigger] b.rows@[i]).parts@) == parts_counts(
            a.rows@[i].parts@,
        )
    &&& forall|i: int|
        0 <= i < a.cols@.len() ==> parts_counts((#[trigger] b.cols@[i]).parts@) == parts_counts(
            a.cols@[i].parts@,
        )
}

/// Models with the same run lengths agree on which lines match, and the
/// propagation pass lands on the same grid under either model.
proof fn lemma_same_counts_propagate(
    a: LevelDescription,
    b: LevelDescription,
    g: Seq<Seq<CellState>>,
    col: int,
    row: int,
)
    requires
        same_counts(a, b),
        0 <= col < a.cols@.len(),
        0 <= row < a.rows@.len(),
    ensures
        col_matches(g, b, col) == col_matches(g, a, col),
        row_matches(g, b, row) == row_matches(g, a, row),
        propagate(g, b, col, row) == propagate(g, a, col, row),
{
    assert(parts_counts(b.cols@[col].parts@) == parts_counts(a.cols@[col].parts@));
    assert(parts_counts(b.rows@[row].parts@) == parts_counts(a.rows@[row].parts@));
    let g1 = if col_matches(g, a, col) {
        cross_col(g, col)
    } else {
        g
    };
    assert(row_matches(g1, b, row) == row_matches(g1, a, row));
}

/// From flags to doneness: a clue model whose every line carries the
/// completion flag of a grid that matches all its clues — as the
/// completion pass leaves it once every row and every column has been
/// recomputed against that grid — reports done.
pub proof fn lemma_matching_flags_make_done(
    lvl0: LevelDescription,
    lvl: LevelDescription,
    g: Seq<Seq<CellState>>,
)
    requires
        lvl.rows@.len() == lvl0.rows@.len(),
        lvl.cols@.len() == lvl0.cols@.len(),
        forall|c: int| 0 <= c < lvl0.cols@.len() ==> col_matches(g, lvl0, c),
        forall|r: int| 0 <= r < lvl0.rows@.len() ==> row_matches(g, lvl0, r),
        forall|c: int|
            0 <= c < lvl0.cols@.len() ==> line_flags_set(
                lvl0.cols@[c].parts@,
                (#[trigger] lvl.cols@[c]).parts@,
                col_matches(g, lvl0, c),
            ),
        forall|r: int|
            0 <= r < lvl0.rows@.len() ==> line_flags_set(
                lvl0.rows@[r].parts@,
                (#[trigger] lvl.rows@[r]).parts@,
                row_matches(g, lvl0, r),
            ),
    ensures
        lvl.spec_is_done(),
{
    assert forall|r: int| 0 <= r < lvl.rows@.len() implies parts_all_completed(
        (#[trigger] lvl.rows@[r]).parts@,
    ) by {
        assert(line_flags_set(lvl0.rows@[r].parts@, lvl.rows@[r].parts@, true));
    }
    assert forall|c: int| 0 <= c < lvl.cols@.len() implies parts_all_completed(
        (#[trigger] lvl.cols@[c]).parts@,
    ) by {
        assert(line_flags_set(lvl0.cols@[c].parts@, lvl.cols@[c].parts@, true));
    }
}

/// The playable puzzle state: the clue model, the live grid, and the undo
/// history of applied transactions.
pub struct GameState {
    lvl_desc: LevelDescription,
    grid: GameGridState,
    move_queue: Vec<Transaction>,
}

impl GameState {
    /// The live grid contents, as a sequence of rows.
    pub closed spec fn grid_view(&self) -> Seq<Seq<CellState>> {
        self.grid.gview()
    }

    /// The clue model.
    pub closed spec fn lvl(&self) -> LevelDescription {
        self.lvl_desc
    }

    /// The undo history: the change list of every recorded transaction,
    /// oldest first.
    pub closed spec fn history(&self) -> Seq<Seq<TransactionDetails>> {
        self.move_queue@.map_values(|t: Transaction| t.changes@)
    }

    /// The number of columns, fixed at construction by the clue model.
    pub closed spec fn spec_width(&self) -> int {
        self.lvl_desc.cols@.len() as int
    }

    /// The number of rows, fixed at construction by the clue model.
    pub closed spec fn spec_height(&self) -> int {
        self.lvl_desc.rows@.len() as int
    }

    /// Well-formedness: the grid is a rectangle of the clue model's
    /// dimensions, and every recorded transaction is nonempty and addresses
    /// only cells of the grid.
    pub closed spec fn wf(&self) -> bool {
        &&& self.grid.inv()
        &&& self.grid.spec_width() == self.spec_width()
        &&& self.grid_view().len() == self.spec_height()
        &&& forall|i: int|
            0 <= i < self.history().len() ==> (#[trigger] self.history()[i]).len() > 0
                && changes_in_bounds(self.history()[i], self.spec_height(), self.spec_width())
    }

    /// A well-formed state's grid is a proper rectangle of the clue
    /// model's dimensions.
    pub proof fn wf_dims(&self)
        requires
            self.wf(),
        ensures
            grid_dims_ok(self.grid_view(), self.spec_width()),
            self.grid_view().len() == self.spec_height(),
            self.spec_width() == self.lvl().cols@.len(),
            self.spec_height() == self.lvl().rows@.len(),
            0 <= self.spec_width() <= usize::MAX,
            0 <= self.spec_height() <= usize::MAX,
    {
        self.grid.inv_dims();
    }

    /// A fresh, fully Empty grid of the dimensions the clue model asks for,
    /// with an empty undo history.
    pub fn new(lvl_desc: LevelDescription) -> (s: GameState)
        ensures
            s.wf(),
            s.lvl() == lvl_desc,
            s.history() == Seq::<Seq<TransactionDetails>>::empty(),
            s.grid_view().len() == lvl_desc.rows@.len(),
            grid_dims_ok(s.grid_view(), lvl_desc.cols@.len() as int),
            forall|r: int, c: int|
                0 <= r < lvl_desc.rows@.len() && 0 <= c < lvl_desc.cols@.len()
                    ==> #[trigger] s.grid_view()[r][c] == CellState::Empty,
    {
        let width = lvl_desc.cols.len();
        let height = lvl_desc.rows.len();
        let grid = GameGridState::new(width, height);
        let move_queue = Vec::<Transaction>::new();
        let s = GameState { lvl_desc, grid, move_queue };
        proof {
            s.grid.inv_dims();
            assert(s.history() =~= Seq::<Seq<TransactionDetails>>::empty());
        }
        s
    }

    /// The current state of the cell at (`col`, `row`).
    pub fn get(&self, col: usize, row: usize) -> (r: CellState)
        requires
            self.wf(),
            col < self.spec_width(),
            row < self.spec_height(),
        ensures
            r == self.grid_view()[row as int][col as int],
    {
        self.grid.get(col, row)
    }

    /// The number of rows.
    pub fn height(&self) -> (h: usize)
        requires
            self.wf(),
        ensures
            h as int == self.spec_height(),
    {
        self.grid.height()
    }

    /// The number of columns.
    pub fn width(&self) -> (w: usize)
        requires
            self.wf(),
        ensures
            w as int == self.spec_width(),
    {
        self.grid.width()
    }

    /// The clue model, for rendering numerals and completion decorations.
    pub fn lvl_desc(&self) -> (r: &LevelDescription)
        ensures
            *r == self.lvl(),
    {
        &(self.lvl_desc)
    }

    /// The live grid, for read-only queries and for snapshotting into a
    /// transaction builder.
    pub fn grid(&self) -> (r: &GameGridState)
        requires
            self.wf(),
        ensures
            r.inv(),
            r.gview() == self.grid_view(),
            r.spec_width() == self.spec_width(),
    {
        &self.grid
    }

    /// The number of transactions recorded in the undo history.
    pub fn history_len(&self) -> (n: usize)
        ensures
            n as int == self.history().len(),
    {
        self.move_queue.len()
    }

    /// Every visible cell with its coordinates, row-major: all of row zero
    /// left to right, then row one, and so on.
    pub fn grid_to_iter(&self) -> (cells: Vec<(usize, usize, CellState)>)
        requires
            self.wf(),
        ensures
            cells@.len() == self.spec_height() * self.spec_width(),
            forall|k: int|
                0 <= k < cells@.len() ==> {
                    let row = k / self.spec_width();
                    let col = k % self.spec_width();
                    #[trigger] cells@[k] == (col as usize, row as usize, self.grid_view()[row][col])
                },
    {
        proof {
            self.wf_dims();
        }
        let width = self.width();
        let height = self.height();
        let mut cells: Vec<(usize, usize, CellState)> = Vec::new();
        if width == 0 {
            return cells;
        }
        let mut row: usize = 0;
        while row < height
            invariant
                self.wf(),
                0 < width,
                width as int == self.spec_width(),
                height as int == self.spec_height(),
                row <= height,
                cells@.len() == row * width,
                forall|k: int|
                    0 <= k < cells@.len() ==> {
                        let r = k / self.spec_width();
                        let c = k % self.spec_width();
                        #[trigger] cells@[k] == (c as usize, r as usize, self.grid_view()[r][c])
                    },
            decreases height - row,
        {
            let mut col: usize = 0;
            while col < width
                invariant
                    self.wf(),
                    0 < width,
                    width as int == self.spec_width(),
                    height as int == self.spec_height(),
                    row < height,
                    col <= width,
                    cells@.len() == row * width + col,
                    forall|k: int|
                        0 <= k < cells@.len() ==> {
                            let r = k / self.spec_width();
                            let c = k % self.spec_width();
                            #[trigger] cells@[k] == (c as usize, r as usize, self.grid_view()[r][c])
                        },
                decreases width - col,
            {
                let state = self.grid.get(col, row);
                proof {
                    let k = row * width + col;
                    assert(k / width as int == row && k % width as int == col) by (nonlinear_arith)
                        requires
                            0 <= col < width,
                            0 <= row,
                            k == row * width + col,
                    {}
                }
                cells.push((col, row, state));
                col = col + 1;
            }
            proof {
                assert((row + 1) * width == row * width + width) by (nonlinear_arith) {}
            }
            row = row + 1;
        }
        cells
    }

    /// Stage the single write of `val` at (`col`, `row`), diff, apply and
    /// record it; if the write was to Filled or Empty, additionally run the
    /// propagation rule for the touched column and row, recompute their
    /// completion flags, and apply and record the resulting second
    /// transaction. Empty transactions are never recorded.
    pub fn set(&mut self, col: usize, row: usize, val: CellState)
        requires
            old(self).wf(),
            col < old(self).spec_width(),
            row < old(self).spec_height(),
        ensures
            final(self).wf(),
            final(self).spec_width() == old(self).spec_width(),
            final(self).spec_height() == old(self).spec_height(),
            ({
                let g0 = old(self).grid_view();
                let lvl0 = old(self).lvl();
                let w = old(self).spec_width();
                let g1 = cell_write(g0, col as int, row as int, val);
                let first = if g1 == g0 {
                    Seq::<Seq<TransactionDetails>>::empty()
                } else {
                    seq![diff_grids(g0, g1, w)]
                };
                if val == CellState::Filled || val == CellState::Empty {
                    let g2 = propagate(g1, lvl0, col as int, row as int);
                    let second = if g2 == g1 {
                        Seq::<Seq<TransactionDetails>>::empty()
                    } else {
                        seq![diff_grids(g1, g2, w)]
                    };
                    &&& final(self).grid_view() == g2
                    &&& flags_updated(lvl0, final(self).lvl(), g2, col as int, row as int)
                    &&& final(self).history() == old(self).history() + first + second
                } else {
                    &&& final(self).grid_view() == g1
                    &&& final(self).lvl() == lvl0
                    &&& final(self).history() == old(self).history() + first
                }
            }),
    {
        proof {
            self.grid.inv_dims();
        }
        let g0 = Ghost(self.grid.gview());
        let lvl0 = Ghost(self.lvl_desc);
        let w = Ghost(self.spec_width());
        let hist0 = Ghost(self.history());
        let mut builder = TransactionBuilder::new(&self.grid);
        builder.set(col, row, val);
        let g1 = Ghost(builder.gview());
        let t1 = builder.to_transaction(&self.grid);
        proof {
            crate::transaction::lemma_diff_grids_props(g0@, g1@, w@);
            crate::transaction::lemma_diff_applied(g0@, g1@, w@);
            crate::transaction::lemma_diff_empty_iff(g0@, g1@, w@);
        }
        if t1.changes.len() > 0 {
            self.grid.apply_transaction(&t1);
            self.move_queue.push(t1);
            proof {
                assert(self.history() =~= hist0@.push(diff_grids(g0@, g1@, w@)));
                assert(hist0@ + seq![diff_grids(g0@, g1@, w@)] =~= hist0@.push(
                    diff_grids(g0@, g1@, w@),
                ));
            }
        } else {
            proof {
                assert(g1@ == g0@);
                assert(hist0@ + Seq::<Seq<TransactionDetails>>::empty() =~= hist0@);
            }
        }
        proof {
            assert(self.grid.gview() == g1@);
        }
        if val == CellState::Filled || val == CellState::Empty {
            let hist1 = Ghost(self.history());
            let mut b2 = TransactionBuilder::new(&self.grid);
            update_nonogram(&mut b2, &self.lvl_desc, col, row);
            let g2 = Ghost(b2.gview());
            proof {
                assert(g2@ == propagate(g1@, lvl0@, col as int, row as int));
                self.grid.inv_dims();
            }
            update_level_description(&b2, &mut self.lvl_desc, col, row);
            let t2 = b2.to_transaction(&self.grid);
            proof {
                crate::transaction::lemma_diff_grids_props(g1@, g2@, w@);
                crate::transaction::lemma_diff_applied(g1@, g2@, w@);
                crate::transaction::lemma_diff_empty_iff(g1@, g2@, w@);
            }
            if t2.changes.len() > 0 {
                self.grid.apply_transaction(&t2);
                self.move_queue.push(t2);
                proof {
                    assert(self.history() =~= hist1@.push(diff_grids(g1@, g2@, w@)));
                    assert(hist1@ + seq![diff_grids(g1@, g2@, w@)] =~= hist1@.push(
                        diff_grids(g1@, g2@, w@),
                    ));
                }
            } else {
                proof {
                    assert(g2@ == g1@);
                    assert(hist1@ + Seq::<Seq<TransactionDetails>>::empty() =~= hist1@);
                }
            }
        }
    }

    /// Apply a transaction built outside (for instance by the automated
    /// player against a scratch buffer), record it, then run the
    /// propagation rule and the completion pass for every change that wrote
    /// Filled or Empty, in order; the cascading auto-crosses are applied
    /// and recorded as one further transaction if they changed anything. An
    /// empty transaction is ignored entirely.
    pub fn apply_transaction(&mut self, transaction: &Transaction)
        requires
            old(self).wf(),
            changes_in_bounds(
                transaction.changes@,
                old(self).spec_height(),
                old(self).spec_width(),
            ),
        ensures
            final(self).wf(),
            final(self).spec_width() == old(self).spec_width(),
            final(self).spec_height() == old(self).spec_height(),
            ({
                let g0 = old(self).grid_view();
                let lvl0 = old(self).lvl();
                let w = old(self).spec_width();
                let t = transaction.changes@;
                if t.len() == 0 {
                    &&& final(self).grid_view() == g0
                    &&& final(self).lvl() == lvl0
                    &&& final(self).history() == old(self).history()
                } else {
                    let ga = applied(g0, t);
                    let g2 = propagate_changes(ga, lvl0, t);
                    let second = if g2 == ga {
                        Seq::<Seq<TransactionDetails>>::empty()
                    } else {
                        seq![diff_grids(ga, g2, w)]
                    };
                    &&& final(self).grid_view() == g2
                    &&& final(self).history() == old(self).history() + seq![t] + second
                    &&& final(self).lvl().rows@.len() == lvl0.rows@.len()
                    &&& final(self).lvl().cols@.len() == lvl0.cols@.len()
                    &&& forall|c: int|
                        0 <= c < w && col_touched(t, c) ==> line_flags_set(
                            lvl0.cols@[c].parts@,
                            (#[trigger] final(self).lvl().cols@[c]).parts@,
                            col_matches(g2, lvl0, c),
                        )
                    &&& forall|c: int|
                        0 <= c < w && !col_touched(t, c) ==> (
                        #[trigger] final(self).lvl().cols@[c]).parts@ == lvl0.cols@[c].parts@
                    &&& forall|r: int|
                        0 <= r < old(self).spec_height() && row_touched(t, r) ==> line_flags_set(
                            lvl0.rows@[r].parts@,
                            (#[trigger] final(self).lvl().rows@[r]).parts@,
                            row_matches(g2, lvl0, r),
                        )
                    &&& forall|r: int|
                        0 <= r < old(self).spec_height() && !row_touched(t, r) ==> (
                        #[trigger] final(self).lvl().rows@[r]).parts@ == lvl0.rows@[r].parts@
                }
            }),
    {
        proof {
            self.grid.inv_dims();
        }
        if transaction.changes.len() > 0 {
            let g0 = Ghost(self.grid.gview());
            let lvl0 = Ghost(self.lvl_desc);
            let w = Ghost(self.spec_width());
            let h = Ghost(self.spec_height());
            let t = Ghost(transaction.changes@);
            let hist0 = Ghost(self.history());
            self.grid.apply_transaction(transaction);
            self.move_queue.push(transaction.duplicate());
            proof {
                assert(self.history() =~= hist0@.push(t@));
            }
            let hist1 = Ghost(self.history());
            let ga = Ghost(self.grid.gview());
            let grid_now = Ghost(self.grid);
            proof {
                self.grid.inv_dims();
                crate::transaction::lemma_applied_dims(g0@, t@, w@);
            }
            let mut builder = TransactionBuilder::new(&self.grid);
            let mut i: usize = 0;
            while i < transaction.changes.len()
                invariant
                    self.grid == grid_now@,
                    self.grid.inv(),
                    self.grid.gview() == ga@,
                    self.grid.spec_width() == w@,
                    self.history() == hist1@,
                    t@ == transaction.changes@,
                    i <= t@.len(),
                    changes_in_bounds(t@, h@, w@),
                    ga@.len() == h@,
                    grid_dims_ok(ga@, w@),
                    0 <= w@ <= usize::MAX,
                    0 <= h@ <= usize::MAX,
                    builder.inv(),
                    builder.spec_width() == w@,
                    builder.gview().len() == h@,
                    grid_dims_ok(builder.gview(), w@),
                    builder.gview() == propagate_changes(ga@, lvl0@, t@.take(i as int)),
                    lvl0@.cols@.len() == w@,
                    lvl0@.rows@.len() == h@,
                    same_counts(lvl0@, self.lvl_desc),
                    forall|c: int|
                        0 <= c < w@ && col_touched(t@.take(i as int), c) ==> line_flags_set(
                            lvl0@.cols@[c].parts@,
                            (#[trigger] self.lvl_desc.cols@[c]).parts@,
                            col_matches(builder.gview(), lvl0@, c),
                        ),
                    forall|c: int|
                        0 <= c < w@ && !col_touched(t@.take(i as int), c) ==> (
                        #[trigger] self.lvl_desc.cols@[c]).parts@ == lvl0@.cols@[c].parts@,
                    forall|r: int|
                        0 <= r < h@ && row_touched(t@.take(i as int), r) ==> line_flags_set(
                            lvl0@.rows@[r].parts@,
                            (#[trigger] self.lvl_desc.rows@[r]).parts@,
                            row_matches(builder.gview(), lvl0@, r),
                        ),
                    forall|r: int|
                        0 <= r < h@ && !row_touched(t@.take(i as int), r) ==> (
                        #[trigger] self.lvl_desc.rows@[r]).parts@ == lvl0@.rows@[r].parts@,
                decreases t@.len() - i,
            {
                let ch = transaction.changes[i];
                proof {
                    assert(t@[i as int] == ch);
                    lemma_touched_take_step(t@, i as int);
                    assert(t@.take(i as int).push(ch) =~= t@.take(i as int + 1));
                    lemma_propagate_changes_snoc(ga@, lvl0@, t@.take(i as int), ch);
                }
                if ch.new_state == CellState::Filled || ch.new_state == CellState::Empty {
                    let gprev = Ghost(builder.gview());
                    update_nonogram(&mut builder, &self.lvl_desc, ch.col, ch.row);
                    proof {
                        lemma_same_counts_propagate(
                            lvl0@,
                            self.lvl_desc,
                            gprev@,
                            ch.col as int,
                            ch.row as int,
                        );
                        assert(builder.gview() == propagate(
                            gprev@,
                            lvl0@,
                            ch.col as int,
                            ch.row as int,
                        ));
                        lemma_propagate_only_crosses(
                            gprev@,
                            lvl0@,
                            ch.col as int,
                            ch.row as int,
                            w@,
                        );
                        assert(filled_agree(gprev@, builder.gview()));
                        lemma_filled_agree_matches(gprev@, builder.gview(), lvl0@, w@);
                    }
                    let lvl_prev = Ghost(self.lvl_desc);
                    update_level_description(&builder, &mut self.lvl_desc, ch.col, ch.row);
                    proof {
                        let gnext = builder.gview();
                        let cc = ch.col as int;
                        let rr = ch.row as int;
                        assert(flags_updated(lvl_prev@, self.lvl_desc, gnext, cc, rr));
                        assert(parts_counts(lvl_prev@.cols@[cc].parts@) == parts_counts(
                            lvl0@.cols@[cc].parts@,
                        ));
                        assert(parts_counts(lvl_prev@.rows@[rr].parts@) == parts_counts(
                            lvl0@.rows@[rr].parts@,
                        ));
                        assert(col_matches(gnext, lvl_prev@, cc) == col_matches(gnext, lvl0@, cc));
                        assert(row_matches(gnext, lvl_prev@, rr) == row_matches(gnext, lvl0@, rr));
                        assert(line_flags_set(
                            lvl0@.cols@[cc].parts@,
                            self.lvl_desc.cols@[cc].parts@,
                            col_matches(gnext, lvl0@, cc),
                        ));
                        assert(line_flags_set(
                            lvl0@.rows@[rr].parts@,
                            self.lvl_desc.rows@[rr].parts@,
                            row_matches(gnext, lvl0@, rr),
                        ));
                        lemma_line_flags_counts(
                            lvl0@.cols@[cc].parts@,
                            self.lvl_desc.cols@[cc].parts@,
                            col_matches(gnext, lvl0@, cc),
                        );
                        lemma_line_flags_counts(
                            lvl0@.rows@[rr].parts@,
                            self.lvl_desc.rows@[rr].parts@,
                            row_matches(gnext, lvl0@, rr),
                        );
                        assert(same_counts(lvl0@, self.lvl_desc));
                        assert forall|c: int|
                            0 <= c < w@ && col_touched(t@.take(i as int + 1), c) implies
                            line_flags_set(
                                lvl0@.cols@[c].parts@,
                                (#[trigger] self.lvl_desc.cols@[c]).parts@,
                                col_matches(builder.gview(), lvl0@, c),
                            ) by {
                            if c != cc {
                                assert(self.lvl_desc.cols@[c].parts@ == lvl_prev@.cols@[c].parts@);
                                assert(col_touched(t@.take(i as int), c));
                                assert(col_matches(gprev@, lvl0@, c) == col_matches(
                                    builder.gview(),
                                    lvl0@,
                                    c,
                                ));
                            }
                        }
                        assert forall|r: int|
                            0 <= r < h@ && row_touched(t@.take(i as int + 1), r) implies
                            line_flags_set(
                                lvl0@.rows@[r].parts@,
                                (#[trigger] self.lvl_desc.rows@[r]).parts@,
                                row_matches(builder.gview(), lvl0@, r),
                            ) by {
                            if r != rr {
                                assert(self.lvl_desc.rows@[r].parts@ == lvl_prev@.rows@[r].parts@);
                                assert(row_touched(t@.take(i as int), r));
                                assert(row_matches(gprev@, lvl0@, r) == row_matches(
                                    builder.gview(),
                                    lvl0@,
                                    r,
                                ));
                            }
                        }
                    }
                }
                i = i + 1;
            }
            proof {
                assert(t@.take(t@.len() as int) =~= t@);
            }
            let g2 = Ghost(builder.gview());
            let t2 = builder.to_transaction(&self.grid);
            proof {
                crate::transaction::lemma_diff_grids_props(ga@, g2@, w@);
                crate::transaction::lemma_diff_applied(ga@, g2@, w@);
                crate::transaction::lemma_diff_empty_iff(ga@, g2@, w@);
            }
            if t2.changes.len() > 0 {
                self.grid.apply_transaction(&t2);
                self.move_queue.push(t2);
                proof {
                    assert(self.history() =~= hist1@.push(diff_grids(ga@, g2@, w@)));
                    assert(hist0@ + seq![t@] + seq![diff_grids(ga@, g2@, w@)] =~= hist1@.push(
                        diff_grids(ga@, g2@, w@),
                    ));
                }
            } else {
                proof {
                    assert(g2@ == ga@);
                    assert(hist0@ + seq![t@] + Seq::<Seq<TransactionDetails>>::empty() =~= hist1@);
                }
            }
        }
    }

    /// Pop the most recent transaction, roll its changes back, then
    /// recompute the completion flags of every line the reverted changes
    /// touched against the reverted grid (no re-crossing happens on undo).
    /// With an empty history this is a no-op.
    pub fn undo(&mut self)
        requires
            old(self).wf(),
        ensures
            final(self).wf(),
            final(self).spec_width() == old(self).spec_width(),
            final(self).spec_height() == old(self).spec_height(),
            ({
                let g0 = old(self).grid_view();
                let lvl0 = old(self).lvl();
                let w = old(self).spec_width();
                let h = old(self).spec_height();
                if old(self).history().len() == 0 {
                    &&& final(self).grid_view() == g0
                    &&& final(self).lvl() == lvl0
                    &&& final(self).history() == old(self).history()
                } else {
                    let t = old(self).history().last();
                    let gr = rolled_back(g0, t);
                    &&& final(self).grid_view() == gr
                    &&& final(self).history() == old(self).history().drop_last()
                    &&& final(self).lvl().rows@.len() == lvl0.rows@.len()
                    &&& final(self).lvl().cols@.len() == lvl0.cols@.len()
                    &&& forall|c: int|
                        0 <= c < w && col_listed(t, c) ==> line_flags_set(
                            lvl0.cols@[c].parts@,
                            (#[trigger] final(self).lvl().cols@[c]).parts@,
                            col_matches(gr, lvl0, c),
                        )
                    &&& forall|c: int|
                        0 <= c < w && !col_listed(t, c) ==> (
                        #[trigger] final(self).lvl().cols@[c]).parts@ == lvl0.cols@[c].parts@
                    &&& forall|r: int|
                        0 <= r < h && row_listed(t, r) ==> line_flags_set(
                            lvl0.rows@[r].parts@,
                            (#[trigger] final(self).lvl().rows@[r]).parts@,
                            row_matches(gr, lvl0, r),
                        )
                    &&& forall|r: int|
                        0 <= r < h && !row_listed(t, r) ==> (
                        #[trigger] final(self).lvl().rows@[r]).parts@ == lvl0.rows@[r].parts@
                }
            }),
    {
        proof {
            self.grid.inv_dims();
        }
        let g0 = Ghost(self.grid.gview());
        let lvl0 = Ghost(self.lvl_desc);
        let w = Ghost(self.spec_width());
        let h = Ghost(self.spec_height());
        let hist0 = Ghost(self.history());
        let transaction_option = self.move_queue.pop();
        if let Some(transaction) = transaction_option {
            proof {
                assert(hist0@.len() > 0);
                assert(transaction.changes@ == hist0@.last());
                assert(hist0@[hist0@.len() - 1] == transaction.changes@);
                assert(changes_in_bounds(transaction.changes@, h@, w@));
                assert(self.history() =~= hist0@.drop_last());
                assert forall|k: int| 0 <= k < self.history().len() implies (
                #[trigger] self.history()[k]).len() > 0 && changes_in_bounds(
                    self.history()[k],
                    h@,
                    w@,
                ) by {
                    assert(self.history()[k] == hist0@[k]);
                }
            }
            let t = Ghost(transaction.changes@);
            self.grid.rollback_transaction(&transaction);
            let gr = Ghost(self.grid.gview());
            let grid_now = Ghost(self.grid);
            let hist1 = Ghost(self.history());
            proof {
                self.grid.inv_dims();
                crate::transaction::lemma_applied_dims(g0@, t@, w@);
            }
            let mut i: usize = 0;
            while i < transaction.changes.len()
                invariant
                    self.grid == grid_now@,
                    self.grid.inv(),
                    self.grid.gview() == gr@,
                    self.grid.spec_width() == w@,
                    self.history() == hist1@,
                    t@ == transaction.changes@,
                    i <= t@.len(),
                    changes_in_bounds(t@, h@, w@),
                    gr@.len() == h@,
                    grid_dims_ok(gr@, w@),
                    lvl0@.cols@.len() == w@,
                    lvl0@.rows@.len() == h@,
                    same_counts(lvl0@, self.lvl_desc),
                    forall|c: int|
                        0 <= c < w@ && col_listed(t@.take(i as int), c) ==> line_flags_set(
                            lvl0@.cols@[c].parts@,
                            (#[trigger] self.lvl_desc.cols@[c]).parts@,
                            col_matches(gr@, lvl0@, c),
                        ),
                    forall|c: int|
                        0 <= c < w@ && !col_listed(t@.take(i as int), c) ==> (
                        #[trigger] self.lvl_desc.cols@[c]).parts@ == lvl0@.cols@[c].parts@,
                    forall|r: int|
                        0 <= r < h@ && row_listed(t@.take(i as int), r) ==> line_flags_set(
                            lvl0@.rows@[r].parts@,
                            (#[trigger] self.lvl_desc.rows@[r]).parts@,
                            row_matches(gr@, lvl0@, r),
                        ),
                    forall|r: int|
                        0 <= r < h@ && !row_listed(t@.take(i as int), r) ==> (
                        #[trigger] self.lvl_desc.rows@[r]).parts@ == lvl0@.rows@[r].parts@,
                decreases t@.len() - i,
            {
                let ch = transaction.changes[i];
                proof {
                    assert(t@[i as int] == ch);
                    lemma_touched_take_step(t@, i as int);
                }
                let lvl_prev = Ghost(self.lvl_desc);
                update_level_description(&self.grid, &mut self.lvl_desc, ch.col, ch.row);
                proof {
                    let cc = ch.col as int;
                    let rr = ch.row as int;
                    assert(flags_updated(lvl_prev@, self.lvl_desc, gr@, cc, rr));
                    assert(parts_counts(lvl_prev@.cols@[cc].parts@) == parts_counts(
                        lvl0@.cols@[cc].parts@,
                    ));
                    assert(parts_counts(lvl_prev@.rows@[rr].parts@) == parts_counts(
                        lvl0@.rows@[rr].parts@,
                    ));
                    assert(col_matches(gr@, lvl_prev@, cc) == col_matches(gr@, lvl0@, cc));
                    assert(row_matches(gr@, lvl_prev@, rr) == row_matches(gr@, lvl0@, rr));
                    assert(line_flags_set(
                        lvl0@.cols@[cc].parts@,
                        self.lvl_desc.cols@[cc].parts@,
                        col_matches(gr@, lvl0@, cc),
                    ));
                    assert(line_flags_set(
                        lvl0@.rows@[rr].parts@,
                        self.lvl_desc.rows@[rr].parts@,
                        row_matches(gr@, lvl0@, rr),
                    ));
                    lemma_line_flags_counts(
                        lvl0@.cols@[cc].parts@,
                        self.lvl_desc.cols@[cc].parts@,
                        col_matches(gr@, lvl0@, cc),
                    );
                    lemma_line_flags_counts(
                        lvl0@.rows@[rr].parts@,
                        self.lvl_desc.rows@[rr].parts@,
                        row_matches(gr@, lvl0@, rr),
                    );
                    assert(same_counts(lvl0@, self.lvl_desc));
                    assert forall|c: int|
                        0 <= c < w@ && col_listed(t@.take(i as int + 1), c) implies line_flags_set(
                            lvl0@.cols@[c].parts@,
                            (#[trigger] self.lvl_desc.cols@[c]).parts@,
                            col_matches(gr@, lvl0@, c),
                        ) by {
                        if c != cc {
                            assert(self.lvl_desc.cols@[c].parts@ == lvl_prev@.cols@[c].parts@);
                            assert(col_listed(t@.take(i as int), c));
                        }
                    }
                    assert forall|r: int|
                        0 <= r < h@ && row_listed(t@.take(i as int + 1), r) implies line_flags_set(
                            lvl0@.rows@[r].parts@,
                            (#[trigger] self.lvl_desc.rows@[r]).parts@,
                            row_matches(gr@, lvl0@, r),
                        ) by {
                        if r != rr {
                            assert(self.lvl_desc.rows@[r].parts@ == lvl_prev@.rows@[r].parts@);
                            assert(row_listed(t@.take(i as int), r));
                        }
                    }
                }
                i = i + 1;
            }
            proof {
                assert(t@.take(t@.len() as int) =~= t@);
            }
        }
    }
}

/// A copy of the parts with every completion flag set to `flag`.
fn reflag_parts(parts: &Vec<LineDescriptionPart>, flag: bool) -> (r: Vec<LineDescriptionPart>)
    ensures
        line_flags_set(parts@, r@, flag),
{
    let mut r: Vec<LineDescriptionPart> = Vec::new();
    let mut j: usize = 0;
    while j < parts.len()
        invariant
            j <= parts@.len(),
            r@.len() == j,
            forall|k: int|
                0 <= k < j ==> (#[trigger] r@[k]).elements_count == parts@[k].elements_count
                    && r@[k].is_completed == flag,
        decreases parts@.len() - j,
    {
        r.push(LineDescriptionPart { elements_count: parts[j].elements_count, is_completed: flag });
        j = j + 1;
    }
    r
}

} // verus!
