use vstd::prelude::*;

use crate::description::{parts_all_completed, parts_counts, LevelDescription};
use crate::grid::{col_seq, CellState};
use crate::line::{ColLine, Line, RowLine};
use crate::nonogram_target::NonogramTarget;
use crate::strategy::{exact_fit_applies, exact_fit_result, SimpleStrategy, SolvingStrategy};
use vstd::arithmetic::div_mod::{
    lemma_add_mod_noop, lemma_fundamental_div_mod, lemma_mod_division_less_than_divisor,
    lemma_small_mod,
};

verus! {

/// Row `r` still has an incomplete clue part and the exact-fit rule fires
/// on its current contents.
pub open spec fn row_deducible(lvl: LevelDescription, g: Seq<Seq<CellState>>, r: int) -> bool {
    &&& !parts_all_completed(lvl.rows@[r].parts@)
    &&& exact_fit_applies(parts_counts(lvl.rows@[r].parts@), g[r])
}

/// Column `c` still has an incomplete clue part and the exact-fit rule
/// fires on its current contents.
pub open spec fn col_deducible(lvl: LevelDescription, g: Seq<Seq<CellState>>, c: int) -> bool {
    &&& !parts_all_completed(lvl.cols@[c].parts@)
    &&& exact_fit_applies(parts_counts(lvl.cols@[c].parts@), col_seq(g, c))
}

/// The first deducible row at or below `i`, or -1 if there is none.
pub open spec fn first_deducible_row_from(
    lvl: LevelDescription,
    g: Seq<Seq<CellState>>,
    i: int,
) -> int
    decreases lvl.rows@.len() - i,
{
    if i < 0 || i >= lvl.rows@.len() {
        -1
    } else if row_deducible(lvl, g, i) {
        i
    } else {
        first_deducible_row_from(lvl, g, i + 1)
    }
}

/// The first deducible column at or right of `i`, or -1 if there is none.
pub open spec fn first_deducible_col_from(
    lvl: LevelDescription,
    g: Seq<Seq<CellState>>,
    i: int,
) -> int
    decreases lvl.cols@.len() - i,
{
    if i < 0 || i >= lvl.cols@.len() {
        -1
    } else if col_deducible(lvl, g, i) {
        i
    } else {
        first_deducible_col_from(lvl, g, i + 1)
    }
}

/// The grid with column `col` replaced, row by row, by `newcol`.
pub open spec fn set_col(
    g: Seq<Seq<CellState>>,
    col: int,
    newcol: Seq<CellState>,
) -> Seq<Seq<CellState>> {
    Seq::new(g.len(), |r: int| g[r].update(col, newcol[r]))
}

/// Whether one turn of the exact-fit strategy deduces anything: some row,
/// or failing every row some column, is deducible.
pub open spec fn turn_made(lvl: LevelDescription, g: Seq<Seq<CellState>>) -> bool {
    first_deducible_row_from(lvl, g, 0) >= 0 || first_deducible_col_from(lvl, g, 0) >= 0
}

/// The grid after one turn of the exact-fit strategy: the first deducible
/// row (in row order) is forced; failing any row, the first deducible
/// column; failing both, the grid is unchanged.
pub open spec fn turn_result(lvl: LevelDescription, g: Seq<Seq<CellState>>) -> Seq<
    Seq<CellState>,
> {
    let fr = first_deducible_row_from(lvl, g, 0);
    let fc = first_deducible_col_from(lvl, g, 0);
    if fr >= 0 {
        g.update(fr, exact_fit_result(parts_counts(lvl.rows@[fr].parts@), g[fr]))
    } else if fc >= 0 {
        set_col(g, fc, exact_fit_result(parts_counts(lvl.cols@[fc].parts@), col_seq(g, fc)))
    } else {
        g
    }
}

/// Run one strategy over every incomplete row in row order, then every
/// incomplete column in column order, and stop at the first line where it
/// deduces something. Returns whether any deduction was made.
fn process_lines<GridType: NonogramTarget>(
    level_description: &LevelDescription,
    grid: &mut GridType,
    strategy: &SimpleStrategy,
) -> (r: bool)
    requires
        old(grid).inv(),
        level_description.rows@.len() == old(grid).gview().len(),
        level_description.cols@.len() == old(grid).spec_width(),
        level_description.lines_nonempty(),
    ensures
        final(grid).inv(),
        final(grid).spec_width() == old(grid).spec_width(),
        final(grid).gview().len() == old(grid).gview().len(),
        r == turn_made(*level_description, old(grid).gview()),
        final(grid).gview() == turn_result(*level_description, old(grid).gview()),
{
    proof {
        grid.inv_dims();
    }
    let lvl = Ghost(*level_description);
    let g0 = Ghost(grid.gview());
    let height = grid.height();
    let mut row_num: usize = 0;
    while row_num < height
        invariant
            grid.inv(),
            grid.spec_width() == old(grid).spec_width(),
            lvl@ == *level_description,
            grid.gview() == g0@,
            g0@ == old(grid).gview(),
            height == g0@.len(),
            lvl@.rows@.len() == g0@.len(),
            lvl@.cols@.len() == grid.spec_width(),
            lvl@.lines_nonempty(),
            row_num <= height,
            first_deducible_row_from(lvl@, g0@, 0) == first_deducible_row_from(
                lvl@,
                g0@,
                row_num as int,
            ),
        decreases height - row_num,
    {
        let row_description = &level_description.rows[row_num];
        if row_description.has_incomplete() {
            let line = RowLine::new(row_num);
            proof {
                assert(line.lwf(*grid));
                assert(line.lview(*grid) == g0@[row_num as int]);
            }
            let gprev = Ghost(*grid);
            if strategy.process_one_line(row_description, &line, grid) {
                proof {
                    assert(row_deducible(lvl@, g0@, row_num as int));
                    assert(first_deducible_row_from(lvl@, g0@, 0) == row_num as int);
                    let forced = exact_fit_result(
                        parts_counts(lvl@.rows@[row_num as int].parts@),
                        g0@[row_num as int],
                    );
                    assert(line.lview(*grid) == forced);
                    assert(grid.gview()[row_num as int] == forced);
                    assert(line.frame(gprev@, *grid));
                    assert(grid.gview() =~= g0@.update(row_num as int, forced));
                }
                return true;
            }
            proof {
                assert(!exact_fit_applies(
                    parts_counts(lvl@.rows@[row_num as int].parts@),
                    g0@[row_num as int],
                ));
                assert(!row_deducible(lvl@, g0@, row_num as int));
            }
        } else {
            proof {
                assert(!row_deducible(lvl@, g0@, row_num as int));
            }
        }
        row_num = row_num + 1;
    }
    proof {
        assert(first_deducible_row_from(lvl@, g0@, height as int) == -1);
        assert(first_deducible_row_from(lvl@, g0@, 0) == -1);
    }
    let width = grid.width();
    let mut col_num: usize = 0;
    while col_num < width
        invariant
            grid.inv(),
            grid.spec_width() == old(grid).spec_width(),
            lvl@ == *level_description,
            grid.gview() == g0@,
            g0@ == old(grid).gview(),
            width == grid.spec_width(),
            lvl@.rows@.len() == g0@.len(),
            lvl@.cols@.len() == width,
            lvl@.lines_nonempty(),
            col_num <= width,
            first_deducible_row_from(lvl@, g0@, 0) == -1,
            first_deducible_col_from(lvl@, g0@, 0) == first_deducible_col_from(
                lvl@,
                g0@,
                col_num as int,
            ),
        decreases width - col_num,
    {
        let col_description = &level_description.cols[col_num];
        if col_description.has_incomplete() {
            let line = ColLine::new(col_num);
            proof {
                assert(line.lwf(*grid));
                assert(line.lview(*grid) == col_seq(g0@, col_num as int));
            }
            let gprev = Ghost(*grid);
            if strategy.process_one_line(col_description, &line, grid) {
                proof {
                    grid.inv_dims();
                    assert(col_deducible(lvl@, g0@, col_num as int));
                    assert(first_deducible_col_from(lvl@, g0@, 0) == col_num as int);
                    let forced = exact_fit_result(
                        parts_counts(lvl@.cols@[col_num as int].parts@),
                        col_seq(g0@, col_num as int),
                    );
                    assert(line.lview(*grid) == forced);
                    assert(line.frame(gprev@, *grid));
                    let gafter = grid.gview();
                    let gset = set_col(g0@, col_num as int, forced);
                    assert forall|rr: int| 0 <= rr < g0@.len() implies gafter[rr] == gset[rr] by {
                        assert(gset[rr] == g0@[rr].update(col_num as int, forced[rr]));
                        assert(col_seq(gafter, col_num as int)[rr] == gafter[rr][col_num as int]);
                        assert(gafter[rr][col_num as int] == forced[rr]);
                        assert forall|cc: int|
                            0 <= cc < g0@[rr].len() && cc != col_num as int implies gafter[rr][cc]
                            == g0@[rr][cc] by {}
                        assert(gafter[rr].len() == g0@[rr].len());
                        assert(gafter[rr] =~= gset[rr]);
                    }
                    assert(grid.gview() =~= gset);
                }
                return true;
            }
            proof {
                assert(!exact_fit_applies(
                    parts_counts(lvl@.cols@[col_num as int].parts@),
                    col_seq(g0@, col_num as int),
                ));
                assert(!col_deducible(lvl@, g0@, col_num as int));
            }
        } else {
            proof {
                assert(!col_deducible(lvl@, g0@, col_num as int));
            }
        }
        col_num = col_num + 1;
    }
    proof {
        assert(first_deducible_col_from(lvl@, g0@, width as int) == -1);
        assert(first_deducible_col_from(lvl@, g0@, 0) == -1);
    }
    false
}

/// Relies on std::time::SystemTime::now and
/// SystemTime::duration_since(UNIX_EPOCH): the wall clock as whole
/// milliseconds since the Unix epoch, saturated into u64, or zero if the
/// clock reads before the epoch. Nothing is promised of the value — the
/// scheduler's contracts state what holds for every possible reading.
#[verifier::external_body]
fn now_millis() -> u64 {
    match std::time::SystemTime::now().duration_since(std::time::UNIX_EPOCH) {
        Ok(d) => u64::try_from(d.as_millis()).unwrap_or(u64::MAX),
        Err(_) => 0,
    }
}

/// The automated player: an ordered list of solving strategies, a rotating
/// start index, an activity flag, and the instant of the last automated
/// tick.
pub struct AiPlayer {
    pub engines: Vec<SimpleStrategy>,
    current_engine: usize,
    is_active: bool,
    last_update_millis: u64,
}

impl AiPlayer {
    /// The registered strategies, in order.
    pub closed spec fn spec_engines(&self) -> Seq<SimpleStrategy> {
        self.engines@
    }

    /// How many strategies are registered.
    pub closed spec fn spec_engine_count(&self) -> int {
        self.engines@.len() as int
    }

    /// The rotating start index for the next scheduled turn.
    pub closed spec fn spec_current(&self) -> int {
        self.current_engine as int
    }

    /// Whether automated play is running.
    pub closed spec fn spec_active(&self) -> bool {
        self.is_active
    }

    /// The recorded time of the last automated tick, in milliseconds.
    pub closed spec fn spec_last(&self) -> int {
        self.last_update_millis as int
    }

    /// The rotating index stays inside the strategy list (or at zero while
    /// the list is empty).
    pub closed spec fn wf(&self) -> bool {
        self.current_engine == 0 || (self.current_engine as int) < self.engines@.len()
    }

    /// Whether automated play is running.
    pub fn is_active(&self) -> (r: bool)
        ensures
            r == self.spec_active(),
    {
        self.is_active
    }

    /// The rotating start index for the next scheduled turn.
    pub fn current_strategy(&self) -> (r: usize)
        ensures
            r as int == self.spec_current(),
    {
        self.current_engine
    }

    /// A fresh player at a given clock reading: no strategies, inactive,
    /// start index zero, the tick timer set to `now_ms`.
    pub fn new_at(now_ms: u64) -> (p: AiPlayer)
        ensures
            p.wf(),
            p.spec_engine_count() == 0,
            !p.spec_active(),
            p.spec_current() == 0,
            p.spec_last() == now_ms as int,
    {
        let engines: Vec<SimpleStrategy> = Vec::new();
        AiPlayer { engines, is_active: false, current_engine: 0, last_update_millis: now_ms }
    }

    /// A fresh player: no strategies, inactive, start index zero, the tick
    /// timer set to the wall clock read now.
    pub fn new() -> (p: AiPlayer)
        ensures
            p.wf(),
            p.spec_engine_count() == 0,
            !p.spec_active(),
            p.spec_current() == 0,
    {
        let now_ms = now_millis();
        AiPlayer::new_at(now_ms)
    }

    /// Perform one turn immediately, regardless of the activity flag and
    /// the timer, always starting the strategy search at index zero.
    pub fn play_single_turn_emergency<GridType: NonogramTarget>(
        &self,
        level_description: &LevelDescription,
        grid: &mut GridType,
    )
        requires
            old(grid).inv(),
            level_description.rows@.len() == old(grid).gview().len(),
            level_description.cols@.len() == old(grid).spec_width(),
            level_description.lines_nonempty(),
        ensures
            final(grid).inv(),
            final(grid).spec_width() == old(grid).spec_width(),
            final(grid).gview().len() == old(grid).gview().len(),
            final(grid).gview() == (if self.spec_engine_count() > 0 {
                turn_result(*level_description, old(grid).gview())
            } else {
                old(grid).gview()
            }),
    {
        let g0 = Ghost(grid.gview());
        let mut i: usize = 0;
        while i < self.engines.len()
            invariant
                grid.inv(),
                grid.spec_width() == old(grid).spec_width(),
                grid.gview() == g0@,
                g0@ == old(grid).gview(),
                level_description.rows@.len() == g0@.len(),
                level_description.cols@.len() == grid.spec_width(),
                level_description.lines_nonempty(),
                i <= self.engines@.len(),
                i > 0 ==> !turn_made(*level_description, g0@),
            decreases self.engines@.len() - i,
        {
            if process_lines(level_description, grid, &self.engines[i]) {
                return;
            }
            i = i + 1;
        }
    }

    /// One scheduled turn: try the strategies in rotated order starting at
    /// the current index, stopping at the first deduction; then advance the
    /// rotating start index by one, so that on the next tick a later
    /// strategy gets first refusal.
    fn play_single_turn_with_engines_order_memory<GridType: NonogramTarget>(
        &mut self,
        level_description: &LevelDescription,
        grid: &mut GridType,
    )
        requires
            old(self).wf(),
            old(grid).inv(),
            level_description.rows@.len() == old(grid).gview().len(),
            level_description.cols@.len() == old(grid).spec_width(),
            level_description.lines_nonempty(),
        ensures
            final(self).wf(),
            final(self).spec_engines() == old(self).spec_engines(),
            final(self).spec_active() == old(self).spec_active(),
            final(self).spec_last() == old(self).spec_last(),
            final(self).spec_current() == (if old(self).spec_engine_count() > 0 {
                (old(self).spec_current() + 1) % old(self).spec_engine_count()
            } else {
                old(self).spec_current()
            }),
            final(grid).inv(),
            final(grid).spec_width() == old(grid).spec_width(),
            final(grid).gview().len() == old(grid).gview().len(),
            final(grid).gview() == (if old(self).spec_engine_count() > 0 {
                turn_result(*level_description, old(grid).gview())
            } else {
                old(grid).gview()
            }),
    {
        let count = self.engines.len();
        if count == 0 {
            return;
        }
        let g0 = Ghost(grid.gview());
        let start = self.current_engine;
        proof {
            assert(start < count);
        }
        let mut i: usize = 0;
        let mut idx: usize = start;
        let mut fired = false;
        while i < count && !fired
            invariant
                grid.inv(),
                grid.spec_width() == old(grid).spec_width(),
                g0@ == old(grid).gview(),
                level_description.rows@.len() == g0@.len(),
                level_description.cols@.len() == grid.spec_width(),
                level_description.lines_nonempty(),
                count == self.engines@.len(),
                count > 0,
                idx < count,
                i <= count,
                !fired ==> grid.gview() == g0@,
                !fired && i > 0 ==> !turn_made(*level_description, g0@),
                fired ==> turn_made(*level_description, g0@) && grid.gview() == turn_result(
                    *level_description,
                    g0@,
                ),
                grid.gview().len() == g0@.len(),
            decreases count - i,
        {
            fired = process_lines(level_description, grid, &self.engines[idx]);
            idx = if idx + 1 >= count {
                0
            } else {
                idx + 1
            };
            i = i + 1;
        }
        self.current_engine = if start + 1 >= count {
            0
        } else {
            start + 1
        };
        proof {
            if start + 1 == count {
                assert((start as int + 1) % (count as int) == 0) by {
                    lemma_fundamental_div_mod(count as int, count as int);
                    lemma_mod_division_less_than_divisor(count as int, count as int);
                    assert(count as int == count as int * ((count as int) / (count as int)) + (
                    count as int) % (count as int));
                    let q = (count as int) / (count as int);
                    let r = (count as int) % (count as int);
                    assert(0 <= r < count as int);
                    assert(count as int * q == count as int - r);
                    if q <= 0 {
                        assert(count as int * q <= 0) by (nonlinear_arith)
                            requires
                                q <= 0,
                                count as int > 0,
                        {}
                    }
                    if q >= 2 {
                        assert(count as int * q >= 2 * count as int) by (nonlinear_arith)
                            requires
                                q >= 2,
                                count as int > 0,
                        {}
                    }
                    assert(q == 1);
                }
            } else {
                lemma_small_mod((start + 1) as nat, count as nat);
            }
        }
    }

    /// A scheduled tick gated at a given clock reading: when active and
    /// more than a second has passed since the last tick, reset the timer
    /// to `now_ms` and perform one scheduled turn; otherwise do nothing.
    pub fn try_perform_turn_at<GridType: NonogramTarget>(
        &mut self,
        now_ms: u64,
        level_description: &LevelDescription,
        grid: &mut GridType,
    )
        requires
            old(self).wf(),
            old(grid).inv(),
            level_description.rows@.len() == old(grid).gview().len(),
            level_description.cols@.len() == old(grid).spec_width(),
            level_description.lines_nonempty(),
        ensures
            final(self).wf(),
            final(self).spec_engines() == old(self).spec_engines(),
            final(self).spec_active() == old(self).spec_active(),
            final(grid).inv(),
            final(grid).spec_width() == old(grid).spec_width(),
            final(grid).gview().len() == old(grid).gview().len(),
            ({
                let elapsed = if now_ms as int >= old(self).spec_last() {
                    now_ms as int - old(self).spec_last()
                } else {
                    0
                };
                if old(self).spec_active() && elapsed > 1000 {
                    &&& final(self).spec_last() == now_ms as int
                    &&& final(self).spec_current() == (if old(self).spec_engine_count() > 0 {
                        (old(self).spec_current() + 1) % old(self).spec_engine_count()
                    } else {
                        old(self).spec_current()
                    })
                    &&& final(grid).gview() == (if old(self).spec_engine_count() > 0 {
                        turn_result(*level_description, old(grid).gview())
                    } else {
                        old(grid).gview()
                    })
                } else {
                    &&& final(self).spec_last() == old(self).spec_last()
                    &&& final(self).spec_current() == old(self).spec_current()
                    &&& final(grid).gview() == old(grid).gview()
                }
            }),
    {
        let elapsed = if now_ms > self.last_update_millis {
            now_ms - self.last_update_millis
        } else {
            0
        };
        if self.is_active && elapsed > 1000 {
            self.last_update_millis = now_ms;
            self.play_single_turn_with_engines_order_memory(level_description, grid);
        }
    }

    /// A scheduled tick against the wall clock: either nothing happens (not
    /// active, or less than a second since the last tick), or — only when
    /// active — the timer is reset and one scheduled turn is performed.
    pub fn try_perform_turn<GridType: NonogramTarget>(
        &mut self,
        level_description: &LevelDescription,
        grid: &mut GridType,
    )
        requires
            old(self).wf(),
            old(grid).inv(),
            level_description.rows@.len() == old(grid).gview().len(),
            level_description.cols@.len() == old(grid).spec_width(),
            level_description.lines_nonempty(),
        ensures
            final(self).wf(),
            final(self).spec_engines() == old(self).spec_engines(),
            final(self).spec_active() == old(self).spec_active(),
            final(grid).inv(),
            final(grid).spec_width() == old(grid).spec_width(),
            final(grid).gview().len() == old(grid).gview().len(),
            (final(self).spec_current() == old(self).spec_current() && final(self).spec_last()
                == old(self).spec_last() && final(grid).gview() == old(grid).gview()) || (old(
                self,
            ).spec_active() && final(self).spec_current() == (if old(self).spec_engine_count()
                > 0 {
                (old(self).spec_current() + 1) % old(self).spec_engine_count()
            } else {
                old(self).spec_current()
            }) && final(grid).gview() == (if old(self).spec_engine_count() > 0 {
                turn_result(*level_description, old(grid).gview())
            } else {
                old(grid).gview()
            })),
    {
        let now_ms = now_millis();
        self.try_perform_turn_at(now_ms, level_description, grid);
    }

    /// Start automated play and reset the tick timer to the given clock
    /// reading.
    pub fn start_play_at(&mut self, now_ms: u64)
        requires
            old(self).wf(),
        ensures
            final(self).wf(),
            final(self).spec_engines() == old(self).spec_engines(),
            final(self).spec_active(),
            final(self).spec_current() == old(self).spec_current(),
            final(self).spec_last() == now_ms as int,
    {
        self.last_update_millis = now_ms;
        self.is_active = true;
    }

    /// Start automated play and reset the tick timer to now.
    pub fn start_play(&mut self)
        requires
            old(self).wf(),
        ensures
            final(self).wf(),
            final(self).spec_engines() == old(self).spec_engines(),
            final(self).spec_active(),
            final(self).spec_current() == old(self).spec_current(),
    {
        let now_ms = now_millis();
        self.start_play_at(now_ms);
    }

    /// Reset the tick timer to the given clock reading without touching the
    /// activity flag.
    pub fn restart_clock_at(&mut self, now_ms: u64)
        requires
            old(self).wf(),
        ensures
            final(self).wf(),
            final(self).spec_engines() == old(self).spec_engines(),
            final(self).spec_active() == old(self).spec_active(),
            final(self).spec_current() == old(self).spec_current(),
            final(self).spec_last() == now_ms as int,
    {
        self.last_update_millis = now_ms;
    }

    /// Reset the tick timer to now without touching the activity flag;
    /// called on any manual edit so automation does not immediately
    /// double-fire.
    pub fn restart_clock(&mut self)
        requires
            old(self).wf(),
        ensures
            final(self).wf(),
            final(self).spec_engines() == old(self).spec_engines(),
            final(self).spec_active() == old(self).spec_active(),
            final(self).spec_current() == old(self).spec_current(),
    {
        let now_ms = now_millis();
        self.restart_clock_at(now_ms);
    }

    /// Stop automated play; the timer is untouched.
    pub fn pause_play(&mut self)
        requires
            old(self).wf(),
        ensures
            final(self).wf(),
            final(self).spec_engines() == old(self).spec_engines(),
            !final(self).spec_active(),
            final(self).spec_current() == old(self).spec_current(),
            final(self).spec_last() == old(self).spec_last(),
    {
        self.is_active = false
    }
}

/// A sequence of rotating start indices produced by consecutive scheduled
/// turns — each index one step past the previous, modulo the number of
/// strategies, as the turn contracts guarantee — follows the orbit
/// `(start + j) % k`.
pub proof fn lemma_rotation_steps(start: int, k: int, idx: Seq<int>)
    requires
        k > 0,
        0 <= start < k,
        idx.len() >= 1,
        idx[0] == start,
        forall|j: int| 0 <= j < idx.len() - 1 ==> idx[j + 1] == ((#[trigger] idx[j]) + 1) % k,
    ensures
        forall|j: int| 0 <= j < idx.len() ==> (#[trigger] idx[j]) == (start + j) % k,
    decreases idx.len(),
{
    if idx.len() == 1 {
        lemma_small_mod(start as nat, k as nat);
    } else {
        lemma_rotation_steps(start, k, idx.drop_last());
        assert forall|j: int| 0 <= j < idx.len() implies (#[trigger] idx[j]) == (start + j) % k by {
            if j < idx.len() - 1 {
                assert(idx.drop_last()[j] == idx[j]);
            } else {
                let p = j - 1;
                assert(idx.drop_last()[p] == idx[p]);
                assert(idx[p] == (start + p) % k);
                assert(idx[j] == ((start + p) % k + 1) % k);
                lemma_add_mod_noop(start + p, 1, k);
                if k == 1 {
                    lemma_mod_division_less_than_divisor(start + p, k);
                    lemma_mod_division_less_than_divisor(start + j, k);
                    lemma_mod_division_less_than_divisor((start + p) % k + 1, k);
                } else {
                    lemma_small_mod(1nat, k as nat);
                }
            }
        }
    }
}

/// Scheduler fairness: each scheduled turn advances the rotating start
/// index by one modulo the number of strategies, so over `k` consecutive
/// turns the start index `(start + i) % k` takes `k` pairwise distinct
/// values — it cycles through every strategy before repeating.
pub proof fn lemma_rotation_fair(start: int, k: int, i: int, j: int)
    requires
        k > 0,
        0 <= i < k,
        0 <= j < k,
        i != j,
    ensures
        (start + i) % k != (start + j) % k,
{
    if (start + i) % k == (start + j) % k {
        lemma_fundamental_div_mod(start + i, k);
        lemma_fundamental_div_mod(start + j, k);
        let qi = (start + i) / k;
        let qj = (start + j) / k;
        assert(i - j == k * qi - k * qj);
        assert(k * qi - k * qj == k * (qi - qj)) by (nonlinear_arith) {}
        let d = qi - qj;
        if d == 0 {
            assert(i == j);
        } else if d >= 1 {
            assert(k * d >= k) by (nonlinear_arith)
                requires
                    d >= 1,
                    k > 0,
            {}
            assert(i - j >= k);
        } else {
            assert(k * d <= -k) by (nonlinear_arith)
                requires
                    d <= -1,
                    k > 0,
            {}
            assert(i - j <= -k);
        }
    }
}

} // verus!
