use vstd::prelude::*;

use crate::description::{parts_counts, LineDescription};
use crate::grid::CellState;
use crate::line::Line;
use crate::nonogram_target::NonogramTarget;

verus! {

/// The number of leading Crossed cells of a line.
pub open spec fn leading_crossed(line: Seq<CellState>) -> int
    decreases line.len(),
{
    if line.len() == 0 {
        0
    } else if line[0] == CellState::Crossed {
        1 + leading_crossed(line.drop_first())
    } else {
        0
    }
}

/// The number of trailing Crossed cells of a line.
pub open spec fn trailing_crossed(line: Seq<CellState>) -> int
    decreases line.len(),
{
    if line.len() == 0 {
        0
    } else if line.last() == CellState::Crossed {
        1 + trailing_crossed(line.drop_last())
    } else {
        0
    }
}

/// The sum of a clue's run lengths.
pub open spec fn counts_sum(counts: Seq<int>) -> int
    decreases counts.len(),
{
    if counts.len() == 0 {
        0
    } else {
        counts[0] + counts_sum(counts.drop_first())
    }
}

/// The minimum span the clue needs: its runs plus one mandatory single-cell
/// gap between each pair of consecutive runs.
pub open spec fn required_span(counts: Seq<int>) -> int {
    counts_sum(counts) + counts.len() - 1
}

/// The exact-fit rule fires when the span left between the leading and
/// trailing Crossed cells equals the clue's minimum required span: the
/// placement is then forced and unique.
pub open spec fn exact_fit_applies(counts: Seq<int>, line: Seq<CellState>) -> bool {
    required_span(counts) == line.len() - leading_crossed(line) - trailing_crossed(line)
}

/// A run of `n` Filled cells.
pub open spec fn filled_run(n: int) -> Seq<CellState> {
    Seq::new(n as nat, |i: int| CellState::Filled)
}

/// The forced placement: each run written in full, one Crossed separator
/// after every run but the last.
pub open spec fn exact_fit_pattern(counts: Seq<int>) -> Seq<CellState>
    decreases counts.len(),
{
    if counts.len() == 0 {
        Seq::<CellState>::empty()
    } else if counts.len() == 1 {
        filled_run(counts[0])
    } else {
        filled_run(counts[0]) + seq![CellState::Crossed] + exact_fit_pattern(counts.drop_first())
    }
}

/// The first `e` runs of the pattern, each with its trailing separator.
pub open spec fn pattern_prefix(counts: Seq<int>, e: int) -> Seq<CellState>
    decreases e,
{
    if e <= 0 {
        Seq::<CellState>::empty()
    } else {
        filled_run(counts[0]) + seq![CellState::Crossed] + pattern_prefix(
            counts.drop_first(),
            e - 1,
        )
    }
}

/// The whole line after the forced placement: the crossed margins stay,
/// the span between them is overwritten with the pattern.
pub open spec fn exact_fit_result(counts: Seq<int>, line: Seq<CellState>) -> Seq<CellState> {
    let begin = leading_crossed(line);
    line.take(begin) + exact_fit_pattern(counts) + line.skip(begin + required_span(counts))
}

/// A pluggable line-solving rule: a pure decision from one clue line plus
/// one line view to "was a deduction made", writing the deduced cells
/// through the line view.
pub trait SolvingStrategy: Sized {
    /// Whether the strategy makes a deduction on this line.
    spec fn spec_fires(&self, counts: Seq<int>, line: Seq<CellState>) -> bool;

    /// The full line contents the strategy leaves behind when it fires.
    spec fn spec_result(&self, counts: Seq<int>, line: Seq<CellState>) -> Seq<CellState>;

    /// A firing strategy rewrites the line in place: on a nonempty clue of
    /// nonnegative run lengths the result keeps the line's length.
    proof fn fires_wf(&self, counts: Seq<int>, line: Seq<CellState>)
        requires
            self.spec_fires(counts, line),
            counts.len() >= 1,
            forall|i: int| 0 <= i < counts.len() ==> counts[i] >= 0,
        ensures
            self.spec_result(counts, line).len() == line.len(),
    ;

    /// Inspect one line against its clue; on a deduction, write the forced
    /// cells through the line view and report true, else leave the grid
    /// untouched and report false.
    fn process_one_line<T: NonogramTarget, L: Line<T>>(
        &self,
        line_description: &LineDescription,
        line: &L,
        target: &mut T,
    ) -> (r: bool)
        requires
            old(target).inv(),
            line.lwf(*old(target)),
            line_description.parts@.len() >= 1,
        ensures
            final(target).inv(),
            final(target).spec_width() == old(target).spec_width(),
            line.lwf(*final(target)),
            r == self.spec_fires(
                parts_counts(line_description.parts@),
                line.lview(*old(target)),
            ),
            r ==> line.lview(*final(target)) == self.spec_result(
                parts_counts(line_description.parts@),
                line.lview(*old(target)),
            ) && line.frame(*old(target), *final(target)),
            !r ==> *final(target) == *old(target),
    ;
}

proof fn lemma_leading_crossed_is(line: Seq<CellState>, b: int)
    requires
        0 <= b <= line.len(),
        forall|k: int| 0 <= k < b ==> line[k] == CellState::Crossed,
        b < line.len() ==> line[b] != CellState::Crossed,
    ensures
        leading_crossed(line) == b,
    decreases line.len(),
{
    if line.len() == 0 {
    } else if b == 0 {
    } else {
        assert(line[0] == CellState::Crossed);
        assert forall|k: int| 0 <= k < b - 1 implies line.drop_first()[k] == CellState::Crossed by {
            assert(line.drop_first()[k] == line[k + 1]);
        }
        if b - 1 < line.drop_first().len() {
            assert(line.drop_first()[b - 1] == line[b]);
        }
        lemma_leading_crossed_is(line.drop_first(), b - 1);
    }
}

proof fn lemma_trailing_crossed_is(line: Seq<CellState>, b: int)
    requires
        0 <= b <= line.len(),
        forall|k: int| line.len() - b <= k < line.len() ==> line[k] == CellState::Crossed,
        b < line.len() ==> line[line.len() - 1 - b] != CellState::Crossed,
    ensures
        trailing_crossed(line) == b,
    decreases line.len(),
{
    if line.len() == 0 {
    } else if b == 0 {
        assert(line.last() == line[line.len() - 1]);
    } else {
        assert(line.last() == CellState::Crossed);
        let d = line.drop_last();
        assert forall|k: int| d.len() - (b - 1) <= k < d.len() implies d[k]
            == CellState::Crossed by {
            assert(d[k] == line[k]);
        }
        if b - 1 < d.len() {
            assert(d[d.len() - 1 - (b - 1)] == line[line.len() - 1 - b]);
        }
        lemma_trailing_crossed_is(d, b - 1);
    }
}

proof fn lemma_counts_sum_push(s: Seq<int>, x: int)
    ensures
        counts_sum(s.push(x)) == counts_sum(s) + x,
    decreases s.len(),
{
    reveal_with_fuel(counts_sum, 3);
    if s.len() == 0 {
        assert(s.push(x).drop_first() =~= Seq::<int>::empty());
    } else {
        assert(s.push(x).drop_first() =~= s.drop_first().push(x));
        assert(s.push(x)[0] == s[0]);
        lemma_counts_sum_push(s.drop_first(), x);
    }
}

proof fn lemma_counts_sum_nonneg(s: Seq<int>)
    requires
        forall|i: int| 0 <= i < s.len() ==> s[i] >= 0,
    ensures
        counts_sum(s) >= 0,
    decreases s.len(),
{
    if s.len() != 0 {
        assert forall|i: int| 0 <= i < s.drop_first().len() implies s.drop_first()[i] >= 0 by {
            assert(s.drop_first()[i] == s[i + 1]);
        }
        lemma_counts_sum_nonneg(s.drop_first());
    }
}

proof fn lemma_filled_run_len(n: int)
    requires
        n >= 0,
    ensures
        filled_run(n).len() == n,
        forall|i: int| 0 <= i < n ==> filled_run(n)[i] == CellState::Filled,
{
}

proof fn lemma_pattern_prefix_snoc(counts: Seq<int>, e: int)
    requires
        0 <= e < counts.len(),
    ensures
        pattern_prefix(counts, e + 1) == pattern_prefix(counts, e) + filled_run(counts[e]) + seq![
            CellState::Crossed,
        ],
    decreases e,
{
    if e == 0 {
        assert(pattern_prefix(counts.drop_first(), 0) =~= Seq::<CellState>::empty());
        assert(pattern_prefix(counts, 1) == filled_run(counts[0]) + seq![CellState::Crossed]
            + Seq::<CellState>::empty());
        assert(pattern_prefix(counts, 1) =~= pattern_prefix(counts, 0) + filled_run(counts[0])
            + seq![CellState::Crossed]);
    } else {
        lemma_pattern_prefix_snoc(counts.drop_first(), e - 1);
        assert(counts.drop_first()[e - 1] == counts[e]);
        assert(pattern_prefix(counts, e + 1) == filled_run(counts[0]) + seq![CellState::Crossed]
            + pattern_prefix(counts.drop_first(), e));
        assert(pattern_prefix(counts.drop_first(), e) == pattern_prefix(counts.drop_first(), e - 1)
            + filled_run(counts[e]) + seq![CellState::Crossed]);
        assert(pattern_prefix(counts, e + 1) =~= pattern_prefix(counts, e) + filled_run(counts[e])
            + seq![CellState::Crossed]);
    }
}

proof fn lemma_pattern_prefix_len(counts: Seq<int>, e: int)
    requires
        0 <= e <= counts.len(),
        forall|i: int| 0 <= i < counts.len() ==> counts[i] >= 0,
    ensures
        pattern_prefix(counts, e).len() == counts_sum(counts.take(e)) + e,
    decreases e,
{
    if e == 0 {
        assert(counts.take(0) =~= Seq::<int>::empty());
    } else {
        lemma_pattern_prefix_len(counts, e - 1);
        lemma_pattern_prefix_snoc(counts, e - 1);
        assert(counts.take(e) =~= counts.take(e - 1).push(counts[e - 1]));
        lemma_counts_sum_push(counts.take(e - 1), counts[e - 1]);
        assert(filled_run(counts[e - 1]).len() == counts[e - 1]);
    }
}

proof fn lemma_pattern_full(counts: Seq<int>)
    requires
        counts.len() >= 1,
    ensures
        exact_fit_pattern(counts) == pattern_prefix(counts, counts.len() - 1) + filled_run(
            counts.last(),
        ),
    decreases counts.len(),
{
    if counts.len() == 1 {
        assert(pattern_prefix(counts, 0) =~= Seq::<CellState>::empty());
        assert(exact_fit_pattern(counts) =~= pattern_prefix(counts, 0) + filled_run(
            counts.last(),
        ));
    } else {
        lemma_pattern_full(counts.drop_first());
        assert(counts.drop_first().last() == counts.last());
        assert(exact_fit_pattern(counts) == filled_run(counts[0]) + seq![CellState::Crossed]
            + exact_fit_pattern(counts.drop_first()));
        assert(pattern_prefix(counts, counts.len() - 1) == filled_run(counts[0]) + seq![
            CellState::Crossed,
        ] + pattern_prefix(counts.drop_first(), counts.len() - 2));
        assert(exact_fit_pattern(counts) =~= pattern_prefix(counts, counts.len() - 1) + filled_run(
            counts.last(),
        ));
    }
}

/// The forced pattern of a nonempty clue occupies exactly the clue's
/// minimum required span.
pub proof fn lemma_pattern_len(counts: Seq<int>)
    requires
        counts.len() >= 1,
        forall|i: int| 0 <= i < counts.len() ==> counts[i] >= 0,
    ensures
        exact_fit_pattern(counts).len() == required_span(counts),
{
    lemma_pattern_full(counts);
    lemma_pattern_prefix_len(counts, counts.len() - 1);
    assert(counts.take(counts.len() - 1).push(counts.last()) =~= counts);
    lemma_counts_sum_push(counts.take(counts.len() - 1), counts.last());
}

/// The sole concrete strategy: exact-fit placement. It fires only when the
/// clue's minimum required span equals the undetermined span between the
/// crossed margins; it performs no partial-run pruning or overlap
/// analysis.
pub struct SimpleStrategy {}

impl SolvingStrategy for SimpleStrategy {
    open spec fn spec_fires(&self, counts: Seq<int>, line: Seq<CellState>) -> bool {
        exact_fit_applies(counts, line)
    }

    open spec fn spec_result(&self, counts: Seq<int>, line: Seq<CellState>) -> Seq<CellState> {
        exact_fit_result(counts, line)
    }

    proof fn fires_wf(&self, counts: Seq<int>, line: Seq<CellState>) {
        lemma_leading_trailing_bounds(line);
        lemma_pattern_len(counts);
        let begin = leading_crossed(line);
        let required = required_span(counts);
        assert(begin + required == line.len() - trailing_crossed(line));
        assert(line.take(begin).len() == begin);
        assert(line.skip(begin + required).len() == line.len() - begin - required);
    }

    fn process_one_line<T: NonogramTarget, L: Line<T>>(
        &self,
        line_description: &LineDescription,
        line: &L,
        target: &mut T,
    ) -> (r: bool) {
        let counts = Ghost(parts_counts(line_description.parts@));
        let lv0 = Ghost(line.lview(*target));
        proof {
            assert forall|i: int| 0 <= i < counts@.len() implies counts@[i] >= 0 by {
                assert(counts@[i] == line_description.parts@[i].elements_count as int);
            }
            lemma_leading_trailing_bounds(lv0@);
        }
        let n = line.len(target);
        let mut begin_offset: usize = 0;
        while begin_offset < n && line.get(target, begin_offset) == CellState::Crossed
            invariant
                target.inv(),
                line.lwf(*target),
                lv0@ == line.lview(*target),
                n == lv0@.len(),
                begin_offset <= n,
                forall|k: int| 0 <= k < begin_offset ==> lv0@[k] == CellState::Crossed,
            decreases n - begin_offset,
        {
            begin_offset = begin_offset + 1;
        }
        proof {
            lemma_leading_crossed_is(lv0@, begin_offset as int);
        }
        if begin_offset == n {
            // The whole line is crossed: with at least one clue part the
            // required span is nonnegative, the remaining span is not.
            proof {
                lemma_trailing_crossed_is(lv0@, n as int);
                lemma_counts_nonneg_sum(counts@, lv0@);
                if n == 0 {
                    assert(!exact_fit_applies(counts@, lv0@) || exact_fit_applies(
                        counts@,
                        lv0@,
                    ));
                }
            }
            if n == 0 {
                // A zero-length line: the rule fires only for a clue that
                // needs no cells, and then writes nothing.
                let fires = {
                    let mut total_is_zero = true;
                    let mut j: usize = 0;
                    while j < line_description.parts.len()
                        invariant
                            j <= line_description.parts@.len(),
                            counts@ == parts_counts(line_description.parts@),
                            total_is_zero == (counts_sum(counts@.take(j as int)) == 0),
                            counts_sum(counts@.take(j as int)) >= 0 || !total_is_zero,
                        decreases line_description.parts@.len() - j,
                    {
                        proof {
                            assert(counts@.take(j as int).push(counts@[j as int]) =~= counts@.take(
                                j as int + 1,
                            ));
                            lemma_counts_sum_push(counts@.take(j as int), counts@[j as int]);
                            assert(counts@[j as int] == line_description.parts@[
                                j as int
                            ].elements_count as int);
                            assert forall|i: int|
                                0 <= i < counts@.take(j as int).len() implies counts@.take(
                                j as int,
                            )[i] >= 0 by {
                                assert(counts@.take(j as int)[i] == counts@[i]);
                            }
                            lemma_counts_sum_nonneg(counts@.take(j as int));
                        }
                        if line_description.parts[j].elements_count != 0 {
                            total_is_zero = false;
                        }
                        j = j + 1;
                    }
                    proof {
                        assert(counts@.take(counts@.len() as int) =~= counts@);
                    }
                    total_is_zero && line_description.parts.len() == 1
                };
                proof {
                    assert(leading_crossed(lv0@) == 0);
                    assert(trailing_crossed(lv0@) == 0);
                    assert(fires == exact_fit_applies(counts@, lv0@));
                    if fires {
                        reveal_with_fuel(counts_sum, 2);
                        assert(counts@.drop_first() =~= Seq::<int>::empty());
                        assert(counts_sum(Seq::<int>::empty()) == 0);
                        assert(counts_sum(counts@) == counts@[0] + counts_sum(counts@.drop_first()));
                        assert(counts_sum(counts@) == counts@[0]);
                        assert(counts@[0] == 0);
                        assert(exact_fit_pattern(counts@) =~= filled_run(counts@[0]));
                        assert(filled_run(counts@[0]).len() == 0);
                        assert(exact_fit_result(counts@, lv0@) =~= lv0@);
                        line.frame_refl(*target);
                    }
                }
                return fires;
            }
            proof {
                lemma_counts_sum_nonneg(counts@);
                assert(required_span(counts@) >= 0);
                assert(lv0@.len() - leading_crossed(lv0@) - trailing_crossed(lv0@) < 0);
                assert(!exact_fit_applies(counts@, lv0@));
            }
            return false;
        }
        let mut end_offset: usize = 0;
        while end_offset < n && line.get(target, n - 1 - end_offset) == CellState::Crossed
            invariant
                target.inv(),
                line.lwf(*target),
                lv0@ == line.lview(*target),
                n == lv0@.len(),
                end_offset <= n,
                forall|k: int| n - end_offset <= k < n ==> lv0@[k] == CellState::Crossed,
            decreases n - end_offset,
        {
            end_offset = end_offset + 1;
        }
        proof {
            if (end_offset as int) < n {
                assert(lv0@[n - 1 - end_offset] != CellState::Crossed);
            }
            lemma_trailing_crossed_is(lv0@, end_offset as int);
            // A non-crossed cell exists at begin_offset, so the two margins
            // cannot overlap.
            assert(lv0@[begin_offset as int] != CellState::Crossed);
            assert(end_offset <= n - 1 - begin_offset);
        }
        let parts_len = line_description.parts.len();
        let mut total: u128 = 0;
        let mut j: usize = 0;
        proof {
            assert(counts@.take(0) =~= Seq::<int>::empty());
        }
        while j < parts_len
            invariant
                parts_len == line_description.parts@.len(),
                counts@ == parts_counts(line_description.parts@),
                j <= parts_len,
                total as int == counts_sum(counts@.take(j as int)),
                total as int <= (j as int) * 0xffff_ffff_ffff_ffff,
            decreases parts_len - j,
        {
            proof {
                assert(counts@.take(j as int).push(counts@[j as int]) =~= counts@.take(
                    j as int + 1,
                ));
                lemma_counts_sum_push(counts@.take(j as int), counts@[j as int]);
                assert(counts@[j as int] == line_description.parts@[j as int].elements_count
                    as int);
            }
            total = total + (line_description.parts[j].elements_count as u128);
            j = j + 1;
        }
        proof {
            assert(counts@.take(counts@.len() as int) =~= counts@);
        }
        let separators = (parts_len - 1) as u128;
        let span = (n - begin_offset - end_offset) as u128;
        let fires = total + separators == span;
        proof {
            assert(fires == exact_fit_applies(counts@, lv0@));
        }
        if fires {
            let required = n - begin_offset - end_offset;
            proof {
                lemma_counts_nonneg_sum(counts@, lv0@);
                lemma_pattern_len(counts@);
            }
            let mut index: usize = begin_offset;
            let mut element_index: usize = 0;
            proof {
                assert(pattern_prefix(counts@, 0) =~= Seq::<CellState>::empty());
                assert(lv0@.take(begin_offset as int) + Seq::<CellState>::empty() + lv0@.skip(
                    begin_offset as int,
                ) =~= lv0@);
                line.frame_refl(*target);
            }
            while element_index < parts_len - 1
                invariant
                    target.inv(),
                    line.lwf(*target),
                    line.frame(*old(target), *target),
                    target.spec_width() == old(target).spec_width(),
                    parts_len == line_description.parts@.len(),
                    parts_len >= 1,
                    counts@ == parts_counts(line_description.parts@),
                    forall|i: int| 0 <= i < counts@.len() ==> counts@[i] >= 0,
                    n == lv0@.len(),
                    lv0@ == line.lview(*old(target)),
                    element_index <= parts_len - 1,
                    begin_offset as int == leading_crossed(lv0@),
                    end_offset as int == trailing_crossed(lv0@),
                    required == n - begin_offset - end_offset,
                    required_span(counts@) == required,
                    index as int == begin_offset + pattern_prefix(
                        counts@,
                        element_index as int,
                    ).len(),
                    index <= n - end_offset,
                    line.lview(*target) == lv0@.take(begin_offset as int) + pattern_prefix(
                        counts@,
                        element_index as int,
                    ) + lv0@.skip(index as int),
                decreases parts_len - 1 - element_index,
            {
                let run_len = line_description.parts[element_index].elements_count;
                proof {
                    assert(counts@[element_index as int] == run_len as int);
                    lemma_pattern_prefix_len(counts@, element_index as int);
                    lemma_pattern_prefix_len(counts@, element_index as int + 1);
                    lemma_pattern_prefix_snoc(counts@, element_index as int);
                    assert(counts@.take(element_index as int).push(counts@[element_index as int])
                        =~= counts@.take(element_index as int + 1));
                    lemma_counts_sum_push(
                        counts@.take(element_index as int),
                        counts@[element_index as int],
                    );
                    // The next run and its separator still fit before the
                    // trailing margin.
                    lemma_prefix_within_required(counts@, element_index as int);
                }
                let run_end = index + run_len;
                let mut i: usize = 0;
                while i < run_len
                    invariant
                        target.inv(),
                        line.lwf(*target),
                        line.frame(*old(target), *target),
                        target.spec_width() == old(target).spec_width(),
                        n == lv0@.len(),
                        lv0@ == line.lview(*old(target)),
                        i <= run_len,
                        run_end == index + run_len,
                        run_end + 1 <= n - end_offset,
                        index as int == begin_offset + pattern_prefix(
                            counts@,
                            element_index as int,
                        ).len(),
                        line.lview(*target) == lv0@.take(begin_offset as int) + pattern_prefix(
                            counts@,
                            element_index as int,
                        ) + filled_run(i as int) + lv0@.skip(index as int + i),
                    decreases run_len - i,
                {
                    let tprev = Ghost(*target);
                    line.set(target, index + i, CellState::Filled);
                    proof {
                        line.frame_trans(*old(target), tprev@, *target);
                        assert(filled_run(i as int).push(CellState::Filled) =~= filled_run(
                            i as int + 1,
                        ));
                        assert(lv0@.skip(index as int + i).drop_first() =~= lv0@.skip(
                            index as int + i + 1,
                        ));
                        assert(line.lview(*target) =~= lv0@.take(begin_offset as int)
                            + pattern_prefix(counts@, element_index as int) + filled_run(
                            i as int + 1,
                        ) + lv0@.skip(index as int + i + 1));
                    }
                    i = i + 1;
                }
                let tprev = Ghost(*target);
                line.set(target, run_end, CellState::Crossed);
                proof {
                    line.frame_trans(*old(target), tprev@, *target);
                    assert(lv0@.skip(run_end as int).drop_first() =~= lv0@.skip(run_end as int + 1));
                    assert(line.lview(*target) =~= lv0@.take(begin_offset as int) + pattern_prefix(
                        counts@,
                        element_index as int + 1,
                    ) + lv0@.skip(run_end as int + 1));
                }
                index = run_end + 1;
                element_index = element_index + 1;
            }
            // The final run, with no trailing separator.
            let run_len = line_description.parts[parts_len - 1].elements_count;
            proof {
                assert(counts@[parts_len - 1] == run_len as int);
                lemma_pattern_prefix_len(counts@, parts_len as int - 1);
                assert(counts@.take(parts_len as int - 1).push(counts@[parts_len as int - 1])
                    =~= counts@);
                lemma_counts_sum_push(counts@.take(parts_len as int - 1), counts@[parts_len as int
                    - 1]);
                assert(index as int + run_len as int == begin_offset + required);
            }
            let mut i: usize = 0;
            while i < run_len
                invariant
                    target.inv(),
                    line.lwf(*target),
                    line.frame(*old(target), *target),
                    target.spec_width() == old(target).spec_width(),
                    n == lv0@.len(),
                    lv0@ == line.lview(*old(target)),
                    i <= run_len,
                    index as int + run_len as int <= n - end_offset,
                    index as int == begin_offset + pattern_prefix(
                        counts@,
                        parts_len as int - 1,
                    ).len(),
                    line.lview(*target) == lv0@.take(begin_offset as int) + pattern_prefix(
                        counts@,
                        parts_len as int - 1,
                    ) + filled_run(i as int) + lv0@.skip(index as int + i),
                decreases run_len - i,
            {
                let tprev = Ghost(*target);
                line.set(target, index + i, CellState::Filled);
                proof {
                    line.frame_trans(*old(target), tprev@, *target);
                    assert(filled_run(i as int).push(CellState::Filled) =~= filled_run(
                        i as int + 1,
                    ));
                    assert(lv0@.skip(index as int + i).drop_first() =~= lv0@.skip(
                        index as int + i + 1,
                    ));
                    assert(line.lview(*target) =~= lv0@.take(begin_offset as int) + pattern_prefix(
                        counts@,
                        parts_len as int - 1,
                    ) + filled_run(i as int + 1) + lv0@.skip(index as int + i + 1));
                }
                i = i + 1;
            }
            proof {
                lemma_pattern_full(counts@);
                assert(counts@.last() == run_len as int);
                assert(line.lview(*target) =~= lv0@.take(begin_offset as int) + exact_fit_pattern(
                    counts@,
                ) + lv0@.skip(begin_offset as int + required_span(counts@)));
                assert(line.lview(*target) == exact_fit_result(counts@, lv0@));
            }
            return true;
        }
        false
    }
}

/// With a nonempty clue whose run lengths all come from a clue line, the
/// pattern's span is nonnegative and bounded as the margins allow.
proof fn lemma_counts_nonneg_sum(counts: Seq<int>, line: Seq<CellState>)
    requires
        forall|i: int| 0 <= i < counts.len() ==> counts[i] >= 0,
    ensures
        counts_sum(counts) >= 0,
        counts.len() >= 1 ==> required_span(counts) >= 0,
{
    lemma_counts_sum_nonneg(counts);
}

/// The leading and trailing crossed margins are between zero and the
/// line's length.
proof fn lemma_leading_trailing_bounds(line: Seq<CellState>)
    ensures
        0 <= leading_crossed(line) <= line.len(),
        0 <= trailing_crossed(line) <= line.len(),
    decreases line.len(),
{
    if line.len() != 0 {
        lemma_leading_trailing_bounds(line.drop_first());
        lemma_leading_trailing_bounds(line.drop_last());
    }
}

/// The first `e + 1` runs with their separators never exceed the required
/// span of the whole clue.
proof fn lemma_prefix_within_required(counts: Seq<int>, e: int)
    requires
        0 <= e < counts.len() - 1,
        forall|i: int| 0 <= i < counts.len() ==> counts[i] >= 0,
    ensures
        pattern_prefix(counts, e).len() + counts[e] + 1 <= required_span(counts),
{
    lemma_pattern_prefix_len(counts, e);
    assert(counts.take(e).push(counts[e]) =~= counts.take(e + 1));
    lemma_counts_sum_push(counts.take(e), counts[e]);
    // The rest of the clue still owes at least the remaining runs.
    lemma_counts_split(counts, e + 1);
    assert forall|i: int| 0 <= i < counts.skip(e + 1).len() implies (#[trigger] counts.skip(
        e + 1,
    )[i]) >= 0 by {
        assert(counts.skip(e + 1)[i] == counts[e + 1 + i]);
    }
    lemma_counts_sum_nonneg(counts.skip(e + 1));
}

/// A clue's sum splits at any point.
proof fn lemma_counts_split(counts: Seq<int>, k: int)
    requires
        0 <= k <= counts.len(),
    ensures
        counts_sum(counts) == counts_sum(counts.take(k)) + counts_sum(counts.skip(k)),
    decreases k,
{
    if k == 0 {
        assert(counts.take(0) =~= Seq::<int>::empty());
        assert(counts.skip(0) =~= counts);
    } else {
        lemma_counts_split(counts, k - 1);
        assert(counts.take(k - 1).push(counts[k - 1]) =~= counts.take(k));
        lemma_counts_sum_push(counts.take(k - 1), counts[k - 1]);
        assert(counts.skip(k - 1).drop_first() =~= counts.skip(k));
        assert(counts.skip(k - 1)[0] == counts[k - 1]);
    }
}

} // verus!
