use vstd::prelude::*;

use crate::grid::as_ints;

verus! {

/// The raw shape of a level file: one ordered list of run lengths per row
/// and one per column.
#[derive(Debug)]
pub struct LevelDescriptionTemplate {
    pub rows: Vec<Vec<usize>>,
    pub cols: Vec<Vec<usize>>,
}

/// One run of a clue line: its length, and whether the line currently
/// satisfies its clue (the completion flag is shared by all parts of a
/// line).
#[derive(Clone, Copy, PartialEq, Eq, Structural, Debug)]
pub struct LineDescriptionPart {
    pub elements_count: usize,
    pub is_completed: bool,
}

/// The ordered run lengths a single row or column must satisfy.
#[derive(Debug)]
pub struct LineDescription {
    pub parts: Vec<LineDescriptionPart>,
}

/// The clue model: one clue line per row and one per column.
#[derive(Debug)]
pub struct LevelDescription {
    pub rows: Vec<LineDescription>,
    pub cols: Vec<LineDescription>,
}

/// The run lengths of a clue line, independent of its completion flags.
pub open spec fn parts_counts(parts: Seq<LineDescriptionPart>) -> Seq<int> {
    parts.map_values(|p: LineDescriptionPart| p.elements_count as int)
}

/// Every part of the clue line is marked completed.
pub open spec fn parts_all_completed(parts: Seq<LineDescriptionPart>) -> bool {
    forall|j: int| 0 <= j < parts.len() ==> (#[trigger] parts[j]).is_completed
}

impl LineDescription {
    /// Some part of this clue line is not yet marked completed.
    pub open spec fn spec_has_incomplete(&self) -> bool {
        !parts_all_completed(self.parts@)
    }

    /// Whether any part of this clue line is not yet marked completed.
    pub fn has_incomplete(&self) -> (r: bool)
        ensures
            r == self.spec_has_incomplete(),
    {
        let mut j: usize = 0;
        while j < self.parts.len()
            invariant
                j <= self.parts@.len(),
                forall|k: int| 0 <= k < j ==> (#[trigger] self.parts@[k]).is_completed,
            decreases self.parts@.len() - j,
        {
            if !self.parts[j].is_completed {
                return true;
            }
            j = j + 1;
        }
        false
    }
}

impl LevelDescription {
    /// Every clue line of the model has at least one part; the solving
    /// strategy and the scheduler assume as much.
    pub open spec fn lines_nonempty(&self) -> bool {
        &&& forall|i: int| 0 <= i < self.rows@.len() ==> (#[trigger] self.rows@[i]).parts@.len() >= 1
        &&& forall|i: int| 0 <= i < self.cols@.len() ==> (#[trigger] self.cols@[i]).parts@.len() >= 1
    }

    /// The ordered run lengths of row `row_id`, independent of completion
    /// flags.
    pub fn row_to_line_description(&self, row_id: usize) -> (r: Vec<usize>)
        requires
            row_id < self.rows@.len(),
        ensures
            as_ints(r@) == parts_counts(self.rows@[row_id as int].parts@),
    {
        let parts = &self.rows[row_id].parts;
        let mut r: Vec<usize> = Vec::new();
        let mut j: usize = 0;
        while j < parts.len()
            invariant
                j <= parts@.len(),
                r@.len() == j,
                forall|k: int| 0 <= k < j ==> r@[k] == (#[trigger] parts@[k]).elements_count,
            decreases parts@.len() - j,
        {
            r.push(parts[j].elements_count);
            j = j + 1;
        }
        proof {
            assert(as_ints(r@) =~= parts_counts(parts@));
        }
        r
    }

    /// The ordered run lengths of column `col_id`, independent of completion
    /// flags.
    pub fn col_to_line_description(&self, col_id: usize) -> (r: Vec<usize>)
        requires
            col_id < self.cols@.len(),
        ensures
            as_ints(r@) == parts_counts(self.cols@[col_id as int].parts@),
    {
        let parts = &self.cols[col_id].parts;
        let mut r: Vec<usize> = Vec::new();
        let mut j: usize = 0;
        while j < parts.len()
            invariant
                j <= parts@.len(),
                r@.len() == j,
                forall|k: int| 0 <= k < j ==> r@[k] == (#[trigger] parts@[k]).elements_count,
            decreases parts@.len() - j,
        {
            r.push(parts[j].elements_count);
            j = j + 1;
        }
        proof {
            assert(as_ints(r@) =~= parts_counts(parts@));
        }
        r
    }

    /// Every part of every row clue and every column clue is completed.
    pub open spec fn spec_is_done(&self) -> bool {
        &&& forall|i: int|
            0 <= i < self.rows@.len() ==> parts_all_completed((#[trigger] self.rows@[i]).parts@)
        &&& forall|i: int|
            0 <= i < self.cols@.len() ==> parts_all_completed((#[trigger] self.cols@[i]).parts@)
    }

    /// True exactly when every clue part of every row and every column is
    /// marked completed.
    pub fn is_done(&self) -> (r: bool)
        ensures
            r == self.spec_is_done(),
    {
        let mut i: usize = 0;
        while i < self.rows.len()
            invariant
                i <= self.rows@.len(),
                forall|k: int| 0 <= k < i ==> parts_all_completed((#[trigger] self.rows@[k]).parts@),
            decreases self.rows@.len() - i,
        {
            if self.rows[i].has_incomplete() {
                return false;
            }
            i = i + 1;
        }
        let mut i: usize = 0;
        while i < self.cols.len()
            invariant
                i <= self.cols@.len(),
                forall|k: int| 0 <= k < i ==> parts_all_completed((#[trigger] self.cols@[k]).parts@),
            decreases self.cols@.len() - i,
        {
            if self.cols[i].has_incomplete() {
                return false;
            }
            i = i + 1;
        }
        true
    }
}

impl LevelDescriptionTemplate {
    /// Whether every line of the template is usable: at least one run per
    /// line, and no run of length zero. A template that fails this check is
    /// malformed and must be rejected at startup.
    pub fn is_well_formed(&self) -> (r: bool)
        ensures
            r == self.spec_well_formed(),
    {
        let ok_rows = template_lines_well_formed(&self.rows);
        let ok_cols = template_lines_well_formed(&self.cols);
        ok_rows && ok_cols
    }

    /// Every line has at least one run and every run length is positive.
    pub open spec fn spec_well_formed(&self) -> bool {
        template_lines_wf(self.rows@) && template_lines_wf(self.cols@)
    }

    /// Build the clue model: one part per run length, every completion flag
    /// initially false.
    pub fn to_level_description(&self) -> (lvl: LevelDescription)
        ensures
            lvl.rows@.len() == self.rows@.len(),
            lvl.cols@.len() == self.cols@.len(),
            forall|i: int|
                0 <= i < self.rows@.len() ==> fresh_line_matches(
                    (#[trigger] lvl.rows@[i]).parts@,
                    self.rows@[i]@,
                ),
            forall|i: int|
                0 <= i < self.cols@.len() ==> fresh_line_matches(
                    (#[trigger] lvl.cols@[i]).parts@,
                    self.cols@[i]@,
                ),
    {
        let rows = template_lines_to_descriptions(&self.rows);
        let cols = template_lines_to_descriptions(&self.cols);
        LevelDescription { rows, cols }
    }
}

/// Every line of the template has at least one run and only positive run
/// lengths.
pub open spec fn template_lines_wf(lines: Seq<Vec<usize>>) -> bool {
    forall|i: int|
        0 <= i < lines.len() ==> (#[trigger] lines[i])@.len() >= 1 && forall|j: int|
            0 <= j < lines[i]@.len() ==> (#[trigger] lines[i]@[j]) >= 1
}

/// The parts carry exactly the template's run lengths, all flags false.
pub open spec fn fresh_line_matches(parts: Seq<LineDescriptionPart>, counts: Seq<usize>) -> bool {
    parts.len() == counts.len() && forall|j: int|
        0 <= j < parts.len() ==> (#[trigger] parts[j]).elements_count == counts[j]
            && !parts[j].is_completed
}

fn template_lines_well_formed(lines: &Vec<Vec<usize>>) -> (r: bool)
    ensures
        r == template_lines_wf(lines@),
{
    let mut i: usize = 0;
    while i < lines.len()
        invariant
            i <= lines@.len(),
            forall|k: int|
                0 <= k < i ==> (#[trigger] lines@[k])@.len() >= 1 && forall|j: int|
                    0 <= j < lines@[k]@.len() ==> (#[trigger] lines@[k]@[j]) >= 1,
        decreases lines@.len() - i,
    {
        let line = &lines[i];
        if line.len() == 0 {
            proof {
                assert((#[trigger] lines@[i as int])@.len() == 0);
            }
            return false;
        }
        let mut j: usize = 0;
        while j < line.len()
            invariant
                i < lines@.len(),
                j <= line@.len(),
                line@ == lines@[i as int]@,
                forall|k: int| 0 <= k < j ==> (#[trigger] line@[k]) >= 1,
            decreases line@.len() - j,
        {
            if line[j] == 0 {
                proof {
                    if template_lines_wf(lines@) {
                        assert((#[trigger] lines@[i as int])@.len() >= 1);
                        assert(lines@[i as int]@[j as int] >= 1);
                    }
                }
                return false;
            }
            j = j + 1;
        }
        i = i + 1;
    }
    true
}

fn template_lines_to_descriptions(lines: &Vec<Vec<usize>>) -> (r: Vec<LineDescription>)
    ensures
        r@.len() == lines@.len(),
        forall|i: int|
            0 <= i < lines@.len() ==> fresh_line_matches((#[trigger] r@[i]).parts@, lines@[i]@),
{
    let mut r: Vec<LineDescription> = Vec::new();
    let mut i: usize = 0;
    while i < lines.len()
        invariant
            i <= lines@.len(),
            r@.len() == i,
            forall|k: int|
                0 <= k < i ==> fresh_line_matches((#[trigger] r@[k]).parts@, lines@[k]@),
        decreases lines@.len() - i,
    {
        let line = &lines[i];
        let mut parts: Vec<LineDescriptionPart> = Vec::new();
        let mut j: usize = 0;
        while j < line.len()
            invariant
                j <= line@.len(),
                line@ == lines@[i as int]@,
                parts@.len() == j,
                forall|k: int|
                    0 <= k < j ==> (#[trigger] parts@[k]).elements_count == line@[k]
                        && !parts@[k].is_completed,
            decreases line@.len() - j,
        {
            parts.push(LineDescriptionPart { elements_count: line[j], is_completed: false });
            j = j + 1;
        }
        r.push(LineDescription { parts });
        i = i + 1;
    }
    r
}

} // verus!
