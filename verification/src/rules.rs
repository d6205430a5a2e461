use vstd::prelude::*;

use crate::constraints::{blanks_match, constraints_match};
use crate::fill::Fill;
use crate::puzzle::{lemma_flat_index, Puzzle};
use crate::rule::{spec_extract_runs, Rule};

verus! {

/// The clues of a whole puzzle: one rule per row and one per column.
pub struct Rules {
    pub rows: Vec<Rule>,
    pub cols: Vec<Rule>,
}

impl Rules {
    /// Rules that fit a grid of the given dimensions: one well-formed
    /// rule per line, each sized to the line it describes.
    pub open spec fn wf_for(&self, rows: u16, cols: u16) -> bool {
        &&& self.rows@.len() == rows
        &&& self.cols@.len() == cols
        &&& forall|i: int|
            0 <= i < rows ==> (#[trigger] self.rows@[i]).wf() && self.rows@[i].line_len == cols
        &&& forall|j: int|
            0 <= j < cols ==> (#[trigger] self.cols@[j]).wf() && self.cols@[j].line_len == rows
    }

    pub fn new(rows: Vec<Rule>, cols: Vec<Rule>) -> (rules: Rules)
        ensures
            rules.rows == rows,
            rules.cols == cols,
    {
        Rules { rows, cols }
    }

    /// Derives the clues an already-filled grid satisfies: each line's
    /// rule is read off the runs its cells currently form.
    pub fn from_puzzle(puzzle: &Puzzle) -> (rules: Rules)
        requires
            puzzle.wf(),
        ensures
            rules.wf_for(puzzle.rows, puzzle.cols),
            forall|i: int|
                0 <= i < puzzle.rows ==> (#[trigger] rules.rows@[i]).runs@ == spec_extract_runs(
                    puzzle.spec_row(i),
                ) && rules.rows@[i].line_len == puzzle.cols && rules.rows@[
                    i
                ].constraints@.len() == 0,
            forall|j: int|
                0 <= j < puzzle.cols ==> (#[trigger] rules.cols@[j]).runs@ == spec_extract_runs(
                    puzzle.spec_col(j),
                ) && rules.cols@[j].line_len == puzzle.rows && rules.cols@[
                    j
                ].constraints@.len() == 0,
    {
        proof {
            lemma_cells_valid(puzzle);
        }
        let mut rows: Vec<Rule> = Vec::new();
        let mut i: u16 = 0;
        while i < puzzle.rows
            invariant
                puzzle.wf(),
                0 <= i <= puzzle.rows,
                rows@.len() == i,
                forall|k: int|
                    0 <= k < i ==> (#[trigger] rows@[k]).runs@ == spec_extract_runs(
                        puzzle.spec_row(k),
                    ) && rows@[k].line_len == puzzle.cols && rows@[k].constraints@.len() == 0
                        && rows@[k].wf(),
            decreases puzzle.rows - i,
        {
            let fills = puzzle.row(i);
            proof {
                lemma_cells_valid(puzzle);
            }
            rows.push(Rule::from_fills(&fills));
            i += 1;
        }
        let mut cols: Vec<Rule> = Vec::new();
        let mut j: u16 = 0;
        while j < puzzle.cols
            invariant
                puzzle.wf(),
                0 <= j <= puzzle.cols,
                cols@.len() == j,
                forall|k: int|
                    0 <= k < j ==> (#[trigger] cols@[k]).runs@ == spec_extract_runs(
                        puzzle.spec_col(k),
                    ) && cols@[k].line_len == puzzle.rows && cols@[k].constraints@.len() == 0
                        && cols@[k].wf(),
            decreases puzzle.cols - j,
        {
            let fills = puzzle.col(j);
            proof {
                lemma_cells_valid(puzzle);
            }
            cols.push(Rule::from_fills(&fills));
            j += 1;
        }
        Rules { rows, cols }
    }

    /// The rule of one row.
    pub fn row(&self, r: u16) -> (rule: &Rule)
        requires
            r < self.rows@.len(),
        ensures
            rule == &self.rows@[r as int],
    {
        &self.rows[r as usize]
    }

    /// The rule of one column.
    pub fn col(&self, c: u16) -> (rule: &Rule)
        requires
            c < self.cols@.len(),
        ensures
            rule == &self.cols@[c as int],
    {
        &self.cols[c as usize]
    }

    /// Recomputes every rule's forced-cell masks against the grid's
    /// current contents.
    #[verifier::loop_isolation(false)]
    pub fn generate_masks(&mut self, puzzle: &Puzzle)
        requires
            puzzle.wf(),
            old(self).wf_for(puzzle.rows, puzzle.cols),
        ensures
            final(self).wf_for(puzzle.rows, puzzle.cols),
            forall|i: int|
                0 <= i < puzzle.rows ==> (#[trigger] final(self).rows@[i]).runs == old(
                    self,
                ).rows@[i].runs && final(self).rows@[i].line_len == old(self).rows@[i].line_len
                    && constraints_match(
                    final(self).rows@[i].constraints@,
                    final(self).rows@[i].runs@,
                    puzzle.spec_row(i),
                ) && blanks_match(
                    final(self).rows@[i].blanks@,
                    final(self).rows@[i].runs@,
                    puzzle.spec_row(i),
                ),
            forall|j: int|
                0 <= j < puzzle.cols ==> (#[trigger] final(self).cols@[j]).runs == old(
                    self,
                ).cols@[j].runs && final(self).cols@[j].line_len == old(self).cols@[j].line_len
                    && constraints_match(
                    final(self).cols@[j].constraints@,
                    final(self).cols@[j].runs@,
                    puzzle.spec_col(j),
                ) && blanks_match(
                    final(self).cols@[j].blanks@,
                    final(self).cols@[j].runs@,
                    puzzle.spec_col(j),
                ),
    {
        let nrows = puzzle.rows();
        let mut i: u16 = 0;
        while i < nrows
            invariant
                0 <= i <= nrows,
                self.rows@.len() == nrows,
                self.cols@ == old(self).cols@,
                forall|k: int| i <= k < nrows ==> self.rows@[k] == old(self).rows@[k],
                forall|k: int|
                    0 <= k < i ==> (#[trigger] self.rows@[k]).runs == old(self).rows@[k].runs
                        && self.rows@[k].line_len == old(self).rows@[k].line_len
                        && self.rows@[k].wf() && constraints_match(
                        self.rows@[k].constraints@,
                        self.rows@[k].runs@,
                        puzzle.spec_row(k),
                    ) && blanks_match(
                        self.rows@[k].blanks@,
                        self.rows@[k].runs@,
                        puzzle.spec_row(k),
                    ),
            decreases nrows - i,
        {
            let fills = puzzle.row(i);
            let rule = &mut self.rows[i as usize];
            rule.generate_constraints(&fills);
            i += 1;
        }
        let ncols = puzzle.cols();
        let mut j: u16 = 0;
        while j < ncols
            invariant
                0 <= j <= ncols,
                self.cols@.len() == ncols,
                self.rows@.len() == nrows,
                forall|k: int|
                    0 <= k < nrows ==> (#[trigger] self.rows@[k]).runs == old(self).rows@[k].runs
                        && self.rows@[k].line_len == old(self).rows@[k].line_len
                        && self.rows@[k].wf() && constraints_match(
                        self.rows@[k].constraints@,
                        self.rows@[k].runs@,
                        puzzle.spec_row(k),
                    ) && blanks_match(
                        self.rows@[k].blanks@,
                        self.rows@[k].runs@,
                        puzzle.spec_row(k),
                    ),
                forall|k: int| j <= k < ncols ==> self.cols@[k] == old(self).cols@[k],
                forall|k: int|
                    0 <= k < j ==> (#[trigger] self.cols@[k]).runs == old(self).cols@[k].runs
                        && self.cols@[k].line_len == old(self).cols@[k].line_len
                        && self.cols@[k].wf() && constraints_match(
                        self.cols@[k].constraints@,
                        self.cols@[k].runs@,
                        puzzle.spec_col(k),
                    ) && blanks_match(
                        self.cols@[k].blanks@,
                        self.cols@[k].runs@,
                        puzzle.spec_col(k),
                    ),
            decreases ncols - j,
        {
            let fills = puzzle.col(j);
            let rule = &mut self.cols[j as usize];
            rule.generate_constraints(&fills);
            j += 1;
        }
    }
}

/// Every cell a well-formed grid hands out through a row or column view
/// is a valid fill.
pub proof fn lemma_cells_valid(puzzle: &Puzzle)
    requires
        puzzle.wf(),
    ensures
        forall|i: int, c: int|
            0 <= i < puzzle.rows && 0 <= c < puzzle.cols ==> (#[trigger] puzzle.spec_row(
                i,
            )[c]).spec_valid(),
        forall|j: int, r: int|
            0 <= j < puzzle.cols && 0 <= r < puzzle.rows ==> (#[trigger] puzzle.spec_col(
                j,
            )[r]).spec_valid(),
{
    assert forall|i: int, c: int|
        0 <= i < puzzle.rows && 0 <= c < puzzle.cols implies (#[trigger] puzzle.spec_row(
        i,
    )[c]).spec_valid() by {
        lemma_flat_index(puzzle.rows as int, puzzle.cols as int, i, c);
    }
    assert forall|j: int, r: int|
        0 <= j < puzzle.cols && 0 <= r < puzzle.rows implies (#[trigger] puzzle.spec_col(
        j,
    )[r]).spec_valid() by {
        lemma_flat_index(puzzle.rows as int, puzzle.cols as int, r, j);
    }
}

} // verus!
