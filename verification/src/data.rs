use vstd::prelude::*;

use crate::error::Error;
use crate::fill::Fill;
use crate::constraints::{blanks_match, constraints_match};
use crate::puzzle::Puzzle;
use crate::rule::{spec_min_len, spec_runs_valid, Rule};
use crate::rules::Rules;
use crate::run::Run;

verus! {

/// One palette entry: red, green and blue.
#[derive(Clone, Copy, PartialEq, Eq, Structural, Debug)]
pub struct Color {
    pub r: u8,
    pub g: u8,
    pub b: u8,
}

/// One clue segment as a puzzle description carries it: a numeric fill
/// (0 would be blank and is invalid in a run) and a length.
#[derive(Clone, Copy, PartialEq, Eq, Structural, Debug)]
pub struct RawRun {
    pub fill: u16,
    pub count: u16,
}

/// A puzzle description as its on-disk form carries it: palette,
/// dimensions, per-line clues, and an optional pre-filled grid given
/// row by row (0 = blank, any other value = that color id).
pub struct PuzzleData {
    pub colors: Vec<Color>,
    pub rows: u16,
    pub cols: u16,
    pub row_rules: Vec<Vec<RawRun>>,
    pub col_rules: Vec<Vec<RawRun>>,
    pub puzzle: Vec<Vec<u16>>,
}

/// The runs a sequence of raw clue segments describes.
pub open spec fn spec_raw_runs(raw: Seq<RawRun>) -> Seq<Run> {
    Seq::new(raw.len(), |k: int| Run { fill: Fill::spec_from_id(raw[k].fill), count: raw[k].count })
}

/// One line's raw clue is well-formed and fits its line.
pub open spec fn raw_line_ok(raw: Seq<RawRun>, line_len: u16) -> bool {
    &&& spec_runs_valid(spec_raw_runs(raw))
    &&& spec_min_len(spec_raw_runs(raw)) <= line_len
}

/// The pre-filled grid rows laid out as one flat sequence, row-major.
pub open spec fn spec_flat(pz: Seq<Vec<u16>>) -> Seq<u16>
    decreases pz.len(),
{
    if pz.len() == 0 {
        Seq::<u16>::empty()
    } else {
        spec_flat(pz.drop_last()) + pz.last()@
    }
}

/// The fills the numeric cell values denote.
pub open spec fn spec_fills(vals: Seq<u16>) -> Seq<Fill> {
    Seq::new(vals.len(), |k: int| Fill::spec_from_id(vals[k]))
}

/// The description's sizes agree with its dimensions: the pre-filled
/// grid (when given) holds a value per cell, and there is one clue per
/// row and one per column.
pub open spec fn spec_sizes_ok(data: PuzzleData) -> bool {
    &&& data.puzzle@.len() == 0 || spec_flat(data.puzzle@).len() == data.rows * data.cols
    &&& data.row_rules@.len() == data.rows
    &&& data.col_rules@.len() == data.cols
}

/// The whole description is loadable: positive dimensions, agreeing
/// sizes, and every clue well-formed and feasible for its line.
pub open spec fn spec_data_ok(data: PuzzleData) -> bool {
    &&& data.rows >= 1
    &&& data.cols >= 1
    &&& spec_sizes_ok(data)
    &&& forall|i: int|
        0 <= i < data.row_rules@.len() ==> raw_line_ok((#[trigger] data.row_rules@[i])@, data.cols)
    &&& forall|j: int|
        0 <= j < data.col_rules@.len() ==> raw_line_ok((#[trigger] data.col_rules@[j])@, data.rows)
}

/// Splitting off the last grid row splits the flat sequence.
proof fn lemma_flat_take(pz: Seq<Vec<u16>>, i: int)
    requires
        0 <= i < pz.len(),
    ensures
        spec_flat(pz.take(i + 1)) == spec_flat(pz.take(i)) + pz[i]@,
{
    let ext = pz.take(i + 1);
    assert(ext.drop_last() =~= pz.take(i));
    assert(ext.last() == pz[i]);
}

impl PuzzleData {
    /// Turns a validated description into the grid, the rules with
    /// their forced-cell masks derived against that grid, and the
    /// palette. Rejects zero dimensions, cell or clue counts that do
    /// not match the dimensions, malformed runs, and clues that cannot
    /// fit their line.
    #[verifier::loop_isolation(false)]
    pub fn build(self) -> (result: Result<(Puzzle, Rules, Vec<Color>), Error>)
        ensures
            result == Result::<(Puzzle, Rules, Vec<Color>), Error>::Err(Error::InvalidDimensions)
                <==> self.rows == 0 || self.cols == 0,
            result == Result::<(Puzzle, Rules, Vec<Color>), Error>::Err(Error::SizeMismatch) <==> (
            self.rows >= 1 && self.cols >= 1 && !spec_sizes_ok(self)),
            result is Ok <==> spec_data_ok(self),
            result == Result::<(Puzzle, Rules, Vec<Color>), Error>::Err(Error::InvalidRun)
                ==> (exists|i: int|
                0 <= i < self.row_rules@.len() && !spec_runs_valid(spec_raw_runs(
                    (#[trigger] self.row_rules@[i])@,
                ))) || (exists|j: int|
                0 <= j < self.col_rules@.len() && !spec_runs_valid(spec_raw_runs(
                    (#[trigger] self.col_rules@[j])@,
                ))),
            result == Result::<(Puzzle, Rules, Vec<Color>), Error>::Err(Error::InfeasibleRule)
                ==> (exists|i: int|
                0 <= i < self.row_rules@.len() && spec_min_len(spec_raw_runs(
                    (#[trigger] self.row_rules@[i])@,
                )) > self.cols) || (exists|j: int|
                0 <= j < self.col_rules@.len() && spec_min_len(spec_raw_runs(
                    (#[trigger] self.col_rules@[j])@,
                )) > self.rows),
            result matches Ok((puzzle, rules, colors)) ==> {
                &&& puzzle.wf()
                &&& puzzle.rows == self.rows
                &&& puzzle.cols == self.cols
                &&& (self.puzzle@.len() == 0 ==> forall|k: int|
                    0 <= k < puzzle.cells@.len() ==> puzzle.cells@[k] == Fill::Blank)
                &&& (self.puzzle@.len() > 0 ==> puzzle.cells@ == spec_fills(
                    spec_flat(self.puzzle@),
                ))
                &&& rules.wf_for(self.rows, self.cols)
                &&& (forall|i: int|
                    0 <= i < self.rows ==> (#[trigger] rules.rows@[i]).runs@ == spec_raw_runs(
                        self.row_rules@[i]@,
                    ) && rules.rows@[i].line_len == self.cols && constraints_match(
                        rules.rows@[i].constraints@,
                        rules.rows@[i].runs@,
                        puzzle.spec_row(i),
                    ) && blanks_match(
                        rules.rows@[i].blanks@,
                        rules.rows@[i].runs@,
                        puzzle.spec_row(i),
                    ))
                &&& (forall|j: int|
                    0 <= j < self.cols ==> (#[trigger] rules.cols@[j]).runs@ == spec_raw_runs(
                        self.col_rules@[j]@,
                    ) && rules.cols@[j].line_len == self.rows && constraints_match(
                        rules.cols@[j].constraints@,
                        rules.cols@[j].runs@,
                        puzzle.spec_col(j),
                    ) && blanks_match(
                        rules.cols@[j].blanks@,
                        rules.cols@[j].runs@,
                        puzzle.spec_col(j),
                    ))
                &&& colors == self.colors
            },
    {
        let rows = self.rows;
        let cols = self.cols;
        let npz = self.puzzle.len();
        let puzzle = if npz == 0 {
            match Puzzle::empty(rows, cols) {
                Ok(p) => p,
                Err(e) => {
                    return Err(e);
                },
            }
        } else {
            let mut cells: Vec<Fill> = Vec::new();
            let mut i: usize = 0;
            while i < npz
                invariant
                    i <= npz,
                    cells@ == spec_fills(spec_flat(self.puzzle@.take(i as int))),
                decreases npz - i,
            {
                let row = &self.puzzle[i];
                let rlen = row.len();
                let mut t: usize = 0;
                while t < rlen
                    invariant
                        t <= rlen,
                        cells@ == spec_fills(spec_flat(self.puzzle@.take(i as int)) + row@.take(t as int)),
                    decreases rlen - t,
                {
                    cells.push(Fill::from_id(row[t]));
                    proof {
                        let pre = spec_flat(self.puzzle@.take(i as int));
                        assert(pre + row@.take(t + 1) =~= (pre + row@.take(t as int)).push(
                            row@[t as int],
                        ));
                        assert(cells@ =~= spec_fills(pre + row@.take(t + 1)));
                    }
                    t += 1;
                }
                proof {
                    lemma_flat_take(self.puzzle@, i as int);
                    assert(row@.take(rlen as int) =~= row@);
                }
                i += 1;
            }
            proof {
                assert(self.puzzle@.take(npz as int) =~= self.puzzle@);
            }
            match Puzzle::new(rows, cols, cells) {
                Ok(p) => p,
                Err(e) => {
                    return Err(e);
                },
            }
        };
        if self.row_rules.len() != rows as usize || self.col_rules.len() != cols as usize {
            return Err(Error::SizeMismatch);
        }
        let mut row_rules: Vec<Rule> = Vec::new();
        let mut i: usize = 0;
        while i < rows as usize
            invariant
                i <= rows,
                row_rules@.len() == i,
                forall|k: int|
                    0 <= k < i ==> (#[trigger] row_rules@[k]).runs@ == spec_raw_runs(
                        self.row_rules@[k]@,
                    ) && row_rules@[k].line_len == cols && row_rules@[k].wf(),
                forall|k: int| 0 <= k < i ==> raw_line_ok((#[trigger] self.row_rules@[k])@, cols),
            decreases rows - i,
        {
            let raw = &self.row_rules[i];
            let nraw = raw.len();
            let mut runs: Vec<Run> = Vec::new();
            let mut t: usize = 0;
            while t < nraw
                invariant
                    t <= nraw,
                    runs@.len() == t,
                    forall|k: int| 0 <= k < t ==> runs@[k] == spec_raw_runs(raw@)[k],
                decreases nraw - t,
            {
                match Run::new(Fill::from_id(raw[t].fill), raw[t].count) {
                    Ok(run) => {
                        runs.push(run);
                    },
                    Err(e) => {
                        proof {
                            assert(!spec_raw_runs(raw@)[t as int].spec_valid());
                            assert(!spec_runs_valid(spec_raw_runs(self.row_rules@[i as int]@)));
                        }
                        return Err(e);
                    },
                }
                t += 1;
            }
            proof {
                assert(runs@ =~= spec_raw_runs(raw@));
            }
            match Rule::new(runs, cols) {
                Ok(rule) => {
                    row_rules.push(rule);
                },
                Err(e) => {
                    return Err(e);
                },
            }
            i += 1;
        }
        let mut col_rules: Vec<Rule> = Vec::new();
        let mut j: usize = 0;
        while j < cols as usize
            invariant
                j <= cols,
                col_rules@.len() == j,
                forall|k: int|
                    0 <= k < j ==> (#[trigger] col_rules@[k]).runs@ == spec_raw_runs(
                        self.col_rules@[k]@,
                    ) && col_rules@[k].line_len == rows && col_rules@[k].wf(),
                forall|k: int| 0 <= k < j ==> raw_line_ok((#[trigger] self.col_rules@[k])@, rows),
            decreases cols - j,
        {
            let raw = &self.col_rules[j];
            let nraw = raw.len();
            let mut runs: Vec<Run> = Vec::new();
            let mut t: usize = 0;
            while t < nraw
                invariant
                    t <= nraw,
                    runs@.len() == t,
                    forall|k: int| 0 <= k < t ==> runs@[k] == spec_raw_runs(raw@)[k],
                decreases nraw - t,
            {
                match Run::new(Fill::from_id(raw[t].fill), raw[t].count) {
                    Ok(run) => {
                        runs.push(run);
                    },
                    Err(e) => {
                        proof {
                            assert(!spec_raw_runs(raw@)[t as int].spec_valid());
                            assert(!spec_runs_valid(spec_raw_runs(self.col_rules@[j as int]@)));
                        }
                        return Err(e);
                    },
                }
                t += 1;
            }
            proof {
                assert(runs@ =~= spec_raw_runs(raw@));
            }
            match Rule::new(runs, rows) {
                Ok(rule) => {
                    col_rules.push(rule);
                },
                Err(e) => {
                    return Err(e);
                },
            }
            j += 1;
        }
        let mut rules = Rules::new(row_rules, col_rules);
        rules.generate_masks(&puzzle);
        Ok((puzzle, rules, self.colors))
    }
}

} // verus!
