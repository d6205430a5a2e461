use vstd::prelude::*;

use crate::axis::Line;
use crate::constraints::{can_end, fit_backwards};
use crate::error::Error;
use crate::fill::Fill;
use crate::pos::Position;
use crate::rule::{extract_runs, lemma_min_len_ge_len, spec_extract_runs, Rule};
use crate::run::Run;

verus! {

/// An in-bounds coordinate maps to an in-bounds flat index.
pub proof fn lemma_flat_index(rows: int, cols: int, r: int, c: int)
    requires
        0 <= r < rows,
        0 <= c < cols,
        rows <= u16::MAX,
        cols <= u16::MAX,
    ensures
        0 <= r * cols + c < rows * cols,
        rows * cols <= 0xffff_0001fffe,
        rows * cols <= u16::MAX * u16::MAX,
{
    assert(r * cols + c < rows * cols) by (nonlinear_arith)
        requires
            0 <= r < rows,
            0 <= c < cols,
    ;
    assert(r * cols + c >= 0) by (nonlinear_arith)
        requires
            0 <= r,
            0 <= c,
            0 < cols,
    ;
    assert(rows * cols <= u16::MAX * u16::MAX) by (nonlinear_arith)
        requires
            0 < rows <= u16::MAX,
            0 < cols <= u16::MAX,
    ;
}

/// A grid never holds more cells than the largest dimensions allow.
pub proof fn lemma_grid_size(rows: int, cols: int)
    requires
        0 <= rows <= u16::MAX,
        0 <= cols <= u16::MAX,
    ensures
        0 <= rows * cols <= u16::MAX * u16::MAX,
{
    assert(0 <= rows * cols <= u16::MAX * u16::MAX) by (nonlinear_arith)
        requires
            0 <= rows <= u16::MAX,
            0 <= cols <= u16::MAX,
    ;
}

/// Distinct in-bounds coordinates map to distinct flat indices.
pub proof fn lemma_flat_index_injective(cols: int, r1: int, c1: int, r2: int, c2: int)
    requires
        0 <= r1,
        0 <= c1 < cols,
        0 <= r2,
        0 <= c2 < cols,
        (r1, c1) != (r2, c2),
    ensures
        r1 * cols + c1 != r2 * cols + c2,
{
    assert(r1 * cols + c1 != r2 * cols + c2) by (nonlinear_arith)
        requires
            0 <= r1,
            0 <= c1 < cols,
            0 <= r2,
            0 <= c2 < cols,
            (r1, c1) != (r2, c2),
    ;
}

/// The 2-D cell store: `rows` by `cols` fills kept in one flat vector,
/// row-major.
pub struct Puzzle {
    pub rows: u16,
    pub cols: u16,
    pub cells: Vec<Fill>,
}

impl Puzzle {
    /// Well-formed grid: at least one row and column, a cell for every
    /// coordinate, and only valid fills.
    pub open spec fn wf(&self) -> bool {
        &&& self.rows >= 1
        &&& self.cols >= 1
        &&& self.cells@.len() == self.rows * self.cols
        &&& forall|i: int| 0 <= i < self.cells@.len() ==> self.cells@[i].spec_valid()
    }

    /// The flat index of a coordinate.
    pub open spec fn cell_index(&self, row: int, col: int) -> int {
        row * self.cols + col
    }

    /// The fill stored at a coordinate.
    pub open spec fn spec_cell(&self, row: int, col: int) -> Fill {
        self.cells@[self.cell_index(row, col)]
    }

    /// The fills of one row, left to right.
    pub open spec fn spec_row(&self, row: int) -> Seq<Fill> {
        Seq::new(self.cols as nat, |c: int| self.spec_cell(row, c))
    }

    /// The fills of one column, top to bottom.
    pub open spec fn spec_col(&self, col: int) -> Seq<Fill> {
        Seq::new(self.rows as nat, |r: int| self.spec_cell(r, col))
    }

    /// An all-blank grid of the given dimensions.
    pub fn empty(rows: u16, cols: u16) -> (result: Result<Puzzle, Error>)
        ensures
            result is Err <==> rows == 0 || cols == 0,
            result is Err ==> result == Result::<Puzzle, Error>::Err(Error::InvalidDimensions),
            result matches Ok(p) ==> {
                &&& p.rows == rows
                &&& p.cols == cols
                &&& p.wf()
                &&& forall|i: int| 0 <= i < p.cells@.len() ==> p.cells@[i] == Fill::Blank
            },
    {
        if rows == 0 || cols == 0 {
            return Err(Error::InvalidDimensions);
        }
        proof {
            lemma_grid_size(rows as int, cols as int);
        }
        let total = rows as usize * cols as usize;
        let mut cells: Vec<Fill> = Vec::new();
        while cells.len() < total
            invariant
                cells@.len() <= total,
                forall|i: int| 0 <= i < cells@.len() ==> cells@[i] == Fill::Blank,
            decreases total - cells@.len(),
        {
            cells.push(Fill::Blank);
        }
        Ok(Puzzle { rows, cols, cells })
    }

    /// A grid of the given dimensions holding the given fills, row-major.
    pub fn new(rows: u16, cols: u16, cells: Vec<Fill>) -> (result: Result<Puzzle, Error>)
        requires
            forall|i: int| 0 <= i < cells@.len() ==> cells@[i].spec_valid(),
        ensures
            result == Result::<Puzzle, Error>::Err(Error::InvalidDimensions) <==> rows == 0
                || cols == 0,
            result == Result::<Puzzle, Error>::Err(Error::SizeMismatch) <==> rows >= 1 && cols >= 1
                && cells@.len() != rows * cols,
            result is Ok <==> rows >= 1 && cols >= 1 && cells@.len() == rows * cols,
            result matches Ok(p) ==> p == (Puzzle { rows, cols, cells }) && p.wf(),
    {
        if rows == 0 || cols == 0 {
            return Err(Error::InvalidDimensions);
        }
        proof {
            lemma_grid_size(rows as int, cols as int);
        }
        if cells.len() != rows as usize * cols as usize {
            return Err(Error::SizeMismatch);
        }
        Ok(Puzzle { rows, cols, cells })
    }

    /// The number of rows.
    pub fn rows(&self) -> (r: u16)
        ensures
            r == self.rows,
    {
        self.rows
    }

    /// The number of columns.
    pub fn cols(&self) -> (c: u16)
        ensures
            c == self.cols,
    {
        self.cols
    }

    /// The number of cells.
    pub fn size(&self) -> (n: usize)
        requires
            self.wf(),
        ensures
            n == self.rows * self.cols,
    {
        proof {
            lemma_grid_size(self.rows as int, self.cols as int);
        }
        self.rows as usize * self.cols as usize
    }

    /// The fill at a position, bounds-checked.
    pub fn get(&self, pos: Position) -> (result: Result<Fill, Error>)
        requires
            self.wf(),
        ensures
            result is Err <==> !(pos.row < self.rows && pos.col < self.cols),
            result is Err ==> result == Result::<Fill, Error>::Err(Error::OutOfBounds),
            result matches Ok(f) ==> f == self.spec_cell(pos.row as int, pos.col as int),
    {
        if pos.row >= self.rows || pos.col >= self.cols {
            return Err(Error::OutOfBounds);
        }
        proof {
            lemma_flat_index(self.rows as int, self.cols as int, pos.row as int, pos.col as int);
        }
        Ok(self.cells[pos.row as usize * self.cols as usize + pos.col as usize])
    }

    /// Writes the fill at a position, bounds-checked; every other cell
    /// keeps its value.
    pub fn set(&mut self, pos: Position, fill: Fill) -> (result: Result<(), Error>)
        requires
            old(self).wf(),
            fill.spec_valid(),
        ensures
            final(self).rows == old(self).rows,
            final(self).cols == old(self).cols,
            final(self).wf(),
            result is Err <==> !(pos.row < old(self).rows && pos.col < old(self).cols),
            result is Err ==> result == Result::<(), Error>::Err(Error::OutOfBounds) && *final(self)
                == *old(self),
            result is Ok ==> final(self).cells@ == old(self).cells@.update(
                old(self).cell_index(pos.row as int, pos.col as int),
                fill,
            ),
    {
        if pos.row >= self.rows || pos.col >= self.cols {
            return Err(Error::OutOfBounds);
        }
        proof {
            lemma_flat_index(self.rows as int, self.cols as int, pos.row as int, pos.col as int);
        }
        let idx = pos.row as usize * self.cols as usize + pos.col as usize;
        self.cells[idx] = fill;
        Ok(())
    }

    /// The fills of one row, left to right.
    pub fn row(&self, row: u16) -> (fills: Vec<Fill>)
        requires
            self.wf(),
            row < self.rows,
        ensures
            fills@ == self.spec_row(row as int),
    {
        let mut fills: Vec<Fill> = Vec::new();
        let mut c: usize = 0;
        while c < self.cols as usize
            invariant
                self.wf(),
                row < self.rows,
                0 <= c <= self.cols,
                fills@.len() == c,
                forall|k: int| 0 <= k < c ==> fills@[k] == self.spec_cell(row as int, k),
            decreases self.cols - c,
        {
            proof {
                lemma_flat_index(self.rows as int, self.cols as int, row as int, c as int);
            }
            fills.push(self.cells[row as usize * self.cols as usize + c]);
            c += 1;
        }
        proof {
            assert(fills@ =~= self.spec_row(row as int));
        }
        fills
    }

    /// The fills of one column, top to bottom.
    pub fn col(&self, col: u16) -> (fills: Vec<Fill>)
        requires
            self.wf(),
            col < self.cols,
        ensures
            fills@ == self.spec_col(col as int),
    {
        let mut fills: Vec<Fill> = Vec::new();
        let mut r: usize = 0;
        while r < self.rows as usize
            invariant
                self.wf(),
                col < self.cols,
                0 <= r <= self.rows,
                fills@.len() == r,
                forall|k: int| 0 <= k < r ==> fills@[k] == self.spec_cell(k, col as int),
            decreases self.rows - r,
        {
            proof {
                lemma_flat_index(self.rows as int, self.cols as int, r as int, col as int);
            }
            fills.push(self.cells[r * self.cols as usize + col as usize]);
            r += 1;
        }
        proof {
            assert(fills@ =~= self.spec_col(col as int));
        }
        fills
    }


    /// Holds one line's current contents against a rule: `Solved` when
    /// the placed colors already realize every run, `Invalid` when no
    /// arrangement of the runs can extend the known cells, `Incomplete`
    /// otherwise. A pure function of the rule and the line contents.
    pub fn validate(&self, rule: &Rule, line: Line) -> (v: LineValidation)
        requires
            self.wf(),
            rule.wf(),
            line matches Line::Row(r) ==> r < self.rows && rule.line_len == self.cols,
            line matches Line::Col(c) ==> c < self.cols && rule.line_len == self.rows,
        ensures
            line matches Line::Row(r) ==> v == spec_validate(rule.runs@, self.spec_row(r as int)),
            line matches Line::Col(c) ==> v == spec_validate(rule.runs@, self.spec_col(c as int)),
    {
        let fills = match line {
            Line::Row(r) => self.row(r),
            Line::Col(c) => self.col(c),
        };
        validate_line(rule, &fills)
    }

    /// Every row of the grid, top to bottom.
    pub fn iter_rows(&self) -> (all: Vec<Vec<Fill>>)
        requires
            self.wf(),
        ensures
            all@.len() == self.rows,
            forall|r: int| 0 <= r < self.rows ==> #[trigger] all@[r]@ == self.spec_row(r),
    {
        let mut all: Vec<Vec<Fill>> = Vec::new();
        let mut r: u16 = 0;
        while r < self.rows
            invariant
                self.wf(),
                0 <= r <= self.rows,
                all@.len() == r,
                forall|k: int| 0 <= k < r ==> #[trigger] all@[k]@ == self.spec_row(k),
            decreases self.rows - r,
        {
            all.push(self.row(r));
            r += 1;
        }
        all
    }

    /// Every column of the grid, left to right.
    pub fn iter_cols(&self) -> (all: Vec<Vec<Fill>>)
        requires
            self.wf(),
        ensures
            all@.len() == self.cols,
            forall|c: int| 0 <= c < self.cols ==> #[trigger] all@[c]@ == self.spec_col(c),
    {
        let mut all: Vec<Vec<Fill>> = Vec::new();
        let mut c: u16 = 0;
        while c < self.cols
            invariant
                self.wf(),
                0 <= c <= self.cols,
                all@.len() == c,
                forall|k: int| 0 <= k < c ==> #[trigger] all@[k]@ == self.spec_col(k),
            decreases self.cols - c,
        {
            all.push(self.col(c));
            c += 1;
        }
        all
    }
}

/// The verdict of holding one line's current contents against its rule.
#[derive(Clone, Copy, PartialEq, Eq, Structural, Debug)]
pub enum LineValidation {
    /// The placed colors already realize every run: the line matches
    /// its one remaining valid arrangement.
    Solved,
    /// No arrangement of the runs can extend the already-placed cells.
    Invalid,
    /// At least one arrangement remains possible but the line is not
    /// fully determined yet.
    Incomplete,
}

impl LineValidation {
    /// Whether the line is still consistent with its rule.
    pub fn is_valid(&self) -> (r: bool)
        ensures
            r == (*self != LineValidation::Invalid),
    {
        !matches!(self, LineValidation::Invalid)
    }
}

/// What a line's current contents say against the runs of its rule: a
/// pure function of the two.
pub open spec fn spec_validate(runs: Seq<Run>, line: Seq<Fill>) -> LineValidation {
    if spec_extract_runs(line) == runs {
        LineValidation::Solved
    } else if !can_end(runs, line, 0, 0) {
        LineValidation::Invalid
    } else {
        LineValidation::Incomplete
    }
}

/// The validation verdict for explicit line contents.
#[verifier::loop_isolation(false)]
pub fn validate_line(rule: &Rule, fills: &Vec<Fill>) -> (v: LineValidation)
    requires
        rule.wf(),
        fills@.len() == rule.line_len,
    ensures
        v == spec_validate(rule.runs@, fills@),
{
    let extracted = extract_runs(fills);
    let m = rule.runs.len();
    let mut same = extracted.len() == m;
    let mut idx: usize = 0;
    while same && idx < m
        invariant
            idx <= m,
            same ==> extracted@.len() == m,
            same ==> forall|k: int| 0 <= k < idx ==> extracted@[k] == rule.runs@[k],
            !same ==> !(extracted@ == rule.runs@),
        decreases (if same { 1int } else { 0int }), m - idx,
    {
        if !(extracted[idx] == rule.runs[idx]) {
            same = false;
        } else {
            idx += 1;
        }
    }
    if same {
        proof {
            assert(extracted@ =~= rule.runs@);
        }
        return LineValidation::Solved;
    }
    proof {
        lemma_min_len_ge_len(rule.runs@);
    }
    let ce = fit_backwards(&rule.runs, fills);
    if ce[0][0] {
        LineValidation::Incomplete
    } else {
        LineValidation::Invalid
    }
}

} // verus!
