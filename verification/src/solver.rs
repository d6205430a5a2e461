use std::collections::VecDeque;

use vstd::prelude::*;

use crate::axis::Line;
use crate::constraints::{
    blanks_match, color_id, compute_constraints, constraints_match, forced_blank, forced_cell,
    lemma_color_list_complete, lemma_color_list_valid, spec_color_list,
};
use crate::fill::Fill;
use crate::mask::LineMask;
use crate::laws::{cells_agree, lemma_blank_cell_in_solution, lemma_forced_cell_in_solution};
use crate::pos::Position;
use crate::puzzle::{
    lemma_flat_index, lemma_flat_index_injective, lemma_grid_size, spec_validate, validate_line,
    LineValidation, Puzzle,
};
use crate::rule::{lemma_min_len_ge_len, spec_extract_runs};
use crate::rules::Rules;
use crate::run::Run;

verus! {

/// The terminal state of one propagation session.
#[derive(Clone, Copy, PartialEq, Eq, Structural, Debug)]
pub enum SolveStatus {
    /// Every line validates `Solved`.
    Solved,
    /// A line admitted no arrangement: the puzzle cannot be completed
    /// from this state.
    Unsolvable,
    /// Propagation stopped (fixpoint reached or budget spent) with
    /// lines still undetermined.
    Stalled,
}

/// What one solving session reported.
#[derive(Clone, Copy, PartialEq, Eq, Structural, Debug)]
pub struct SolveOutcome {
    pub status: SolveStatus,
    pub steps_taken: u64,
}

/// The number of blank cells.
pub open spec fn spec_blanks(cells: Seq<Fill>) -> nat
    decreases cells.len(),
{
    if cells.len() == 0 {
        0
    } else if cells.last() == Fill::Blank {
        spec_blanks(cells.drop_last()) + 1
    } else {
        spec_blanks(cells.drop_last())
    }
}

/// Writing a non-blank fill into a blank cell lowers the blank count
/// by one.
pub proof fn lemma_blanks_update(cells: Seq<Fill>, i: int, v: Fill)
    requires
        0 <= i < cells.len(),
        cells[i] == Fill::Blank,
        v != Fill::Blank,
    ensures
        spec_blanks(cells.update(i, v)) + 1 == spec_blanks(cells),
    decreases cells.len(),
{
    let t = cells.update(i, v);
    if i == cells.len() - 1 {
        assert(t.drop_last() =~= cells.drop_last());
    } else {
        assert(t.drop_last() =~= cells.drop_last().update(i, v));
        lemma_blanks_update(cells.drop_last(), i, v);
    }
}

/// A grid never holds more blank cells than cells.
proof fn lemma_blanks_le_len(cells: Seq<Fill>)
    ensures
        spec_blanks(cells) <= cells.len(),
    decreases cells.len(),
{
    if cells.len() > 0 {
        lemma_blanks_le_len(cells.drop_last());
    }
}

/// A line identifier that names an existing line of the grid.
pub open spec fn line_in_range(line: Line, rows: u16, cols: u16) -> bool {
    match line {
        Line::Row(r) => r < rows,
        Line::Col(c) => c < cols,
    }
}

/// The contents of one line of the grid.
pub open spec fn line_cells(puzzle: Puzzle, line: Line) -> Seq<Fill> {
    match line {
        Line::Row(r) => puzzle.spec_row(r as int),
        Line::Col(c) => puzzle.spec_col(c as int),
    }
}

/// The runs of one line's rule.
pub open spec fn line_runs(rules: Rules, line: Line) -> Seq<Run> {
    match line {
        Line::Row(r) => rules.rows@[r as int].runs@,
        Line::Col(c) => rules.cols@[c as int].runs@,
    }
}

/// The flat cell index of offset `t` within a line.
pub open spec fn line_flat(line: Line, cols: u16, t: int) -> int {
    match line {
        Line::Row(r) => r * cols + t,
        Line::Col(c) => t * cols + c,
    }
}

/// The worklist slot of the line perpendicular to `line` at offset `t`.
pub open spec fn perp_index(line: Line, rows: u16, t: int) -> int {
    match line {
        Line::Row(_) => rows + t,
        Line::Col(_) => t,
    }
}

/// The line a worklist slot stands for: rows first, then columns.
pub open spec fn line_of_index(idx: int, rows: u16) -> Line {
    if idx < rows {
        Line::Row(idx as u16)
    } else {
        Line::Col((idx - rows) as u16)
    }
}

/// Cells only gained information: every cell already known before
/// kept its value.
pub open spec fn monotone_cells(before: Seq<Fill>, after: Seq<Fill>) -> bool {
    &&& after.len() == before.len()
    &&& forall|i: int| 0 <= i < before.len() && before[i] != Fill::Blank ==> after[i] == before[i]
}

/// Every line of the grid validates `Solved` against its rule.
pub open spec fn all_lines_solved(puzzle: Puzzle, rules: Rules) -> bool {
    &&& forall|i: int|
        0 <= i < puzzle.rows ==> spec_validate(
            (#[trigger] rules.rows@[i]).runs@,
            puzzle.spec_row(i),
        ) == LineValidation::Solved
    &&& forall|j: int|
        0 <= j < puzzle.cols ==> spec_validate(
            (#[trigger] rules.cols@[j]).runs@,
            puzzle.spec_col(j),
        ) == LineValidation::Solved
}

/// Some line of the grid validates `Invalid` against its rule.
pub open spec fn some_line_invalid(puzzle: Puzzle, rules: Rules) -> bool {
    ||| exists|i: int|
        0 <= i < puzzle.rows && spec_validate(
            (#[trigger] rules.rows@[i]).runs@,
            puzzle.spec_row(i),
        ) == LineValidation::Invalid
    ||| exists|j: int|
        0 <= j < puzzle.cols && spec_validate(
            (#[trigger] rules.cols@[j]).runs@,
            puzzle.spec_col(j),
        ) == LineValidation::Invalid
}

/// A grid assignment that realizes every rule of the puzzle: each of
/// its lines extracts to exactly that line's runs.
pub open spec fn is_solution(sol: Puzzle, rules: Rules) -> bool {
    &&& sol.cells@.len() == sol.rows * sol.cols
    &&& sol.rows == rules.rows@.len()
    &&& sol.cols == rules.cols@.len()
    &&& forall|i: int|
        0 <= i < sol.rows ==> spec_extract_runs(#[trigger] sol.spec_row(i)) == rules.rows@[
            i
        ].runs@
    &&& forall|j: int|
        0 <= j < sol.cols ==> spec_extract_runs(#[trigger] sol.spec_col(j)) == rules.cols@[
            j
        ].runs@
}

/// A solution of the rules that the known cells of `cells` (a grid of
/// the given dimensions) still admit.
pub open spec fn admitted_solution(
    sol: Puzzle,
    rules: Rules,
    rows: u16,
    cols: u16,
    cells: Seq<Fill>,
) -> bool {
    &&& is_solution(sol, rules)
    &&& sol.rows == rows
    &&& sol.cols == cols
    &&& cells_agree(sol.cells@, cells)
}

/// Every deduction the generator can already draw from this line is on
/// the grid: cells forced to a color and cells forced blank are no
/// longer blank.
pub open spec fn line_saturated(runs: Seq<Run>, line: Seq<Fill>) -> bool {
    &&& forall|c: u16, t: int|
        0 <= t < line.len() && #[trigger] forced_cell(runs, line, c, t) ==> line[t] != Fill::Blank
    &&& forall|t: int|
        0 <= t < line.len() && #[trigger] forced_blank(runs, line, t) ==> line[t] != Fill::Blank
}

/// Propagation has nothing left to add: every line of the grid is
/// saturated.
pub open spec fn all_lines_saturated(puzzle: Puzzle, rules: Rules) -> bool {
    &&& forall|i: int|
        0 <= i < puzzle.rows ==> line_saturated(
            (#[trigger] rules.rows@[i]).runs@,
            puzzle.spec_row(i),
        )
    &&& forall|j: int|
        0 <= j < puzzle.cols ==> line_saturated(
            (#[trigger] rules.cols@[j]).runs@,
            puzzle.spec_col(j),
        )
}

/// A grid assignment restricted to one line still agrees with the
/// grid's known cells on that line, and reads off the assignment's
/// flat cells.
proof fn lemma_line_restriction(sol: Puzzle, base: Puzzle, line: Line)
    requires
        base.rows >= 1,
        base.cols >= 1,
        base.rows <= u16::MAX,
        base.cols <= u16::MAX,
        base.cells@.len() == base.rows * base.cols,
        sol.cells@.len() == sol.rows * sol.cols,
        sol.rows == base.rows,
        sol.cols == base.cols,
        cells_agree(sol.cells@, base.cells@),
        line_in_range(line, base.rows, base.cols),
    ensures
        cells_agree(line_cells(sol, line), line_cells(base, line)),
        line_cells(sol, line).len() == line_cells(base, line).len(),
        forall|t: int|
            0 <= t < line_cells(sol, line).len() ==> (#[trigger] line_cells(sol, line)[t])
                == sol.cells@[line_flat(line, base.cols, t)] && line_cells(base, line)[t]
                == base.cells@[line_flat(line, base.cols, t)],
{
    let rows = base.rows as int;
    let cols = base.cols as int;
    let a = line_cells(sol, line);
    let b = line_cells(base, line);
    let n = b.len() as int;
    assert forall|t: int| 0 <= t < n implies (#[trigger] a[t]) == sol.cells@[line_flat(
        line,
        base.cols,
        t,
    )] && b[t] == base.cells@[line_flat(line, base.cols, t)] by {
        match line {
            Line::Row(r) => {
                lemma_flat_index(rows, cols, r as int, t);
            },
            Line::Col(c) => {
                lemma_flat_index(rows, cols, t, c as int);
            },
        }
    }
    assert forall|t: int| 0 <= t < n && (#[trigger] b[t]) is Color implies a[t] == b[t] by {
        let flat = line_flat(line, base.cols, t);
        match line {
            Line::Row(r) => {
                lemma_flat_index(rows, cols, r as int, t);
            },
            Line::Col(c) => {
                lemma_flat_index(rows, cols, t, c as int);
            },
        }
        assert(base.cells@[flat] is Color);
        assert(sol.cells@[flat] == base.cells@[flat]);
    }
    assert forall|t: int| 0 <= t < n && (#[trigger] b[t]) is Cross implies !(a[t] is Color) by {
        let flat = line_flat(line, base.cols, t);
        match line {
            Line::Row(r) => {
                lemma_flat_index(rows, cols, r as int, t);
            },
            Line::Col(c) => {
                lemma_flat_index(rows, cols, t, c as int);
            },
        }
        assert(base.cells@[flat] is Cross);
        assert(!(sol.cells@[flat] is Color));
    }
    assert(cells_agree(a, b));
}

/// Each line of a solution extracts to its rule's runs.
proof fn lemma_solution_line(sol: Puzzle, rules: Rules, line: Line)
    requires
        is_solution(sol, rules),
        line_in_range(line, sol.rows, sol.cols),
    ensures
        spec_extract_runs(line_cells(sol, line)) == line_runs(rules, line),
{
    match line {
        Line::Row(r) => {
            assert(spec_extract_runs(sol.spec_row(r as int)) == rules.rows@[r as int].runs@);
        },
        Line::Col(c) => {
            assert(spec_extract_runs(sol.spec_col(c as int)) == rules.cols@[c as int].runs@);
        },
    }
}


/// Writing a forced value into its cell keeps every admitted solution
/// admitted: any solution agreeing with the snapshot and the current
/// grid also agrees with the grid after the write.
proof fn lemma_write_preserves_solutions(
    rules: Rules,
    p0: Puzzle,
    line: Line,
    pre: Seq<Fill>,
    v: Fill,
    t: int,
    rows: u16,
    cols: u16,
    init_cells: Seq<Fill>,
)
    requires
        p0.wf(),
        p0.rows == rows,
        p0.cols == cols,
        rows >= 1,
        cols >= 1,
        line_in_range(line, rows, cols),
        0 <= t < line_cells(p0, line).len(),
        v matches Fill::Color(c) ==> forced_cell(
            line_runs(rules, line),
            line_cells(p0, line),
            c,
            t,
        ),
        v is Cross ==> forced_blank(line_runs(rules, line), line_cells(p0, line), t),
        v != Fill::Blank,
        forall|sol: Puzzle|
            #[trigger] admitted_solution(sol, rules, rows, cols, init_cells) ==> cells_agree(
                sol.cells@,
                pre,
            ),
        forall|sol: Puzzle|
            #[trigger] admitted_solution(sol, rules, rows, cols, init_cells) ==> cells_agree(
                sol.cells@,
                p0.cells@,
            ),
        pre.len() == p0.cells@.len(),
    ensures
        forall|sol: Puzzle|
            #[trigger] admitted_solution(sol, rules, rows, cols, init_cells) ==> cells_agree(
                sol.cells@,
                pre.update(line_flat(line, cols, t), v),
            ),
{
    let fills = line_cells(p0, line);
    let runs = line_runs(rules, line);
    let x = line_flat(line, cols, t);
    match line {
        Line::Row(r) => {
            lemma_flat_index(rows as int, cols as int, r as int, t);
        },
        Line::Col(c0) => {
            lemma_flat_index(rows as int, cols as int, t, c0 as int);
        },
    }
    assert(0 <= x < rows * cols);
    assert forall|sol: Puzzle|
        #[trigger] admitted_solution(sol, rules, rows, cols, init_cells) implies cells_agree(
        sol.cells@,
        pre.update(x, v),
    ) by {
        assert(cells_agree(sol.cells@, pre));
        assert(cells_agree(sol.cells@, p0.cells@));
        lemma_line_restriction(sol, p0, line);
        let sl = line_cells(sol, line);
        assert(cells_agree(sl, fills));
        lemma_solution_line(sol, rules, line);
        assert(spec_extract_runs(sl) == runs);
        match v {
            Fill::Color(c) => {
                lemma_forced_cell_in_solution(runs, fills, sl, c, t);
                assert(sl[t] == Fill::Color(c));
                assert(sol.cells@[x] == v);
            },
            Fill::Cross => {
                lemma_blank_cell_in_solution(runs, fills, sl, t);
                assert(!(sl[t] is Color));
                assert(!(sol.cells@[x] is Color));
            },
            Fill::Blank => {
                assert(false);
            },
        }
        assert(cells_agree(sol.cells@, pre.update(x, v)));
    }
}

/// Re-establishes the saturation bookkeeping after one line pass:
/// every unqueued line is saturated against the current grid. The
/// processed line itself is unqueued only when the pass changed
/// nothing, in which case its masks showed no blank forced cell; any
/// other line left unqueued kept its contents, since every written
/// cell queued its perpendicular line.
proof fn lemma_saturation_after_pass(
    rules: Rules,
    puzzle: Puzzle,
    p0: Puzzle,
    line: Line,
    cons: Seq<(u16, LineMask)>,
    blanks_m: Seq<bool>,
    queued: Seq<bool>,
    qidx: int,
    changed: bool,
    rows: u16,
    cols: u16,
)
    requires
        p0.wf(),
        p0.rows == rows,
        p0.cols == cols,
        puzzle.rows == rows,
        puzzle.cols == cols,
        puzzle.cells@.len() == rows * cols,
        queued.len() == rows + cols,
        line_in_range(line, rows, cols),
        0 <= qidx < rows + cols,
        line_of_index(qidx, rows) == line,
        constraints_match(cons, line_runs(rules, line), line_cells(p0, line)),
        blanks_match(blanks_m, line_runs(rules, line), line_cells(p0, line)),
        changed ==> queued[qidx],
        !changed ==> puzzle.cells@ == p0.cells@,
        !changed ==> forall|k2: int, t2: int|
            0 <= k2 < cons.len() && 0 <= t2 < line_cells(p0, line).len() && (
            #[trigger] cons[k2].1@[t2]) ==> line_cells(p0, line)[t2] != Fill::Blank,
        !changed ==> forall|t2: int|
            0 <= t2 < line_cells(p0, line).len() && (#[trigger] blanks_m[t2]) ==> line_cells(
                p0,
                line,
            )[t2] != Fill::Blank,
        forall|x: int|
            0 <= x < puzzle.cells@.len() && (#[trigger] puzzle.cells@[x]) != p0.cells@[x]
                ==> exists|tx: int|
                0 <= tx < line_cells(p0, line).len() && x == line_flat(line, cols, tx) && queued[
                    perp_index(line, rows, tx)
                ],
        forall|idx: int|
            0 <= idx < rows + cols && idx != qidx && !(#[trigger] queued[idx]) ==> line_saturated(
                line_runs(rules, line_of_index(idx, rows)),
                line_cells(p0, line_of_index(idx, rows)),
            ),
    ensures
        forall|idx: int|
            0 <= idx < rows + cols && !(#[trigger] queued[idx]) ==> line_saturated(
                line_runs(rules, line_of_index(idx, rows)),
                line_cells(puzzle, line_of_index(idx, rows)),
            ),
{
    let fills = line_cells(p0, line);
    let runs = line_runs(rules, line);
    assert forall|idx: int|
        0 <= idx < rows + cols && !(#[trigger] queued[idx]) implies line_saturated(
        line_runs(rules, line_of_index(idx, rows)),
        line_cells(puzzle, line_of_index(idx, rows)),
    ) by {
        let l = line_of_index(idx, rows);
        if idx == qidx {
            assert(!changed);
            assert(puzzle.cells@ == p0.cells@);
            assert(line_cells(puzzle, l) == line_cells(p0, l));
            assert(l == line);
            assert(line_saturated(runs, fills)) by {
                assert forall|cc: u16, t2: int|
                    0 <= t2 < fills.len() && #[trigger] forced_cell(
                        runs,
                        fills,
                        cc,
                        t2,
                    ) implies fills[t2] != Fill::Blank by {
                    let rr = choose|rr: int|
                        0 <= rr < runs.len() && runs[rr].fill == Fill::Color(cc)
                            && crate::constraints::forced_by_run(runs, fills, rr, t2);
                    lemma_color_list_complete(runs, rr);
                    assert(color_id(runs[rr].fill) == cc);
                    assert(spec_color_list(runs).contains(cc));
                    let kk = choose|kk: int|
                        0 <= kk < spec_color_list(runs).len() && spec_color_list(runs)[kk] == cc;
                    assert(cons[kk].0 == cc);
                    assert(cons[kk].1@[t2] == forced_cell(runs, fills, cc, t2));
                }
                assert forall|t2: int|
                    0 <= t2 < fills.len() && #[trigger] forced_blank(
                        runs,
                        fills,
                        t2,
                    ) implies fills[t2] != Fill::Blank by {
                    assert(blanks_m[t2]);
                }
            }
        } else {
            assert(line_saturated(line_runs(rules, l), line_cells(p0, l)));
            assert forall|t2: int|
                0 <= t2 < line_cells(p0, l).len() implies #[trigger] line_cells(puzzle, l)[t2]
                == line_cells(p0, l)[t2] by {
                let x = line_flat(l, cols, t2);
                match l {
                    Line::Row(r1) => {
                        lemma_flat_index(rows as int, cols as int, r1 as int, t2);
                    },
                    Line::Col(c1) => {
                        lemma_flat_index(rows as int, cols as int, t2, c1 as int);
                    },
                }
                assert(line_cells(puzzle, l)[t2] == puzzle.cells@[x]);
                assert(line_cells(p0, l)[t2] == p0.cells@[x]);
                if puzzle.cells@[x] != p0.cells@[x] {
                    let tx = choose|tx: int|
                        0 <= tx < fills.len() && x == line_flat(line, cols, tx) && queued[
                            perp_index(line, rows, tx)
                        ];
                    match line {
                        Line::Row(rl) => {
                            match l {
                                Line::Row(r1) => {
                                    lemma_flat_index_injective(
                                        cols as int,
                                        r1 as int,
                                        t2,
                                        rl as int,
                                        tx,
                                    );
                                    assert(false);
                                },
                                Line::Col(c1) => {
                                    lemma_flat_index_injective(
                                        cols as int,
                                        t2,
                                        c1 as int,
                                        rl as int,
                                        tx,
                                    );
                                    assert(c1 as int == tx);
                                    assert(perp_index(line, rows, tx) == idx);
                                    assert(false);
                                },
                            }
                        },
                        Line::Col(cl) => {
                            match l {
                                Line::Row(r1) => {
                                    lemma_flat_index_injective(
                                        cols as int,
                                        r1 as int,
                                        t2,
                                        tx,
                                        cl as int,
                                    );
                                    assert(r1 as int == tx);
                                    assert(perp_index(line, rows, tx) == idx);
                                    assert(false);
                                },
                                Line::Col(c1) => {
                                    lemma_flat_index_injective(
                                        cols as int,
                                        t2,
                                        c1 as int,
                                        tx,
                                        cl as int,
                                    );
                                    assert(false);
                                },
                            }
                        },
                    }
                }
            }
            assert(line_cells(puzzle, l) =~= line_cells(p0, l));
        }
    }
}

/// Drives repeated constraint generation across rows and columns until
/// no queued line is left or a contradiction surfaces.
pub struct Solver {
    pub frontier: VecDeque<Line>,
}

impl Solver {
    pub fn new() -> (s: Solver)
        ensures
            s.frontier@.len() == 0,
    {
        Solver { frontier: VecDeque::new() }
    }


    /// Marks a line queued, appending it to the frontier unless it was
    /// queued already.
    fn enqueue_line(&mut self, queued: &mut Vec<bool>, l: Line, idx2: usize)
        requires
            idx2 < old(queued)@.len(),
        ensures
            final(queued)@ == old(queued)@.update(idx2 as int, true),
            old(queued)@[idx2 as int] ==> final(self).frontier@ == old(self).frontier@,
            !old(queued)@[idx2 as int] ==> final(self).frontier@ == old(self).frontier@.push(l),
    {
        if !queued[idx2] {
            queued[idx2] = true;
            self.frontier.push_back(l);
        } else {
            proof {
                assert(queued@ =~= old(queued)@.update(idx2 as int, true));
            }
        }
    }

    /// Propagates forced cells to a fixpoint: repeatedly pops a queued
    /// line, recomputes its forced-cell masks against the current
    /// grid, writes every forced color into its cell and a cross into
    /// every forced-blank cell still blank, and queues the
    /// perpendicular line of each written cell (and the line itself)
    /// unless already queued.
    ///
    /// Ends `Solved` exactly when every line validates `Solved` and
    /// `Unsolvable` exactly when a line validates `Invalid`; otherwise
    /// `Stalled`. Unless a contradiction surfaced or the budget cut
    /// the loop, the final grid is saturated: no line's masks force
    /// anything further. Cells only gain information, never lose any:
    /// known cells are never rewritten, and every completion the
    /// starting grid admitted is still admitted. A grid that is
    /// already saturated is left untouched.
    #[verifier::loop_isolation(false)]
    #[verifier::rlimit(100)]
    pub fn solve(
        &mut self,
        puzzle: &mut Puzzle,
        rules: &Rules,
        step_budget: Option<u64>,
    ) -> (outcome: SolveOutcome)
        requires
            old(puzzle).wf(),
            rules.wf_for(old(puzzle).rows, old(puzzle).cols),
        ensures
            final(puzzle).wf(),
            final(puzzle).rows == old(puzzle).rows,
            final(puzzle).cols == old(puzzle).cols,
            monotone_cells(old(puzzle).cells@, final(puzzle).cells@),
            forall|k: int|
                0 <= k < final(puzzle).cells@.len() && (#[trigger] final(puzzle).cells@[k]) != old(
                    puzzle,
                ).cells@[k] ==> final(puzzle).cells@[k] != Fill::Blank,
            forall|sol: Puzzle|
                #[trigger] admitted_solution(
                    sol,
                    *rules,
                    old(puzzle).rows,
                    old(puzzle).cols,
                    old(puzzle).cells@,
                ) ==> cells_agree(sol.cells@, final(puzzle).cells@),
            outcome.status == SolveStatus::Solved <==> all_lines_solved(*final(puzzle), *rules),
            outcome.status == SolveStatus::Unsolvable <==> some_line_invalid(
                *final(puzzle),
                *rules,
            ),
            outcome.status != SolveStatus::Unsolvable && (step_budget matches Some(b)
                ==> outcome.steps_taken < b) ==> all_lines_saturated(*final(puzzle), *rules),
            all_lines_saturated(*old(puzzle), *rules) ==> final(puzzle).cells@ == old(
                puzzle,
            ).cells@,
            step_budget matches Some(b) ==> outcome.steps_taken <= b,
    {
        let rows = puzzle.rows();
        let cols = puzzle.cols();
        let total = rows as usize + cols as usize;
        let ghost blanks_init = spec_blanks(old(puzzle).cells@);
        proof {
            lemma_blanks_le_len(old(puzzle).cells@);
            lemma_grid_size(rows as int, cols as int);
        }
        self.frontier = VecDeque::new();
        let mut queued: Vec<bool> = Vec::new();
        while queued.len() < total
            invariant
                queued@.len() <= total,
                forall|k: int| 0 <= k < queued@.len() ==> #[trigger] queued@[k],
            decreases total - queued@.len(),
        {
            queued.push(true);
        }
        let mut i: u16 = 0;
        while i < rows
            invariant
                i <= rows,
                self.frontier@.len() == i,
                forall|k: int|
                    0 <= k < self.frontier@.len() ==> (#[trigger] self.frontier@[k])
                        == line_of_index(k, rows) && line_in_range(self.frontier@[k], rows, cols),
            decreases rows - i,
        {
            self.frontier.push_back(Line::Row(i));
            i += 1;
        }
        let mut j: u16 = 0;
        while j < cols
            invariant
                j <= cols,
                self.frontier@.len() == rows + j,
                forall|k: int|
                    0 <= k < self.frontier@.len() ==> (#[trigger] self.frontier@[k])
                        == line_of_index(k, rows) && line_in_range(self.frontier@[k], rows, cols),
            decreases cols - j,
        {
            self.frontier.push_back(Line::Col(j));
            j += 1;
        }
        proof {
            assert forall|idx: int| 0 <= idx < total && #[trigger] queued@[idx] implies exists|
                k2: int,
            |
                0 <= k2 < self.frontier@.len() && self.frontier@[k2] == line_of_index(
                    idx,
                    rows,
                ) by {
                assert(self.frontier@[idx] == line_of_index(idx, rows));
            }
        }
        let limit: u64 = match step_budget {
            Some(b) => b,
            None => u64::MAX,
        };
        let mut steps: u64 = 0;
        let mut found_invalid = false;
        while !found_invalid && self.frontier.len() > 0 && steps < limit
            invariant
                puzzle.wf(),
                puzzle.rows == rows,
                puzzle.cols == cols,
                monotone_cells(old(puzzle).cells@, puzzle.cells@),
                forall|k: int|
                    0 <= k < puzzle.cells@.len() && (#[trigger] puzzle.cells@[k]) != old(
                        puzzle,
                    ).cells@[k] ==> puzzle.cells@[k] != Fill::Blank,
                forall|sol: Puzzle|
                    #[trigger] admitted_solution(
                        sol,
                        *rules,
                        rows,
                        cols,
                        old(puzzle).cells@,
                    ) ==> cells_agree(sol.cells@, puzzle.cells@),
                all_lines_saturated(*old(puzzle), *rules) ==> puzzle.cells@ == old(
                    puzzle,
                ).cells@,
                queued@.len() == total,
                forall|k: int|
                    0 <= k < self.frontier@.len() ==> line_in_range(
                        #[trigger] self.frontier@[k],
                        rows,
                        cols,
                    ),
                forall|idx: int|
                    0 <= idx < total && #[trigger] queued@[idx] ==> exists|k: int|
                        0 <= k < self.frontier@.len() && self.frontier@[k] == line_of_index(
                            idx,
                            rows,
                        ),
                !found_invalid ==> forall|idx: int|
                    0 <= idx < total && !(#[trigger] queued@[idx]) ==> line_saturated(
                        line_runs(*rules, line_of_index(idx, rows)),
                        line_cells(*puzzle, line_of_index(idx, rows)),
                    ),
                found_invalid ==> some_line_invalid(*puzzle, *rules),
                steps <= limit,
                steps + self.frontier@.len() <= total + 3 * (blanks_init - spec_blanks(
                    puzzle.cells@,
                )),
                spec_blanks(puzzle.cells@) <= blanks_init,
            decreases spec_blanks(puzzle.cells@), self.frontier@.len(),
        {
            let ghost blanks0 = spec_blanks(puzzle.cells@);
            let ghost f0 = self.frontier@;
            let line = self.frontier.pop_front().unwrap();
            let qidx = match line {
                Line::Row(r) => r as usize,
                Line::Col(c) => rows as usize + c as usize,
            };
            queued[qidx] = false;
            proof {
                assert(self.frontier@ == f0.subrange(1, f0.len() as int));
                assert(f0[0] == line);
                assert(line_of_index(qidx as int, rows) == line);
                assert forall|idx: int|
                    0 <= idx < total && #[trigger] queued@[idx] implies exists|k2: int|
                    0 <= k2 < self.frontier@.len() && self.frontier@[k2] == line_of_index(
                        idx,
                        rows,
                    ) by {
                    assert(idx != qidx);
                    let k0 = choose|k0: int|
                        0 <= k0 < f0.len() && f0[k0] == line_of_index(idx, rows);
                    if k0 == 0 {
                        assert(line_of_index(idx, rows) == line_of_index(qidx as int, rows));
                        assert(idx == qidx);
                        assert(false);
                    }
                    assert(self.frontier@[k0 - 1] == f0[k0]);
                }
            }
            steps += 1;
            let fills = match line {
                Line::Row(r) => puzzle.row(r),
                Line::Col(c) => puzzle.col(c),
            };
            let rule = match line {
                Line::Row(r) => rules.row(r),
                Line::Col(c) => rules.col(c),
            };
            let v = validate_line(rule, &fills);
            if matches!(v, LineValidation::Invalid) {
                found_invalid = true;
                proof {
                    match line {
                        Line::Row(r) => {
                            assert(spec_validate(
                                rules.rows@[r as int].runs@,
                                puzzle.spec_row(r as int),
                            ) == LineValidation::Invalid);
                        },
                        Line::Col(c) => {
                            assert(spec_validate(
                                rules.cols@[c as int].runs@,
                                puzzle.spec_col(c as int),
                            ) == LineValidation::Invalid);
                        },
                    }
                    assert(some_line_invalid(*puzzle, *rules));
                }
                continue ;
            }
            proof {
                lemma_min_len_ge_len(rule.runs@);
                lemma_color_list_valid(rule.runs@);
            }
            let (cons, blanks_m) = compute_constraints(&rule.runs, &fills);
            let ghost p0 = *puzzle;
            let ghost cells0 = puzzle.cells@;
            proof {
                assert(p0.cells@ == cells0);
                assert(p0.rows == rows && p0.cols == cols);
                match line {
                    Line::Row(r) => {
                        assert(fills@ == p0.spec_row(r as int));
                        assert(*rule == rules.rows@[r as int]);
                    },
                    Line::Col(c2) => {
                        assert(fills@ == p0.spec_col(c2 as int));
                        assert(*rule == rules.cols@[c2 as int]);
                    },
                }
                assert(fills@ == line_cells(p0, line));
                assert(rule.runs@ == line_runs(*rules, line));
                assert forall|sol: Puzzle|
                    #[trigger] admitted_solution(
                        sol,
                        *rules,
                        rows,
                        cols,
                        old(puzzle).cells@,
                    ) implies cells_agree(sol.cells@, cells0) by {}
                assert forall|idx: int|
                    0 <= idx < total && idx != qidx && !(#[trigger] queued@[idx]) implies
                    line_saturated(
                        line_runs(*rules, line_of_index(idx, rows)),
                        line_cells(p0, line_of_index(idx, rows)),
                    ) by {
                    assert(line_cells(*puzzle, line_of_index(idx, rows)) == line_cells(
                        p0,
                        line_of_index(idx, rows),
                    ));
                }
            }
            let ghost flen0 = self.frontier@.len();
            let mut changed = false;
            let clen = cons.len();
            let mut k: usize = 0;
            while k < clen
                invariant
                    k <= clen,
                    puzzle.wf(),
                    puzzle.rows == rows,
                    puzzle.cols == cols,
                    monotone_cells(old(puzzle).cells@, puzzle.cells@),
                    forall|k2: int|
                        0 <= k2 < puzzle.cells@.len() && (#[trigger] puzzle.cells@[k2]) != old(
                            puzzle,
                        ).cells@[k2] ==> puzzle.cells@[k2] != Fill::Blank,
                    forall|sol: Puzzle|
                        #[trigger] admitted_solution(
                            sol,
                            *rules,
                            rows,
                            cols,
                            old(puzzle).cells@,
                        ) ==> cells_agree(sol.cells@, puzzle.cells@),
                    all_lines_saturated(*old(puzzle), *rules) ==> puzzle.cells@ == old(
                        puzzle,
                    ).cells@,
                    queued@.len() == total,
                    forall|k2: int|
                        0 <= k2 < self.frontier@.len() ==> line_in_range(
                            #[trigger] self.frontier@[k2],
                            rows,
                            cols,
                        ),
                    forall|idx: int|
                        0 <= idx < total && #[trigger] queued@[idx] ==> exists|k2: int|
                            0 <= k2 < self.frontier@.len() && self.frontier@[k2] == line_of_index(
                                idx,
                                rows,
                            ),
                    forall|x: int|
                        0 <= x < puzzle.cells@.len() && (#[trigger] puzzle.cells@[x]) != cells0[x]
                            ==> exists|tx: int|
                            0 <= tx < fills@.len() && x == line_flat(line, cols, tx)
                                && queued@[perp_index(line, rows, tx)],
                    forall|idx: int|
                        0 <= idx < total && idx != qidx && !(#[trigger] queued@[idx])
                            ==> line_saturated(
                            line_runs(*rules, line_of_index(idx, rows)),
                            line_cells(p0, line_of_index(idx, rows)),
                        ),
                    changed ==> queued@[qidx as int],
                    changed ==> spec_blanks(puzzle.cells@) < blanks0,
                    !changed ==> puzzle.cells@ == cells0 && self.frontier@.len() == flen0,
                    !changed ==> forall|k2: int, t2: int|
                        0 <= k2 < k && 0 <= t2 < fills@.len() && (#[trigger] cons@[k2].1@[t2])
                            ==> fills@[t2] != Fill::Blank,
                    spec_blanks(puzzle.cells@) <= blanks0,
                    steps + self.frontier@.len() <= total + 3 * (blanks_init - spec_blanks(
                        puzzle.cells@,
                    )),
                    spec_blanks(puzzle.cells@) <= blanks_init,
                decreases clen - k,
            {
                let c = cons[k].0;
                let mask = &cons[k].1;
                let mlen = mask.len();
                let mut t: usize = 0;
                while t < mlen
                    invariant
                        t <= mlen,
                        mlen == fills@.len(),
                        mask@ == cons@[k as int].1@,
                        k < clen,
                        puzzle.wf(),
                        puzzle.rows == rows,
                        puzzle.cols == cols,
                        monotone_cells(old(puzzle).cells@, puzzle.cells@),
                        forall|k2: int|
                            0 <= k2 < puzzle.cells@.len() && (#[trigger] puzzle.cells@[k2]) != old(
                                puzzle,
                            ).cells@[k2] ==> puzzle.cells@[k2] != Fill::Blank,
                        forall|sol: Puzzle|
                            #[trigger] admitted_solution(
                                sol,
                                *rules,
                                rows,
                                cols,
                                old(puzzle).cells@,
                            ) ==> cells_agree(sol.cells@, puzzle.cells@),
                        all_lines_saturated(*old(puzzle), *rules) ==> puzzle.cells@ == old(
                            puzzle,
                        ).cells@,
                        queued@.len() == total,
                        forall|k2: int|
                            0 <= k2 < self.frontier@.len() ==> line_in_range(
                                #[trigger] self.frontier@[k2],
                                rows,
                                cols,
                            ),
                        forall|idx: int|
                            0 <= idx < total && #[trigger] queued@[idx] ==> exists|k2: int|
                                0 <= k2 < self.frontier@.len() && self.frontier@[k2]
                                    == line_of_index(idx, rows),
                        forall|x: int|
                            0 <= x < puzzle.cells@.len() && (#[trigger] puzzle.cells@[x])
                                != cells0[x] ==> exists|tx: int|
                                0 <= tx < fills@.len() && x == line_flat(line, cols, tx)
                                    && queued@[perp_index(line, rows, tx)],
                        forall|idx: int|
                        0 <= idx < total && idx != qidx && !(#[trigger] queued@[idx])
                            ==> line_saturated(
                            line_runs(*rules, line_of_index(idx, rows)),
                            line_cells(p0, line_of_index(idx, rows)),
                        ),
                    changed ==> queued@[qidx as int],
                        changed ==> spec_blanks(puzzle.cells@) < blanks0,
                        !changed ==> puzzle.cells@ == cells0 && self.frontier@.len() == flen0,
                        !changed ==> forall|k2: int, t2: int|
                            0 <= k2 < k && 0 <= t2 < fills@.len() && (#[trigger] cons@[k2].1@[t2])
                                ==> fills@[t2] != Fill::Blank,
                        !changed ==> forall|t2: int|
                            0 <= t2 < t && (#[trigger] mask@[t2]) ==> fills@[t2] != Fill::Blank,
                        spec_blanks(puzzle.cells@) <= blanks0,
                        steps + self.frontier@.len() <= total + 3 * (blanks_init - spec_blanks(
                            puzzle.cells@,
                        )),
                        spec_blanks(puzzle.cells@) <= blanks_init,
                    decreases mlen - t,
                {
                    if mask.get(t) {
                        let pos = match line {
                            Line::Row(r) => Position::new(r, t as u16),
                            Line::Col(cc) => Position::new(t as u16, cc),
                        };
                        let cur = puzzle.get(pos).unwrap();
                        proof {
                            let x = line_flat(line, cols, t as int);
                            match line {
                                Line::Row(r) => {
                                    lemma_flat_index(rows as int, cols as int, r as int, t as int);
                                },
                                Line::Col(cc) => {
                                    lemma_flat_index(
                                        rows as int,
                                        cols as int,
                                        t as int,
                                        cc as int,
                                    );
                                },
                            }
                            assert(cur == puzzle.cells@[x]);
                        }
                        if matches!(cur, Fill::Blank) {
                            let ghost pre = puzzle.cells@;
                            proof {
                                let x = line_flat(line, cols, t as int);
                                assert(x == puzzle.cell_index(pos.row as int, pos.col as int));
                                lemma_blanks_update(puzzle.cells@, x, Fill::Color(c));
                                if all_lines_saturated(*old(puzzle), *rules) {
                                    assert(pre == old(puzzle).cells@ && cells0 == old(
                                        puzzle,
                                    ).cells@);
                                    match line {
                                        Line::Row(r) => {
                                            assert(fills@ =~= old(puzzle).spec_row(r as int));
                                            assert(line_saturated(
                                                rules.rows@[r as int].runs@,
                                                old(puzzle).spec_row(r as int),
                                            ));
                                        },
                                        Line::Col(cc) => {
                                            assert(fills@ =~= old(puzzle).spec_col(cc as int));
                                            assert(line_saturated(
                                                rules.cols@[cc as int].runs@,
                                                old(puzzle).spec_col(cc as int),
                                            ));
                                        },
                                    }
                                    assert(line_saturated(rule.runs@, fills@));
                                    assert(forced_cell(rule.runs@, fills@, c, t as int));
                                    assert(fills@[t as int] == cells0[x]);
                                    assert(false);
                                }
                            }
                            let _ = puzzle.set(pos, Fill::Color(c));
                            proof {
                                let x = line_flat(line, cols, t as int);
                                assert(puzzle.cells@ == pre.update(x, Fill::Color(c)));
                                assert(forced_cell(rule.runs@, fills@, c, t as int));
                                lemma_write_preserves_solutions(
                                    *rules,
                                    p0,
                                    line,
                                    pre,
                                    Fill::Color(c),
                                    t as int,
                                    rows,
                                    cols,
                                    old(puzzle).cells@,
                                );
                            }
                            changed = true;
                            let perp = match line {
                                Line::Row(_) => Line::Col(t as u16),
                                Line::Col(_) => Line::Row(t as u16),
                            };
                            let pidx = match perp {
                                Line::Row(r2) => r2 as usize,
                                Line::Col(c2) => rows as usize + c2 as usize,
                            };
                            let ghost qpre = queued@;
                            let ghost fpre = self.frontier@;
                            proof {
                                assert(pidx == perp_index(line, rows, t as int));
                                assert(line_of_index(pidx as int, rows) == perp);
                                assert(pidx != qidx);
                            }
                            self.enqueue_line(&mut queued, perp, pidx);
                            self.enqueue_line(&mut queued, line, qidx);
                            proof {
                                assert(forall|k2: int|
                                    0 <= k2 < fpre.len() ==> #[trigger] self.frontier@[k2]
                                        == fpre[k2]);
                                assert forall|idx: int|
                                    0 <= idx < total && #[trigger] queued@[idx] implies exists|
                                    k2: int,
                                |
                                    0 <= k2 < self.frontier@.len() && self.frontier@[k2]
                                        == line_of_index(idx, rows) by {
                                    if qpre[idx] {
                                        let k0 = choose|k0: int|
                                            0 <= k0 < fpre.len() && fpre[k0] == line_of_index(
                                                idx,
                                                rows,
                                            );
                                        assert(self.frontier@[k0] == line_of_index(idx, rows));
                                    } else if idx == pidx as int {
                                        assert(self.frontier@[fpre.len() as int] == perp);
                                    } else {
                                        assert(idx == qidx as int);
                                        assert(self.frontier@[self.frontier@.len() - 1] == line);
                                        assert(line_of_index(idx, rows) == line);
                                    }
                                }
                            }
                            proof {
                                assert forall|x2: int|
                                    0 <= x2 < puzzle.cells@.len() && (#[trigger] puzzle.cells@[x2])
                                        != cells0[x2] implies exists|tx: int|
                                    0 <= tx < fills@.len() && x2 == line_flat(line, cols, tx)
                                        && queued@[perp_index(line, rows, tx)] by {
                                    let x = line_flat(line, cols, t as int);
                                    if x2 == x {
                                        assert(0 <= (t as int) < fills@.len() && x2 == line_flat(
                                            line,
                                            cols,
                                            t as int,
                                        ) && queued@[perp_index(line, rows, t as int)]);
                                    } else {
                                        assert(pre[x2] != cells0[x2]);
                                        let tx = choose|tx: int|
                                            0 <= tx < fills@.len() && x2 == line_flat(
                                                line,
                                                cols,
                                                tx,
                                            ) && qpre[perp_index(line, rows, tx)];
                                        assert(queued@[perp_index(line, rows, tx)]);
                                        assert(0 <= tx < fills@.len() && x2 == line_flat(
                                            line,
                                            cols,
                                            tx,
                                        ) && queued@[perp_index(line, rows, tx)]);
                                    }
                                }
                            }
                        }
                    }
                    t += 1;
                }
                k += 1;
            }
            let blen = blanks_m.len();
            let mut t: usize = 0;
            while t < blen
                invariant
                    t <= blen,
                    blen == fills@.len(),
                    puzzle.wf(),
                    puzzle.rows == rows,
                    puzzle.cols == cols,
                    monotone_cells(old(puzzle).cells@, puzzle.cells@),
                    forall|k2: int|
                        0 <= k2 < puzzle.cells@.len() && (#[trigger] puzzle.cells@[k2]) != old(
                            puzzle,
                        ).cells@[k2] ==> puzzle.cells@[k2] != Fill::Blank,
                    forall|sol: Puzzle|
                        #[trigger] admitted_solution(
                            sol,
                            *rules,
                            rows,
                            cols,
                            old(puzzle).cells@,
                        ) ==> cells_agree(sol.cells@, puzzle.cells@),
                    all_lines_saturated(*old(puzzle), *rules) ==> puzzle.cells@ == old(
                        puzzle,
                    ).cells@,
                    queued@.len() == total,
                    forall|k2: int|
                        0 <= k2 < self.frontier@.len() ==> line_in_range(
                            #[trigger] self.frontier@[k2],
                            rows,
                            cols,
                        ),
                    forall|idx: int|
                        0 <= idx < total && #[trigger] queued@[idx] ==> exists|k2: int|
                            0 <= k2 < self.frontier@.len() && self.frontier@[k2] == line_of_index(
                                idx,
                                rows,
                            ),
                    forall|x: int|
                        0 <= x < puzzle.cells@.len() && (#[trigger] puzzle.cells@[x]) != cells0[x]
                            ==> exists|tx: int|
                            0 <= tx < fills@.len() && x == line_flat(line, cols, tx)
                                && queued@[perp_index(line, rows, tx)],
                    forall|idx: int|
                        0 <= idx < total && idx != qidx && !(#[trigger] queued@[idx])
                            ==> line_saturated(
                            line_runs(*rules, line_of_index(idx, rows)),
                            line_cells(p0, line_of_index(idx, rows)),
                        ),
                    changed ==> queued@[qidx as int],
                    changed ==> spec_blanks(puzzle.cells@) < blanks0,
                    !changed ==> puzzle.cells@ == cells0 && self.frontier@.len() == flen0,
                    !changed ==> forall|k2: int, t2: int|
                        0 <= k2 < clen && 0 <= t2 < fills@.len() && (#[trigger] cons@[k2].1@[t2])
                            ==> fills@[t2] != Fill::Blank,
                    !changed ==> forall|t2: int|
                        0 <= t2 < t && (#[trigger] blanks_m@[t2]) ==> fills@[t2] != Fill::Blank,
                    spec_blanks(puzzle.cells@) <= blanks0,
                    steps + self.frontier@.len() <= total + 3 * (blanks_init - spec_blanks(
                        puzzle.cells@,
                    )),
                    spec_blanks(puzzle.cells@) <= blanks_init,
                decreases blen - t,
            {
                if blanks_m.get(t) {
                    let pos = match line {
                        Line::Row(r) => Position::new(r, t as u16),
                        Line::Col(cc) => Position::new(t as u16, cc),
                    };
                    let cur = puzzle.get(pos).unwrap();
                    proof {
                        let x = line_flat(line, cols, t as int);
                        match line {
                            Line::Row(r) => {
                                lemma_flat_index(rows as int, cols as int, r as int, t as int);
                            },
                            Line::Col(cc) => {
                                lemma_flat_index(rows as int, cols as int, t as int, cc as int);
                            },
                        }
                        assert(cur == puzzle.cells@[x]);
                    }
                    if matches!(cur, Fill::Blank) {
                        let ghost pre = puzzle.cells@;
                        proof {
                            let x = line_flat(line, cols, t as int);
                            assert(x == puzzle.cell_index(pos.row as int, pos.col as int));
                            lemma_blanks_update(puzzle.cells@, x, Fill::Cross);
                            if all_lines_saturated(*old(puzzle), *rules) {
                                assert(pre == old(puzzle).cells@ && cells0 == old(puzzle).cells@);
                                match line {
                                    Line::Row(r) => {
                                        assert(fills@ =~= old(puzzle).spec_row(r as int));
                                        assert(line_saturated(
                                            rules.rows@[r as int].runs@,
                                            old(puzzle).spec_row(r as int),
                                        ));
                                    },
                                    Line::Col(cc) => {
                                        assert(fills@ =~= old(puzzle).spec_col(cc as int));
                                        assert(line_saturated(
                                            rules.cols@[cc as int].runs@,
                                            old(puzzle).spec_col(cc as int),
                                        ));
                                    },
                                }
                                assert(line_saturated(rule.runs@, fills@));
                                assert(forced_blank(rule.runs@, fills@, t as int));
                                assert(fills@[t as int] == cells0[x]);
                                assert(false);
                            }
                        }
                        let _ = puzzle.set(pos, Fill::Cross);
                        proof {
                            let x = line_flat(line, cols, t as int);
                            assert(puzzle.cells@ == pre.update(x, Fill::Cross));
                            assert(forced_blank(rule.runs@, fills@, t as int));
                            lemma_write_preserves_solutions(
                                *rules,
                                p0,
                                line,
                                pre,
                                Fill::Cross,
                                t as int,
                                rows,
                                cols,
                                old(puzzle).cells@,
                            );
                        }
                        changed = true;
                        let perp = match line {
                            Line::Row(_) => Line::Col(t as u16),
                            Line::Col(_) => Line::Row(t as u16),
                        };
                        let pidx = match perp {
                            Line::Row(r2) => r2 as usize,
                            Line::Col(c2) => rows as usize + c2 as usize,
                        };
                        let ghost qpre = queued@;
                        let ghost fpre = self.frontier@;
                        proof {
                            assert(pidx == perp_index(line, rows, t as int));
                            assert(line_of_index(pidx as int, rows) == perp);
                            assert(pidx != qidx);
                        }
                        self.enqueue_line(&mut queued, perp, pidx);
                        self.enqueue_line(&mut queued, line, qidx);
                        proof {
                            assert(forall|k2: int|
                                0 <= k2 < fpre.len() ==> #[trigger] self.frontier@[k2]
                                    == fpre[k2]);
                            assert forall|idx: int|
                                0 <= idx < total && #[trigger] queued@[idx] implies exists|
                                k2: int,
                            |
                                0 <= k2 < self.frontier@.len() && self.frontier@[k2]
                                    == line_of_index(idx, rows) by {
                                if qpre[idx] {
                                    let k0 = choose|k0: int|
                                        0 <= k0 < fpre.len() && fpre[k0] == line_of_index(
                                            idx,
                                            rows,
                                        );
                                    assert(self.frontier@[k0] == line_of_index(idx, rows));
                                } else if idx == pidx as int {
                                    assert(self.frontier@[fpre.len() as int] == perp);
                                } else {
                                    assert(idx == qidx as int);
                                    assert(self.frontier@[self.frontier@.len() - 1] == line);
                                    assert(line_of_index(idx, rows) == line);
                                }
                            }
                        }
                        proof {
                            assert forall|x2: int|
                                0 <= x2 < puzzle.cells@.len() && (#[trigger] puzzle.cells@[x2])
                                    != cells0[x2] implies exists|tx: int|
                                0 <= tx < fills@.len() && x2 == line_flat(line, cols, tx)
                                    && queued@[perp_index(line, rows, tx)] by {
                                let x = line_flat(line, cols, t as int);
                                if x2 == x {
                                    assert(0 <= (t as int) < fills@.len() && x2 == line_flat(
                                        line,
                                        cols,
                                        t as int,
                                    ) && queued@[perp_index(line, rows, t as int)]);
                                } else {
                                    assert(pre[x2] != cells0[x2]);
                                    let tx = choose|tx: int|
                                        0 <= tx < fills@.len() && x2 == line_flat(line, cols, tx)
                                            && qpre[perp_index(line, rows, tx)];
                                    assert(queued@[perp_index(line, rows, tx)]);
                                    assert(0 <= tx < fills@.len() && x2 == line_flat(
                                        line,
                                        cols,
                                        tx,
                                    ) && queued@[perp_index(line, rows, tx)]);
                                }
                            }
                        }
                    }
                }
                t += 1;
            }
            proof {
                lemma_saturation_after_pass(
                    *rules,
                    *puzzle,
                    p0,
                    line,
                    cons@,
                    blanks_m@,
                    queued@,
                    qidx as int,
                    changed,
                    rows,
                    cols,
                );
            }
        }
        if found_invalid {
            proof {
                assert(!all_lines_solved(*puzzle, *rules));
            }
            return SolveOutcome { status: SolveStatus::Unsolvable, steps_taken: steps };
        }
        proof {
            if step_budget matches Some(b) && steps < b || step_budget is None {
                assert(steps < limit);
                assert(self.frontier@.len() == 0);
                assert forall|idx: int| 0 <= idx < total implies !queued@[idx] by {
                    if queued@[idx] {
                        let k2 = choose|k2: int|
                            0 <= k2 < self.frontier@.len() && self.frontier@[k2] == line_of_index(
                                idx,
                                rows,
                            );
                    }
                }
                assert forall|i3: int| 0 <= i3 < rows implies line_saturated(
                    (#[trigger] rules.rows@[i3]).runs@,
                    puzzle.spec_row(i3),
                ) by {
                    assert(!queued@[i3]);
                    assert(line_of_index(i3, rows) == Line::Row(i3 as u16));
                }
                assert forall|j3: int| 0 <= j3 < cols implies line_saturated(
                    (#[trigger] rules.cols@[j3]).runs@,
                    puzzle.spec_col(j3),
                ) by {
                    assert(!queued@[rows + j3]);
                    assert(line_of_index(rows + j3, rows) == Line::Col(j3 as u16));
                }
                assert(all_lines_saturated(*puzzle, *rules));
            }
        }
        let mut all_ok = true;
        let mut i2: u16 = 0;
        while i2 < rows
            invariant
                i2 <= rows,
                all_ok == (forall|k: int|
                    0 <= k < i2 ==> spec_validate(
                        (#[trigger] rules.rows@[k]).runs@,
                        puzzle.spec_row(k),
                    ) == LineValidation::Solved),
                forall|k: int|
                    0 <= k < i2 ==> spec_validate(
                        (#[trigger] rules.rows@[k]).runs@,
                        puzzle.spec_row(k),
                    ) != LineValidation::Invalid,
            decreases rows - i2,
        {
            let rule = rules.row(i2);
            let v = puzzle.validate(rule, Line::Row(i2));
            if matches!(v, LineValidation::Invalid) {
                proof {
                    assert(some_line_invalid(*puzzle, *rules));
                    assert(!all_lines_solved(*puzzle, *rules));
                }
                return SolveOutcome { status: SolveStatus::Unsolvable, steps_taken: steps };
            }
            if !matches!(v, LineValidation::Solved) {
                all_ok = false;
            }
            i2 += 1;
        }
        let mut j2: u16 = 0;
        while j2 < cols
            invariant
                j2 <= cols,
                all_ok == ((forall|k: int|
                    0 <= k < rows ==> spec_validate(
                        (#[trigger] rules.rows@[k]).runs@,
                        puzzle.spec_row(k),
                    ) == LineValidation::Solved) && (forall|k: int|
                    0 <= k < j2 ==> spec_validate(
                        (#[trigger] rules.cols@[k]).runs@,
                        puzzle.spec_col(k),
                    ) == LineValidation::Solved)),
                forall|k: int|
                    0 <= k < rows ==> spec_validate(
                        (#[trigger] rules.rows@[k]).runs@,
                        puzzle.spec_row(k),
                    ) != LineValidation::Invalid,
                forall|k: int|
                    0 <= k < j2 ==> spec_validate(
                        (#[trigger] rules.cols@[k]).runs@,
                        puzzle.spec_col(k),
                    ) != LineValidation::Invalid,
            decreases cols - j2,
        {
            let rule = rules.col(j2);
            let v = puzzle.validate(rule, Line::Col(j2));
            if matches!(v, LineValidation::Invalid) {
                proof {
                    assert(some_line_invalid(*puzzle, *rules));
                    assert(!all_lines_solved(*puzzle, *rules));
                }
                return SolveOutcome { status: SolveStatus::Unsolvable, steps_taken: steps };
            }
            if !matches!(v, LineValidation::Solved) {
                all_ok = false;
            }
            j2 += 1;
        }
        proof {
            assert(!some_line_invalid(*puzzle, *rules)) by {
                if some_line_invalid(*puzzle, *rules) {
                    if exists|i3: int|
                        0 <= i3 < puzzle.rows && spec_validate(
                            (#[trigger] rules.rows@[i3]).runs@,
                            puzzle.spec_row(i3),
                        ) == LineValidation::Invalid {
                        let i3 = choose|i3: int|
                            0 <= i3 < puzzle.rows && spec_validate(
                                (#[trigger] rules.rows@[i3]).runs@,
                                puzzle.spec_row(i3),
                            ) == LineValidation::Invalid;
                        assert(false);
                    } else {
                        let j3 = choose|j3: int|
                            0 <= j3 < puzzle.cols && spec_validate(
                                (#[trigger] rules.cols@[j3]).runs@,
                                puzzle.spec_col(j3),
                            ) == LineValidation::Invalid;
                        assert(false);
                    }
                }
            }
        }
        let status = if all_ok {
            SolveStatus::Solved
        } else {
            SolveStatus::Stalled
        };
        SolveOutcome { status, steps_taken: steps }
    }
}

impl Default for Solver {
    fn default() -> (s: Solver)
        ensures
            s.frontier@.len() == 0,
    {
        Solver::new()
    }
}

} // verus!
