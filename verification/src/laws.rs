use vstd::prelude::*;

use crate::constraints::{
    can_end, can_start, cell_fits, constraints_match, forced_blank, forced_by_run, forced_cell,
    gap_after, placement_feasible, run_covers_cell, seg_fits, skippable, spec_color_list,
};
use crate::fill::Fill;
use crate::mask::LineMask;
use crate::puzzle::{spec_validate, LineValidation, Puzzle};
use crate::rule::{lemma_extract_last, spec_extract_runs};
use crate::rules::Rules;
use crate::run::Run;
use crate::solver::all_lines_solved;

verus! {

/// Recomputing a rule's constraints is idempotent: two generator
/// outputs for the same runs against the same line contents name the
/// same colors in the same order and hold identical masks.
pub proof fn lemma_constraints_idempotent(
    a: Seq<(u16, LineMask)>,
    b: Seq<(u16, LineMask)>,
    runs: Seq<Run>,
    line: Seq<Fill>,
)
    requires
        constraints_match(a, runs, line),
        constraints_match(b, runs, line),
    ensures
        a.len() == b.len(),
        forall|k: int| 0 <= k < a.len() ==> (#[trigger] a[k]).0 == b[k].0 && a[k].1@ =~= b[k].1@,
{
    assert forall|k: int|
        0 <= k < a.len() implies (#[trigger] a[k]).0 == b[k].0 && a[k].1@ =~= b[k].1@ by {
        assert(a[k].0 == spec_color_list(runs)[k]);
        assert(b[k].0 == spec_color_list(runs)[k]);
        assert forall|q: int| 0 <= q < a[k].1@.len() implies a[k].1@[q] == b[k].1@[q] by {
            assert(a[k].1@[q] == forced_cell(runs, line, a[k].0, q));
            assert(b[k].1@[q] == forced_cell(runs, line, b[k].0, q));
        }
    }
}

/// Rules derived from a filled grid leave every line of that grid
/// `Solved`: by construction each line's placed colors realize exactly
/// its rule's runs.
pub proof fn lemma_from_puzzle_solved(puzzle: Puzzle, rules: Rules)
    requires
        puzzle.wf(),
        rules.rows@.len() == puzzle.rows,
        rules.cols@.len() == puzzle.cols,
        forall|i: int|
            0 <= i < puzzle.rows ==> (#[trigger] rules.rows@[i]).runs@ == spec_extract_runs(
                puzzle.spec_row(i),
            ),
        forall|j: int|
            0 <= j < puzzle.cols ==> (#[trigger] rules.cols@[j]).runs@ == spec_extract_runs(
                puzzle.spec_col(j),
            ),
    ensures
        all_lines_solved(puzzle, rules),
{
}

/// A full placement of the runs on a line of length `n`: each run
/// starts where the one before it left room, separated from a
/// same-color neighbour, and the last ends within the line.
pub open spec fn run_step_ok(runs: Seq<Run>, n: int, starts: Seq<int>, r: int) -> bool {
    starts[r] + runs[r].count + gap_after(runs, r) <= (if r + 1 < runs.len() {
        starts[r + 1]
    } else {
        n
    })
}

pub open spec fn arrangement_ok(runs: Seq<Run>, n: int, starts: Seq<int>) -> bool {
    &&& starts.len() == runs.len()
    &&& forall|r: int| 0 <= r < runs.len() ==> 0 <= #[trigger] starts[r]
    &&& forall|r: int| 0 <= r < runs.len() ==> #[trigger] run_step_ok(runs, n, starts, r)
}

/// Run `r` covers cell `i` in the given arrangement.
pub open spec fn covers(runs: Seq<Run>, starts: Seq<int>, r: int, i: int) -> bool {
    0 <= r < runs.len() && starts[r] <= i < starts[r] + runs[r].count
}

/// The arrangement agrees with the line's known cells: every covered
/// cell could hold its run's fill, and every known-colored cell is
/// covered.
pub open spec fn arrangement_consistent(runs: Seq<Run>, line: Seq<Fill>, starts: Seq<int>) -> bool {
    &&& forall|r: int, i: int|
        covers(runs, starts, r, i) ==> 0 <= i < line.len() && cell_fits(line[i], runs[r].fill)
    &&& forall|i: int|
        0 <= i < line.len() && line[i] is Color ==> exists|r: int| covers(runs, starts, r, i)
}

/// Earlier runs of an arrangement end before later runs start.
proof fn lemma_starts_chain(runs: Seq<Run>, n: int, starts: Seq<int>, r1: int, r2: int)
    requires
        arrangement_ok(runs, n, starts),
        0 <= r1 < r2 < runs.len(),
    ensures
        starts[r1] + runs[r1].count <= starts[r2],
    decreases r2 - r1,
{
    if r2 == r1 + 1 {
        assert(run_step_ok(runs, n, starts, r1));
    } else {
        lemma_starts_chain(runs, n, starts, r1, r2 - 1);
        assert(run_step_ok(runs, n, starts, r2 - 1));
    }
}

/// Every run of an arrangement ends within the line, separating cell
/// included.
proof fn lemma_run_end_bound(runs: Seq<Run>, n: int, starts: Seq<int>, r: int)
    requires
        arrangement_ok(runs, n, starts),
        0 <= r < runs.len(),
    ensures
        starts[r] + runs[r].count + gap_after(runs, r) <= n,
    decreases runs.len() - r,
{
    assert(run_step_ok(runs, n, starts, r));
    if r + 1 < runs.len() {
        lemma_run_end_bound(runs, n, starts, r + 1);
        assert(starts[r + 1] >= 0);
    }
}

/// A cell that no run of the arrangement covers is not known-colored,
/// hence skippable.
proof fn lemma_uncovered_skippable(runs: Seq<Run>, line: Seq<Fill>, starts: Seq<int>, i: int)
    requires
        arrangement_consistent(runs, line, starts),
        0 <= i < line.len(),
        forall|r: int| !covers(runs, starts, r, i),
    ensures
        skippable(line[i]),
{
    if line[i] is Color {
        let r = choose|r: int| covers(runs, starts, r, i);
        assert(!covers(runs, starts, r, i));
    }
}

/// Cells between two neighbouring runs (or before the first, or after
/// the last) are covered by no run at all.
proof fn lemma_gap_uncovered(runs: Seq<Run>, n: int, starts: Seq<int>, b: int, i: int)
    requires
        arrangement_ok(runs, n, starts),
        0 <= b <= runs.len(),
        (if b == 0 {
            0
        } else {
            starts[b - 1] + runs[b - 1].count
        }) <= i,
        i < (if b < runs.len() {
            starts[b]
        } else {
            n
        }),
    ensures
        forall|r: int| !covers(runs, starts, r, i),
{
    assert forall|r: int| !covers(runs, starts, r, i) by {
        if 0 <= r < runs.len() {
            if r < b {
                if r < b - 1 {
                    lemma_starts_chain(runs, n, starts, r, b - 1);
                    assert(starts[r] + runs[r].count <= starts[b - 1]);
                }
                assert(starts[r] + runs[r].count <= i);
            } else {
                if b < r {
                    lemma_starts_chain(runs, n, starts, b, r);
                    assert(starts[b] + runs[b].count <= starts[r]);
                }
                assert(i < starts[r]);
            }
        }
    }
}

/// Packing a prefix still succeeds after stretching over skippable
/// cells.
proof fn lemma_can_start_skip(runs: Seq<Run>, line: Seq<Fill>, r: int, o1: int, o2: int)
    requires
        0 <= r <= runs.len(),
        0 <= o1 <= o2 <= line.len(),
        can_start(runs, line, r, o1),
        forall|i: int| o1 <= i < o2 ==> skippable(#[trigger] line[i]),
    ensures
        can_start(runs, line, r, o2),
    decreases o2 - o1,
{
    if o2 > o1 {
        lemma_can_start_skip(runs, line, r, o1, o2 - 1);
        assert(skippable(line[o2 - 1]));
    }
}

/// Packing a suffix still succeeds from an earlier offset when the
/// cells in between are skippable.
proof fn lemma_can_end_skip(runs: Seq<Run>, line: Seq<Fill>, r: int, o1: int, o2: int)
    requires
        0 <= r <= runs.len(),
        0 <= o1 <= o2 <= line.len(),
        can_end(runs, line, r, o2),
        forall|i: int| o1 <= i < o2 ==> skippable(#[trigger] line[i]),
    ensures
        can_end(runs, line, r, o1),
    decreases o2 - o1,
{
    if o1 < o2 {
        lemma_can_end_skip(runs, line, r, o1 + 1, o2);
        assert(skippable(line[o1]));
    }
}

/// The first `r` runs of a consistent arrangement pack into the cells
/// before run `r`'s start.
proof fn lemma_arrangement_can_start(runs: Seq<Run>, line: Seq<Fill>, starts: Seq<int>, r: int)
    requires
        arrangement_ok(runs, line.len() as int, starts),
        arrangement_consistent(runs, line, starts),
        0 <= r < runs.len(),
    ensures
        can_start(runs, line, r, starts[r]),
    decreases r,
{
    let n = line.len() as int;
    if r == 0 {
        assert(can_start(runs, line, 0, 0));
        lemma_run_end_bound(runs, n, starts, 0);
        assert forall|i: int| 0 <= i < starts[0] implies skippable(#[trigger] line[i]) by {
            lemma_gap_uncovered(runs, n, starts, 0, i);
            lemma_uncovered_skippable(runs, line, starts, i);
        }
        lemma_can_start_skip(runs, line, 0, 0, starts[0]);
    } else {
        lemma_arrangement_can_start(runs, line, starts, r - 1);
        let p = starts[r - 1];
        let len = runs[r - 1].count as int;
        let g = gap_after(runs, r - 1);
        lemma_run_end_bound(runs, n, starts, r - 1);
        lemma_run_end_bound(runs, n, starts, r);
        assert(run_step_ok(runs, n, starts, r - 1));
        assert(seg_fits(line, p, len, runs[r - 1].fill)) by {
            assert forall|k: int| p <= k < p + len implies cell_fits(#[trigger] line[k], runs[r - 1].fill) by {
                assert(covers(runs, starts, r - 1, k));
            }
        }
        if g == 1 {
            lemma_gap_uncovered(runs, n, starts, r, p + len);
            lemma_uncovered_skippable(runs, line, starts, p + len);
        }
        assert(can_start(runs, line, r, p + len + g));
        assert forall|i: int| p + len + g <= i < starts[r] implies skippable(#[trigger] line[i]) by {
            lemma_gap_uncovered(runs, n, starts, r, i);
            lemma_uncovered_skippable(runs, line, starts, i);
        }
        lemma_can_start_skip(runs, line, r, p + len + g, starts[r]);
    }
}

/// The runs from `r` on in a consistent arrangement pack into the
/// cells after the previous run's end (separating cell included).
proof fn lemma_arrangement_can_end(runs: Seq<Run>, line: Seq<Fill>, starts: Seq<int>, r: int)
    requires
        arrangement_ok(runs, line.len() as int, starts),
        arrangement_consistent(runs, line, starts),
        0 <= r <= runs.len(),
    ensures
        can_end(
            runs,
            line,
            r,
            if r == 0 {
                0
            } else {
                starts[r - 1] + runs[r - 1].count + gap_after(runs, r - 1)
            },
        ),
    decreases runs.len() - r,
{
    let n = line.len() as int;
    let m = runs.len() as int;
    let pe: int = if r == 0 {
        0
    } else {
        starts[r - 1] + runs[r - 1].count + gap_after(runs, r - 1)
    };
    if r > 0 {
        lemma_run_end_bound(runs, n, starts, r - 1);
    }
    if r == m {
        assert(can_end(runs, line, m, n));
        assert forall|i: int| pe <= i < n implies skippable(#[trigger] line[i]) by {
            lemma_gap_uncovered(runs, n, starts, m, i);
            lemma_uncovered_skippable(runs, line, starts, i);
        }
        lemma_can_end_skip(runs, line, m, pe, n);
    } else {
        lemma_arrangement_can_end(runs, line, starts, r + 1);
        let p = starts[r];
        let len = runs[r].count as int;
        let g = gap_after(runs, r);
        lemma_run_end_bound(runs, n, starts, r);
        assert(run_step_ok(runs, n, starts, r));
        if r > 0 {
            assert(run_step_ok(runs, n, starts, r - 1));
        }
        assert(seg_fits(line, p, len, runs[r].fill)) by {
            assert forall|k: int| p <= k < p + len implies cell_fits(#[trigger] line[k], runs[r].fill) by {
                assert(covers(runs, starts, r, k));
            }
        }
        if g == 1 {
            lemma_gap_uncovered(runs, n, starts, r + 1, p + len);
            lemma_uncovered_skippable(runs, line, starts, p + len);
        }
        assert(can_end(runs, line, r, p));
        assert forall|i: int| pe <= i < p implies skippable(#[trigger] line[i]) by {
            lemma_gap_uncovered(runs, n, starts, r, i);
            lemma_uncovered_skippable(runs, line, starts, i);
        }
        lemma_can_end_skip(runs, line, r, pe, p);
    }
}

/// Soundness of the two-pass tables against whole-line arrangements:
/// in any placement of the runs that agrees with the known cells,
/// every run's actual start is feasible.
pub proof fn lemma_arrangement_feasible(runs: Seq<Run>, line: Seq<Fill>, starts: Seq<int>, r: int)
    requires
        arrangement_ok(runs, line.len() as int, starts),
        arrangement_consistent(runs, line, starts),
        0 <= r < runs.len(),
    ensures
        placement_feasible(runs, line, r, starts[r]),
{
    let n = line.len() as int;
    let p = starts[r];
    let len = runs[r].count as int;
    let g = gap_after(runs, r);
    lemma_arrangement_can_start(runs, line, starts, r);
    lemma_arrangement_can_end(runs, line, starts, r + 1);
    lemma_run_end_bound(runs, n, starts, r);
    assert(run_step_ok(runs, n, starts, r));
    assert(seg_fits(line, p, len, runs[r].fill)) by {
        assert forall|k: int| p <= k < p + len implies cell_fits(#[trigger] line[k], runs[r].fill) by {
            assert(covers(runs, starts, r, k));
        }
    }
    if g == 1 {
        lemma_gap_uncovered(runs, n, starts, r + 1, p + len);
        lemma_uncovered_skippable(runs, line, starts, p + len);
    }
}

/// Extracted runs each cover at least one cell and carry a color.
proof fn lemma_extract_shape(line: Seq<Fill>)
    requires
        line.len() <= u16::MAX,
    ensures
        forall|r: int|
            0 <= r < spec_extract_runs(line).len() ==> (#[trigger] spec_extract_runs(
                line,
            )[r]).count >= 1 && spec_extract_runs(line)[r].fill is Color,
    decreases line.len(),
{
    if line.len() > 0 {
        lemma_extract_shape(line.drop_last());
        let init = spec_extract_runs(line.drop_last());
        let f = line.last();
        if f is Color && line.len() >= 2 && line[line.len() - 2] == f {
            lemma_extract_last(line.drop_last());
        }
    }
}

/// A line extracts to its runs placed at their actual positions: a
/// canonical arrangement that covers exactly the colored cells, each
/// with its own color. Returns the run starts.
pub proof fn lemma_extract_arrangement(line: Seq<Fill>) -> (starts: Seq<int>)
    requires
        line.len() <= u16::MAX,
    ensures
        arrangement_ok(spec_extract_runs(line), line.len() as int, starts),
        arrangement_consistent(spec_extract_runs(line), line, starts),
        forall|r: int, i: int|
            covers(spec_extract_runs(line), starts, r, i) ==> line[i] == spec_extract_runs(
                line,
            )[r].fill,
        line.len() > 0 && line.last() is Color ==> starts.len() > 0 && starts.last()
            + spec_extract_runs(line).last().count == line.len(),
    decreases line.len(),
{
    let n = line.len() as int;
    let runs = spec_extract_runs(line);
    lemma_extract_shape(line);
    if line.len() == 0 {
        let starts = Seq::<int>::empty();
        starts
    } else {
        let prefix = line.drop_last();
        let init = spec_extract_runs(prefix);
        let f = line.last();
        let sp = lemma_extract_arrangement(prefix);
        lemma_extract_shape(prefix);
        if !(f is Color) {
            assert forall|r: int| 0 <= r < runs.len() implies #[trigger] run_step_ok(
                runs,
                n,
                sp,
                r,
            ) by {
                assert(run_step_ok(init, n - 1, sp, r));
            }
            assert forall|i: int|
                0 <= i < line.len() && line[i] is Color implies exists|r: int|
                    covers(runs, sp, r, i) by {
                if i < n - 1 {
                    assert(prefix[i] == line[i]);
                    assert(exists|r: int| covers(init, sp, r, i));
                }
            }
            assert forall|r: int, i: int| covers(runs, sp, r, i) implies 0 <= i < line.len()
                && cell_fits(line[i], runs[r].fill) && line[i] == runs[r].fill by {
                assert(covers(init, sp, r, i));
                assert(prefix[i] == line[i]);
            }
            sp
        } else if line.len() >= 2 && line[line.len() - 2] == f {
            lemma_extract_last(prefix);
            let m = init.len();
            let c = init.last().count as int;
            let run2 = Run { fill: f, count: (init.last().count + 1) as u16 };
            assert(c + 1 <= u16::MAX);
            assert(runs == init.update(m - 1, run2));
            assert(sp.last() + c == n - 1);
            // the runs agree except that the last one grew by one cell
            assert(runs.len() == m);
            assert(forall|r: int| 0 <= r < m - 1 ==> runs[r] == init[r]);
            assert(runs[m - 1] == run2);
            assert forall|r: int| 0 <= r < runs.len() implies #[trigger] run_step_ok(
                runs,
                n,
                sp,
                r,
            ) by {
                assert(run_step_ok(init, n - 1, sp, r));
                if r < m - 1 {
                    assert(gap_after(runs, r) == gap_after(init, r));
                }
            }
            assert forall|r: int, i: int| covers(runs, sp, r, i) implies 0 <= i < line.len()
                && cell_fits(line[i], runs[r].fill) && line[i] == runs[r].fill by {
                if r < m - 1 {
                    assert(covers(init, sp, r, i));
                    assert(prefix[i] == line[i]);
                } else {
                    if i < sp[m - 1] + c {
                        assert(covers(init, sp, m - 1, i));
                        assert(prefix[i] == line[i]);
                        assert(line[i] == init[m - 1].fill);
                    } else {
                        assert(i == n - 1);
                        assert(line[i] == f);
                    }
                }
            }
            assert forall|i: int|
                0 <= i < line.len() && line[i] is Color implies exists|r: int|
                    covers(runs, sp, r, i) by {
                if i < n - 1 {
                    assert(prefix[i] == line[i]);
                    let r = choose|r: int| covers(init, sp, r, i);
                    assert(covers(init, sp, r, i));
                    assert(covers(runs, sp, r, i));
                } else {
                    assert(sp[m - 1] + c == n - 1);
                    assert(covers(runs, sp, m - 1, i));
                }
            }
            sp
        } else {
            let m = init.len();
            let run2 = Run { fill: f, count: 1u16 };
            assert(runs == init.push(run2));
            let starts = sp.push(n - 1);
            assert(runs.len() == m + 1);
            assert(starts.len() == m + 1);
            assert(forall|r: int| 0 <= r < m ==> runs[r] == init[r]);
            assert(forall|r: int| 0 <= r < m ==> starts[r] == sp[r]);
            assert(runs[m as int] == run2);
            assert(starts[m as int] == n - 1);
            assert forall|r: int| 0 <= r < runs.len() implies #[trigger] run_step_ok(
                runs,
                n,
                starts,
                r,
            ) by {
                if r < m - 1 {
                    assert(run_step_ok(init, n - 1, sp, r));
                    assert(gap_after(runs, r) == gap_after(init, r));
                } else if r == m - 1 {
                    assert(run_step_ok(init, n - 1, sp, r));
                    assert(sp[m - 1] + init[m - 1].count <= n - 1);
                    if gap_after(runs, m - 1) == 1 {
                        // the new run continues the same color, so the
                        // cell before the last is not colored and the
                        // previous run ends a cell early
                        assert(init[m - 1].fill == f);
                        assert(prefix.len() > 0);
                        if prefix.last() is Color {
                            lemma_extract_last(prefix);
                            assert(false);
                        }
                        assert(!covers(init, sp, m - 1, n - 2)) by {
                            if covers(init, sp, m - 1, n - 2) {
                                assert(prefix[n - 2] == init[m - 1].fill);
                            }
                        }
                        assert(init[m - 1].count >= 1);
                        assert(sp[m - 1] <= n - 2);
                        assert(sp[m - 1] + init[m - 1].count <= n - 2);
                    }
                } else {
                    assert(r == m);
                    assert(gap_after(runs, m as int) == 0);
                }
            }
            assert forall|r: int, i: int| covers(runs, starts, r, i) implies 0 <= i < line.len()
                && cell_fits(line[i], runs[r].fill) && line[i] == runs[r].fill by {
                if r < m {
                    assert(covers(init, sp, r, i));
                    assert(prefix[i] == line[i]);
                } else {
                    assert(i == n - 1);
                    assert(line[i] == f);
                }
            }
            assert forall|i: int|
                0 <= i < line.len() && line[i] is Color implies exists|r: int|
                    covers(runs, starts, r, i) by {
                if i < n - 1 {
                    assert(prefix[i] == line[i]);
                    let r = choose|r: int| covers(init, sp, r, i);
                    assert(covers(init, sp, r, i));
                    assert(covers(runs, starts, r, i));
                } else {
                    assert(covers(runs, starts, m as int, i));
                }
            }
            starts
        }
    }
}

/// Soundness of forced cells: any full arrangement of the runs that
/// agrees with the line's known cells places color `c` on every cell
/// the generator forces to `c`. Writing forced cells therefore never
/// rules out a completion that was still possible.
pub proof fn lemma_forced_cell_sound(
    runs: Seq<Run>,
    line: Seq<Fill>,
    starts: Seq<int>,
    c: u16,
    i: int,
)
    requires
        arrangement_ok(runs, line.len() as int, starts),
        arrangement_consistent(runs, line, starts),
        0 <= i < line.len(),
        forced_cell(runs, line, c, i),
    ensures
        exists|r: int| covers(runs, starts, r, i) && runs[r].fill == Fill::Color(c),
{
    let r = choose|r: int|
        0 <= r < runs.len() && runs[r].fill == Fill::Color(c) && forced_by_run(runs, line, r, i);
    lemma_arrangement_feasible(runs, line, starts, r);
    assert(placement_feasible(runs, line, r, starts[r]));
    assert(starts[r] <= i < starts[r] + runs[r].count);
    assert(covers(runs, starts, r, i) && runs[r].fill == Fill::Color(c));
}

/// The known cells of `cur` agree with the assignment `sol`: colored
/// cells match it, and crossed-out cells are not colored in it.
pub open spec fn cells_agree(sol: Seq<Fill>, cur: Seq<Fill>) -> bool {
    &&& sol.len() == cur.len()
    &&& forall|k: int| 0 <= k < cur.len() && (#[trigger] cur[k]) is Color ==> sol[k] == cur[k]
    &&& forall|k: int| 0 <= k < cur.len() && (#[trigger] cur[k]) is Cross ==> !(sol[k] is Color)
}

/// The canonical arrangement of a full line assignment that realizes
/// the runs, read against the current known cells the assignment
/// agrees with: it is consistent with both, covers exactly the
/// assignment's colored cells, and colors each as its run does.
pub proof fn lemma_solution_arrangement(runs: Seq<Run>, cur: Seq<Fill>, sol: Seq<Fill>) -> (starts:
    Seq<int>)
    requires
        sol.len() <= u16::MAX,
        spec_extract_runs(sol) == runs,
        cells_agree(sol, cur),
    ensures
        arrangement_ok(runs, cur.len() as int, starts),
        arrangement_consistent(runs, cur, starts),
        forall|r: int, i: int| covers(runs, starts, r, i) ==> sol[i] == runs[r].fill,
        forall|i: int|
            0 <= i < sol.len() && sol[i] is Color ==> exists|r: int| covers(runs, starts, r, i),
{
    let starts = lemma_extract_arrangement(sol);
    lemma_extract_shape(sol);
    assert forall|r: int, i2: int| covers(runs, starts, r, i2) implies 0 <= i2 < cur.len()
        && cell_fits(cur[i2], runs[r].fill) by {
        assert(sol[i2] == runs[r].fill);
        assert(runs[r].fill is Color);
        if cur[i2] is Color {
            assert(sol[i2] == cur[i2]);
        }
        if cur[i2] is Cross {
            assert(!(sol[i2] is Color));
        }
    }
    assert forall|i2: int| 0 <= i2 < cur.len() && cur[i2] is Color implies exists|r: int|
        covers(runs, starts, r, i2) by {
        assert(sol[i2] == cur[i2]);
    }
    assert(arrangement_consistent(runs, cur, starts));
    starts
}

/// A forced cell names the color any completion holds there: if a full
/// line assignment realizes the runs and agrees with the current known
/// cells, it carries color `c` on every cell the generator forces to
/// `c`. Writing forced cells therefore never loses a completion.
pub proof fn lemma_forced_cell_in_solution(
    runs: Seq<Run>,
    cur: Seq<Fill>,
    sol: Seq<Fill>,
    c: u16,
    i: int,
)
    requires
        sol.len() <= u16::MAX,
        spec_extract_runs(sol) == runs,
        cells_agree(sol, cur),
        0 <= i < cur.len(),
        forced_cell(runs, cur, c, i),
    ensures
        sol[i] == Fill::Color(c),
{
    let starts = lemma_solution_arrangement(runs, cur, sol);
    lemma_forced_cell_sound(runs, cur, starts, c, i);
    let r = choose|r: int| covers(runs, starts, r, i) && runs[r].fill == Fill::Color(c);
    assert(sol[i] == runs[r].fill);
}

/// No completion colors a forced-blank cell: if a full line assignment
/// realizes the runs and agrees with the current known cells, it
/// leaves empty every cell no feasible placement covers. Crossing out
/// forced-blank cells therefore never loses a completion.
pub proof fn lemma_blank_cell_in_solution(runs: Seq<Run>, cur: Seq<Fill>, sol: Seq<Fill>, i: int)
    requires
        sol.len() <= u16::MAX,
        spec_extract_runs(sol) == runs,
        cells_agree(sol, cur),
        0 <= i < cur.len(),
        forced_blank(runs, cur, i),
    ensures
        !(sol[i] is Color),
{
    let starts = lemma_solution_arrangement(runs, cur, sol);
    if sol[i] is Color {
        let r = choose|r: int| covers(runs, starts, r, i);
        lemma_arrangement_feasible(runs, cur, starts, r);
        assert(placement_feasible(runs, cur, r, starts[r]));
        assert(starts[r] <= i < starts[r] + runs[r].count);
        assert(run_covers_cell(runs, cur, r, i));
        assert(!run_covers_cell(runs, cur, r, i));
    }
}


/// The number of colored cells among `line[a..b)`.
pub open spec fn colored_count(line: Seq<Fill>, a: int, b: int) -> int
    decreases b - a,
{
    if a >= b {
        0
    } else {
        colored_count(line, a, b - 1) + (if line[b - 1] is Color {
            1int
        } else {
            0int
        })
    }
}

/// The number of cells the runs `[a, b)` occupy, gaps not counted.
pub open spec fn sum_counts(runs: Seq<Run>, a: int, b: int) -> int
    decreases b - a,
{
    if a >= b {
        0
    } else {
        sum_counts(runs, a, b - 1) + runs[b - 1].count
    }
}

proof fn lemma_count_split(line: Seq<Fill>, a: int, b: int, c2: int)
    requires
        a <= b <= c2,
    ensures
        colored_count(line, a, c2) == colored_count(line, a, b) + colored_count(line, b, c2),
    decreases c2 - b,
{
    if c2 > b {
        lemma_count_split(line, a, b, c2 - 1);
    }
}

proof fn lemma_count_bounds(line: Seq<Fill>, a: int, b: int)
    requires
        a <= b,
    ensures
        0 <= colored_count(line, a, b) <= b - a,
    decreases b - a,
{
    if b > a {
        lemma_count_bounds(line, a, b - 1);
    }
}

proof fn lemma_count_zero(line: Seq<Fill>, a: int, b: int)
    requires
        a <= b,
        forall|i: int| a <= i < b ==> !((#[trigger] line[i]) is Color),
    ensures
        colored_count(line, a, b) == 0,
    decreases b - a,
{
    if b > a {
        lemma_count_zero(line, a, b - 1);
    }
}

proof fn lemma_count_full(line: Seq<Fill>, a: int, b: int)
    requires
        a <= b,
        forall|i: int| a <= i < b ==> (#[trigger] line[i]) is Color,
    ensures
        colored_count(line, a, b) == b - a,
    decreases b - a,
{
    if b > a {
        lemma_count_full(line, a, b - 1);
    }
}

proof fn lemma_count_all_colored(line: Seq<Fill>, a: int, b: int)
    requires
        a <= b,
        colored_count(line, a, b) == b - a,
    ensures
        forall|i: int| a <= i < b ==> (#[trigger] line[i]) is Color,
    decreases b - a,
{
    if b > a {
        lemma_count_bounds(line, a, b - 1);
        lemma_count_all_colored(line, a, b - 1);
    }
}

proof fn lemma_count_monotone(line: Seq<Fill>, a: int, b1: int, b2: int)
    requires
        a <= b1 <= b2,
    ensures
        colored_count(line, a, b1) <= colored_count(line, a, b2),
{
    lemma_count_split(line, a, b1, b2);
    lemma_count_bounds(line, b1, b2);
}

proof fn lemma_sum_split(runs: Seq<Run>, a: int, b: int, c2: int)
    requires
        a <= b <= c2,
    ensures
        sum_counts(runs, a, c2) == sum_counts(runs, a, b) + sum_counts(runs, b, c2),
    decreases c2 - b,
{
    if c2 > b {
        lemma_sum_split(runs, a, b, c2 - 1);
    }
}

/// A packable prefix covers every colored cell below its offset, so it
/// cannot hold more colored cells than its runs occupy.
proof fn lemma_can_start_count(runs: Seq<Run>, line: Seq<Fill>, r: int, o: int)
    requires
        can_start(runs, line, r, o),
    ensures
        colored_count(line, 0, o) <= sum_counts(runs, 0, r),
    decreases r, o,
{
    if r == 0 {
        if o > 0 {
            lemma_can_start_count(runs, line, 0, o - 1);
        }
    } else {
        let skip = o > 0 && skippable(line[o - 1]) && can_start(runs, line, r, o - 1);
        if skip {
            lemma_can_start_count(runs, line, r, o - 1);
            lemma_count_bounds(line, 0, o - 1);
            assert(sum_counts(runs, 0, r) >= sum_counts(runs, 0, r - 1) + runs[r - 1].count);
        } else {
            let len = runs[r - 1].count as int;
            let g = gap_after(runs, r - 1);
            let p = o - len - g;
            assert(p >= 0 && can_start(runs, line, r - 1, p));
            lemma_can_start_count(runs, line, r - 1, p);
            lemma_count_split(line, 0, p, o);
            lemma_count_split(line, p, p + len, o);
            lemma_count_bounds(line, p, p + len);
            if g == 1 {
                assert(!(line[p + len] is Color));
                lemma_count_zero(line, p + len, o);
            }
        }
    }
}

/// A packable suffix covers every colored cell from its offset on, so
/// it cannot hold more colored cells than its runs occupy.
proof fn lemma_can_end_count(runs: Seq<Run>, line: Seq<Fill>, r: int, o: int)
    requires
        can_end(runs, line, r, o),
    ensures
        colored_count(line, o, line.len() as int) <= sum_counts(runs, r, runs.len() as int),
    decreases runs.len() - r, line.len() - o,
{
    let n = line.len() as int;
    let m = runs.len() as int;
    if r == m {
        if o < n {
            assert(skippable(line[o]) && can_end(runs, line, r, o + 1));
            lemma_can_end_count(runs, line, r, o + 1);
            lemma_count_split(line, o, o + 1, n);
            assert(colored_count(line, o, o) == 0);
            assert(colored_count(line, o, o + 1) == 0);
        } else {
            assert(o == n);
            assert(colored_count(line, n, n) == 0);
            assert(sum_counts(runs, m, m) == 0);
        }
    } else {
        let skip = o < n && skippable(line[o]) && can_end(runs, line, r, o + 1);
        if skip {
            lemma_can_end_count(runs, line, r, o + 1);
            lemma_count_split(line, o, o + 1, n);
            lemma_count_bounds(line, o + 1, n);
            assert(colored_count(line, o, o) == 0);
            assert(colored_count(line, o, o + 1) == 0);
            assert(sum_counts(runs, r, m) >= sum_counts(runs, r + 1, m)) by {
                lemma_sum_split(runs, r, r + 1, m);
                assert(sum_counts(runs, r, r) == 0);
                assert(sum_counts(runs, r, r + 1) == runs[r].count);
            }
        } else {
            let len = runs[r].count as int;
            let g = gap_after(runs, r);
            assert(o + len + g <= n && can_end(runs, line, r + 1, o + len + g));
            lemma_can_end_count(runs, line, r + 1, o + len + g);
            lemma_count_split(line, o, o + len + g, n);
            lemma_count_split(line, o, o + len, o + len + g);
            lemma_count_bounds(line, o, o + len);
            if g == 1 {
                assert(!(line[o + len] is Color));
                lemma_count_zero(line, o + len, o + len + g);
            }
            assert(sum_counts(runs, r, m) == runs[r].count + sum_counts(runs, r + 1, m)) by {
                lemma_sum_split(runs, r, r + 1, m);
                assert(sum_counts(runs, r, r) == 0);
                assert(sum_counts(runs, r, r + 1) == runs[r].count);
            }
        }
    }
}

/// In an arrangement that covers exactly the colored cells, the
/// colored cells below run `r`'s start are the cells the earlier runs
/// occupy (for `r` past the last run: the whole line holds the total).
proof fn lemma_canonical_count(runs: Seq<Run>, line: Seq<Fill>, starts: Seq<int>, r: int)
    requires
        arrangement_ok(runs, line.len() as int, starts),
        arrangement_consistent(runs, line, starts),
        forall|q: int, i: int| covers(runs, starts, q, i) ==> line[i] == runs[q].fill,
        forall|q: int| 0 <= q < runs.len() ==> (#[trigger] runs[q]).fill is Color,
        0 <= r <= runs.len(),
    ensures
        colored_count(
            line,
            0,
            if r < runs.len() {
                starts[r]
            } else {
                line.len() as int
            },
        ) == sum_counts(runs, 0, r),
    decreases r,
{
    let n = line.len() as int;
    let m = runs.len() as int;
    let boundary: int = if r < m {
        starts[r]
    } else {
        n
    };
    if r == 0 {
        if r < m {
            lemma_run_end_bound(runs, n, starts, 0);
        }
        assert forall|i: int| 0 <= i < boundary implies !((#[trigger] line[i]) is Color) by {
            lemma_gap_uncovered(runs, n, starts, 0, i);
            lemma_uncovered_skippable(runs, line, starts, i);
        }
        lemma_count_zero(line, 0, boundary);
    } else {
        lemma_canonical_count(runs, line, starts, r - 1);
        let s0 = starts[r - 1];
        let c0 = runs[r - 1].count as int;
        lemma_run_end_bound(runs, n, starts, r - 1);
        assert(run_step_ok(runs, n, starts, r - 1));
        if r < m {
            lemma_run_end_bound(runs, n, starts, r);
        }
        assert(s0 + c0 <= boundary);
        lemma_count_split(line, 0, s0, boundary);
        lemma_count_split(line, s0, s0 + c0, boundary);
        assert forall|i: int| s0 <= i < s0 + c0 implies (#[trigger] line[i]) is Color by {
            assert(covers(runs, starts, r - 1, i));
            assert(line[i] == runs[r - 1].fill);
        }
        lemma_count_full(line, s0, s0 + c0);
        assert forall|i: int| s0 + c0 <= i < boundary implies !((#[trigger] line[i]) is Color) by {
            lemma_gap_uncovered(runs, n, starts, r, i);
            lemma_uncovered_skippable(runs, line, starts, i);
        }
        lemma_count_zero(line, s0 + c0, boundary);
    }
}

/// On a line whose colored cells already realize the runs, a run has
/// exactly one feasible start: its actual position.
proof fn lemma_solved_placement_unique(
    runs: Seq<Run>,
    line: Seq<Fill>,
    starts: Seq<int>,
    r: int,
    p: int,
)
    requires
        line.len() <= u16::MAX,
        spec_extract_runs(line) == runs,
        arrangement_ok(runs, line.len() as int, starts),
        arrangement_consistent(runs, line, starts),
        forall|q: int, i: int| covers(runs, starts, q, i) ==> line[i] == runs[q].fill,
        0 <= r < runs.len(),
        placement_feasible(runs, line, r, p),
    ensures
        p == starts[r],
{
    let n = line.len() as int;
    let m = runs.len() as int;
    lemma_extract_shape(line);
    let len = runs[r].count as int;
    let g = gap_after(runs, r);
    lemma_can_start_count(runs, line, r, p);
    lemma_can_end_count(runs, line, r + 1, p + len + g);
    lemma_canonical_count(runs, line, starts, m);
    lemma_canonical_count(runs, line, starts, r);
    lemma_sum_split(runs, 0, r, m);
    lemma_sum_split(runs, r, r + 1, m);
    assert(sum_counts(runs, r, r) == 0);
    assert(sum_counts(runs, r, r + 1) == runs[r].count);
    lemma_count_split(line, 0, p, n);
    lemma_count_split(line, p, p + len, n);
    lemma_count_split(line, p + len, p + len + g, n);
    lemma_count_bounds(line, p, p + len);
    lemma_count_bounds(line, 0, p);
    lemma_count_bounds(line, p + len + g, n);
    if g == 1 {
        assert(!(line[p + len] is Color));
        lemma_count_zero(line, p + len, p + len + 1);
    } else {
        assert(colored_count(line, p + len, p + len) == 0);
    }
    assert(colored_count(line, 0, p) == sum_counts(runs, 0, r));
    assert(colored_count(line, p, p + len) == len);
    lemma_count_all_colored(line, p, p + len);
    if p < starts[r] {
        assert(line[p] is Color);
        assert(colored_count(line, 0, p + 1) == sum_counts(runs, 0, r) + 1);
        lemma_count_monotone(line, 0, p + 1, starts[r]);
        assert(false);
    }
    if p > starts[r] {
        assert(covers(runs, starts, r, starts[r]));
        assert(line[starts[r]] is Color);
        assert(colored_count(line, 0, starts[r] + 1) == sum_counts(runs, 0, r) + 1);
        lemma_count_monotone(line, 0, starts[r] + 1, p);
        assert(false);
    }
}


/// On a line that validates `Solved`, the generator's blank verdict is
/// exact: a cell is forced blank exactly when the line holds no color
/// there.
proof fn lemma_solved_line_blanks_exact(runs: Seq<Run>, line: Seq<Fill>, i: int)
    requires
        line.len() <= u16::MAX,
        spec_validate(runs, line) == LineValidation::Solved,
        0 <= i < line.len(),
    ensures
        forced_blank(runs, line, i) <==> !(line[i] is Color),
{
    assert(spec_extract_runs(line) == runs);
    let starts = lemma_extract_arrangement(line);
    lemma_extract_shape(line);
    if line[i] is Color {
        let r = choose|r: int| covers(runs, starts, r, i);
        assert(covers(runs, starts, r, i));
        lemma_arrangement_feasible(runs, line, starts, r);
        assert(run_covers_cell(runs, line, r, i));
        assert(!forced_blank(runs, line, i));
    } else {
        assert forall|r: int| 0 <= r < runs.len() implies !run_covers_cell(runs, line, r, i) by {
            if run_covers_cell(runs, line, r, i) {
                let p = choose|p: int|
                    placement_feasible(runs, line, r, p) && p <= i < p + runs[r].count;
                lemma_solved_placement_unique(runs, line, starts, r, p);
                assert(p == starts[r]);
                assert(covers(runs, starts, r, i));
                assert(line[i] == runs[r].fill);
                assert(false);
            }
        }
    }
}

/// On a line that validates `Solved`, rerunning the generator yields a
/// verdict equal to the line's actual contents: a cell is forced to a
/// color exactly when it already holds that color, and forced blank
/// exactly when it holds no color; no uncertainty remains.
pub proof fn lemma_solved_line_mask_exact(runs: Seq<Run>, line: Seq<Fill>, c: u16, i: int)
    requires
        line.len() <= u16::MAX,
        spec_validate(runs, line) == LineValidation::Solved,
        0 <= i < line.len(),
    ensures
        forced_cell(runs, line, c, i) <==> line[i] == Fill::Color(c),
        forced_blank(runs, line, i) <==> !(line[i] is Color),
{
    lemma_solved_line_blanks_exact(runs, line, i);
    assert(spec_extract_runs(line) == runs);
    let starts = lemma_extract_arrangement(line);
    lemma_extract_shape(line);
    if forced_cell(runs, line, c, i) {
        lemma_forced_cell_sound(runs, line, starts, c, i);
        let r = choose|r: int| covers(runs, starts, r, i) && runs[r].fill == Fill::Color(c);
        assert(line[i] == runs[r].fill);
    }
    if line[i] == Fill::Color(c) {
        let r = choose|r: int| covers(runs, starts, r, i);
        assert(covers(runs, starts, r, i));
        assert(runs[r].fill == Fill::Color(c));
        lemma_arrangement_feasible(runs, line, starts, r);
        assert(placement_feasible(runs, line, r, starts[r]));
        assert forall|p: int| placement_feasible(runs, line, r, p) implies p <= i < p
            + runs[r].count by {
            lemma_solved_placement_unique(runs, line, starts, r, p);
        }
        assert(forced_by_run(runs, line, r, i));
        assert(forced_cell(runs, line, c, i));
    }
}

/// Colored cells never get rarer under a pointwise refinement.
proof fn lemma_count_pointwise_le(a: Seq<Fill>, b: Seq<Fill>, lo: int, hi: int)
    requires
        lo <= hi,
        forall|i: int| lo <= i < hi && (#[trigger] a[i]) is Color ==> b[i] is Color,
    ensures
        colored_count(a, lo, hi) <= colored_count(b, lo, hi),
    decreases hi - lo,
{
    if hi > lo {
        lemma_count_pointwise_le(a, b, lo, hi - 1);
    }
}

/// If every colored cell of `a` is colored the same way in `b` and
/// both ranges hold equally many colored cells, the colored cells
/// coincide.
proof fn lemma_count_subset_equal(a: Seq<Fill>, b: Seq<Fill>, lo: int, hi: int)
    requires
        lo <= hi,
        forall|i: int| lo <= i < hi && (#[trigger] a[i]) is Color ==> b[i] == a[i],
        colored_count(a, lo, hi) == colored_count(b, lo, hi),
    ensures
        forall|i: int| lo <= i < hi && (#[trigger] b[i]) is Color ==> a[i] == b[i],
    decreases hi - lo,
{
    if hi > lo {
        lemma_count_pointwise_le(a, b, lo, hi - 1);
        if b[hi - 1] is Color && !(a[hi - 1] is Color) {
            assert(colored_count(a, lo, hi - 1) == colored_count(b, lo, hi - 1) + 1);
            assert(false);
        }
        lemma_count_subset_equal(a, b, lo, hi - 1);
    }
}

/// A line holds exactly as many colored cells as its extracted runs
/// occupy.
proof fn lemma_extract_total(line: Seq<Fill>)
    requires
        line.len() <= u16::MAX,
    ensures
        colored_count(line, 0, line.len() as int) == sum_counts(
            spec_extract_runs(line),
            0,
            spec_extract_runs(line).len() as int,
        ),
{
    let starts = lemma_extract_arrangement(line);
    lemma_extract_shape(line);
    lemma_canonical_count(
        spec_extract_runs(line),
        line,
        starts,
        spec_extract_runs(line).len() as int,
    );
}

/// An in-range flat index splits into an in-range coordinate pair.
proof fn lemma_flat_coords(rows: int, cols: int, k: int)
    requires
        1 <= cols,
        1 <= rows,
        0 <= k < rows * cols,
    ensures
        0 <= k / cols < rows,
        0 <= k % cols < cols,
        k == (k / cols) * cols + (k % cols),
{
    assert(0 <= k / cols < rows && 0 <= k % cols < cols && k == (k / cols) * cols + (k % cols))
        by (nonlinear_arith)
        requires
            1 <= cols,
            1 <= rows,
            0 <= k < rows * cols,
    ;
}

/// Round trip: when propagation, run against the rules read off a
/// filled grid, ends with every line `Solved` on a grid it could only
/// have extended, it has rebuilt exactly the source grid's picture:
/// the same cells hold the same colors, and every other cell is empty
/// (blank or crossed out) on both sides.
pub proof fn lemma_round_trip(source: Puzzle, rules: Rules, result: Puzzle)
    requires
        source.wf(),
        source.rows == result.rows,
        source.cols == result.cols,
        result.cells@.len() == result.rows * result.cols,
        rules.rows@.len() == source.rows,
        forall|i: int|
            0 <= i < source.rows ==> (#[trigger] rules.rows@[i]).runs@ == spec_extract_runs(
                source.spec_row(i),
            ),
        cells_agree(source.cells@, result.cells@),
        forall|i: int|
            0 <= i < result.rows ==> spec_validate(
                (#[trigger] rules.rows@[i]).runs@,
                result.spec_row(i),
            ) == LineValidation::Solved,
    ensures
        forall|k: int|
            0 <= k < result.cells@.len() ==> ((#[trigger] result.cells@[k]) is Color
                || source.cells@[k] is Color ==> result.cells@[k] == source.cells@[k]),
{
    let rows = source.rows as int;
    let cols = source.cols as int;
    assert forall|k: int|
        0 <= k < result.cells@.len() && (result.cells@[k] is Color || source.cells@[k]
            is Color) implies (#[trigger] result.cells@[k]) == source.cells@[k] by {
        lemma_flat_coords(rows, cols, k);
        let i = k / cols;
        let c2 = k % cols;
        let a = result.spec_row(i);
        let b = source.spec_row(i);
        assert(spec_validate(rules.rows@[i].runs@, a) == LineValidation::Solved);
        assert(spec_extract_runs(a) == rules.rows@[i].runs@);
        assert(spec_extract_runs(b) == rules.rows@[i].runs@);
        assert forall|t: int| 0 <= t < cols implies a[t] == result.cells@[i * cols + t] && b[t]
            == source.cells@[i * cols + t] by {
            crate::puzzle::lemma_flat_index(rows, cols, i, t);
        }
        assert forall|t: int| 0 <= t < a.len() && (#[trigger] a[t]) is Color implies b[t]
            == a[t] by {
            crate::puzzle::lemma_flat_index(rows, cols, i, t);
            assert(source.cells@[i * cols + t] == result.cells@[i * cols + t]);
        }
        lemma_extract_total(a);
        lemma_extract_total(b);
        lemma_count_subset_equal(a, b, 0, cols);
        if b[c2] is Color {
            assert(a[c2] == b[c2]);
        }
        if a[c2] is Color {
            assert(b[c2] == a[c2]);
        }
        assert(result.cells@[k] == a[c2] && source.cells@[k] == b[c2]);
    }
}

} // verus!
