use vstd::prelude::*;

use crate::fill::Fill;
use crate::mask::LineMask;
use crate::run::Run;
use crate::rule::{spec_runs_valid, Rule};

verus! {

/// A cell an arrangement may leave uncovered: anything not already
/// known to hold a color.
pub open spec fn skippable(f: Fill) -> bool {
    !(f is Color)
}

/// A cell a run of fill `c` may cover: unknown, or already that color.
pub open spec fn cell_fits(f: Fill, c: Fill) -> bool {
    f is Blank || f == c
}

/// Every cell of `line[start..start+len)` can be covered by fill `c`.
pub open spec fn seg_fits(line: Seq<Fill>, start: int, len: int, c: Fill) -> bool {
    forall|k: int| start <= k < start + len ==> cell_fits(#[trigger] line[k], c)
}

/// One separating cell is needed after run `r` exactly when the next
/// run carries the same fill.
pub open spec fn gap_after(runs: Seq<Run>, r: int) -> int {
    if r + 1 < runs.len() && runs[r].fill == runs[r + 1].fill {
        1
    } else {
        0
    }
}

/// Runs `[0, r)` can be packed into cells `[0, offset)` consistently
/// with the known cells: covered cells are unknown or match their run's
/// color, uncovered cells are not known-colored, and adjacent runs of
/// one color keep a separating cell. The separating cell run `r` would
/// need after run `r - 1` is already accounted for, so run `r` may
/// start at `offset` itself.
pub open spec fn can_start(runs: Seq<Run>, line: Seq<Fill>, r: int, offset: int) -> bool
    decreases r, offset,
{
    if r < 0 || offset < 0 || offset > line.len() || r > runs.len() {
        false
    } else if r == 0 {
        offset == 0 || (skippable(line[offset - 1]) && can_start(runs, line, 0, offset - 1))
    } else {
        let skip = offset > 0 && skippable(line[offset - 1]) && can_start(
            runs,
            line,
            r,
            offset - 1,
        );
        let len = runs[r - 1].count as int;
        let g = gap_after(runs, r - 1);
        let p = offset - len - g;
        let place = p >= 0 && seg_fits(line, p, len, runs[r - 1].fill) && (g == 1 ==> skippable(
            line[p + len],
        )) && can_start(runs, line, r - 1, p);
        skip || place
    }
}

/// Runs `[r, m)` can be packed into cells `[offset, n)` consistently
/// with the known cells, run `r` starting no earlier than `offset`.
pub open spec fn can_end(runs: Seq<Run>, line: Seq<Fill>, r: int, offset: int) -> bool
    decreases runs.len() - r, line.len() - offset,
{
    let n = line.len() as int;
    if r < 0 || offset < 0 || offset > n || r > runs.len() {
        false
    } else if r == runs.len() {
        offset == n || (skippable(line[offset]) && can_end(runs, line, r, offset + 1))
    } else {
        let skip = offset < n && skippable(line[offset]) && can_end(runs, line, r, offset + 1);
        let len = runs[r].count as int;
        let g = gap_after(runs, r);
        let place = offset + len + g <= n && seg_fits(line, offset, len, runs[r].fill) && (g == 1
            ==> skippable(line[offset + len])) && can_end(runs, line, r + 1, offset + len + g);
        skip || place
    }
}

/// Run `r` can start exactly at cell `p`: the earlier runs fit before
/// it, its own cells are compatible, the separating cell a same-color
/// successor would need is free, and the later runs fit after it.
pub open spec fn placement_feasible(runs: Seq<Run>, line: Seq<Fill>, r: int, p: int) -> bool {
    let len = runs[r].count as int;
    let g = gap_after(runs, r);
    &&& 0 <= r < runs.len()
    &&& 0 <= p
    &&& p + len + g <= line.len()
    &&& can_start(runs, line, r, p)
    &&& seg_fits(line, p, len, runs[r].fill)
    &&& (g == 1 ==> skippable(line[p + len]))
    &&& can_end(runs, line, r + 1, p + len + g)
}

/// Run `r` has at least one feasible start on the line.
pub open spec fn run_has_placement(runs: Seq<Run>, line: Seq<Fill>, r: int) -> bool {
    exists|p: int| placement_feasible(runs, line, r, p)
}

/// Cell `i` lies under run `r` in every feasible placement of that run.
pub open spec fn forced_by_run(runs: Seq<Run>, line: Seq<Fill>, r: int, i: int) -> bool {
    &&& run_has_placement(runs, line, r)
    &&& forall|p: int|
        placement_feasible(runs, line, r, p) ==> p <= i < p + runs[r].count
}

/// Cell `i` is forced to color `c`: some run of that color covers it in
/// every feasible placement of that run.
pub open spec fn forced_cell(runs: Seq<Run>, line: Seq<Fill>, c: u16, i: int) -> bool {
    exists|r: int|
        0 <= r < runs.len() && runs[r].fill == Fill::Color(c) && forced_by_run(runs, line, r, i)
}

/// Some feasible placement of run `r` covers cell `i`.
pub open spec fn run_covers_cell(runs: Seq<Run>, line: Seq<Fill>, r: int, i: int) -> bool {
    exists|p: int| placement_feasible(runs, line, r, p) && p <= i < p + runs[r].count
}

/// Cell `i` is forced blank: no feasible placement of any run covers
/// it, so every remaining valid arrangement leaves it empty. With zero
/// runs this holds of the entire line.
pub open spec fn forced_blank(runs: Seq<Run>, line: Seq<Fill>, i: int) -> bool {
    forall|r: int| 0 <= r < runs.len() ==> !run_covers_cell(runs, line, r, i)
}

/// The blank mask marks exactly the cells forced blank.
pub open spec fn blanks_match(mask: Seq<bool>, runs: Seq<Run>, line: Seq<Fill>) -> bool {
    &&& mask.len() == line.len()
    &&& forall|i: int| 0 <= i < line.len() ==> mask[i] == forced_blank(runs, line, i)
}

/// The id a color fill carries; 0 for fills that carry none.
pub open spec fn color_id(f: Fill) -> u16 {
    match f {
        Fill::Color(id) => id,
        _ => 0,
    }
}

/// The distinct colors of the runs, in order of first appearance.
pub open spec fn spec_color_list(runs: Seq<Run>) -> Seq<u16>
    decreases runs.len(),
{
    if runs.len() == 0 {
        Seq::<u16>::empty()
    } else {
        let init = spec_color_list(runs.drop_last());
        let c = color_id(runs.last().fill);
        if init.contains(c) {
            init
        } else {
            init.push(c)
        }
    }
}


/// Every color the list names comes off a valid run, so its id is a
/// real color id.
pub proof fn lemma_color_list_valid(runs: Seq<Run>)
    requires
        spec_runs_valid(runs),
    ensures
        forall|k: int|
            0 <= k < spec_color_list(runs).len() ==> (#[trigger] spec_color_list(runs)[k]) >= 1,
    decreases runs.len(),
{
    if runs.len() > 0 {
        assert(spec_runs_valid(runs.drop_last()));
        lemma_color_list_valid(runs.drop_last());
        assert(runs[runs.len() - 1].spec_valid());
        let init = spec_color_list(runs.drop_last());
        let c = color_id(runs.last().fill);
        assert(c >= 1);
        if !init.contains(c) {
            let x = init.push(c);
            assert forall|k: int| 0 <= k < x.len() implies x[k] >= 1 by {
                if k < init.len() {
                    assert(init[k] >= 1);
                } else {
                    assert(x[k] == c);
                }
            }
        }
    }
}

/// Every run's color appears in the color list.
pub proof fn lemma_color_list_complete(runs: Seq<Run>, r: int)
    requires
        0 <= r < runs.len(),
    ensures
        spec_color_list(runs).contains(color_id(runs[r].fill)),
    decreases runs.len(),
{
    let c = color_id(runs[r].fill);
    let init = spec_color_list(runs.drop_last());
    if r == runs.len() - 1 {
        if !init.contains(c) {
            assert(spec_color_list(runs) == init.push(c));
            assert(spec_color_list(runs)[init.len() as int] == c);
        }
    } else {
        lemma_color_list_complete(runs.drop_last(), r);
        assert(runs.drop_last()[r] == runs[r]);
        if !init.contains(color_id(runs.last().fill)) {
            let k = choose|k: int| 0 <= k < init.len() && init[k] == c;
            assert(spec_color_list(runs)[k] == c);
        }
    }
}

/// The generator's full output for given runs and line contents: one
/// entry per color of the runs, in order of first appearance, whose
/// mask marks exactly the cells forced to that color.
pub open spec fn constraints_match(
    cons: Seq<(u16, LineMask)>,
    runs: Seq<Run>,
    line: Seq<Fill>,
) -> bool {
    &&& cons.len() == spec_color_list(runs).len()
    &&& forall|k: int| 0 <= k < cons.len() ==> (#[trigger] cons[k]).0 == spec_color_list(runs)[k]
    &&& forall|k: int| 0 <= k < cons.len() ==> (#[trigger] cons[k]).1@.len() == line.len()
    &&& forall|k: int, i: int|
        0 <= k < cons.len() && 0 <= i < line.len() ==> (#[trigger] cons[k].1@[i]) == forced_cell(
            runs,
            line,
            cons[k].0,
            i,
        )
}

/// Whether every cell of `line[start..start+len)` can be covered by
/// fill `c`.
fn seg_ok(line: &Vec<Fill>, start: usize, len: usize, c: Fill) -> (r: bool)
    requires
        start + len <= line@.len(),
    ensures
        r == seg_fits(line@, start as int, len as int, c),
{
    let llen = line.len();
    let mut k: usize = 0;
    while k < len
        invariant
            llen == line@.len(),
            start + len <= llen,
            0 <= k <= len,
            forall|j: int| start <= j < start + k ==> cell_fits(#[trigger] line@[j], c),
        decreases len - k,
    {
        let cell = line[start + k];
        let fits = match cell {
            Fill::Blank => true,
            _ => cell == c,
        };
        if !fits {
            assert(!cell_fits(line@[start + k], c));
            return false;
        }
        k += 1;
    }
    true
}

/// Fit runs in a line going forwards.
///
/// Builds the forward reachability table: entry `[offset][r]` says that
/// runs `[0, r)` can be packed into the cells before `offset`
/// consistently with the known cells.
pub fn fit_forwards(runs: &Vec<Run>, line: &Vec<Fill>) -> (dp: Vec<Vec<bool>>)
    requires
        spec_runs_valid(runs@),
        runs@.len() <= u16::MAX,
        line@.len() <= u16::MAX,
    ensures
        dp@.len() == line@.len() + 1,
        forall|o: int| 0 <= o <= line@.len() ==> (#[trigger] dp@[o])@.len() == runs@.len() + 1,
        forall|o: int, r: int|
            0 <= o <= line@.len() && 0 <= r <= runs@.len() ==> (#[trigger] dp@[o]@[r]) == can_start(
                runs@,
                line@,
                r,
                o,
            ),
{
    let n = line.len();
    let m = runs.len();
    let mut dp: Vec<Vec<bool>> = Vec::new();
    let mut o: usize = 0;
    while o <= n
        invariant
            n == line@.len(),
            n <= u16::MAX,
            m == runs@.len(),
            m <= u16::MAX,
            spec_runs_valid(runs@),
            dp@.len() == o,
            o <= n + 1,
            forall|o2: int| 0 <= o2 < o ==> (#[trigger] dp@[o2])@.len() == m + 1,
            forall|o2: int, r2: int|
                0 <= o2 < o && 0 <= r2 <= m ==> (#[trigger] dp@[o2]@[r2]) == can_start(
                    runs@,
                    line@,
                    r2,
                    o2,
                ),
        decreases n + 1 - o,
    {
        let mut row: Vec<bool> = Vec::new();
        let mut r: usize = 0;
        while r <= m
            invariant
                n == line@.len(),
                n <= u16::MAX,
                m == runs@.len(),
                m <= u16::MAX,
                spec_runs_valid(runs@),
                o <= n,
                dp@.len() == o,
                forall|o2: int| 0 <= o2 < o ==> (#[trigger] dp@[o2])@.len() == m + 1,
                forall|o2: int, r2: int|
                    0 <= o2 < o && 0 <= r2 <= m ==> (#[trigger] dp@[o2]@[r2]) == can_start(
                        runs@,
                        line@,
                        r2,
                        o2,
                    ),
                row@.len() == r,
                r <= m + 1,
                forall|r2: int|
                    0 <= r2 < r ==> (#[trigger] row@[r2]) == can_start(runs@, line@, r2, o as int),
            decreases m + 1 - r,
        {
            let val: bool;
            if o == 0 {
                val = r == 0;
            } else {
                let skip = !matches!(line[o - 1], Fill::Color(_)) && dp[o - 1][r];
                let mut place = false;
                if r >= 1 {
                    let len = runs[r - 1].count as usize;
                    let g: usize = if r < m && runs[r - 1].fill == runs[r].fill {
                        1
                    } else {
                        0
                    };
                    if o >= len + g {
                        let p = o - len - g;
                        place = seg_ok(line, p, len, runs[r - 1].fill) && (g == 0 || !matches!(
                            line[p + len],
                            Fill::Color(_),
                        )) && dp[p][r - 1];
                    }
                }
                val = skip || place;
            }
            assert(val == can_start(runs@, line@, r as int, o as int));
            row.push(val);
            r += 1;
        }
        dp.push(row);
        o += 1;
    }
    dp
}

/// Fit runs in a line going backwards.
///
/// Builds the backward reachability table: entry `[offset][r]` says
/// that runs `[r, m)` can be packed into the cells from `offset` on
/// consistently with the known cells.
pub fn fit_backwards(runs: &Vec<Run>, line: &Vec<Fill>) -> (dp: Vec<Vec<bool>>)
    requires
        spec_runs_valid(runs@),
        runs@.len() <= u16::MAX,
        line@.len() <= u16::MAX,
    ensures
        dp@.len() == line@.len() + 1,
        forall|o: int| 0 <= o <= line@.len() ==> (#[trigger] dp@[o])@.len() == runs@.len() + 1,
        forall|o: int, r: int|
            0 <= o <= line@.len() && 0 <= r <= runs@.len() ==> (#[trigger] dp@[o]@[r]) == can_end(
                runs@,
                line@,
                r,
                o,
            ),
{
    let n = line.len();
    let m = runs.len();
    let mut dp: Vec<Vec<bool>> = Vec::new();
    while dp.len() <= n
        invariant
            dp@.len() <= n + 1,
            forall|o2: int| 0 <= o2 < dp@.len() ==> (#[trigger] dp@[o2])@.len() == 0,
        decreases n + 1 - dp@.len(),
    {
        dp.push(Vec::new());
    }
    let mut o: usize = n + 1;
    while o > 0
        invariant
            n == line@.len(),
            n <= u16::MAX,
            m == runs@.len(),
            m <= u16::MAX,
            spec_runs_valid(runs@),
            dp@.len() == n + 1,
            o <= n + 1,
            forall|o2: int| o <= o2 <= n ==> (#[trigger] dp@[o2])@.len() == m + 1,
            forall|o2: int, r2: int|
                o <= o2 <= n && 0 <= r2 <= m ==> (#[trigger] dp@[o2]@[r2]) == can_end(
                    runs@,
                    line@,
                    r2,
                    o2,
                ),
        decreases o,
    {
        o -= 1;
        let mut row: Vec<bool> = Vec::new();
        let mut r: usize = 0;
        while r <= m
            invariant
                n == line@.len(),
                n <= u16::MAX,
                m == runs@.len(),
                m <= u16::MAX,
                spec_runs_valid(runs@),
                dp@.len() == n + 1,
                o <= n,
                forall|o2: int| o < o2 <= n ==> (#[trigger] dp@[o2])@.len() == m + 1,
                forall|o2: int, r2: int|
                    o < o2 <= n && 0 <= r2 <= m ==> (#[trigger] dp@[o2]@[r2]) == can_end(
                        runs@,
                        line@,
                        r2,
                        o2,
                    ),
                row@.len() == r,
                r <= m + 1,
                forall|r2: int|
                    0 <= r2 < r ==> (#[trigger] row@[r2]) == can_end(runs@, line@, r2, o as int),
            decreases m + 1 - r,
        {
            let val: bool;
            if r == m {
                if o == n {
                    val = true;
                } else {
                    val = !matches!(line[o], Fill::Color(_)) && dp[o + 1][m];
                }
            } else {
                let skip = o < n && !matches!(line[o], Fill::Color(_)) && dp[o + 1][r];
                let len = runs[r].count as usize;
                let g: usize = if r + 1 < m && runs[r].fill == runs[r + 1].fill {
                    1
                } else {
                    0
                };
                let mut place = false;
                if o + len + g <= n {
                    place = seg_ok(line, o, len, runs[r].fill) && (g == 0 || !matches!(
                        line[o + len],
                        Fill::Color(_),
                    )) && dp[o + len + g][r + 1];
                }
                val = skip || place;
            }
            assert(val == can_end(runs@, line@, r as int, o as int));
            row.push(val);
            r += 1;
        }
        dp[o] = row;
        proof {
            assert(dp@[o as int]@.len() == m + 1);
        }
    }
    dp
}

/// The reported span of one run is correct: `None` exactly when the run
/// has no feasible start, otherwise the least and greatest feasible
/// starts.
spec fn span_ok(span: Option<(usize, usize)>, runs: Seq<Run>, line: Seq<Fill>, r: int) -> bool {
    &&& (span is None <==> !run_has_placement(runs, line, r))
    &&& (span matches Some((lo, hi)) ==> {
        &&& placement_feasible(runs, line, r, lo as int)
        &&& placement_feasible(runs, line, r, hi as int)
        &&& forall|p: int| placement_feasible(runs, line, r, p) ==> lo <= p <= hi
    })
}

/// The earliest and latest feasible start of run `r`, read off the two
/// reachability tables; `None` when no placement fits.
#[verifier::loop_isolation(false)]
fn run_span(
    runs: &Vec<Run>,
    line: &Vec<Fill>,
    cs: &Vec<Vec<bool>>,
    ce: &Vec<Vec<bool>>,
    r: usize,
) -> (span: Option<(usize, usize)>)
    requires
        spec_runs_valid(runs@),
        runs@.len() <= u16::MAX,
        line@.len() <= u16::MAX,
        r < runs@.len(),
        cs@.len() == line@.len() + 1,
        forall|o: int| 0 <= o <= line@.len() ==> (#[trigger] cs@[o])@.len() == runs@.len() + 1,
        forall|o: int, r2: int|
            0 <= o <= line@.len() && 0 <= r2 <= runs@.len() ==> (#[trigger] cs@[o]@[r2])
                == can_start(runs@, line@, r2, o),
        ce@.len() == line@.len() + 1,
        forall|o: int| 0 <= o <= line@.len() ==> (#[trigger] ce@[o])@.len() == runs@.len() + 1,
        forall|o: int, r2: int|
            0 <= o <= line@.len() && 0 <= r2 <= runs@.len() ==> (#[trigger] ce@[o]@[r2]) == can_end(
                runs@,
                line@,
                r2,
                o,
            ),
    ensures
        span_ok(span, runs@, line@, r as int),
{
    let n = line.len();
    let len = runs[r].count as usize;
    let g: usize = if r + 1 < runs.len() && runs[r].fill == runs[r + 1].fill {
        1
    } else {
        0
    };
    if len + g > n {
        assert forall|p: int| !placement_feasible(runs@, line@, r as int, p) by {}
        return None;
    }
    let maxp = n - len - g;
    let mut lo: usize = 0;
    let mut hi: usize = 0;
    let mut found = false;
    let mut p: usize = 0;
    while p <= maxp
        invariant
            p <= maxp + 1,
            found ==> placement_feasible(runs@, line@, r as int, lo as int),
            found ==> placement_feasible(runs@, line@, r as int, hi as int),
            found ==> lo <= hi < p,
            forall|q: int|
                0 <= q < p && placement_feasible(runs@, line@, r as int, q) ==> found && lo <= q
                    <= hi,
        decreases maxp + 1 - p,
    {
        let ok = cs[p][r] && seg_ok(line, p, len, runs[r].fill) && (g == 0 || !matches!(
            line[p + len],
            Fill::Color(_),
        )) && ce[p + len + g][r + 1];
        assert(ok == placement_feasible(runs@, line@, r as int, p as int));
        if ok {
            if !found {
                lo = p;
                found = true;
            }
            hi = p;
        }
        p += 1;
    }
    assert forall|q: int| placement_feasible(runs@, line@, r as int, q) implies 0 <= q <= maxp by {}
    if found {
        Some((lo, hi))
    } else {
        None
    }
}

/// The distinct colors of the runs, in order of first appearance.
#[verifier::loop_isolation(false)]
pub fn color_list(runs: &Vec<Run>) -> (colors: Vec<u16>)
    ensures
        colors@ == spec_color_list(runs@),
{
    let m = runs.len();
    let mut colors: Vec<u16> = Vec::new();
    let mut r: usize = 0;
    while r < m
        invariant
            r <= m,
            colors@ == spec_color_list(runs@.take(r as int)),
        decreases m - r,
    {
        let c = match runs[r].fill {
            Fill::Color(id) => id,
            _ => 0,
        };
        let clen = colors.len();
        let mut present = false;
        let mut j: usize = 0;
        while j < clen
            invariant
                j <= clen,
                clen == colors@.len(),
                present == exists|q: int| 0 <= q < j && colors@[q] == c,
            decreases clen - j,
        {
            if colors[j] == c {
                present = true;
            }
            j += 1;
        }
        proof {
            assert(present == colors@.contains(c));
            let pre = runs@.take(r as int);
            let ext = runs@.take(r + 1);
            assert(ext.drop_last() =~= pre);
            assert(ext.last() == runs@[r as int]);
        }
        if !present {
            colors.push(c);
        }
        r += 1;
    }
    proof {
        assert(runs@.take(m as int) =~= runs@);
    }
    colors
}


/// Derives the forced-blank mask off the two reachability tables:
/// marks exactly the cells no feasible placement of any run covers.
#[verifier::loop_isolation(false)]
fn blank_mask(runs: &Vec<Run>, line: &Vec<Fill>, cs: &Vec<Vec<bool>>, ce: &Vec<Vec<bool>>) -> (blanks:
    LineMask)
    requires
        spec_runs_valid(runs@),
        runs@.len() <= u16::MAX,
        line@.len() <= u16::MAX,
        cs@.len() == line@.len() + 1,
        forall|o: int| 0 <= o <= line@.len() ==> (#[trigger] cs@[o])@.len() == runs@.len() + 1,
        forall|o: int, r2: int|
            0 <= o <= line@.len() && 0 <= r2 <= runs@.len() ==> (#[trigger] cs@[o]@[r2])
                == can_start(runs@, line@, r2, o),
        ce@.len() == line@.len() + 1,
        forall|o: int| 0 <= o <= line@.len() ==> (#[trigger] ce@[o])@.len() == runs@.len() + 1,
        forall|o: int, r2: int|
            0 <= o <= line@.len() && 0 <= r2 <= runs@.len() ==> (#[trigger] ce@[o]@[r2]) == can_end(
                runs@,
                line@,
                r2,
                o,
            ),
    ensures
        blanks_match(blanks@, runs@, line@),
{
    let n = line.len();
    let m = runs.len();
    let mut blanks = LineMask::repeat(true, n);
    let mut r: usize = 0;
    while r < m
        invariant
            r <= m,
            blanks@.len() == n,
            forall|i: int|
                0 <= i < n ==> #[trigger] blanks@[i] == (forall|r2: int|
                    0 <= r2 < r ==> !run_covers_cell(runs@, line@, r2, i)),
        decreases m - r,
    {
        let ghost pre = blanks@;
        let len = runs[r].count as usize;
        let g: usize = if r + 1 < m && runs[r].fill == runs[r + 1].fill {
            1
        } else {
            0
        };
        if len + g <= n {
            let maxp = n - len - g;
            let mut p: usize = 0;
            while p <= maxp
                invariant
                    p <= maxp + 1,
                    blanks@.len() == n,
                    forall|i: int|
                        0 <= i < n ==> #[trigger] blanks@[i] == (pre[i] && !(exists|q: int|
                            0 <= q < p && placement_feasible(runs@, line@, r as int, q) && q <= i
                                < q + len)),
                decreases maxp + 1 - p,
            {
                let ok = cs[p][r] && seg_ok(line, p, len, runs[r].fill) && (g == 0 || !matches!(
                    line[p + len],
                    Fill::Color(_),
                )) && ce[p + len + g][r + 1];
                assert(ok == placement_feasible(runs@, line@, r as int, p as int));
                if ok {
                    let ghost pp = blanks@;
                    let end = p + len;
                    let mut j = p;
                    while j < end
                        invariant
                            p <= j <= end,
                            end <= n,
                            blanks@.len() == n,
                            forall|i: int|
                                0 <= i < n ==> #[trigger] blanks@[i] == (pp[i] && !(p <= i < j)),
                        decreases end - j,
                    {
                        blanks.set(j, false);
                        j += 1;
                    }
                    proof {
                        assert forall|i: int|
                            0 <= i < n implies #[trigger] blanks@[i] == (pre[i] && !(exists|q: int|
                            0 <= q < p + 1 && placement_feasible(runs@, line@, r as int, q) && q
                                <= i < q + len)) by {
                            if blanks@[i] {
                                if exists|q: int|
                                    0 <= q < p + 1 && placement_feasible(runs@, line@, r as int, q)
                                        && q <= i < q + len {
                                    let q = choose|q: int|
                                        0 <= q < p + 1 && placement_feasible(
                                            runs@,
                                            line@,
                                            r as int,
                                            q,
                                        ) && q <= i < q + len;
                                    if q < p {
                                        assert(!pp[i]);
                                    } else {
                                        assert(p <= i < p + len);
                                    }
                                    assert(false);
                                }
                            } else {
                                if pre[i] && !(exists|q: int|
                                    0 <= q < p + 1 && placement_feasible(runs@, line@, r as int, q)
                                        && q <= i < q + len) {
                                    if pp[i] {
                                        assert(p <= i < p + len);
                                        assert(0 <= (p as int) < p + 1 && placement_feasible(
                                            runs@,
                                            line@,
                                            r as int,
                                            p as int,
                                        ) && p <= i < p + len);
                                    } else {
                                        let q = choose|q: int|
                                            0 <= q < p && placement_feasible(
                                                runs@,
                                                line@,
                                                r as int,
                                                q,
                                            ) && q <= i < q + len;
                                        assert(0 <= q < p + 1 && placement_feasible(
                                            runs@,
                                            line@,
                                            r as int,
                                            q,
                                        ) && q <= i < q + len);
                                    }
                                    assert(false);
                                }
                            }
                        }
                    }
                } else {
                    proof {
                        assert forall|i: int|
                            0 <= i < n implies #[trigger] blanks@[i] == (pre[i] && !(exists|q: int|
                            0 <= q < p + 1 && placement_feasible(runs@, line@, r as int, q) && q
                                <= i < q + len)) by {
                            if exists|q: int|
                                0 <= q < p + 1 && placement_feasible(runs@, line@, r as int, q)
                                    && q <= i < q + len {
                                let q = choose|q: int|
                                    0 <= q < p + 1 && placement_feasible(runs@, line@, r as int, q)
                                        && q <= i < q + len;
                                assert(q < p || q == p);
                                if q == p {
                                    assert(false);
                                }
                                assert(exists|q2: int|
                                    0 <= q2 < p && placement_feasible(runs@, line@, r as int, q2)
                                        && q2 <= i < q2 + len);
                            } else {
                                assert(!(exists|q: int|
                                    0 <= q < p && placement_feasible(runs@, line@, r as int, q)
                                        && q <= i < q + len));
                            }
                        }
                    }
                }
                p += 1;
            }
            proof {
                assert forall|i: int|
                    0 <= i < n implies #[trigger] blanks@[i] == (pre[i] && !run_covers_cell(
                    runs@,
                    line@,
                    r as int,
                    i,
                )) by {
                    if run_covers_cell(runs@, line@, r as int, i) {
                        let q = choose|q: int|
                            placement_feasible(runs@, line@, r as int, q) && q <= i < q
                                + runs@[r as int].count;
                        assert(q + len + gap_after(runs@, r as int) <= n);
                        assert(0 <= q < p && placement_feasible(runs@, line@, r as int, q) && q
                            <= i < q + len);
                    } else {
                        if exists|q: int|
                            0 <= q < p && placement_feasible(runs@, line@, r as int, q) && q <= i
                                < q + len {
                            let q = choose|q: int|
                                0 <= q < p && placement_feasible(runs@, line@, r as int, q) && q
                                    <= i < q + len;
                            assert(run_covers_cell(runs@, line@, r as int, i));
                        }
                    }
                }
            }
        } else {
            proof {
                assert forall|i: int|
                    0 <= i < n implies #[trigger] blanks@[i] == (pre[i] && !run_covers_cell(
                    runs@,
                    line@,
                    r as int,
                    i,
                )) by {
                    if run_covers_cell(runs@, line@, r as int, i) {
                        let q = choose|q: int|
                            placement_feasible(runs@, line@, r as int, q) && q <= i < q
                                + runs@[r as int].count;
                        assert(q + len + gap_after(runs@, r as int) <= n);
                        assert(false);
                    }
                }
            }
        }
        proof {
            assert forall|i: int|
                0 <= i < n implies #[trigger] blanks@[i] == (forall|r2: int|
                0 <= r2 < r + 1 ==> !run_covers_cell(runs@, line@, r2, i)) by {
                if blanks@[i] {
                    assert forall|r2: int|
                        0 <= r2 < r + 1 implies !run_covers_cell(runs@, line@, r2, i) by {
                        if r2 < r {
                            assert(pre[i]);
                        }
                    }
                } else {
                    if !pre[i] {
                        assert(!(forall|r2: int|
                            0 <= r2 < r ==> !run_covers_cell(runs@, line@, r2, i)));
                        let r2 = choose|r2: int|
                            0 <= r2 < r && run_covers_cell(runs@, line@, r2, i);
                        assert(0 <= r2 < r + 1 && run_covers_cell(runs@, line@, r2, i));
                    } else {
                        assert(run_covers_cell(runs@, line@, r as int, i));
                    }
                }
            }
        }
        r += 1;
    }
    proof {
        assert forall|i: int| 0 <= i < n implies #[trigger] blanks@[i] == forced_blank(
            runs@,
            line@,
            i,
        ) by {}
    }
    blanks
}

/// Derives the forced-cell masks for the given runs against the
/// current line contents: one mask per color of the runs, marking
/// exactly the cells that every feasible placement colors that way,
/// and the forced-blank mask, marking exactly the cells no feasible
/// placement covers.
#[verifier::loop_isolation(false)]
pub fn compute_constraints(runs: &Vec<Run>, line: &Vec<Fill>) -> (out: (
    Vec<(u16, LineMask)>,
    LineMask,
))
    requires
        spec_runs_valid(runs@),
        runs@.len() <= u16::MAX,
        line@.len() <= u16::MAX,
    ensures
        constraints_match(out.0@, runs@, line@),
        blanks_match(out.1@, runs@, line@),
{
    let n = line.len();
    let m = runs.len();
    let cs = fit_forwards(runs, line);
    let ce = fit_backwards(runs, line);
    let mut spans: Vec<Option<(usize, usize)>> = Vec::new();
    let mut r: usize = 0;
    while r < m
        invariant
            r <= m,
            spans@.len() == r,
            forall|k: int| 0 <= k < r ==> span_ok(#[trigger] spans@[k], runs@, line@, k),
        decreases m - r,
    {
        spans.push(run_span(runs, line, &cs, &ce, r));
        r += 1;
    }
    let colors = color_list(runs);
    let clen = colors.len();
    let mut cons: Vec<(u16, LineMask)> = Vec::new();
    let mut k: usize = 0;
    while k < clen
        invariant
            k <= clen,
            cons@.len() == k,
            forall|k2: int| 0 <= k2 < k ==> (#[trigger] cons@[k2]).0 == colors@[k2],
            forall|k2: int| 0 <= k2 < k ==> (#[trigger] cons@[k2]).1@.len() == n,
            forall|k2: int, i: int|
                0 <= k2 < k && 0 <= i < n ==> (#[trigger] cons@[k2].1@[i]) == forced_cell(
                    runs@,
                    line@,
                    cons@[k2].0,
                    i,
                ),
        decreases clen - k,
    {
        let c = colors[k];
        let mut mask = LineMask::repeat(false, n);
        let mut r: usize = 0;
        while r < m
            invariant
                r <= m,
                mask@.len() == n,
                forall|i: int|
                    0 <= i < n ==> #[trigger] mask@[i] == exists|r2: int|
                        0 <= r2 < r && runs@[r2].fill == Fill::Color(c) && forced_by_run(
                            runs@,
                            line@,
                            r2,
                            i,
                        ),
            decreases m - r,
        {
            let ghost pre_mask = mask@;
            let is_c = match runs[r].fill {
                Fill::Color(id) => id == c,
                _ => false,
            };
            if is_c {
                match spans[r] {
                    Some((lo, hi)) => {
                        let len = runs[r].count as usize;
                        let end = lo + len;
                        let mut i = hi;
                        while i < end
                            invariant
                                hi <= i <= end || i == hi,
                                mask@.len() == n,
                                end <= n,
                                forall|q: int|
                                    0 <= q < n ==> #[trigger] mask@[q] == (pre_mask[q] || (hi <= q
                                        < i)),
                            decreases end - i,
                        {
                            mask.set(i, true);
                            i += 1;
                        }
                        proof {
                            assert forall|q: int| 0 <= q < n implies #[trigger] mask@[q] == (
                            pre_mask[q] || forced_by_run(runs@, line@, r as int, q)) by {
                                if hi <= q < lo + len {
                                    assert(forced_by_run(runs@, line@, r as int, q));
                                } else {
                                    if forced_by_run(runs@, line@, r as int, q) {
                                        assert(placement_feasible(
                                            runs@,
                                            line@,
                                            r as int,
                                            lo as int,
                                        ));
                                        assert(placement_feasible(
                                            runs@,
                                            line@,
                                            r as int,
                                            hi as int,
                                        ));
                                        assert(hi <= q < lo + runs@[r as int].count);
                                    }
                                }
                            }
                        }
                    },
                    None => {
                        proof {
                            assert(!run_has_placement(runs@, line@, r as int));
                        }
                    },
                }
            }
            proof {
                assert forall|i: int| 0 <= i < n implies #[trigger] mask@[i] == exists|r2: int|
                    0 <= r2 < r + 1 && runs@[r2].fill == Fill::Color(c) && forced_by_run(
                        runs@,
                        line@,
                        r2,
                        i,
                    ) by {
                    if mask@[i] {
                        if pre_mask[i] {
                            let r2 = choose|r2: int|
                                0 <= r2 < r && runs@[r2].fill == Fill::Color(c) && forced_by_run(
                                    runs@,
                                    line@,
                                    r2,
                                    i,
                                );
                            assert(0 <= r2 < r + 1 && runs@[r2].fill == Fill::Color(c)
                                && forced_by_run(runs@, line@, r2, i));
                        } else {
                            assert(0 <= r < r + 1 && runs@[r as int].fill == Fill::Color(c)
                                && forced_by_run(runs@, line@, r as int, i));
                        }
                    } else {
                        assert forall|r2: int|
                            0 <= r2 < r + 1 && runs@[r2].fill == Fill::Color(c) implies
                            !forced_by_run(runs@, line@, r2, i) by {
                            if r2 < r {
                                assert(!(exists|r3: int|
                                    0 <= r3 < r && runs@[r3].fill == Fill::Color(c)
                                        && forced_by_run(runs@, line@, r3, i)));
                            }
                        }
                    }
                }
            }
            r += 1;
        }
        cons.push((c, mask));
        k += 1;
    }
    proof {
        assert(constraints_match(cons@, runs@, line@));
    }
    let blanks = blank_mask(runs, line, &cs, &ce);
    (cons, blanks)
}

impl Rule {
    /// Recomputes this rule's forced-cell masks against the current
    /// contents of its line: for every color of the runs, the stored
    /// mask marks exactly the cells that every remaining valid
    /// arrangement of the runs colors that way, and the blank mask
    /// marks exactly the cells no remaining arrangement covers (with
    /// zero runs: the whole line).
    pub fn generate_constraints(&mut self, line: &Vec<Fill>)
        requires
            old(self).wf(),
            line@.len() == old(self).line_len,
        ensures
            final(self).runs == old(self).runs,
            final(self).line_len == old(self).line_len,
            final(self).wf(),
            constraints_match(final(self).constraints@, final(self).runs@, line@),
            blanks_match(final(self).blanks@, final(self).runs@, line@),
    {
        proof {
            crate::rule::lemma_min_len_ge_len(self.runs@);
        }
        let (cons, blanks) = compute_constraints(&self.runs, line);
        self.constraints = cons;
        self.blanks = blanks;
    }
}


} // verus!
