use vstd::prelude::*;

use crate::error::Error;
use crate::fill::Fill;
use crate::mask::LineMask;
use crate::run::Run;

verus! {

/// Every run of the sequence is a well-formed clue segment.
pub open spec fn spec_runs_valid(runs: Seq<Run>) -> bool {
    forall|r: int| 0 <= r < runs.len() ==> runs[r].spec_valid()
}

/// The least number of cells the runs occupy when packed tightly: the
/// sum of their counts plus one separating cell between adjacent runs
/// of the same color.
pub open spec fn spec_min_len(runs: Seq<Run>) -> int
    decreases runs.len(),
{
    if runs.len() == 0 {
        0
    } else {
        spec_min_len(runs.drop_last()) + runs.last().count + (
        if runs.len() >= 2 && runs[runs.len() - 2].fill == runs.last().fill {
            1int
        } else {
            0int
        })
    }
}

/// A tightly packed prefix never needs more cells than the whole.
pub proof fn lemma_min_len_take_le(runs: Seq<Run>, i: int)
    requires
        0 <= i <= runs.len(),
    ensures
        spec_min_len(runs.take(i)) <= spec_min_len(runs),
    decreases runs.len() - i,
{
    if i == runs.len() {
        assert(runs.take(i) =~= runs);
    } else {
        let next = runs.take(i + 1);
        assert(next.drop_last() =~= runs.take(i));
        lemma_min_len_take_le(runs, i + 1);
    }
}

/// Valid runs each occupy at least one cell, so a run sequence never
/// packs tighter than its own length.
pub proof fn lemma_min_len_ge_len(runs: Seq<Run>)
    requires
        spec_runs_valid(runs),
    ensures
        spec_min_len(runs) >= runs.len(),
    decreases runs.len(),
{
    if runs.len() > 0 {
        assert(spec_runs_valid(runs.drop_last()));
        lemma_min_len_ge_len(runs.drop_last());
    }
}

/// The runs the line's colored cells currently form, left to right.
pub open spec fn spec_extract_runs(line: Seq<Fill>) -> Seq<Run>
    decreases line.len(),
{
    if line.len() == 0 {
        Seq::<Run>::empty()
    } else {
        let init = spec_extract_runs(line.drop_last());
        let f = line.last();
        if !(f is Color) {
            init
        } else if line.len() >= 2 && line[line.len() - 2] == f {
            init.update(init.len() - 1, Run { fill: f, count: (init.last().count + 1) as u16 })
        } else {
            init.push(Run { fill: f, count: 1 })
        }
    }
}

/// A line ending in a colored cell extracts to a run sequence whose last
/// run carries that color, and whose last count stays within the line.
pub proof fn lemma_extract_last(line: Seq<Fill>)
    requires
        line.len() > 0,
        line.last() is Color,
    ensures
        spec_extract_runs(line).len() > 0,
        spec_extract_runs(line).last().fill == line.last(),
        spec_extract_runs(line).last().count <= line.len(),
    decreases line.len(),
{
    let init = spec_extract_runs(line.drop_last());
    if line.len() >= 2 && line[line.len() - 2] == line.last() {
        lemma_extract_last(line.drop_last());
    }
}


/// A line of valid fills extracts to valid runs.
pub proof fn lemma_extract_valid(line: Seq<Fill>)
    requires
        line.len() <= u16::MAX,
        forall|i: int| 0 <= i < line.len() ==> (#[trigger] line[i]).spec_valid(),
    ensures
        spec_runs_valid(spec_extract_runs(line)),
    decreases line.len(),
{
    if line.len() > 0 {
        assert(forall|i: int|
            0 <= i < line.drop_last().len() ==> (#[trigger] line.drop_last()[i]).spec_valid());
        lemma_extract_valid(line.drop_last());
        let init = spec_extract_runs(line.drop_last());
        let f = line.last();
        if f is Color {
            assert(line[line.len() - 1].spec_valid());
            if line.len() >= 2 && line[line.len() - 2] == f {
                lemma_extract_last(line.drop_last());
                let run2 = Run { fill: f, count: (init.last().count + 1) as u16 };
                let x = init.update(init.len() - 1, run2);
                assert(run2.spec_valid());
                assert(forall|r: int|
                    0 <= r < x.len() ==> (#[trigger] x[r]) == if r == init.len() - 1 {
                        run2
                    } else {
                        init[r]
                    });
            }
        }
    }
}

/// The runs a line extracts to always fit back into that line, with a
/// cell to spare when the line does not end in a color.
pub proof fn lemma_extract_min_len(line: Seq<Fill>)
    requires
        line.len() <= u16::MAX,
    ensures
        spec_min_len(spec_extract_runs(line)) <= line.len(),
        line.len() > 0 && !(line.last() is Color) ==> spec_min_len(spec_extract_runs(line))
            <= line.len() - 1,
    decreases line.len(),
{
    if line.len() > 0 {
        let prefix = line.drop_last();
        lemma_extract_min_len(prefix);
        let init = spec_extract_runs(prefix);
        let f = line.last();
        if !(f is Color) {
            // the extraction ignores the last cell
        } else if line.len() >= 2 && line[line.len() - 2] == f {
            lemma_extract_last(prefix);
            let run2 = Run { fill: f, count: (init.last().count + 1) as u16 };
            let x = init.update(init.len() - 1, run2);
            assert(x.drop_last() =~= init.drop_last());
            assert(x.last() == run2);
            if init.len() >= 2 {
                assert(x[x.len() - 2] == init[init.len() - 2]);
            }
            assert(spec_min_len(x) == spec_min_len(init) + 1);
        } else {
            let run2 = Run { fill: f, count: 1u16 };
            let x = init.push(run2);
            assert(x.drop_last() =~= init);
            assert(x.last() == run2);
            if x.len() >= 2 && x[x.len() - 2].fill == f {
                // a separating cell is needed: the previous run carries
                // the same color, so the cell before the last is not a
                // color and the prefix packed a cell short
                assert(x[x.len() - 2] == init.last());
                assert(prefix.len() > 0);
                if prefix.last() is Color {
                    lemma_extract_last(prefix);
                    assert(prefix.last() == line[line.len() - 2]);
                    assert(false);
                }
                assert(spec_min_len(init) <= prefix.len() - 1);
                assert(spec_min_len(x) == spec_min_len(init) + 2);
            } else {
                assert(spec_min_len(x) == spec_min_len(init) + 1);
            }
        }
    }
}

/// The clue of one line: its ordered runs, the length of the line it
/// describes, the per-color forced-cell masks last derived for it, and
/// the forced-blank mask (cells no remaining arrangement covers).
pub struct Rule {
    pub runs: Vec<Run>,
    pub line_len: u16,
    pub constraints: Vec<(u16, LineMask)>,
    pub blanks: LineMask,
}

impl Rule {
    /// Well-formed clue: every run is valid and the runs fit the line
    /// even when packed tightly.
    pub open spec fn wf(&self) -> bool {
        spec_runs_valid(self.runs@) && spec_min_len(self.runs@) <= self.line_len
    }

    /// Builds the clue of a line, rejecting malformed runs and run
    /// sequences that cannot fit the line at all.
    pub fn new(runs: Vec<Run>, line_len: u16) -> (result: Result<Rule, Error>)
        ensures
            result is Ok <==> spec_runs_valid(runs@) && spec_min_len(runs@) <= line_len,
            result == Result::<Rule, Error>::Err(Error::InvalidRun) <==> !spec_runs_valid(runs@),
            result == Result::<Rule, Error>::Err(Error::InfeasibleRule) <==> spec_runs_valid(
                runs@,
            ) && spec_min_len(runs@) > line_len,
            result matches Ok(rule) ==> rule.runs@ == runs@ && rule.line_len == line_len
                && rule.constraints@.len() == 0 && rule.blanks@.len() == line_len && (forall|
                i: int,
            | 0 <= i < line_len ==> !rule.blanks@[i]) && rule.wf(),
    {
        let m = runs.len();
        let mut i: usize = 0;
        while i < m
            invariant
                m == runs@.len(),
                0 <= i <= m,
                forall|k: int| 0 <= k < i ==> runs@[k].spec_valid(),
            decreases m - i,
        {
            let run = runs[i];
            let ok = run.count >= 1 && match run.fill {
                Fill::Color(id) => id >= 1,
                _ => false,
            };
            if !ok {
                return Err(Error::InvalidRun);
            }
            i += 1;
        }
        let mut acc: u32 = 0;
        let mut i: usize = 0;
        while i < m
            invariant
                m == runs@.len(),
                0 <= i <= m,
                spec_runs_valid(runs@),
                acc == spec_min_len(runs@.take(i as int)),
                acc <= line_len,
            decreases m - i,
        {
            let gap: u32 = if i >= 1 && runs[i - 1].fill == runs[i].fill {
                1
            } else {
                0
            };
            let next = acc + runs[i].count as u32 + gap;
            proof {
                let pre = runs@.take(i as int);
                let ext = runs@.take(i + 1);
                assert(ext.drop_last() =~= pre);
                assert(ext.last() == runs@[i as int]);
                assert(next == spec_min_len(ext));
            }
            if next > line_len as u32 {
                proof {
                    lemma_min_len_take_le(runs@, i + 1);
                }
                return Err(Error::InfeasibleRule);
            }
            acc = next;
            i += 1;
        }
        proof {
            assert(runs@.take(m as int) =~= runs@);
        }
        Ok(Rule { runs, line_len, constraints: Vec::new(), blanks: LineMask::repeat(false, line_len as usize) })
    }


    /// The clue an already-filled line satisfies: the runs its colored
    /// cells currently form.
    pub fn from_fills(fills: &Vec<Fill>) -> (rule: Rule)
        requires
            fills@.len() <= u16::MAX,
            forall|i: int| 0 <= i < fills@.len() ==> (#[trigger] fills@[i]).spec_valid(),
        ensures
            rule.runs@ == spec_extract_runs(fills@),
            rule.line_len == fills@.len(),
            rule.constraints@.len() == 0,
            rule.blanks@.len() == fills@.len(),
            forall|i: int| 0 <= i < fills@.len() ==> !rule.blanks@[i],
            rule.wf(),
    {
        let runs = extract_runs(fills);
        proof {
            lemma_extract_valid(fills@);
            lemma_extract_min_len(fills@);
        }
        let line_len = fills.len() as u16;
        Rule { runs, line_len, constraints: Vec::new(), blanks: LineMask::repeat(false, fills.len()) }
    }

    /// The ordered clue segments of this line.
    pub fn runs(&self) -> (r: &Vec<Run>)
        ensures
            r == &self.runs,
    {
        &self.runs
    }

    /// The forced-cell mask last derived for the given color, if any.
    pub fn constraint(&self, color: u16) -> (r: Option<&LineMask>)
        ensures
            r is None <==> forall|k: int|
                0 <= k < self.constraints@.len() ==> self.constraints@[k].0 != color,
            r matches Some(m) ==> exists|k: int|
                0 <= k < self.constraints@.len() && self.constraints@[k].0 == color && *m
                    == self.constraints@[k].1,
    {
        let n = self.constraints.len();
        let mut k: usize = 0;
        while k < n
            invariant
                n == self.constraints@.len(),
                0 <= k <= n,
                forall|j: int| 0 <= j < k ==> self.constraints@[j].0 != color,
            decreases n - k,
        {
            if self.constraints[k].0 == color {
                return Some(&self.constraints[k].1);
            }
            k += 1;
        }
        None
    }
}

/// Builds the run sequence the line's colored cells currently form.
pub fn extract_runs(line: &Vec<Fill>) -> (runs: Vec<Run>)
    requires
        line@.len() <= u16::MAX,
    ensures
        runs@ == spec_extract_runs(line@),
{
    let n = line.len();
    let mut runs: Vec<Run> = Vec::new();
    let mut i: usize = 0;
    while i < n
        invariant
            n == line@.len(),
            n <= u16::MAX,
            0 <= i <= n,
            runs@ == spec_extract_runs(line@.take(i as int)),
        decreases n - i,
    {
        let f = line[i];
        let is_color = match f {
            Fill::Color(_) => true,
            _ => false,
        };
        proof {
            let pre = line@.take(i as int);
            let ext = line@.take(i + 1);
            assert(ext.drop_last() =~= pre);
            assert(ext.last() == line@[i as int]);
        }
        if is_color {
            let extend = i >= 1 && line[i - 1] == f;
            if extend {
                proof {
                    lemma_extract_last(line@.take(i as int));
                }
                let prev = runs.pop().unwrap();
                runs.push(Run { fill: prev.fill, count: prev.count + 1 });
                proof {
                    let init = spec_extract_runs(line@.take(i as int));
                    assert(runs@ =~= init.update(
                        init.len() - 1,
                        Run { fill: line@[i as int], count: (init.last().count + 1) as u16 },
                    ));
                }
            } else {
                runs.push(Run { fill: f, count: 1 });
            }
        }
        i += 1;
    }
    proof {
        assert(line@.take(n as int) =~= line@);
    }
    runs
}

} // verus!
