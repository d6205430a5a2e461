use nono::{
    Color, Error, Fill, Position, Puzzle, PuzzleData, RawRun, Rule, Rules, SolveStatus, Solver, Run,
};

fn color(id: u16) -> Fill {
    Fill::Color(id)
}

fn rule_of(segments: &[(u16, u16)], line_len: u16) -> Rule {
    let mut runs: Vec<Run> = Vec::new();
    for &(id, count) in segments {
        runs.push(Run::new(color(id), count).unwrap());
    }
    Rule::new(runs, line_len).unwrap()
}

fn rules_of(rows: &[&[(u16, u16)]], cols: &[&[(u16, u16)]]) -> Rules {
    let n_cols = cols.len() as u16;
    let n_rows = rows.len() as u16;
    let row_rules = rows.iter().map(|segs| rule_of(segs, n_cols)).collect();
    let col_rules = cols.iter().map(|segs| rule_of(segs, n_rows)).collect();
    Rules::new(row_rules, col_rules)
}

#[test]
fn unit_puzzle_solves() {
    let mut puzzle = Puzzle::empty(1, 1).unwrap();
    let rules = rules_of(&[&[(1, 1)]], &[&[(1, 1)]]);
    let outcome = Solver::new().solve(&mut puzzle, &rules, None);
    assert_eq!(outcome.status, SolveStatus::Solved);
    assert_eq!(puzzle.get(Position::new(0, 0)).unwrap(), color(1));
}

#[test]
fn ambiguous_puzzle_stalls() {
    let mut puzzle = Puzzle::empty(2, 2).unwrap();
    let rules = rules_of(&[&[(1, 1)], &[(1, 1)]], &[&[(1, 1)], &[(1, 1)]]);
    let outcome = Solver::new().solve(&mut puzzle, &rules, None);
    assert_eq!(outcome.status, SolveStatus::Stalled);
}

#[test]
fn contradictory_cell_is_unsolvable() {
    let mut puzzle = Puzzle::new(1, 1, vec![Fill::Cross]).unwrap();
    let rules = rules_of(&[&[(1, 1)]], &[&[(1, 1)]]);
    let outcome = Solver::new().solve(&mut puzzle, &rules, None);
    assert_eq!(outcome.status, SolveStatus::Unsolvable);
}

#[test]
fn cross_shape_solves_completely() {
    // a plus sign on a 3x3 grid, single color
    let mut puzzle = Puzzle::empty(3, 3).unwrap();
    let rules = rules_of(
        &[&[(1, 1)], &[(1, 3)], &[(1, 1)]],
        &[&[(1, 1)], &[(1, 3)], &[(1, 1)]],
    );
    let outcome = Solver::new().solve(&mut puzzle, &rules, None);
    assert_eq!(outcome.status, SolveStatus::Solved);
    assert_eq!(puzzle.get(Position::new(0, 1)).unwrap(), color(1));
    assert_eq!(puzzle.get(Position::new(1, 0)).unwrap(), color(1));
    assert_eq!(puzzle.get(Position::new(1, 1)).unwrap(), color(1));
    assert_eq!(puzzle.get(Position::new(1, 2)).unwrap(), color(1));
    assert_eq!(puzzle.get(Position::new(2, 1)).unwrap(), color(1));
    // the cells off the plus sign are deduced empty and crossed out
    assert_eq!(puzzle.get(Position::new(0, 0)).unwrap(), Fill::Cross);
    assert_eq!(puzzle.get(Position::new(2, 2)).unwrap(), Fill::Cross);
}

#[test]
fn prefilled_cells_are_never_rewritten() {
    // monotonicity: known cells keep their value across a solve
    let mut puzzle = Puzzle::empty(2, 2).unwrap();
    puzzle.set(Position::new(0, 0), color(1)).unwrap();
    let before = puzzle.get(Position::new(0, 0)).unwrap();
    let rules = rules_of(&[&[(1, 1)], &[(1, 1)]], &[&[(1, 1)], &[(1, 1)]]);
    let _ = Solver::new().solve(&mut puzzle, &rules, None);
    assert_eq!(puzzle.get(Position::new(0, 0)).unwrap(), before);
}

#[test]
fn zero_budget_reports_stalled_with_no_steps() {
    let mut puzzle = Puzzle::empty(1, 1).unwrap();
    let rules = rules_of(&[&[(1, 1)]], &[&[(1, 1)]]);
    let outcome = Solver::new().solve(&mut puzzle, &rules, Some(0));
    assert_eq!(outcome.status, SolveStatus::Stalled);
    assert_eq!(outcome.steps_taken, 0);
    assert_eq!(puzzle.get(Position::new(0, 0)).unwrap(), Fill::Blank);
}

#[test]
fn round_trip_from_solved_puzzle() {
    // derive rules from a solved grid, solve a blank grid of the same
    // dimensions against them, and rebuild the identical picture:
    // every color where the source had it, every other cell deduced
    // empty (crossed out)
    let cells = vec![color(1), Fill::Blank, color(1), color(1)];
    let solved = Puzzle::new(2, 2, cells.clone()).unwrap();
    let rules = Rules::from_puzzle(&solved);
    let mut blank = Puzzle::empty(2, 2).unwrap();
    let outcome = Solver::new().solve(&mut blank, &rules, None);
    assert_eq!(outcome.status, SolveStatus::Solved);
    for r in 0..2 {
        for c in 0..2 {
            let got = blank.get(Position::new(r, c)).unwrap();
            let want = solved.get(Position::new(r, c)).unwrap();
            if let Fill::Color(_) = want {
                assert_eq!(got, want);
            } else {
                assert!(!matches!(got, Fill::Color(_)));
            }
        }
    }
    assert_eq!(blank.get(Position::new(0, 1)).unwrap(), Fill::Cross);
}

#[test]
fn empty_column_clue_unlocks_the_grid() {
    // the empty column forces crosses, which pin the long row run,
    // whose forced-blank cells pin everything else
    let mut puzzle = Puzzle::empty(2, 4).unwrap();
    let rules = rules_of(
        &[&[(1, 2)], &[(1, 1)]],
        &[&[(1, 1)], &[], &[(1, 1)], &[(1, 1)]],
    );
    let outcome = Solver::new().solve(&mut puzzle, &rules, None);
    assert_eq!(outcome.status, SolveStatus::Solved);
    assert_eq!(puzzle.get(Position::new(0, 0)).unwrap(), Fill::Cross);
    assert_eq!(puzzle.get(Position::new(0, 1)).unwrap(), Fill::Cross);
    assert_eq!(puzzle.get(Position::new(0, 2)).unwrap(), color(1));
    assert_eq!(puzzle.get(Position::new(0, 3)).unwrap(), color(1));
    assert_eq!(puzzle.get(Position::new(1, 0)).unwrap(), color(1));
    assert_eq!(puzzle.get(Position::new(1, 1)).unwrap(), Fill::Cross);
    assert_eq!(puzzle.get(Position::new(1, 2)).unwrap(), Fill::Cross);
    assert_eq!(puzzle.get(Position::new(1, 3)).unwrap(), Fill::Cross);
}

#[test]
fn empty_rule_crosses_out_its_line() {
    let mut puzzle = Puzzle::empty(1, 2).unwrap();
    let rules = rules_of(&[&[]], &[&[], &[]]);
    let outcome = Solver::new().solve(&mut puzzle, &rules, None);
    assert_eq!(outcome.status, SolveStatus::Solved);
    assert_eq!(puzzle.get(Position::new(0, 0)).unwrap(), Fill::Cross);
    assert_eq!(puzzle.get(Position::new(0, 1)).unwrap(), Fill::Cross);
}

#[test]
fn solving_twice_changes_nothing() {
    // a grid at its fixpoint is left untouched by another pass
    let mut puzzle = Puzzle::empty(3, 3).unwrap();
    let rules = rules_of(
        &[&[(1, 1)], &[(1, 3)], &[(1, 1)]],
        &[&[(1, 1)], &[(1, 3)], &[(1, 1)]],
    );
    let first = Solver::new().solve(&mut puzzle, &rules, None);
    let before: Vec<Fill> = puzzle.cells.clone();
    let second = Solver::new().solve(&mut puzzle, &rules, None);
    assert_eq!(first.status, second.status);
    assert_eq!(before, puzzle.cells);
}

#[test]
fn from_puzzle_reads_clues_off_the_grid() {
    let cells = vec![color(1), color(1), Fill::Blank, color(2)];
    let p = Puzzle::new(2, 2, cells).unwrap();
    let rules = rules_of(&[&[(1, 2)], &[(2, 1)]], &[&[(1, 1)], &[(1, 1), (2, 1)]]);
    let derived = Rules::from_puzzle(&p);
    for (want, got) in rules.rows.iter().zip(derived.rows.iter()) {
        assert_eq!(want.runs(), got.runs());
    }
    for (want, got) in rules.cols.iter().zip(derived.cols.iter()) {
        assert_eq!(want.runs(), got.runs());
    }
}

#[test]
fn generate_masks_covers_every_line() {
    let puzzle = Puzzle::empty(2, 3).unwrap();
    let mut rules = rules_of(
        &[&[(1, 3)], &[(1, 1)]],
        &[&[(1, 1)], &[(1, 1)], &[(1, 1)]],
    );
    rules.generate_masks(&puzzle);
    let full_row = rules.row(0).constraint(1).unwrap();
    assert!(full_row.get(0) && full_row.get(1) && full_row.get(2));
    let loose_row = rules.row(1).constraint(1).unwrap();
    assert!(!loose_row.get(0) && !loose_row.get(1) && !loose_row.get(2));
}

fn sample_data() -> PuzzleData {
    PuzzleData {
        colors: vec![Color { r: 10, g: 20, b: 30 }],
        rows: 1,
        cols: 2,
        row_rules: vec![vec![RawRun { fill: 1, count: 2 }]],
        col_rules: vec![vec![RawRun { fill: 1, count: 1 }], vec![RawRun { fill: 1, count: 1 }]],
        puzzle: Vec::new(),
    }
}

#[test]
fn build_accepts_a_well_formed_description() {
    let (puzzle, rules, palette) = sample_data().build().unwrap();
    assert_eq!(puzzle.rows(), 1);
    assert_eq!(puzzle.cols(), 2);
    assert_eq!(palette.len(), 1);
    assert_eq!(rules.row(0).runs().len(), 1);
    assert_eq!(rules.col(1).runs().len(), 1);
    // the loaded rules already carry masks: the full row is forced
    let mask = rules.row(0).constraint(1).unwrap();
    assert!(mask.get(0) && mask.get(1));
}

#[test]
fn build_rejects_zero_dimensions() {
    let mut data = sample_data();
    data.rows = 0;
    assert!(matches!(data.build(), Err(Error::InvalidDimensions)));
}

#[test]
fn build_rejects_wrong_clue_count() {
    let mut data = sample_data();
    data.col_rules.pop();
    assert!(matches!(data.build(), Err(Error::SizeMismatch)));
}

#[test]
fn build_rejects_zero_fill_in_a_run() {
    let mut data = sample_data();
    data.row_rules[0][0].fill = 0;
    assert!(matches!(data.build(), Err(Error::InvalidRun)));
}

#[test]
fn build_rejects_oversized_clue() {
    let mut data = sample_data();
    data.row_rules[0][0].count = 3;
    assert!(matches!(data.build(), Err(Error::InfeasibleRule)));
}

#[test]
fn build_loads_prefilled_grid() {
    let mut data = sample_data();
    data.puzzle = vec![vec![1, 0]];
    let (puzzle, _, _) = data.build().unwrap();
    assert_eq!(puzzle.get(Position::new(0, 0)).unwrap(), color(1));
    assert_eq!(puzzle.get(Position::new(0, 1)).unwrap(), Fill::Blank);
}

#[test]
fn build_rejects_wrong_cell_count() {
    let mut data = sample_data();
    data.puzzle = vec![vec![1, 0, 1]];
    assert!(matches!(data.build(), Err(Error::SizeMismatch)));
}

#[test]
fn solver_default_matches_new() {
    let a = Solver::new();
    let b = Solver::default();
    assert_eq!(a.frontier.len(), b.frontier.len());
}
