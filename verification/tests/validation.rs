use nono::puzzle::validate_line;
use nono::{Fill, Line, LineValidation, Puzzle, Rule, Run};

fn color(id: u16) -> Fill {
    Fill::Color(id)
}

fn rule_of(segments: &[(u16, u16)], line_len: u16) -> Rule {
    let mut runs: Vec<Run> = Vec::new();
    for &(id, count) in segments {
        runs.push(Run::new(color(id), count).unwrap());
    }
    Rule::new(runs, line_len).unwrap()
}

#[test]
fn conflicting_cross_makes_row_invalid() {
    let cells = vec![Fill::Blank, Fill::Cross, Fill::Blank];
    let puzzle = Puzzle::new(1, 3, cells).unwrap();
    let rule = rule_of(&[(1, 2)], 3);
    let verdict = puzzle.validate(&rule, Line::Row(0));
    assert_eq!(verdict, LineValidation::Invalid);
    assert!(!verdict.is_valid());
}

#[test]
fn blank_line_is_incomplete() {
    let rule = rule_of(&[(1, 1)], 3);
    let verdict = validate_line(&rule, &vec![Fill::Blank; 3]);
    assert_eq!(verdict, LineValidation::Incomplete);
    assert!(verdict.is_valid());
}

#[test]
fn exact_pattern_is_solved() {
    let rule = rule_of(&[(1, 1), (1, 2)], 5);
    let line = vec![color(1), Fill::Cross, color(1), color(1), Fill::Blank];
    assert_eq!(validate_line(&rule, &line), LineValidation::Solved);
}

#[test]
fn wrong_color_is_invalid() {
    let rule = rule_of(&[(1, 2)], 2);
    let line = vec![color(2), Fill::Blank];
    assert_eq!(validate_line(&rule, &line), LineValidation::Invalid);
}

#[test]
fn partial_pattern_stays_incomplete() {
    let rule = rule_of(&[(1, 2)], 4);
    let line = vec![Fill::Blank, color(1), Fill::Blank, Fill::Blank];
    assert_eq!(validate_line(&rule, &line), LineValidation::Incomplete);
}

#[test]
fn empty_rule_solves_blank_or_crossed_line() {
    let rule = Rule::new(Vec::new(), 3).unwrap();
    assert_eq!(
        validate_line(&rule, &vec![Fill::Blank, Fill::Cross, Fill::Blank]),
        LineValidation::Solved
    );
    assert_eq!(
        validate_line(&rule, &vec![Fill::Blank, color(1), Fill::Blank]),
        LineValidation::Invalid
    );
}

#[test]
fn solved_line_generator_matches_contents() {
    // on a solved line, the recomputed mask marks exactly the cells
    // that hold the mask's color
    let line = vec![color(1), Fill::Cross, color(1), color(1), Fill::Blank];
    let mut rule = rule_of(&[(1, 1), (1, 2)], 5);
    assert_eq!(validate_line(&rule, &line), LineValidation::Solved);
    rule.generate_constraints(&line);
    let mask = rule.constraint(1).unwrap();
    for i in 0..5 {
        assert_eq!(mask.get(i), line[i] == color(1), "cell {}", i);
    }
}

#[test]
fn validation_reads_columns_too() {
    let cells = vec![
        color(1),
        Fill::Blank,
        color(1),
        Fill::Blank,
        Fill::Blank,
        Fill::Blank,
    ];
    let puzzle = Puzzle::new(3, 2, cells).unwrap();
    let col_rule = rule_of(&[(1, 3)], 3);
    assert_eq!(puzzle.validate(&col_rule, Line::Col(0)), LineValidation::Incomplete);
    let row_rule = rule_of(&[(1, 1)], 2);
    assert_eq!(puzzle.validate(&row_rule, Line::Row(0)), LineValidation::Solved);
}
