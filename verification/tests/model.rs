use nono::{Axis, Error, Fill, Line, Position, Puzzle, Rule, Run};

fn color(id: u16) -> Fill {
    Fill::Color(id)
}

#[test]
fn fill_from_id_maps_zero_to_blank() {
    assert_eq!(Fill::from_id(0), Fill::Blank);
    assert_eq!(Fill::from_id(3), Fill::Color(3));
}

#[test]
fn fill_is_color_checks_id() {
    assert!(color(2).is_color(2));
    assert!(!color(2).is_color(1));
    assert!(!Fill::Blank.is_color(1));
    assert!(!Fill::Cross.is_color(1));
}

#[test]
fn fill_equality_is_by_variant_and_id() {
    assert_eq!(color(1), color(1));
    assert_ne!(color(1), color(2));
    assert_ne!(Fill::Blank, Fill::Cross);
}

#[test]
fn run_new_rejects_zero_count() {
    assert_eq!(Run::new(color(1), 0), Err(Error::InvalidRun));
}

#[test]
fn run_new_rejects_blank_and_cross_and_zero_color() {
    assert_eq!(Run::new(Fill::Blank, 2), Err(Error::InvalidRun));
    assert_eq!(Run::new(Fill::Cross, 2), Err(Error::InvalidRun));
    assert_eq!(Run::new(Fill::Color(0), 2), Err(Error::InvalidRun));
}

#[test]
fn run_new_accepts_colored_run() {
    let run = Run::new(color(4), 3).unwrap();
    assert_eq!(run.fill, color(4));
    assert_eq!(run.count, 3);
}

#[test]
fn rule_new_rejects_infeasible_total() {
    let runs = vec![Run::new(color(1), 2).unwrap(), Run::new(color(1), 2).unwrap()];
    assert!(matches!(Rule::new(runs, 4), Err(Error::InfeasibleRule)));
}

#[test]
fn rule_new_accepts_tight_fit_with_gap() {
    let runs = vec![Run::new(color(1), 2).unwrap(), Run::new(color(1), 2).unwrap()];
    let rule = Rule::new(runs, 5).unwrap();
    assert_eq!(rule.line_len, 5);
    assert_eq!(rule.runs().len(), 2);
}

#[test]
fn rule_new_needs_no_gap_between_colors() {
    let runs = vec![Run::new(color(1), 2).unwrap(), Run::new(color(2), 2).unwrap()];
    assert!(Rule::new(runs, 4).is_ok());
}

#[test]
fn rule_new_reports_invalid_run_first() {
    let bad = Run { fill: Fill::Blank, count: 0 };
    assert!(matches!(Rule::new(vec![bad], 0), Err(Error::InvalidRun)));
}

#[test]
fn puzzle_empty_rejects_zero_dimensions() {
    assert_eq!(Puzzle::empty(0, 3).err(), Some(Error::InvalidDimensions));
    assert_eq!(Puzzle::empty(3, 0).err(), Some(Error::InvalidDimensions));
}

#[test]
fn puzzle_empty_is_all_blank() {
    let p = Puzzle::empty(2, 3).unwrap();
    assert_eq!(p.rows(), 2);
    assert_eq!(p.cols(), 3);
    assert_eq!(p.size(), 6);
    for r in 0..2 {
        for c in 0..3 {
            assert_eq!(p.get(Position::new(r, c)).unwrap(), Fill::Blank);
        }
    }
}

#[test]
fn puzzle_new_rejects_size_mismatch() {
    let cells = vec![Fill::Blank; 5];
    assert_eq!(Puzzle::new(2, 3, cells).err(), Some(Error::SizeMismatch));
}

#[test]
fn puzzle_get_and_set_are_bounds_checked() {
    let mut p = Puzzle::empty(2, 2).unwrap();
    assert_eq!(p.get(Position::new(2, 0)).err(), Some(Error::OutOfBounds));
    assert_eq!(p.set(Position::new(0, 2), color(1)).err(), Some(Error::OutOfBounds));
    p.set(Position::new(1, 0), color(7)).unwrap();
    assert_eq!(p.get(Position::new(1, 0)).unwrap(), color(7));
    assert_eq!(p.get(Position::new(0, 0)).unwrap(), Fill::Blank);
}

#[test]
fn puzzle_row_and_col_views() {
    let cells = vec![
        color(1),
        Fill::Blank,
        color(2),
        Fill::Cross,
        color(3),
        Fill::Blank,
    ];
    let p = Puzzle::new(2, 3, cells).unwrap();
    assert_eq!(p.row(0), vec![color(1), Fill::Blank, color(2)]);
    assert_eq!(p.row(1), vec![Fill::Cross, color(3), Fill::Blank]);
    assert_eq!(p.col(0), vec![color(1), Fill::Cross]);
    assert_eq!(p.col(2), vec![color(2), Fill::Blank]);
    assert_eq!(p.iter_rows().len(), 2);
    assert_eq!(p.iter_cols().len(), 3);
}

#[test]
fn position_orders_row_major() {
    assert!(Position::new(0, 5) < Position::new(1, 0));
    assert!(Position::new(1, 2) < Position::new(1, 3));
    assert_eq!(Position::default(), Position::new(0, 0));
}

#[test]
fn position_projects_along_axes() {
    let p = Position::new(3, 7);
    let row_pos = p.along_axis(Axis::Row);
    assert_eq!(row_pos.line, Line::Row(3));
    assert_eq!(row_pos.offset, 7);
    let col_pos = p.along_axis(Axis::Col);
    assert_eq!(col_pos.line, Line::Col(7));
    assert_eq!(col_pos.offset, 3);
}

#[test]
fn line_names_its_index_and_axis() {
    assert_eq!(Line::Row(4).line(), 4);
    assert_eq!(Line::Col(9).line(), 9);
    assert_eq!(Line::Row(0).axis(), Axis::Row);
    assert_eq!(Line::Col(0).axis(), Axis::Col);
    assert_eq!(Axis::default(), Axis::Row);
}

#[test]
fn rule_from_fills_reads_runs_off_the_line() {
    let fills = vec![color(1), color(1), Fill::Blank, color(2), Fill::Cross, color(2)];
    let rule = Rule::from_fills(&fills);
    assert_eq!(rule.line_len, 6);
    let runs = rule.runs();
    assert_eq!(runs.len(), 3);
    assert_eq!((runs[0].fill, runs[0].count), (color(1), 2));
    assert_eq!((runs[1].fill, runs[1].count), (color(2), 1));
    assert_eq!((runs[2].fill, runs[2].count), (color(2), 1));
}
