use nono::{Fill, LineMask, Rule, Run};

fn color(id: u16) -> Fill {
    Fill::Color(id)
}

fn rule_of(segments: &[(u16, u16)], line_len: u16) -> Rule {
    let mut runs: Vec<Run> = Vec::new();
    for &(id, count) in segments {
        runs.push(Run::new(color(id), count).unwrap());
    }
    Rule::new(runs, line_len).unwrap()
}

fn blank_line(len: usize) -> Vec<Fill> {
    vec![Fill::Blank; len]
}

fn mask_bits(mask: &LineMask) -> Vec<bool> {
    let mut bits = Vec::new();
    for i in 0..mask.len() {
        bits.push(mask.get(i));
    }
    bits
}

#[test]
fn single_short_run_forces_nothing() {
    let mut rule = rule_of(&[(1, 1)], 3);
    rule.generate_constraints(&blank_line(3));
    let mask = rule.constraint(1).unwrap();
    assert_eq!(mask_bits(mask), vec![false, false, false]);
}

#[test]
fn single_run_on_unit_line_forces_its_cell() {
    let mut rule = rule_of(&[(1, 1)], 1);
    rule.generate_constraints(&blank_line(1));
    let mask = rule.constraint(1).unwrap();
    assert_eq!(mask_bits(mask), vec![true]);
}

#[test]
fn same_color_pair_forces_nothing_at_length_four() {
    let mut rule = rule_of(&[(1, 1), (1, 1)], 4);
    rule.generate_constraints(&blank_line(4));
    let mask = rule.constraint(1).unwrap();
    assert_eq!(mask_bits(mask), vec![false, false, false, false]);
}

#[test]
fn same_color_pair_forces_both_at_minimum_length() {
    let mut rule = rule_of(&[(1, 1), (1, 1)], 3);
    rule.generate_constraints(&blank_line(3));
    let mask = rule.constraint(1).unwrap();
    assert_eq!(mask_bits(mask), vec![true, false, true]);
}

#[test]
fn long_run_forces_its_overlap() {
    let mut rule = rule_of(&[(1, 3)], 5);
    rule.generate_constraints(&blank_line(5));
    let mask = rule.constraint(1).unwrap();
    assert_eq!(mask_bits(mask), vec![false, false, true, false, false]);
}

#[test]
fn known_cross_narrows_placements() {
    let mut rule = rule_of(&[(1, 2)], 3);
    let line = vec![Fill::Blank, Fill::Blank, Fill::Cross];
    rule.generate_constraints(&line);
    let mask = rule.constraint(1).unwrap();
    assert_eq!(mask_bits(mask), vec![true, true, false]);
}

#[test]
fn known_color_narrows_placements() {
    let mut rule = rule_of(&[(1, 2)], 4);
    let line = vec![Fill::Blank, color(1), Fill::Blank, Fill::Blank];
    rule.generate_constraints(&line);
    let mask = rule.constraint(1).unwrap();
    // the run must cover cell 1, so it sits at 0..2 or 1..3
    assert_eq!(mask_bits(mask), vec![false, true, false, false]);
}

#[test]
fn two_colors_get_separate_masks() {
    let mut rule = rule_of(&[(1, 2), (2, 2)], 4);
    rule.generate_constraints(&blank_line(4));
    let first = mask_bits(rule.constraint(1).unwrap());
    let second = mask_bits(rule.constraint(2).unwrap());
    assert_eq!(first, vec![true, true, false, false]);
    assert_eq!(second, vec![false, false, true, true]);
    assert!(rule.constraint(3).is_none());
}

#[test]
fn constraints_recomputation_is_idempotent() {
    let mut rule = rule_of(&[(1, 2), (2, 1)], 5);
    let line = vec![Fill::Blank, Fill::Blank, color(1), Fill::Blank, Fill::Blank];
    rule.generate_constraints(&line);
    let first: Vec<(u16, Vec<bool>)> = rule
        .constraints
        .iter()
        .map(|(c, m)| (*c, mask_bits(m)))
        .collect();
    rule.generate_constraints(&line);
    let second: Vec<(u16, Vec<bool>)> = rule
        .constraints
        .iter()
        .map(|(c, m)| (*c, mask_bits(m)))
        .collect();
    assert_eq!(first, second);
}

#[test]
fn masks_compare_by_bits() {
    let mut a = rule_of(&[(1, 1)], 1);
    let mut b = rule_of(&[(1, 1)], 1);
    a.generate_constraints(&blank_line(1));
    b.generate_constraints(&blank_line(1));
    assert!(a.constraint(1).unwrap().same_bits(b.constraint(1).unwrap()));
    let mut c3 = rule_of(&[(1, 1)], 2);
    c3.generate_constraints(&blank_line(2));
    assert!(!a.constraint(1).unwrap().same_bits(c3.constraint(1).unwrap()));
}

#[test]
fn infeasible_content_yields_empty_mask() {
    // the rule fits the length, but the known cells admit no placement
    let mut rule = rule_of(&[(1, 2)], 3);
    let line = vec![Fill::Blank, Fill::Cross, Fill::Blank];
    rule.generate_constraints(&line);
    let mask = rule.constraint(1).unwrap();
    assert_eq!(mask_bits(mask), vec![false, false, false]);
}

#[test]
fn blank_mask_marks_cells_no_placement_covers() {
    let mut rule = rule_of(&[(1, 2)], 3);
    let line = vec![Fill::Blank, Fill::Blank, Fill::Cross];
    rule.generate_constraints(&line);
    // the run can only sit at the front, so the crossed cell is the
    // one cell no placement covers
    assert_eq!(mask_bits(&rule.blanks), vec![false, false, true]);
}

#[test]
fn blank_mask_of_free_run_is_empty() {
    let mut rule = rule_of(&[(1, 2)], 3);
    rule.generate_constraints(&vec![Fill::Blank; 3]);
    // every cell lies under some placement of the run
    assert_eq!(mask_bits(&rule.blanks), vec![false, false, false]);
}

#[test]
fn empty_rule_forces_whole_line_blank() {
    let mut rule = Rule::new(Vec::new(), 3).unwrap();
    rule.generate_constraints(&vec![Fill::Blank; 3]);
    assert!(rule.constraint(1).is_none());
    assert_eq!(mask_bits(&rule.blanks), vec![true, true, true]);
}

#[test]
fn overlap_leaves_uncertain_edges_open() {
    let mut rule = rule_of(&[(1, 3)], 5);
    rule.generate_constraints(&vec![Fill::Blank; 5]);
    // cells reachable by some placement are not forced blank
    assert_eq!(mask_bits(&rule.blanks), vec![false; 5]);
    assert_eq!(mask_bits(rule.constraint(1).unwrap()), vec![false, false, true, false, false]);
}
