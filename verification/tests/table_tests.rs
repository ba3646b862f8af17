use mdchat::table::{Table, Align, MIN_COL_WIDTH};

#[test]
fn widths_match_header_count_and_floor() {
    let mut t = Table::new(vec![
        ("one".to_string(), Align::Left),
        ("two".to_string(), Align::Right),
        ("three".to_string(), Align::Center),
    ]);
    t.add_row(vec!["a".to_string(), "b".to_string(), "c".to_string()]);
    t.calculate_column_widths(10);
    assert_eq!(t.column_widths.len(), 3);
    for w in &t.column_widths {
        assert!(*w >= MIN_COL_WIDTH);
    }
}

#[test]
fn scaling_respects_budget_when_floor_not_hit() {
    let long = "x".repeat(30);
    let mut t = Table::new(vec![
        (long.clone(), Align::Left),
        (long.clone(), Align::Left),
    ]);
    t.add_row(vec!["a".to_string(), "b".to_string()]);
    t.calculate_column_widths(40);
    // available = 40 - (5*2 + 2) = 28; natural = [30, 30]; scaled = 30*28/60 = 14
    assert_eq!(t.column_widths, vec![14, 14]);
    let sum: usize = t.column_widths.iter().sum();
    assert!(sum <= 28);
}

#[test]
fn wide_budget_keeps_natural_widths() {
    let mut t = Table::new(vec![
        ("ab".to_string(), Align::Left),
        ("cd".to_string(), Align::Left),
    ]);
    t.add_row(vec!["12345".to_string(), "6".to_string()]);
    t.calculate_column_widths(80);
    // available = 68, base = max(34, 3) = 34, widened to content where longer
    assert_eq!(t.column_widths, vec![34, 34]);
}

#[test]
fn floor_protection_may_overflow_tiny_budgets() {
    let wide = "a".repeat(10);
    let mut t = Table::new(vec![
        (wide.clone(), Align::Left),
        (wide.clone(), Align::Left),
        (wide.clone(), Align::Left),
    ]);
    t.add_row(vec!["x".to_string(), "y".to_string(), "z".to_string()]);
    t.calculate_column_widths(20);
    // available = 20 - 17 = 3; scaling lands below the floor, which wins
    assert_eq!(t.column_widths, vec![3, 3, 3]);
}

#[test]
fn render_draws_borders_and_content() {
    let mut t = Table::new(vec![
        ("H1".to_string(), Align::Left),
        ("H2".to_string(), Align::Right),
    ]);
    t.add_row(vec!["a".to_string(), "b".to_string()]);
    t.add_row(vec!["c".to_string(), "d".to_string()]);
    t.calculate_column_widths(40);
    let out = t.render();
    assert!(out.starts_with("  \u{250c}"));
    assert!(out.ends_with("\u{2518}\n"));
    assert!(out.contains("H1"));
    assert!(out.contains("H2"));
    assert!(out.contains('a'));
    assert!(out.contains('d'));
    // top, header, align separator, row, inter-row separator, row, bottom
    assert_eq!(out.lines().count(), 7);
}

#[test]
fn long_cell_wraps_to_multiple_lines() {
    let mut t = Table::new(vec![
        ("H".to_string(), Align::Left),
    ]);
    t.add_row(vec!["alpha beta gamma delta epsilon zeta eta theta".to_string()]);
    t.calculate_column_widths(20);
    let out = t.render();
    // the one data row spans several physical lines
    let data_lines = out.lines().filter(|l| l.contains('\u{2502}')).count();
    assert!(data_lines > 2, "header line plus a wrapped multi-line row: {}", out);
}

#[test]
fn right_alignment_pads_on_the_left() {
    let mut t = Table::new(vec![
        ("num".to_string(), Align::Right),
    ]);
    t.add_row(vec!["7".to_string()]);
    t.calculate_column_widths(30);
    let out = t.render();
    let row = out
        .lines()
        .filter(|l| l.contains('7'))
        .next()
        .expect("data row present");
    let inner = row.trim_start_matches("  \u{2502} ").trim_end_matches(" \u{2502}");
    assert!(inner.starts_with(' '), "right-aligned content is padded on the left");
    assert!(inner.ends_with('7'));
}

#[test]
fn center_alignment_gives_extra_space_to_the_right() {
    let mut t = Table::new(vec![
        ("c".to_string(), Align::Center),
    ]);
    t.add_row(vec!["ab".to_string()]);
    t.calculate_column_widths(30);
    let out = t.render();
    let row = out
        .lines()
        .filter(|l| l.contains("ab"))
        .next()
        .expect("data row present");
    let inner = row.trim_start_matches("  \u{2502} ").trim_end_matches(" \u{2502}");
    let left = inner.len() - inner.trim_start().len();
    let right = inner.len() - inner.trim_end().len();
    assert!(right >= left, "the extra padding unit goes to the right");
}

#[test]
fn added_rows_are_truncated_to_header_count() {
    let mut t = Table::new(vec![
        ("A".to_string(), Align::Left),
    ]);
    t.add_row(vec!["x".to_string(), "dropped".to_string()]);
    t.calculate_column_widths(40);
    let out = t.render();
    assert!(out.contains('x'));
    assert!(!out.contains("dropped"));
}
