use lib::neighbours::{has_cell, node_report, search};

fn grid(rows: &[&str]) -> Vec<String> {
    rows.iter().map(|r| r.to_string()).collect()
}

#[test]
fn small_square() {
    let lines = grid(&["00", "0."]);
    assert_eq!(node_report(&lines), vec!["0 0 1 0 0 1", "1 0 -1 -1 -1 -1", "0 1 -1 -1 -1 -1"]);
}

#[test]
fn skips_empty_cells() {
    let lines = grid(&["0.0.0", ".....", "0...0"]);
    let report = node_report(&lines);
    assert_eq!(report[0], "0 0 2 0 0 2");
    assert_eq!(report[1], "2 0 4 0 -1 -1");
    assert_eq!(report[2], "4 0 -1 -1 4 2");
    assert_eq!(report[3], "0 2 4 2 -1 -1");
    assert_eq!(report[4], "4 2 -1 -1 -1 -1");
    assert_eq!(report.len(), 5);
}

#[test]
fn cells_and_searches() {
    let lines = grid(&["0.0", "..."]);
    assert!(has_cell(0, 0, &lines));
    assert!(!has_cell(1, 0, &lines));
    assert!(!has_cell(5, 0, &lines));
    assert!(!has_cell(0, 9, &lines));
    assert_eq!(search(0, 0, 1, 0, &lines), "2 0");
    assert_eq!(search(0, 0, 0, 1, &lines), "-1 -1");
    assert_eq!(search(7, 0, 1, 0, &lines), "-1 -1");
}

#[test]
fn shorter_line_ends_the_walk_down() {
    let lines = grid(&["..0", "0", "..0"]);
    assert_eq!(search(2, 0, 0, 1, &lines), "-1 -1");
}
