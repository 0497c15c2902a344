use lib::ghost_legs::{cross_line, number_columns};

fn chars(s: &str) -> Vec<char> {
    s.chars().collect()
}

#[test]
fn columns_are_numbered_from_one() {
    let (results, names) = number_columns(&chars("A  B  C"));
    assert_eq!(results.len(), 3);
    assert_eq!(results[&1], vec![1]);
    assert_eq!(results[&3], vec![3]);
    assert_eq!(names[&1], 'A');
    assert_eq!(names[&2], 'B');
    assert_eq!(names[&3], 'C');
}

#[test]
fn a_rung_swaps_two_columns() {
    let (mut results, _) = number_columns(&chars("A  B  C"));
    cross_line(&mut results, &chars("|-|  |"));
    assert_eq!(results[&1], vec![2]);
    assert_eq!(results[&2], vec![1]);
    assert_eq!(results[&3], vec![3]);
}

#[test]
fn crossing_the_same_rung_twice_restores_the_columns() {
    let (mut results, _) = number_columns(&chars("A  B  C"));
    cross_line(&mut results, &chars("|  |-|"));
    assert_eq!(results[&2], vec![3]);
    cross_line(&mut results, &chars("|  |-|"));
    assert_eq!(results[&1], vec![1]);
    assert_eq!(results[&2], vec![2]);
    assert_eq!(results[&3], vec![3]);
}

#[test]
fn legs_without_rungs_change_nothing() {
    let (mut results, _) = number_columns(&chars("A  B"));
    cross_line(&mut results, &chars("|  |"));
    assert_eq!(results[&1], vec![1]);
    assert_eq!(results[&2], vec![2]);
}

#[test]
fn every_dash_swaps_once() {
    let (mut results, _) = number_columns(&chars("A  B"));
    cross_line(&mut results, &chars("|--|"));
    assert_eq!(results[&1], vec![1]);
    assert_eq!(results[&2], vec![2]);
}
