use lib::sorting::stable_sort;

#[test]
fn sorts_by_key() {
    let items = vec![(3, 'a'), (1, 'b'), (2, 'c'), (1, 'd'), (3, 'e'), (-5, 'f')];
    assert_eq!(stable_sort(items), vec![(-5, 'f'), (1, 'b'), (1, 'd'), (2, 'c'), (3, 'a'), (3, 'e')]);
}

#[test]
fn keeps_the_order_of_equal_keys() {
    let items: Vec<(i64, usize)> = (0..20).map(|i| ((i as i64 * 7) % 3, i)).collect();
    let sorted = stable_sort(items.clone());
    let mut expected = items.clone();
    expected.sort_by_key(|e| e.0);
    assert_eq!(sorted, expected);
}

#[test]
fn empty_and_single() {
    assert_eq!(stable_sort(Vec::<(i64, u8)>::new()), vec![]);
    assert_eq!(stable_sort(vec![(i64::MIN, 1u8)]), vec![(i64::MIN, 1u8)]);
}
