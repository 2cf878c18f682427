use ppb_cdcl2::two_dimensional_map::TwoDimensionalMap;

fn row_of(map: &TwoDimensionalMap<u32>, i: usize) -> Vec<(usize, u32)> {
    map.iter_row(i).to_vec()
}

fn column_of(map: &TwoDimensionalMap<u32>, j: usize) -> Vec<(usize, u32)> {
    map.iter_column(j).into_iter().map(|(i, v)| (i, *v)).collect()
}

#[test]
fn two_dimensional_map_lists_rows_and_columns_in_insertion_order() {
    let mut map: TwoDimensionalMap<u32> = TwoDimensionalMap::new();
    assert_eq!(map.capacity(), [0, 0]);
    map.insert([1, 2], 12);
    assert_eq!(map.capacity(), [2, 4]);
    map.insert([1, 0], 10);
    map.insert([0, 2], 2);
    map.insert([5, 2], 52);
    assert_eq!(map.capacity(), [8, 4]);
    assert_eq!(row_of(&map, 1), vec![(2, 12), (0, 10)]);
    assert_eq!(column_of(&map, 2), vec![(1, 12), (0, 2), (5, 52)]);
    assert_eq!(map.get([1, 0]), Some(&10));
    assert_eq!(map.get([0, 0]), None);
    assert_eq!(map.get([100, 100]), None);
    map.insert([1, 2], 21);
    assert_eq!(row_of(&map, 1), vec![(2, 21), (0, 10)]);
    assert_eq!(column_of(&map, 2), vec![(1, 21), (0, 2), (5, 52)]);
}

#[test]
fn two_dimensional_map_remove_keeps_the_other_entries_in_order() {
    let mut map: TwoDimensionalMap<u32> =
        TwoDimensionalMap::from_iter(vec![([0, 0], 1), ([0, 1], 2), ([0, 2], 3), ([1, 1], 4)]);
    map.remove([0, 1]);
    assert_eq!(map.get([0, 1]), None);
    assert_eq!(row_of(&map, 0), vec![(0, 1), (2, 3)]);
    assert_eq!(column_of(&map, 1), vec![(1, 4)]);
    map.remove([7, 7]);
    map.remove([0, 1]);
    assert_eq!(row_of(&map, 0), vec![(0, 1), (2, 3)]);
    map.insert([0, 1], 5);
    assert_eq!(row_of(&map, 0), vec![(0, 1), (2, 3), (1, 5)]);
    assert_eq!(column_of(&map, 1), vec![(1, 4), (0, 5)]);
}

#[test]
fn two_dimensional_map_clears_rows_columns_and_everything() {
    let mut map: TwoDimensionalMap<u32> = TwoDimensionalMap::default();
    map.extend(vec![([0, 0], 1), ([0, 1], 2), ([1, 0], 3), ([1, 1], 4), ([2, 1], 5)]);
    map.clear_row(1);
    assert_eq!(row_of(&map, 1), vec![]);
    assert_eq!(column_of(&map, 0), vec![(0, 1)]);
    assert_eq!(column_of(&map, 1), vec![(0, 2), (2, 5)]);
    map.clear_column(1);
    assert_eq!(row_of(&map, 0), vec![(0, 1)]);
    assert_eq!(row_of(&map, 2), vec![]);
    assert_eq!(map.get([0, 0]), Some(&1));
    map.clear_row(99);
    map.clear_column(99);
    let cloned = map.clone();
    map.clear();
    assert_eq!(map.capacity(), [0, 0]);
    assert_eq!(map.get([0, 0]), None);
    assert_eq!(cloned.get([0, 0]), Some(&1));
}

#[test]
fn two_dimensional_map_iter_lists_each_entry_once() {
    let map: TwoDimensionalMap<u32> =
        TwoDimensionalMap::from_iter(vec![([3, 1], 31), ([0, 2], 2), ([3, 0], 30), ([0, 2], 20)]);
    let entries: Vec<([usize; 2], u32)> = map.iter().into_iter().map(|(i, v)| (i, *v)).collect();
    assert_eq!(entries, vec![([0, 2], 20), ([3, 1], 31), ([3, 0], 30)]);
}

#[test]
fn two_dimensional_map_get_mut_changes_in_place() {
    let mut map: TwoDimensionalMap<u32> = TwoDimensionalMap::new();
    map.insert([1, 2], 5);
    map.insert([0, 2], 7);
    assert_eq!(map.get_mut([3, 3]), None);
    if let Some(value) = map.get_mut([1, 2]) {
        *value += 10;
    }
    assert_eq!(map.get([1, 2]), Some(&15));
    assert_eq!(map.get([0, 2]), Some(&7));
    assert_eq!(map.iter().len(), 2);
}
