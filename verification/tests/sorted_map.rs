use ppb_cdcl2::comparator::{NaturalComparator, ValueComparator};
use ppb_cdcl2::sorted_map::SortedMap;

#[test]
fn test1() {
    let mut m: SortedMap<usize, ValueComparator<NaturalComparator>> = SortedMap::default();

    for i in 0..50 {
        m.insert(2 * i, 20 * i);
    }
    for i in (0..50).rev() {
        m.insert(2 * i + 1, 20 * i + 10);
    }
    println!("{:?}", &m);

    let v = m.remove(0);
    println!("{:?}", v);
    assert_eq!(v, Some(0));

    let v = m.remove(5);
    println!("{:?}", v);
    assert_eq!(v, Some(50));

    let v = m.remove(9);
    println!("{:?}", v);
    assert_eq!(v, Some(90));

    m.remove(1);
    m.remove(2);
    m.remove(3);
    m.remove(4);
    m.remove(6);
    m.remove(7);
    m.remove(8);

    for i in 50..100 {
        m.remove(i);
    }
    println!("{:?}", &m);
    assert_eq!(m.len(), 50 - 10);
}

#[test]
fn sorted_map_iterates_in_value_order() {
    let mut m: SortedMap<usize, ValueComparator<NaturalComparator>> = SortedMap::default();
    m.insert(3, 30);
    m.insert(1, 50);
    m.insert(7, 10);
    m.insert(3, 60);
    let ascending: Vec<(usize, usize)> = m.iter().to_vec();
    assert_eq!(ascending, vec![(7, 10), (1, 50), (3, 60)]);
    assert_eq!(m.min_key_value(), Some(&(7, 10)));
    assert_eq!(m.max_key_value(), Some(&(3, 60)));
    let mut cursor = m.iter_in_descending_order();
    assert_eq!(cursor.next(), Some(&(3, 60)));
    assert_eq!(cursor.next(), Some(&(1, 50)));
    assert_eq!(cursor.next_back(), Some(&(3, 60)));
    assert_eq!(cursor.next_back(), None);
    let mut descending: Vec<(usize, usize)> = Vec::new();
    let mut walk = m.iter_in_descending_order();
    while let Some(&entry) = walk.next() {
        descending.push(entry);
    }
    let mut reversed = ascending.clone();
    reversed.reverse();
    assert_eq!(descending, reversed);
    let mut up = m.iter_in_ascending_order();
    assert_eq!(up.next(), Some(&(7, 10)));
    assert_eq!(up.next_back(), None);
    assert_eq!(m.get(1), Some(&50));
    assert_eq!(m.get(2), None);
    assert!(m.contains_key(7));
    assert!(!m.contains_key(2));
    m.clear();
    assert!(m.is_empty());
    assert_eq!(m.min_key_value(), None);
}
