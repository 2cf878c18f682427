use ppb_cdcl2::comparator::{
    Comparator, IndexComparator, NaturalComparator, Order, ReverseComparator, ValueComparator,
};
use ppb_cdcl2::heap_sort::{down_heap, up_heap, update_heap};
use ppb_cdcl2::heaped_map::HeapedMap;
use ppb_cdcl2::map::IndexMap;
use ppb_cdcl2::priority_queue::PriorityQueue;
use ppb_cdcl2::set::IndexSet;

#[test]
fn comparators_order_values() {
    let natural = NaturalComparator {};
    assert!(matches!(Comparator::<usize>::cmp(&natural, &1, &2), Order::Less));
    assert!(matches!(Comparator::<usize>::cmp(&natural, &2, &2), Order::Equal));
    assert!(matches!(Comparator::<u64>::cmp(&natural, &3, &2), Order::Greater));
    let reverse = ReverseComparator::new(NaturalComparator {});
    assert!(Comparator::<usize>::le(&reverse, &5, &1));
    assert!(!Comparator::<usize>::le(&reverse, &1, &5));
    let by_index = IndexComparator::<NaturalComparator>::default();
    assert!(by_index.le(&(1usize, 9u64), &(2usize, 0u64)));
    let by_value = ValueComparator::new(NaturalComparator {});
    assert!(by_value.le(&(9usize, 0usize), &(2usize, 1usize)));
    assert!(by_value.eq(&(9usize, 1usize), &(2usize, 1usize)));
}

#[test]
fn heap_functions_restore_the_heap() {
    let natural = NaturalComparator {};
    let mut array: Vec<usize> = vec![1, 3, 5, 4, 0];
    up_heap(&mut array, 4, &natural);
    assert_eq!(array[0], 0);
    let mut array: Vec<usize> = vec![9, 1, 2, 3, 4];
    down_heap(&mut array, 0, &natural);
    assert_eq!(array[0], 1);
    for i in 1..array.len() {
        assert!(array[(i - 1) / 2] <= array[i]);
    }
    let mut array: Vec<usize> = vec![1, 2, 3, 4, 5];
    array[3] = 0;
    update_heap(&mut array, 3, &natural);
    assert_eq!(array[0], 0);
    let mut sorted = array.clone();
    sorted.sort();
    assert_eq!(sorted, vec![0, 1, 2, 3, 5]);
}

#[test]
fn priority_queue_pops_in_order() {
    let mut queue: PriorityQueue<u64, NaturalComparator> = PriorityQueue::default();
    assert!(queue.is_empty());
    queue.push(5);
    queue.push(1);
    queue.extend(vec![7, 3, 3]);
    assert_eq!(queue.len(), 5);
    assert_eq!(queue.peek(), Some(&1));
    let mut popped = Vec::new();
    while let Some(value) = queue.pop() {
        popped.push(value);
    }
    assert_eq!(popped, vec![1, 3, 3, 5, 7]);
    assert_eq!(queue.pop(), None);
    queue.push(2);
    queue.clear();
    assert!(queue.is_empty());
}

#[test]
fn index_map_reads_back_writes() {
    let mut map: IndexMap<u64> = IndexMap::new();
    map.insert(3, 30);
    map.insert(10, 100);
    map.insert(3, 31);
    assert_eq!(map.len(), 2);
    assert_eq!(map.get(3), Some(&31));
    assert_eq!(map.get(4), None);
    assert!(map.contains_key(10));
    assert!(!map.contains_key(1000));
    assert!(map.capacity() >= 11);
    assert_eq!(map.remove(3), Some(31));
    assert_eq!(map.remove(3), None);
    assert_eq!(map.pop(), Some((10, 100)));
    assert!(map.is_empty());
    let map = IndexMap::from_iter(vec![(1, 'a'), (2, 'b'), (1, 'c')]);
    assert_eq!(map.get(1), Some(&'c'));
    assert_eq!(map.iter().len(), 2);
}

#[test]
fn index_set_subsets() {
    let mut set = IndexSet::from_iter(vec![1, 4, 4, 9]);
    assert_eq!(set.len(), 3);
    assert!(set.is_subset_of(&[9, 4, 1, 2]));
    assert!(!set.is_subset_of(&[9, 4]));
    set.insert(2);
    assert!(set.contains_key(2));
    assert_eq!(set.remove(4), Some(()));
    assert_eq!(set.remove(4), None);
    let mut elements = set.iter();
    elements.sort();
    assert_eq!(elements, vec![1, 2, 9]);
    set.clear();
    assert!(set.is_empty());
    assert_eq!(set.pop(), None);
}

#[test]
fn heaped_map_pops_least_values() {
    let mut map: HeapedMap<u64, ValueComparator<NaturalComparator>> = HeapedMap::default();
    map.insert(0, 50);
    map.insert(1, 20);
    map.insert(2, 40);
    map.insert(1, 60);
    assert_eq!(map.first(), Some((&2, &40)));
    assert_eq!(map.get(1), Some(&60));
    assert_eq!(map.remove(2), Some(40));
    assert_eq!(map.pop_first(), Some((0, 50)));
    assert_eq!(map.pop_first(), Some((1, 60)));
    assert_eq!(map.pop_first(), None);
    assert!(map.is_empty());
}

#[test]
fn heaped_map_reserve_keeps_entries_and_first() {
    let mut map: HeapedMap<u64, ValueComparator<NaturalComparator>> = HeapedMap::default();
    map.insert(3, 30);
    map.insert(1, 10);
    let capacity = map.capacity();
    assert!(!map.contains_key(capacity));
    assert!(!map.contains_key(capacity + 100));
    let first = map.first().map(|(i, v)| (*i, *v));
    map.reserve(5);
    assert_eq!(map.capacity(), capacity + 5);
    assert_eq!(map.first().map(|(i, v)| (*i, *v)), first);
    assert_eq!(map.len(), 2);
    assert_eq!(map.get(3), Some(&30));
}
