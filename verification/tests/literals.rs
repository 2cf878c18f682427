use ppb_cdcl2::literal::Literal;
use ppb_cdcl2::literal_array::LiteralArray;
use ppb_cdcl2::literal_set::LiteralSet;
use ppb_cdcl2::row_storage::RowStorage;

#[test]
fn literals_pack_variable_and_value() {
    let literal = Literal::new(7, true);
    assert_eq!(literal.index(), 7);
    assert!(literal.value());
    assert_eq!(literal.bits(), 15);
    assert_eq!(Literal::from_bits(15), literal);
    let negated = !literal;
    assert_eq!(negated.index(), 7);
    assert!(!negated.value());
    assert_eq!(!negated, literal);
    assert_eq!(literal.negation(), negated);
}

#[test]
fn literal_array_holds_a_value_per_literal() {
    let mut array: LiteralArray<u32> = LiteralArray::new();
    array.push(10, 11);
    array.push(20, 21);
    assert_eq!(array.len(), 4);
    assert_eq!(*array.get(Literal::new(1, true)), 21);
    array.set(Literal::new(0, false), 5);
    assert_eq!(
        array.iter(),
        vec![
            (Literal::new(0, false), &5),
            (Literal::new(0, true), &11),
            (Literal::new(1, false), &20),
            (Literal::new(1, true), &21)
        ]
    );
    *array.get_mut(Literal::new(1, false)) += 1;
    assert_eq!(*array.get(Literal::new(1, false)), 21);
}

#[test]
fn literal_set_membership() {
    let mut set = LiteralSet::new();
    set.insert(Literal::new(2, true));
    set.extend(vec![Literal::new(2, false), Literal::new(5, true)]);
    assert_eq!(set.len(), 3);
    assert!(set.contains_key(Literal::new(2, false)));
    assert!(!set.contains_key(Literal::new(5, false)));
    assert!(set.is_subset_of(&[Literal::new(5, true), Literal::new(2, true), Literal::new(2, false)]));
    set.remove(Literal::new(2, true));
    assert!(!set.is_subset_of(&[Literal::new(5, true)]));
    set.clear();
    assert!(set.is_empty());
}

#[test]
fn row_storage_reuses_freed_rows() {
    let mut rows: RowStorage<u64> = RowStorage::new();
    let a = rows.allocate(1);
    let b = rows.allocate(2);
    assert_eq!(rows.len(), 2);
    assert_eq!(rows.get(a), Some(&1));
    rows.deallocate(a);
    assert_eq!(rows.get(a), None);
    assert_eq!(rows.len(), 1);
    let c = rows.allocate(3);
    assert_eq!(c, a);
    assert!(rows.set(b, 4));
    assert_eq!(rows.get(b), Some(&4));
    let all: Vec<u64> = rows.iter().iter().map(|(_, v)| **v).collect();
    assert_eq!(all.len(), 2);
}

#[test]
fn literal_set_length_and_subsets_of_distinct_literals() {
    let mut set = LiteralSet::new();
    set.insert(Literal::new(1, true));
    set.insert(Literal::new(1, true));
    assert_eq!(set.len(), 1);
    set.insert(Literal::new(1, false));
    assert_eq!(set.len(), 2);
    assert!(set.is_subset_of(&[Literal::new(1, false), Literal::new(4, true), Literal::new(1, true)]));
    assert!(!set.is_subset_of(&[Literal::new(1, false), Literal::new(4, true)]));
    set.remove(Literal::new(3, true));
    assert_eq!(set.len(), 2);
    set.remove(Literal::new(1, true));
    assert_eq!(set.len(), 1);
}
