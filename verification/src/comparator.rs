use vstd::prelude::*;

verus! {

/// The outcome of a three-way comparison.
#[derive(Clone, Copy, PartialEq, Eq, Structural, Debug)]
pub enum Order {
    Less,
    Equal,
    Greater,
}

/// The outcome of comparing `a` with `b` under a total preorder, given
/// whether `a <= b` and whether `b <= a`.
pub open spec fn order_of(a_le_b: bool, b_le_a: bool) -> Order {
    if a_le_b && b_le_a {
        Order::Equal
    } else if a_le_b {
        Order::Less
    } else {
        Order::Greater
    }
}

/// A total preorder on values of type `ValueT`, decided by `cmp`.
///
/// `spec_le` is the preorder; the two proof functions are its laws, which
/// every implementation proves.
pub trait Comparator<ValueT> {
    /// `lhs` comes no later than `rhs`.
    spec fn spec_le(&self, lhs: ValueT, rhs: ValueT) -> bool;

    /// Any two values are comparable.
    proof fn lemma_total(&self, lhs: ValueT, rhs: ValueT)
        ensures
            self.spec_le(lhs, rhs) || self.spec_le(rhs, lhs),
    ;

    /// The preorder is transitive.
    proof fn lemma_transitive(&self, a: ValueT, b: ValueT, c: ValueT)
        requires
            self.spec_le(a, b),
            self.spec_le(b, c),
        ensures
            self.spec_le(a, c),
    ;

    /// Three-way comparison.
    fn cmp(&self, lhs: &ValueT, rhs: &ValueT) -> (order: Order)
        ensures
            order == order_of(self.spec_le(*lhs, *rhs), self.spec_le(*rhs, *lhs)),
    ;

    /// `lhs == rhs` under the preorder.
    fn eq(&self, lhs: &ValueT, rhs: &ValueT) -> (equal: bool)
        ensures
            equal == (self.spec_le(*lhs, *rhs) && self.spec_le(*rhs, *lhs)),
    {
        match self.cmp(lhs, rhs) {
            Order::Equal => true,
            _ => false,
        }
    }

    /// `lhs <= rhs` under the preorder.
    fn le(&self, lhs: &ValueT, rhs: &ValueT) -> (less_or_equal: bool)
        ensures
            less_or_equal == self.spec_le(*lhs, *rhs),
    {
        match self.cmp(lhs, rhs) {
            Order::Greater => false,
            _ => true,
        }
    }

    /// `lhs >= rhs` under the preorder.
    fn ge(&self, lhs: &ValueT, rhs: &ValueT) -> (greater_or_equal: bool)
        ensures
            greater_or_equal == self.spec_le(*rhs, *lhs),
    {
        proof {
            self.lemma_total(*lhs, *rhs);
        }
        match self.cmp(lhs, rhs) {
            Order::Less => false,
            _ => true,
        }
    }
}

/// Orders values by their natural order.
#[derive(Default, Clone, Copy, Debug)]
pub struct NaturalComparator {}

impl Comparator<usize> for NaturalComparator {
    open spec fn spec_le(&self, lhs: usize, rhs: usize) -> bool {
        lhs <= rhs
    }

    proof fn lemma_total(&self, lhs: usize, rhs: usize) {
    }

    proof fn lemma_transitive(&self, a: usize, b: usize, c: usize) {
    }

    fn cmp(&self, lhs: &usize, rhs: &usize) -> (order: Order) {
        if *lhs < *rhs {
            Order::Less
        } else if *lhs == *rhs {
            Order::Equal
        } else {
            Order::Greater
        }
    }

    fn eq(&self, lhs: &usize, rhs: &usize) -> (equal: bool) {
        *lhs == *rhs
    }

    fn le(&self, lhs: &usize, rhs: &usize) -> (less_or_equal: bool) {
        *lhs <= *rhs
    }

    fn ge(&self, lhs: &usize, rhs: &usize) -> (greater_or_equal: bool) {
        *lhs >= *rhs
    }
}

impl Comparator<u64> for NaturalComparator {
    open spec fn spec_le(&self, lhs: u64, rhs: u64) -> bool {
        lhs <= rhs
    }

    proof fn lemma_total(&self, lhs: u64, rhs: u64) {
    }

    proof fn lemma_transitive(&self, a: u64, b: u64, c: u64) {
    }

    fn cmp(&self, lhs: &u64, rhs: &u64) -> (order: Order) {
        if *lhs < *rhs {
            Order::Less
        } else if *lhs == *rhs {
            Order::Equal
        } else {
            Order::Greater
        }
    }

    fn eq(&self, lhs: &u64, rhs: &u64) -> (equal: bool) {
        *lhs == *rhs
    }

    fn le(&self, lhs: &u64, rhs: &u64) -> (less_or_equal: bool) {
        *lhs <= *rhs
    }

    fn ge(&self, lhs: &u64, rhs: &u64) -> (greater_or_equal: bool) {
        *lhs >= *rhs
    }
}

impl Comparator<i64> for NaturalComparator {
    open spec fn spec_le(&self, lhs: i64, rhs: i64) -> bool {
        lhs <= rhs
    }

    proof fn lemma_total(&self, lhs: i64, rhs: i64) {
    }

    proof fn lemma_transitive(&self, a: i64, b: i64, c: i64) {
    }

    fn cmp(&self, lhs: &i64, rhs: &i64) -> (order: Order) {
        if *lhs < *rhs {
            Order::Less
        } else if *lhs == *rhs {
            Order::Equal
        } else {
            Order::Greater
        }
    }

    fn eq(&self, lhs: &i64, rhs: &i64) -> (equal: bool) {
        *lhs == *rhs
    }

    fn le(&self, lhs: &i64, rhs: &i64) -> (less_or_equal: bool) {
        *lhs <= *rhs
    }

    fn ge(&self, lhs: &i64, rhs: &i64) -> (greater_or_equal: bool) {
        *lhs >= *rhs
    }
}

/// Orders pairs lexicographically, each component by its natural order.
impl Comparator<(u64, u64)> for NaturalComparator {
    open spec fn spec_le(&self, lhs: (u64, u64), rhs: (u64, u64)) -> bool {
        lhs.0 < rhs.0 || (lhs.0 == rhs.0 && lhs.1 <= rhs.1)
    }

    proof fn lemma_total(&self, lhs: (u64, u64), rhs: (u64, u64)) {
    }

    proof fn lemma_transitive(&self, a: (u64, u64), b: (u64, u64), c: (u64, u64)) {
    }

    fn cmp(&self, lhs: &(u64, u64), rhs: &(u64, u64)) -> (order: Order) {
        if lhs.0 < rhs.0 {
            Order::Less
        } else if lhs.0 > rhs.0 {
            Order::Greater
        } else if lhs.1 < rhs.1 {
            Order::Less
        } else if lhs.1 == rhs.1 {
            Order::Equal
        } else {
            Order::Greater
        }
    }
}

/// Orders values by their natural partial order; on the integer types it
/// is total, so `cmp` never fails.
#[derive(Default, Clone, Copy, Debug)]
pub struct NaturalPartialComparator {}

impl Comparator<usize> for NaturalPartialComparator {
    open spec fn spec_le(&self, lhs: usize, rhs: usize) -> bool {
        lhs <= rhs
    }

    proof fn lemma_total(&self, lhs: usize, rhs: usize) {
    }

    proof fn lemma_transitive(&self, a: usize, b: usize, c: usize) {
    }

    fn cmp(&self, lhs: &usize, rhs: &usize) -> (order: Order) {
        if *lhs < *rhs {
            Order::Less
        } else if *lhs > *rhs {
            Order::Greater
        } else {
            Order::Equal
        }
    }
}

impl Comparator<u64> for NaturalPartialComparator {
    open spec fn spec_le(&self, lhs: u64, rhs: u64) -> bool {
        lhs <= rhs
    }

    proof fn lemma_total(&self, lhs: u64, rhs: u64) {
    }

    proof fn lemma_transitive(&self, a: u64, b: u64, c: u64) {
    }

    fn cmp(&self, lhs: &u64, rhs: &u64) -> (order: Order) {
        if *lhs < *rhs {
            Order::Less
        } else if *lhs > *rhs {
            Order::Greater
        } else {
            Order::Equal
        }
    }
}

/// The reverse of another comparator.
#[derive(Default, Clone, Copy, Debug)]
pub struct ReverseComparator<ComparatorT> {
    comparator: ComparatorT,
}

impl<ComparatorT> ReverseComparator<ComparatorT> {
    /// The comparator that orders as `comparator` does, reversed.
    pub fn new(comparator: ComparatorT) -> (reverse: Self)
        ensures
            reverse.inner() == comparator,
    {
        Self { comparator }
    }

    /// The comparator that is reversed.
    pub closed spec fn inner(self) -> ComparatorT {
        self.comparator
    }
}

impl<ComparatorT, ValueT> Comparator<ValueT> for ReverseComparator<ComparatorT> where
    ComparatorT: Comparator<ValueT>,
 {
    closed spec fn spec_le(&self, lhs: ValueT, rhs: ValueT) -> bool {
        self.comparator.spec_le(rhs, lhs)
    }

    proof fn lemma_total(&self, lhs: ValueT, rhs: ValueT) {
        self.comparator.lemma_total(lhs, rhs);
    }

    proof fn lemma_transitive(&self, a: ValueT, b: ValueT, c: ValueT) {
        self.comparator.lemma_transitive(c, b, a);
    }

    fn cmp(&self, lhs: &ValueT, rhs: &ValueT) -> (order: Order) {
        self.comparator.cmp(rhs, lhs)
    }

    fn eq(&self, lhs: &ValueT, rhs: &ValueT) -> (equal: bool) {
        self.comparator.eq(rhs, lhs)
    }

    fn le(&self, lhs: &ValueT, rhs: &ValueT) -> (less_or_equal: bool) {
        self.comparator.le(rhs, lhs)
    }

    fn ge(&self, lhs: &ValueT, rhs: &ValueT) -> (greater_or_equal: bool) {
        self.comparator.ge(rhs, lhs)
    }
}

impl<ComparatorT> ReverseComparator<ComparatorT> {
    /// The reversed comparator orders exactly opposite to the one it wraps.
    pub proof fn lemma_reverses<ValueT>(self, lhs: ValueT, rhs: ValueT) where
        ComparatorT: Comparator<ValueT>,
        ensures
            self.spec_le(lhs, rhs) == self.inner().spec_le(rhs, lhs),
    {
    }
}

/// Orders `(index, value)` pairs by their index.
#[derive(Default, Clone, Copy, Debug)]
pub struct IndexComparator<IndexComparatorT> {
    comparator: IndexComparatorT,
}

impl<IndexComparatorT, ValueT> Comparator<(usize, ValueT)> for IndexComparator<
    IndexComparatorT,
> where IndexComparatorT: Comparator<usize> {
    closed spec fn spec_le(&self, lhs: (usize, ValueT), rhs: (usize, ValueT)) -> bool {
        self.comparator.spec_le(lhs.0, rhs.0)
    }

    proof fn lemma_total(&self, lhs: (usize, ValueT), rhs: (usize, ValueT)) {
        self.comparator.lemma_total(lhs.0, rhs.0);
    }

    proof fn lemma_transitive(&self, a: (usize, ValueT), b: (usize, ValueT), c: (usize, ValueT)) {
        self.comparator.lemma_transitive(a.0, b.0, c.0);
    }

    fn cmp(&self, lhs: &(usize, ValueT), rhs: &(usize, ValueT)) -> (order: Order) {
        self.comparator.cmp(&lhs.0, &rhs.0)
    }

    fn eq(&self, lhs: &(usize, ValueT), rhs: &(usize, ValueT)) -> (equal: bool) {
        self.comparator.eq(&lhs.0, &rhs.0)
    }

    fn le(&self, lhs: &(usize, ValueT), rhs: &(usize, ValueT)) -> (less_or_equal: bool) {
        self.comparator.le(&lhs.0, &rhs.0)
    }

    fn ge(&self, lhs: &(usize, ValueT), rhs: &(usize, ValueT)) -> (greater_or_equal: bool) {
        self.comparator.ge(&lhs.0, &rhs.0)
    }
}

/// Orders `(index, value)` pairs by their value.
#[derive(Default, Clone, Copy, Debug)]
pub struct ValueComparator<ValueComparatorT> {
    comparator: ValueComparatorT,
}

impl<ValueComparatorT> ValueComparator<ValueComparatorT> {
    /// The comparator that orders pairs as `comparator` orders their values.
    pub fn new(comparator: ValueComparatorT) -> (value_comparator: Self)
        ensures
            value_comparator.inner() == comparator,
    {
        Self { comparator }
    }

    /// The comparator of the values.
    pub closed spec fn inner(self) -> ValueComparatorT {
        self.comparator
    }
}

impl<ValueComparatorT, ValueT> Comparator<(usize, ValueT)> for ValueComparator<
    ValueComparatorT,
> where ValueComparatorT: Comparator<ValueT> {
    closed spec fn spec_le(&self, lhs: (usize, ValueT), rhs: (usize, ValueT)) -> bool {
        self.comparator.spec_le(lhs.1, rhs.1)
    }

    proof fn lemma_total(&self, lhs: (usize, ValueT), rhs: (usize, ValueT)) {
        self.comparator.lemma_total(lhs.1, rhs.1);
    }

    proof fn lemma_transitive(&self, a: (usize, ValueT), b: (usize, ValueT), c: (usize, ValueT)) {
        self.comparator.lemma_transitive(a.1, b.1, c.1);
    }

    fn cmp(&self, lhs: &(usize, ValueT), rhs: &(usize, ValueT)) -> (order: Order) {
        self.comparator.cmp(&lhs.1, &rhs.1)
    }

    fn eq(&self, lhs: &(usize, ValueT), rhs: &(usize, ValueT)) -> (equal: bool) {
        self.comparator.eq(&lhs.1, &rhs.1)
    }

    fn le(&self, lhs: &(usize, ValueT), rhs: &(usize, ValueT)) -> (less_or_equal: bool) {
        self.comparator.le(&lhs.1, &rhs.1)
    }

    fn ge(&self, lhs: &(usize, ValueT), rhs: &(usize, ValueT)) -> (greater_or_equal: bool) {
        self.comparator.ge(&lhs.1, &rhs.1)
    }
}

impl<ValueComparatorT> ValueComparator<ValueComparatorT> {
    /// The pair comparator orders exactly as the value comparator orders the values.
    pub proof fn lemma_by_value<ValueT>(self, lhs: (usize, ValueT), rhs: (usize, ValueT)) where
        ValueComparatorT: Comparator<ValueT>,
        ensures
            self.spec_le(lhs, rhs) == self.inner().spec_le(lhs.1, rhs.1),
    {
    }
}

} // verus!
