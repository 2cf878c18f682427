//! The keys by which the solver finds the constraint that explains an
//! assertion, and the outcomes of propagation.
use vstd::prelude::*;

use crate::literal::Literal;
use crate::row_storage::RowId;

verus! {

/// Keys that tell whether two of them are the same key.
pub trait KeyEq: Sized {
    /// Whether `self` and `other` are the same key.
    fn key_eq(&self, other: &Self) -> (same: bool)
        ensures
            same == (*self == *other),
    ;
}

impl KeyEq for () {
    fn key_eq(&self, other: &Self) -> (same: bool) {
        true
    }
}

impl KeyEq for u32 {
    fn key_eq(&self, other: &Self) -> (same: bool) {
        *self == *other
    }
}

impl KeyEq for u64 {
    fn key_eq(&self, other: &Self) -> (same: bool) {
        *self == *other
    }
}

impl KeyEq for usize {
    fn key_eq(&self, other: &Self) -> (same: bool) {
        *self == *other
    }
}

impl KeyEq for RowId {
    fn key_eq(&self, other: &Self) -> (same: bool) {
        proof {
            RowId::lemma_index(*self);
            RowId::lemma_index(*other);
        }
        self.index() == other.index()
    }
}

impl<P: KeyEq, O: KeyEq> KeyEq for ExplainKey<P, O> {
    fn key_eq(&self, other: &Self) -> (same: bool) {
        match (self, other) {
            (ExplainKey::Propagator(a), ExplainKey::Propagator(b)) => a.key_eq(b),
            (ExplainKey::Outer(a), ExplainKey::Outer(b)) => a.key_eq(b),
            _ => false,
        }
    }
}

impl KeyEq for CardinalityPropagatorExplainKey {
    fn key_eq(&self, other: &Self) -> (same: bool) {
        self.row_id.key_eq(&other.row_id)
    }
}

impl KeyEq for LinearPropagatorExplainKey {
    fn key_eq(&self, other: &Self) -> (same: bool) {
        self.row_id.key_eq(&other.row_id)
    }
}

impl KeyEq for CompositeLinearPropagatorExplinKey {
    fn key_eq(&self, other: &Self) -> (same: bool) {
        match (self, other) {
            (CompositeLinearPropagatorExplinKey::Cardinality(a), CompositeLinearPropagatorExplinKey::Cardinality(b)) => a.key_eq(b),
            (CompositeLinearPropagatorExplinKey::Linear(a), CompositeLinearPropagatorExplinKey::Linear(b)) => a.key_eq(b),
            _ => false,
        }
    }
}

/// Which constraint explains an assertion: one of a propagator or one from
/// outside.
#[derive(Clone, Copy, PartialEq, Eq, Hash, Debug)]
pub enum ExplainKey<PropagatorExplainKeyT, OuterExplainKeyT> {
    Propagator(PropagatorExplainKeyT),
    Outer(OuterExplainKeyT),
}

/// How the assertions conflict.
#[derive(Clone, Copy, Debug)]
pub enum ConflictStatus<ExplainKeyT> {
    /// A constraint is violated.
    Constraint { explain_key: ExplainKeyT },
    /// Both values of `variable` were implied, by the two constraints.
    Literals { variable: usize, explain_keys: [ExplainKeyT; 2] },
}

/// The outcome of propagation.
#[derive(Clone, Copy, Debug)]
pub enum Status<ExplainKeyT> {
    Conflict(ConflictStatus<ExplainKeyT>),
    Noconflict,
}

impl<ExplainKeyT> Status<ExplainKeyT> {
    /// Whether propagation ended in a conflict.
    pub fn is_conflict(&self) -> (conflict: bool)
        ensures
            conflict == (*self is Conflict),
    {
        match self {
            Status::Conflict(..) => true,
            Status::Noconflict => false,
        }
    }

    /// Whether propagation ended without a conflict.
    pub fn is_noconflict(&self) -> (noconflict: bool)
        ensures
            noconflict == (*self is Noconflict),
    {
        match self {
            Status::Conflict(..) => false,
            Status::Noconflict => true,
        }
    }
}

/// A conflict found among the implications waiting to be asserted.
#[derive(Clone, Copy, Debug)]
pub enum ConflictImplication<ExplainKeyT> {
    /// A constraint is violated.
    Constraint { explain_key: ExplainKeyT },
    /// Both values of `variable` were implied, by the two constraints.
    Literals { variable: usize, explain_keys: [ExplainKeyT; 2] },
}

/// What a propagator found: a violated constraint, or a literal that a
/// constraint implies.
#[derive(Clone, Copy, Debug)]
pub enum Implication<ExplainKeyT> {
    /// The constraint behind the key is violated.
    Conflict(ExplainKeyT),
    /// The constraint behind the key implies the literal; the last two
    /// fields are the constraint's slack (how far the greatest value its
    /// left-hand side can still take exceeds its lower bound) and the
    /// literal's coefficient, whose quotient ranks the implication.
    Literal(Literal, ExplainKeyT, u64, u64),
}

/// The key of a cardinality constraint: its row.
#[derive(Clone, Copy, PartialEq, Eq, Hash, Debug)]
pub struct CardinalityPropagatorExplainKey {
    row_id: RowId,
}

impl CardinalityPropagatorExplainKey {
    /// The row of the constraint.
    pub closed spec fn spec_row_id(self) -> RowId {
        self.row_id
    }

    /// The key of the constraint in `row_id`.
    pub closed spec fn of(row_id: RowId) -> Self {
        Self { row_id }
    }

    /// A key is determined by its row.
    pub broadcast proof fn lemma_of(row_id: RowId)
        ensures
            #[trigger] Self::of(row_id).spec_row_id() == row_id,
    {
    }

    /// The key of the constraint in `row_id`.
    pub(crate) fn new(row_id: RowId) -> (key: Self)
        ensures
            key == Self::of(row_id),
    {
        Self { row_id }
    }

    /// The row of the constraint.
    pub fn row_id(&self) -> (row_id: RowId)
        ensures
            row_id == self.spec_row_id(),
    {
        self.row_id
    }
}

/// The key of a linear constraint: its row.
#[derive(Clone, Copy, PartialEq, Eq, Hash, Debug)]
pub struct LinearPropagatorExplainKey {
    row_id: RowId,
}

impl LinearPropagatorExplainKey {
    /// The row of the constraint.
    pub closed spec fn spec_row_id(self) -> RowId {
        self.row_id
    }

    /// The key of the constraint in `row_id`.
    pub closed spec fn of(row_id: RowId) -> Self {
        Self { row_id }
    }

    /// A key is determined by its row.
    pub broadcast proof fn lemma_of(row_id: RowId)
        ensures
            #[trigger] Self::of(row_id).spec_row_id() == row_id,
    {
    }

    /// The key of the constraint in `row_id`.
    pub(crate) fn new(row_id: RowId) -> (key: Self)
        ensures
            key == Self::of(row_id),
    {
        Self { row_id }
    }

    /// The row of the constraint.
    pub fn row_id(&self) -> (row_id: RowId)
        ensures
            row_id == self.spec_row_id(),
    {
        self.row_id
    }
}

/// The key of a constraint of either propagator.
#[derive(Clone, Copy, PartialEq, Eq, Hash, Debug)]
pub enum CompositeLinearPropagatorExplinKey {
    Cardinality(CardinalityPropagatorExplainKey),
    Linear(LinearPropagatorExplainKey),
}

} // verus!
