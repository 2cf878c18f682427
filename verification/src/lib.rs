//! Verified index collections and the core data structures of a
//! pseudo-Boolean CDCL solver.

pub mod analyze;
pub mod assertion_state;
pub mod calculate_plbd;
pub mod calculate_propagation_level;
pub mod cardinality_propagator;
pub mod comparator;
pub mod composite_linear_propagator;
pub mod compressed_constraint;
pub mod constraint;
pub mod engine;
pub mod explain;
pub mod heap_sort;
pub mod heaped_map;
pub mod implication_queue;
pub mod literal;
pub mod literal_array;
pub mod literal_set;
pub mod linear_propagator;
pub mod map;
pub mod parse_opb;
pub mod plbd_normalizer;
pub mod priority_queue;
pub mod random_constraint;
pub mod rescale;
pub mod resolve;
pub mod round;
pub mod row_storage;
pub mod set;
pub mod slots;
pub mod solve;
pub mod sorted_map;
pub mod two_dimensional_map;

pub use analyze::{Analyze, AnalyzeStep, PpbAnalyzeOutput};
pub use assertion_state::{AssertionInfo, AssertionStack, LiteralState, Predicate, Reason};
pub use calculate_plbd::CalculatePLBD;
pub use calculate_propagation_level::{CalculatePropagationLevel, CalculatePropagationLevelOutput};
pub use cardinality_propagator::{CardinalityPropagator, CardinalityRow};
pub use comparator::{
    Comparator, IndexComparator, NaturalComparator, NaturalPartialComparator, Order,
    ReverseComparator, ValueComparator,
};
pub use composite_linear_propagator::{CompositeLinearPropagator, CompositeRow};
pub use compressed_constraint::CompressedConstraint;
pub use constraint::{Constraint, ConstraintView};
pub use engine::Engine;
pub use explain::{
    CardinalityPropagatorExplainKey, CompositeLinearPropagatorExplinKey, ConflictImplication,
    ConflictStatus, ExplainKey, Implication, LinearPropagatorExplainKey, Status,
};
pub use heap_sort::{down_heap, up_heap, update_heap};
pub use heaped_map::HeapedMap;
pub use implication_queue::ImplicationQueue;
pub use literal::Literal;
pub use literal_array::LiteralArray;
pub use linear_propagator::{LinearPropagator, LinearRow};
pub use literal_set::LiteralSet;
pub use map::IndexMap;
pub use plbd_normalizer::PlbdNormalizer;
pub use priority_queue::PriorityQueue;
pub use random_constraint::RandomConstraint;
pub use rescale::Rescale;
pub use resolve::Resolve;
pub use round::Round;
pub use row_storage::{RowId, RowStorage};
pub use set::IndexSet;
pub use sorted_map::SortedMap;
pub use two_dimensional_map::TwoDimensionalMap;
