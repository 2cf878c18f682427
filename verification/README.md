# ppb_cdcl2

Verified building blocks of a conflict-driven pseudo-Boolean solver, written
in Verus.

- Index collections: `IndexMap` and `IndexSet` (maps and sets over small
  integer keys), `HeapedMap`, `PriorityQueue`, `SortedMap`,
  `TwoDimensionalMap`, the heap functions and the comparators that order
  them.
- Solver state: `Literal`, `LiteralArray`, `LiteralSet`, `RowStorage`, the
  `AssertionStack` (trail, decision levels and phases) and the keys and
  statuses of explanations.
- Constraints: `ConstraintView`, `CompressedConstraint` and
  `RandomConstraint`, with strengthening (saturation and division), the
  propagation level and PLBD of a learnt constraint, `Round` (division with
  rounding), `Resolve` (cutting-planes resolution) and `Rescale`.
- Propagation: the watched-literal `CardinalityPropagator`, the slack-based
  `LinearPropagator`, the `CompositeLinearPropagator` that routes each
  strengthened constraint to one of them, the `ImplicationQueue` that keeps,
  per variable, the implication of least normalized slack (compared exactly,
  as fractions), and the `Engine` that propagates to a fixed point; at
  decision level 0 the propagators drop the rows the assertions satisfy and,
  when there are many learnt rows, the ones idle longest.
- Conflict analysis: `Analyze` decides each round (learn the constraint and
  backjump, report a conflict at decision level 0, or resolve with the
  reason of the latest implied false literal) and carries the rounds out,
  resolving and rescaling with checked arithmetic; a learnt constraint is
  falsified, propagates after the backjump, and is satisfied by every
  assignment that agrees with level 0 and satisfies the constraints the
  analysis used.
- Search steps: `learn` (mark the constraints of a conflict, backjump and
  add the learnt constraint, checking first that the engine can take it)
  and `decide` (report a complete assignment, restart, or decide the first
  unassigned variable at its cached phase).
- Input: the OPB line grammar on bytes, the normalisation of its
  constraints and the initial value of each variable.

Every function states its behaviour as a `requires`/`ensures` contract over
mathematical models (`Seq`, `Map`, `Multiset`, `int`). The soundness of the
constraint rules is proved as laws: strengthening, weakening, addition,
resolution and rescaling keep every assignment that satisfies their inputs.
The propagators prove that every implication they report is sound for the
constraint behind its key, and the engine keeps its parts in agreement:
only unassigned variables wait in the queue, every report of the
propagators reaches the queue in order, and after each change either a
conflict waits or nothing is left to assert.

`app/main.rs` reads an instance from standard input, normalises its
constraints, adds them to an engine and runs the search loop: it analyses
each conflict, scores the PLBD of the learnt constraint (the running
averages of the scores are floating point and stay in `app/`) and has the
library learn it; otherwise it has the library restart, when the recent
scores run high, or decide.
