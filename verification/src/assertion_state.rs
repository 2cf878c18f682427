//! The trail of a CDCL search: literals asserted by decisions or implied by
//! constraints, with the decision level of each.
use vstd::prelude::*;

use crate::literal::Literal;

verus! {

/// The order recorded for an unassigned variable.
pub const NULL_ORDER: usize = usize::MAX;

/// Why a predicate was asserted.
#[derive(Clone, Copy, Debug)]
pub enum Reason<ExplainKeyT> {
    /// A decision.
    Decision,
    /// An implication, explained by the constraint behind `explain_key`.
    Implication { explain_key: ExplainKeyT },
}

impl<ExplainKeyT> Reason<ExplainKeyT> {
    /// Whether the assertion was a decision.
    pub fn is_decision(&self) -> (decision: bool)
        ensures
            decision == (*self is Decision),
    {
        match self {
            Reason::Decision => true,
            _ => false,
        }
    }

    /// Whether the assertion was an implication.
    pub fn is_implication(&self) -> (implication: bool)
        ensures
            implication == (*self is Implication),
    {
        match self {
            Reason::Implication { .. } => true,
            _ => false,
        }
    }
}

/// A unary predicate that the search asserts: a literal.
#[derive(Clone, Copy, PartialEq, Eq, Structural, Debug)]
pub enum Predicate {
    Literal(Literal),
}

impl Predicate {
    /// The literal of the predicate.
    pub open spec fn spec_literal(self) -> Literal {
        match self {
            Predicate::Literal(l) => l,
        }
    }

    /// The literal of the predicate.
    pub fn literal(&self) -> (literal: Literal)
        ensures
            literal == self.spec_literal(),
    {
        match self {
            Predicate::Literal(l) => *l,
        }
    }
}

/// One assertion of the trail.
#[derive(Clone, Copy, Debug)]
pub struct AssertionInfo<ExplainKeyT> {
    pub predicate: Predicate,
    pub reason: Reason<ExplainKeyT>,
    pub decision_level: usize,
}

#[derive(Clone, Copy, Debug)]
struct VariableInfo {
    value: bool,
    assertion_order: usize,
}

/// `l` was asserted at an order below `order`.
pub open spec fn asserted_before<E>(trail: Seq<AssertionInfo<E>>, l: Literal, order: int) -> bool {
    exists|k: int| 0 <= k < trail.len() && k < order && #[trigger] trail[k].predicate.spec_literal() == l
}

/// The variable `v` was assigned at order `k`.
pub open spec fn assigned_at<E>(trail: Seq<AssertionInfo<E>>, v: nat, k: int) -> bool {
    0 <= k < trail.len() && trail[k].predicate.spec_literal().spec_index() == v
}

/// The decision level of order `k`: the number of decisions at or before it.
pub open spec fn level_fits(decisions: Seq<usize>, k: int, level: int) -> bool {
    &&& 0 <= level <= decisions.len()
    &&& level == 0 || decisions[level - 1] <= k
    &&& level == decisions.len() || decisions[level] > k
}

/// The trail of assertions, the cached value of each variable, and the
/// orders at which decisions were taken.
#[derive(Clone, Debug)]
pub struct AssertionStack<ExplainKeyT> {
    variable_infos: Vec<VariableInfo>,
    assertion_infos: Vec<AssertionInfo<ExplainKeyT>>,
    decision_infos: Vec<usize>,
    number_of_assigned_variables: usize,
}

impl<ExplainKeyT: Copy> AssertionStack<ExplainKeyT> {
    /// The assertions, in order.
    pub closed spec fn trail(self) -> Seq<AssertionInfo<ExplainKeyT>> {
        self.assertion_infos@
    }

    /// The orders of the decisions, in order.
    pub closed spec fn decisions(self) -> Seq<usize> {
        self.decision_infos@
    }

    /// The number of Boolean variables.
    pub closed spec fn spec_number_of_variables(self) -> nat {
        self.variable_infos@.len()
    }

    /// The value last assigned to each variable (its initial value before
    /// any assignment).
    pub closed spec fn phases(self) -> Seq<bool> {
        self.variable_infos@.map_values(|info: VariableInfo| info.value)
    }

    /// The trail and the per-variable records describe each other.
    pub closed spec fn wf(self) -> bool {
        let trail = self.assertion_infos@;
        let vars = self.variable_infos@;
        let decisions = self.decision_infos@;
        &&& NULL_ORDER == usize::MAX
        &&& trail.len() < usize::MAX
        &&& self.number_of_assigned_variables == trail.len()
        &&& forall|k: int|
            0 <= k < trail.len() ==> {
                let l = (#[trigger] trail[k]).predicate.spec_literal();
                &&& l.spec_index() < vars.len()
                &&& vars[l.spec_index() as int].assertion_order == k
                &&& vars[l.spec_index() as int].value == l.spec_value()
                &&& level_fits(decisions, k, trail[k].decision_level as int)
                &&& (trail[k].reason is Decision <==> exists|j: int|
                    0 <= j < decisions.len() && decisions[j] == k)
            }
        &&& forall|v: int|
            0 <= v < vars.len() && (#[trigger] vars[v]).assertion_order != NULL_ORDER ==> vars[v].assertion_order
                < trail.len() && trail[vars[v].assertion_order as int].predicate.spec_literal().spec_index()
                == v
        &&& forall|j: int| 0 <= j < decisions.len() ==> #[trigger] decisions[j] < trail.len()
        &&& forall|i: int, j: int|
            0 <= i < j < decisions.len() ==> #[trigger] decisions[i] < #[trigger] decisions[j]
    }

    /// Each variable is assigned at most once in the trail, at the order its
    /// record holds.
    pub proof fn lemma_assigned_once(self, v: nat, k: int)
        requires
            self.wf(),
            assigned_at(self.trail(), v, k),
        ensures
            v < self.spec_number_of_variables(),
            forall|k2: int| assigned_at(self.trail(), v, k2) ==> k2 == k,
    {
        assert(self.assertion_infos@[k].predicate.spec_literal().spec_index() == v);
    }

    /// Every decision was taken at an order of the trail.
    pub proof fn lemma_decisions_within(self)
        requires
            self.wf(),
        ensures
            forall|j: int| 0 <= j < self.decisions().len() ==> #[trigger] self.decisions()[j] < self.trail().len(),
    {
    }

    /// The trail is shorter than the null order.
    pub proof fn lemma_trail_bound(self)
        requires
            self.wf(),
        ensures
            self.trail().len() < NULL_ORDER,
            forall|k: int|
                0 <= k < self.trail().len() ==> (#[trigger] self.trail()[k]).decision_level
                    <= self.decisions().len(),
    {
        assert forall|k: int| 0 <= k < self.trail().len() implies (
        #[trigger] self.trail()[k]).decision_level <= self.decisions().len() by {
            assert(level_fits(self.decision_infos@, k, self.assertion_infos@[k].decision_level as int));
        }
    }

    /// An empty trail over no variable.
    pub fn new() -> (stack: Self)
        ensures
            stack.wf(),
            stack.trail() == Seq::<AssertionInfo<ExplainKeyT>>::empty(),
            stack.decisions() == Seq::<usize>::empty(),
            stack.spec_number_of_variables() == 0,
    {
        Self {
            variable_infos: Vec::new(),
            assertion_infos: Vec::new(),
            decision_infos: Vec::new(),
            number_of_assigned_variables: 0,
        }
    }

    /// The number of Boolean variables.
    pub fn number_of_variables(&self) -> (count: usize)
        ensures
            count == self.spec_number_of_variables(),
    {
        self.variable_infos.len()
    }

    /// The number of assertions.
    pub fn number_of_assertions(&self) -> (count: usize)
        ensures
            count == self.trail().len(),
    {
        self.assertion_infos.len()
    }

    /// The number of assigned variables.
    pub fn number_of_assigned_variables(&self) -> (count: usize)
        requires
            self.wf(),
        ensures
            count == self.trail().len(),
    {
        self.number_of_assigned_variables
    }

    /// The current decision level: the number of decisions.
    pub fn decision_level(&self) -> (level: usize)
        ensures
            level == self.decisions().len(),
    {
        self.decision_infos.len()
    }

    /// The orders of the assertions of `decision_level`.
    pub fn order_range(&self, decision_level: usize) -> (range: std::ops::Range<usize>)
        requires
            decision_level <= self.decisions().len(),
        ensures
            range.start == if decision_level == 0 {
                0
            } else {
                self.decisions()[decision_level - 1] as int
            },
            range.end == if decision_level < self.decisions().len() {
                self.decisions()[decision_level as int] as int
            } else {
                self.trail().len() as int
            },
    {
        let start = if decision_level == 0 {
            0
        } else {
            self.decision_infos[decision_level - 1]
        };
        let end = if decision_level < self.decision_infos.len() {
            self.decision_infos[decision_level]
        } else {
            self.assertion_infos.len()
        };
        std::ops::Range { start, end }
    }

    /// The predicate asserted at `order`.
    pub fn assertion(&self, order: usize) -> (predicate: Predicate)
        requires
            order < self.trail().len(),
        ensures
            predicate == self.trail()[order as int].predicate,
    {
        self.assertion_infos[order].predicate
    }

    /// The state of `literal`.
    pub fn literal_state(&self, literal: Literal) -> (state: LiteralState<'_, ExplainKeyT>)
        ensures
            state.literal() == literal,
            state.stack() == *self,
    {
        LiteralState { stack: self, literal }
    }

    /// Adds a variable whose cached value is `initial_value`.
    pub fn add_variable(&mut self, initial_value: bool)
        requires
            old(self).wf(),
        ensures
            final(self).wf(),
            final(self).trail() == old(self).trail(),
            final(self).decisions() == old(self).decisions(),
            final(self).phases() == old(self).phases().push(initial_value),
            final(self).spec_number_of_variables() == old(self).spec_number_of_variables() + 1,
    {
        self.variable_infos.push(VariableInfo { value: initial_value, assertion_order: NULL_ORDER });
        proof {
            assert(self.phases() =~= old(self).phases().push(initial_value));
            let trail = self.assertion_infos@;
            assert forall|k: int| 0 <= k < trail.len() implies {
                let l = (#[trigger] trail[k]).predicate.spec_literal();
                self.variable_infos@[l.spec_index() as int] == old(self).variable_infos@[l.spec_index() as int]
            } by {
                assert(old(self).assertion_infos@[k] == trail[k]);
            }
        }
    }

    /// The cached value of `variable`.
    pub fn cached_phase(&self, variable: usize) -> (value: bool)
        requires
            variable < self.spec_number_of_variables(),
        ensures
            value == self.phases()[variable as int],
    {
        self.variable_infos[variable].value
    }

    /// Asserts `predicate` for `reason`; a decision opens a new decision
    /// level.
    pub fn assert_predicate(&mut self, predicate: Predicate, reason: Reason<ExplainKeyT>)
        requires
            old(self).wf(),
            predicate.spec_literal().spec_index() < old(self).spec_number_of_variables(),
            forall|k: int| !assigned_at(old(self).trail(), predicate.spec_literal().spec_index(), k),
            old(self).trail().len() + 1 < usize::MAX,
        ensures
            final(self).wf(),
            final(self).decisions() == if reason is Decision {
                old(self).decisions().push(old(self).trail().len() as usize)
            } else {
                old(self).decisions()
            },
            final(self).trail() == old(self).trail().push(
                AssertionInfo {
                    predicate,
                    reason,
                    decision_level: final(self).decisions().len() as usize,
                },
            ),
            final(self).phases() == old(self).phases().update(
                predicate.spec_literal().spec_index() as int,
                predicate.spec_literal().spec_value(),
            ),
            final(self).spec_number_of_variables() == old(self).spec_number_of_variables(),
    {
        let literal = predicate.literal();
        let variable = literal.index();
        proof {
            let info = self.variable_infos@[variable as int];
            if info.assertion_order != NULL_ORDER {
                let k = info.assertion_order as int;
                assert(self.variable_infos@[variable as int] == info);
                assert(0 <= k < self.assertion_infos@.len());
                let l = self.assertion_infos@[k].predicate.spec_literal();
                assert(self.variable_infos@[l.spec_index() as int].assertion_order == k);
                assert(!assigned_at(old(self).trail(), variable as nat, k));
                assert(false);
            }
        }
        let order = self.assertion_infos.len();
        self.variable_infos.set(variable, VariableInfo { value: literal.value(), assertion_order: order });
        self.number_of_assigned_variables = self.number_of_assigned_variables + 1;
        if reason.is_decision() {
            self.decision_infos.push(order);
        }
        let level = self.decision_infos.len();
        self.assertion_infos.push(AssertionInfo { predicate, reason, decision_level: level });
        proof {
            let trail = self.assertion_infos@;
            let vars = self.variable_infos@;
            let decisions = self.decision_infos@;
            assert(self.phases() =~= old(self).phases().update(
                variable as int,
                literal.spec_value(),
            ));
            assert forall|k: int| 0 <= k < trail.len() implies {
                let l = (#[trigger] trail[k]).predicate.spec_literal();
                &&& l.spec_index() < vars.len()
                &&& vars[l.spec_index() as int].assertion_order == k
                &&& vars[l.spec_index() as int].value == l.spec_value()
                &&& level_fits(decisions, k, trail[k].decision_level as int)
                &&& (trail[k].reason is Decision <==> exists|j: int|
                    0 <= j < decisions.len() && decisions[j] == k)
            } by {
                if k < order {
                    let l = trail[k].predicate.spec_literal();
                    assert(trail[k] == old(self).assertion_infos@[k]);
                    assert(l.spec_index() != variable) by {
                        if l.spec_index() == variable {
                            assert(assigned_at(old(self).trail(), variable as nat, k));
                        }
                    }
                    if trail[k].reason is Decision {
                        let j = choose|j: int|
                            0 <= j < old(self).decision_infos@.len() && old(
                                self,
                            ).decision_infos@[j] == k;
                        assert(decisions[j] == k);
                    }
                    if exists|j: int| 0 <= j < decisions.len() && decisions[j] == k {
                        let j = choose|j: int| 0 <= j < decisions.len() && decisions[j] == k;
                        if j == old(self).decision_infos@.len() {
                            assert(decisions[j] == order);
                        } else {
                            assert(old(self).decision_infos@[j] == k);
                        }
                    }
                } else {
                    if reason is Decision {
                        assert(decisions[decisions.len() - 1] == order);
                    } else {
                        if exists|j: int| 0 <= j < decisions.len() && decisions[j] == k {
                            let j = choose|j: int| 0 <= j < decisions.len() && decisions[j] == k;
                            assert(old(self).decision_infos@[j] < old(self).assertion_infos@.len());
                        }
                        if decisions.len() > 0 {
                            assert(old(self).decision_infos@[decisions.len() - 1] < order);
                        }
                    }
                }
            }
            assert forall|v: int|
                0 <= v < vars.len() && (#[trigger] vars[v]).assertion_order != NULL_ORDER implies vars[v].assertion_order
                < trail.len() && trail[vars[v].assertion_order as int].predicate.spec_literal().spec_index()
                == v by {
                if v != variable {
                    assert(vars[v] == old(self).variable_infos@[v]);
                    assert(trail[vars[v].assertion_order as int] == old(self).assertion_infos@[vars[v].assertion_order as int]);
                }
            }
            assert forall|j: int| 0 <= j < decisions.len() implies #[trigger] decisions[j] < trail.len() by {
                if j < old(self).decision_infos@.len() {
                    assert(decisions[j] == old(self).decision_infos@[j]);
                }
            }
            assert forall|i: int, j: int| 0 <= i < j < decisions.len() implies #[trigger] decisions[i]
                < #[trigger] decisions[j] by {
                assert(decisions[i] == old(self).decision_infos@[i]);
                if j < old(self).decision_infos@.len() {
                    assert(decisions[j] == old(self).decision_infos@[j]);
                }
            }
        }
    }

    /// Undoes the assertions of the decision levels above `backjump_level`.
    pub fn backjump(&mut self, backjump_level: usize)
        requires
            old(self).wf(),
        ensures
            final(self).wf(),
            backjump_level < old(self).decisions().len() ==> final(self).trail() == old(
                self,
            ).trail().subrange(0, old(self).decisions()[backjump_level as int] as int)
                && final(self).decisions() == old(self).decisions().subrange(
                0,
                backjump_level as int,
            ),
            backjump_level >= old(self).decisions().len() ==> final(self).trail() == old(
                self,
            ).trail() && final(self).decisions() == old(self).decisions(),
            final(self).phases() == old(self).phases(),
            final(self).spec_number_of_variables() == old(self).spec_number_of_variables(),
    {
        let ghost old_trail = self.assertion_infos@;
        let ghost old_decisions = self.decision_infos@;
        proof {
            assert(old_trail.subrange(0, old_trail.len() as int) =~= old_trail);
            assert(old_decisions.subrange(0, old_decisions.len() as int) =~= old_decisions);
        }
        while self.decision_infos.len() > backjump_level
            invariant
                self.wf(),
                self.phases() == old(self).phases(),
                self.spec_number_of_variables() == old(self).spec_number_of_variables(),
                self.assertion_infos@.len() <= old_trail.len(),
                self.decision_infos@.len() <= old_decisions.len(),
                self.assertion_infos@ == old_trail.subrange(0, self.assertion_infos@.len() as int),
                self.decision_infos@ == old_decisions.subrange(0, self.decision_infos@.len() as int),
                self.decision_infos@.len() >= backjump_level ==> backjump_level
                    < old_decisions.len() ==> old_decisions[backjump_level as int]
                    < self.assertion_infos@.len() || self.decision_infos@.len() == backjump_level,
                self.decision_infos@.len() == backjump_level ==> backjump_level < old_decisions.len()
                    ==> self.assertion_infos@.len() == old_decisions[backjump_level as int],
                backjump_level >= old_decisions.len() ==> self.assertion_infos@ == old_trail
                    && self.decision_infos@ == old_decisions,
                self.decision_infos@.len() >= backjump_level || backjump_level >= old_decisions.len(),
            decreases self.assertion_infos@.len(),
        {
            let ghost trail = self.assertion_infos@;
            let ghost decisions = self.decision_infos@;
            let ghost vars = self.variable_infos@;
            proof {
                let last = decisions.len() - 1;
                assert(decisions[last] < trail.len());
            }
            let info = self.assertion_infos.pop().unwrap();
            let k = self.assertion_infos.len();
            proof {
                assert(info == trail[k as int]);
            }
            if info.reason.is_decision() {
                proof {
                    let j = choose|j: int| 0 <= j < decisions.len() && decisions[j] == k;
                    if j < decisions.len() - 1 {
                        assert(decisions[j] < decisions[decisions.len() - 1]);
                    }
                }
                self.decision_infos.pop();
            } else {
                proof {
                    if decisions[decisions.len() - 1] == k {
                        assert(trail[k as int].reason is Decision);
                    }
                }
            }
            let variable = info.predicate.literal().index();
            let value = self.variable_infos[variable].value;
            self.variable_infos.set(variable, VariableInfo { value, assertion_order: NULL_ORDER });
            self.number_of_assigned_variables = self.number_of_assigned_variables - 1;
            proof {
                let trail2 = self.assertion_infos@;
                let vars2 = self.variable_infos@;
                let decisions2 = self.decision_infos@;
                assert(trail2 =~= trail.drop_last());
                assert(self.phases() =~= old(self).phases());
                assert(trail =~= old_trail.subrange(0, k as int + 1));
                assert(self.assertion_infos@ =~= old_trail.subrange(0, k as int));
                assert(decisions =~= old_decisions.subrange(0, decisions.len() as int));
                assert(self.decision_infos@ =~= old_decisions.subrange(0, decisions2.len() as int));
                assert forall|k2: int| 0 <= k2 < trail2.len() implies {
                    let l = (#[trigger] trail2[k2]).predicate.spec_literal();
                    &&& l.spec_index() < vars2.len()
                    &&& vars2[l.spec_index() as int].assertion_order == k2
                    &&& vars2[l.spec_index() as int].value == l.spec_value()
                    &&& level_fits(decisions2, k2, trail2[k2].decision_level as int)
                    &&& (trail2[k2].reason is Decision <==> exists|j: int|
                        0 <= j < decisions2.len() && decisions2[j] == k2)
                } by {
                    assert(trail2[k2] == trail[k2]);
                    let l = trail2[k2].predicate.spec_literal();
                    assert(l.spec_index() != variable) by {
                        if l.spec_index() == variable {
                            assert(vars[variable as int].assertion_order == k);
                        }
                    }
                    if trail2[k2].reason is Decision {
                        let j = choose|j: int| 0 <= j < decisions.len() && decisions[j] == k2;
                        if j == decisions.len() - 1 && decisions2.len() < decisions.len() {
                            assert(decisions[j] == k);
                        }
                        assert(decisions2[j] == k2);
                    }
                    if exists|j: int| 0 <= j < decisions2.len() && decisions2[j] == k2 {
                        let j = choose|j: int| 0 <= j < decisions2.len() && decisions2[j] == k2;
                        assert(decisions[j] == k2);
                    }
                    let level = trail2[k2].decision_level as int;
                    if level == decisions.len() && decisions2.len() < decisions.len() {
                        assert(decisions[decisions.len() - 1] == k);
                        assert(false);
                    }
                }
                assert forall|v: int|
                    0 <= v < vars2.len() && (#[trigger] vars2[v]).assertion_order != NULL_ORDER implies vars2[v].assertion_order
                    < trail2.len() && trail2[vars2[v].assertion_order as int].predicate.spec_literal().spec_index()
                    == v by {
                    if v != variable {
                        assert(vars2[v] == vars[v]);
                        if vars[v].assertion_order == k {
                            let l = trail[k as int].predicate.spec_literal();
                            assert(vars[l.spec_index() as int].assertion_order == k);
                        }
                        assert(trail2[vars2[v].assertion_order as int] == trail[vars[v].assertion_order as int]);
                    }
                }
                assert forall|j: int| 0 <= j < decisions2.len() implies #[trigger] decisions2[j]
                    < trail2.len() by {
                    assert(decisions2[j] == decisions[j]);
                    if decisions[j] == k {
                        assert(trail[k as int].reason is Decision);
                        if j < decisions.len() - 1 {
                            assert(decisions[j] < decisions[decisions.len() - 1]);
                        }
                    }
                }
                if decisions2.len() >= backjump_level && backjump_level < old_decisions.len() {
                    if decisions2.len() > backjump_level {
                        assert(decisions2[backjump_level as int] == old_decisions[backjump_level as int]);
                    } else if decisions2.len() < decisions.len() {
                        assert(decisions[backjump_level as int] == k);
                    }
                }
            }
        }
    }
}

/// The state of one literal in an assertion stack.
pub struct LiteralState<'a, ExplainKeyT> {
    stack: &'a AssertionStack<ExplainKeyT>,
    literal: Literal,
}

impl<'a, ExplainKeyT: Copy> LiteralState<'a, ExplainKeyT> {
    /// The literal.
    pub closed spec fn literal(self) -> Literal {
        self.literal
    }

    /// The assertion stack.
    pub closed spec fn stack(self) -> AssertionStack<ExplainKeyT> {
        *self.stack
    }

    /// The literal's variable exists.
    pub open spec fn valid(self) -> bool {
        &&& self.stack().wf()
        &&& self.literal().spec_index() < self.stack().spec_number_of_variables()
    }

    /// An assertion of a literal with the same variable and value is an
    /// assertion of this literal.
    proof fn lemma_same_literal(self, k: int)
        requires
            self.valid(),
            0 <= k < self.stack().trail().len(),
            self.stack().trail()[k].predicate.spec_literal().spec_index() == self.literal().spec_index(),
        ensures
            (self.stack().trail()[k].predicate.spec_literal() == self.literal()) == (
            self.stack().trail()[k].predicate.spec_literal().spec_value()
                == self.literal().spec_value()),
            (self.stack().trail()[k].predicate.spec_literal() == self.literal().negated()) == (
            self.stack().trail()[k].predicate.spec_literal().spec_value()
                != self.literal().spec_value()),
    {
        broadcast use Literal::lemma_bits_determine;
        broadcast use Literal::lemma_negated;

        let l = self.stack().trail()[k].predicate.spec_literal();
        assert(l.spec_bits() == 2 * l.spec_index() + if l.spec_value() { 1int } else { 0int });
        assert(self.literal().spec_bits() == 2 * self.literal().spec_index() + if self.literal().spec_value() {
            1int
        } else {
            0int
        });
        let n = self.literal().negated();
        assert(n.spec_bits() == 2 * n.spec_index() + if n.spec_value() { 1int } else { 0int });
    }

    /// The order at which the variable was assigned, if it is.
    pub fn order(&self) -> (order: Option<usize>)
        requires
            self.valid(),
        ensures
            match order {
                Some(k) => assigned_at(self.stack().trail(), self.literal().spec_index(), k as int),
                None => forall|k: int| !assigned_at(self.stack().trail(), self.literal().spec_index(), k),
            },
    {
        let order = self.stack.variable_infos[self.literal.index()].assertion_order;
        proof {
            let v = self.literal.spec_index();
            let trail = self.stack.assertion_infos@;
            assert forall|k: int| assigned_at(trail, v, k) implies order == k by {
                assert(self.stack.variable_infos@[v as int].assertion_order == k);
            }
        }
        if order != NULL_ORDER {
            Some(order)
        } else {
            None
        }
    }

    /// The decision level at which the variable was assigned, if it is.
    pub fn decision_level(&self) -> (level: Option<usize>)
        requires
            self.valid(),
        ensures
            match level {
                Some(d) => exists|k: int|
                    assigned_at(self.stack().trail(), self.literal().spec_index(), k)
                        && self.stack().trail()[k].decision_level == d,
                None => forall|k: int| !assigned_at(self.stack().trail(), self.literal().spec_index(), k),
            },
    {
        match self.order() {
            Some(order) => Some(self.stack.assertion_infos[order].decision_level),
            None => None,
        }
    }

    /// The reason of the assignment of the variable, if it is assigned.
    pub fn reason(&self) -> (reason: Option<Reason<ExplainKeyT>>)
        requires
            self.valid(),
        ensures
            match reason {
                Some(r) => exists|k: int|
                    assigned_at(self.stack().trail(), self.literal().spec_index(), k)
                        && self.stack().trail()[k].reason == r,
                None => forall|k: int| !assigned_at(self.stack().trail(), self.literal().spec_index(), k),
            },
    {
        match self.order() {
            Some(order) => Some(self.stack.assertion_infos[order].reason),
            None => None,
        }
    }

    /// Whether the variable was assigned before `order`.
    pub fn is_assigned_before(&self, order: usize) -> (assigned: bool)
        requires
            self.valid(),
        ensures
            assigned == (exists|k: int|
                assigned_at(self.stack().trail(), self.literal().spec_index(), k) && k < order),
    {
        match self.order() {
            Some(o) => o < order,
            None => false,
        }
    }

    /// Whether the variable is assigned.
    pub fn is_assigned(&self) -> (assigned: bool)
        requires
            self.valid(),
        ensures
            assigned == (exists|k: int| assigned_at(self.stack().trail(), self.literal().spec_index(), k)),
    {
        self.order().is_some()
    }

    /// Whether the literal was asserted before `order`.
    pub fn is_true_before(&self, order: usize) -> (is_true: bool)
        requires
            self.valid(),
        ensures
            is_true == asserted_before(self.stack().trail(), self.literal(), order as int),
    {
        let info = self.stack.variable_infos[self.literal.index()];
        let result = info.assertion_order < order && info.value == self.literal.value();
        proof {
            let trail = self.stack.assertion_infos@;
            if result {
                let k = info.assertion_order as int;
                self.lemma_same_literal(k);
                assert(trail[k].predicate.spec_literal() == self.literal);
            }
            if asserted_before(trail, self.literal, order as int) {
                let k = choose|k: int|
                    0 <= k < trail.len() && k < order && #[trigger] trail[k].predicate.spec_literal()
                        == self.literal;
                assert(self.stack.variable_infos@[self.literal.spec_index() as int].assertion_order == k);
            }
        }
        result
    }

    /// Whether the literal is asserted.
    pub fn is_true(&self) -> (is_true: bool)
        requires
            self.valid(),
        ensures
            is_true == asserted_before(self.stack().trail(), self.literal(), NULL_ORDER as int),
    {
        self.is_true_before(NULL_ORDER)
    }

    /// Whether the negation of the literal was asserted before `order`.
    pub fn is_false_before(&self, order: usize) -> (is_false: bool)
        requires
            self.valid(),
        ensures
            is_false == asserted_before(self.stack().trail(), self.literal().negated(), order as int),
    {
        let info = self.stack.variable_infos[self.literal.index()];
        let result = info.assertion_order < order && info.value != self.literal.value();
        proof {
            broadcast use Literal::lemma_negated;

            let trail = self.stack.assertion_infos@;
            if result {
                let k = info.assertion_order as int;
                self.lemma_same_literal(k);
            }
            if asserted_before(trail, self.literal.negated(), order as int) {
                let k = choose|k: int|
                    0 <= k < trail.len() && k < order && #[trigger] trail[k].predicate.spec_literal()
                        == self.literal.negated();
                assert(self.stack.variable_infos@[self.literal.spec_index() as int].assertion_order == k);
            }
        }
        result
    }

    /// Whether the negation of the literal is asserted.
    pub fn is_false(&self) -> (is_false: bool)
        requires
            self.valid(),
        ensures
            is_false == asserted_before(self.stack().trail(), self.literal().negated(), NULL_ORDER as int),
    {
        self.is_false_before(NULL_ORDER)
    }
}

impl<ExplainKeyT: Copy> Default for AssertionStack<ExplainKeyT> {
    fn default() -> (stack: Self)
        ensures
            stack.wf(),
            stack.trail() == Seq::<AssertionInfo<ExplainKeyT>>::empty(),
            stack.decisions() == Seq::<usize>::empty(),
            stack.spec_number_of_variables() == 0,
    {
        Self::new()
    }
}

/// Backjumping to the decision level at which a decision was made undoes the
/// decision and every assertion made after it, decisions among them: asserting
/// a decision records the trail length as the start of a new level (see
/// `assert_predicate`), later decisions record later starts, and backjumping
/// to that level keeps the trail up to that start and the decisions before
/// it (see `backjump`).
pub proof fn lemma_backjump_undoes_decision<E>(
    trail: Seq<AssertionInfo<E>>,
    decisions: Seq<usize>,
    decision: AssertionInfo<E>,
    later: Seq<AssertionInfo<E>>,
    later_decisions: Seq<usize>,
)
    requires
        decision.reason is Decision,
        trail.len() <= usize::MAX,
    ensures
        ({
            let decisions_after = decisions.push(trail.len() as usize) + later_decisions;
            let trail_after = trail.push(decision) + later;
            &&& decisions.len() < decisions_after.len()
            &&& trail_after.subrange(0, decisions_after[decisions.len() as int] as int) == trail
            &&& decisions_after.subrange(0, decisions.len() as int) == decisions
        }),
{
    let decisions_after = decisions.push(trail.len() as usize) + later_decisions;
    let trail_after = trail.push(decision) + later;
    assert(decisions_after[decisions.len() as int] == trail.len());
    assert(trail_after.subrange(0, trail.len() as int) =~= trail);
    assert(decisions_after.subrange(0, decisions.len() as int) =~= decisions);
}

/// Backjumping to the level of a decision restores the assertions and the
/// decisions from before it, whatever was asserted after it: `before` is
/// the stack when the decision is asserted; `during` the stack after the
/// decision and any later assertions (its trail and decisions extend those
/// of `before`, and the decision opens level `before.decisions().len()` at
/// the old trail length, see `assert_predicate`); `after` what `backjump`
/// makes of `during` at that level. Every query of a literal's state
/// (`LiteralState`: assigned, true, false, order, decision level, reason)
/// is stated over the trail, so each answers as it did in `before`.
pub proof fn lemma_backjump_restores<E: Copy>(before: AssertionStack<E>, during: AssertionStack<E>, after: AssertionStack<E>)
    requires
        before.trail().len() <= during.trail().len(),
        during.trail().take(before.trail().len() as int) == before.trail(),
        before.decisions().len() < during.decisions().len(),
        during.decisions().take(before.decisions().len() as int) == before.decisions(),
        during.decisions()[before.decisions().len() as int] == before.trail().len(),
        after.trail() == during.trail().subrange(0, during.decisions()[before.decisions().len() as int] as int),
        after.decisions() == during.decisions().subrange(0, before.decisions().len() as int),
    ensures
        after.trail() == before.trail(),
        after.decisions() == before.decisions(),
        after.trail().len() == before.trail().len(),
        forall|o: int| 0 <= o < before.trail().len() ==> #[trigger] after.trail()[o] == before.trail()[o],
        forall|l: Literal, o: int|
            #[trigger] asserted_before(after.trail(), l, o) == asserted_before(before.trail(), l, o),
        forall|v: nat, k: int| #[trigger] assigned_at(after.trail(), v, k) == assigned_at(before.trail(), v, k),
{
    assert(after.trail() =~= before.trail());
    assert(after.decisions() =~= before.decisions());
}

} // verus!
