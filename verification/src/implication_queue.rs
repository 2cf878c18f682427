//! The implications waiting to be asserted: conflicts first, then for each
//! variable the implication with the least normalized slack.
use vstd::prelude::*;

use std::collections::VecDeque;

use crate::assertion_state::Predicate;
use crate::comparator::{order_of, Comparator, Order, ValueComparator};
use crate::explain::{ConflictImplication, Implication};
use crate::heaped_map::{is_least_entry, HeapedMap};
use crate::literal::Literal;
use crate::map::index_fits;

verus! {

/// 2 to the 128th power: the base of a two-word number.
pub open spec fn word() -> int {
    0x1_0000_0000_0000_0000_0000_0000_0000_0000int
}

/// With `lo` below the base `w`, `hi * w + lo` compares as the pair
/// `(hi, lo)` compares in lexicographic order.
proof fn lemma_two_digits(w: int, hi1: int, lo1: int, hi2: int, lo2: int)
    requires
        w > 0,
        0 <= lo1 < w,
        0 <= lo2 < w,
    ensures
        (hi1 * w + lo1 <= hi2 * w + lo2) == (hi1 < hi2 || (hi1 == hi2 && lo1 <= lo2)),
{
    if hi1 < hi2 {
        assert(hi1 * w + lo1 < hi2 * w + lo2) by (nonlinear_arith)
            requires
                hi1 < hi2,
                w > 0,
                0 <= lo1 < w,
                0 <= lo2 < w,
        ;
    } else if hi1 > hi2 {
        assert(hi1 * w + lo1 > hi2 * w + lo2) by (nonlinear_arith)
            requires
                hi1 > hi2,
                w > 0,
                0 <= lo1 < w,
                0 <= lo2 < w,
        ;
    }
}

/// `x * y` as a high and a low word.
fn mul_wide(x: u128, y: u128) -> (product: (u128, u128))
    ensures
        product.0 * word() + product.1 == x * y,
{
    let b: u128 = 0x1_0000_0000_0000_0000;
    let x1 = x / b;
    let x0 = x % b;
    let y1 = y / b;
    let y0 = y % b;
    proof {
        assert(b * b == word());
        assert(x1 < b) by (nonlinear_arith)
            requires
                x1 == x / b,
                x < word(),
                b * b == word(),
                b > 0,
        ;
        assert(y1 < b) by (nonlinear_arith)
            requires
                y1 == y / b,
                y < word(),
                b * b == word(),
                b > 0,
        ;
        assert(x0 * y0 <= (b - 1) * (b - 1)) by (nonlinear_arith)
            requires
                0 <= x0 < b,
                0 <= y0 < b,
        ;
        assert(x0 * y1 <= (b - 1) * (b - 1)) by (nonlinear_arith)
            requires
                0 <= x0 < b,
                0 <= y1 < b,
        ;
        assert(x1 * y0 <= (b - 1) * (b - 1)) by (nonlinear_arith)
            requires
                0 <= x1 < b,
                0 <= y0 < b,
        ;
        assert(x1 * y1 <= (b - 1) * (b - 1)) by (nonlinear_arith)
            requires
                0 <= x1 < b,
                0 <= y1 < b,
        ;
    }
    let t0 = x0 * y0;
    let t1 = x0 * y1;
    let t2 = x1 * y0;
    let t3 = x1 * y1;
    let m = t0 / b + t1 % b + t2 % b;
    proof {
        assert(t1 / b <= b - 2) by (nonlinear_arith)
            requires
                t1 <= (b - 1) * (b - 1),
                b == 0x1_0000_0000_0000_0000,
        ;
        assert(t2 / b <= b - 2) by (nonlinear_arith)
            requires
                t2 <= (b - 1) * (b - 1),
                b == 0x1_0000_0000_0000_0000,
        ;
        assert(m / b <= 2) by (nonlinear_arith)
            requires
                m < 3 * b,
                b > 0,
        ;
        assert((m % b) * b + t0 % b < b * b) by (nonlinear_arith)
            requires
                0 <= m % b < b,
                0 <= t0 % b < b,
        ;
    }
    let lo = (m % b) * b + t0 % b;
    let hi = t3 + t1 / b + t2 / b + m / b;
    proof {
        let xi = x as int;
        let yi = y as int;
        assert(xi == x1 * b + x0);
        assert(yi == y1 * b + y0);
        let bb = b * b;
        let q0 = t0 / b;
        let r0 = t0 % b;
        let q1 = t1 / b;
        let r1 = t1 % b;
        let q2 = t2 / b;
        let r2 = t2 % b;
        let qm = m / b;
        let rm = m % b;
        assert(xi * yi == t3 * bb + t1 * b + t2 * b + t0) by (nonlinear_arith)
            requires
                xi == x1 * b + x0,
                yi == y1 * b + y0,
                t0 == x0 * y0,
                t1 == x0 * y1,
                t2 == x1 * y0,
                t3 == x1 * y1,
                bb == b * b,
        ;
        assert(t0 == q0 * b + r0);
        assert(t1 == q1 * b + r1);
        assert(t2 == q2 * b + r2);
        assert(m == qm * b + rm);
        assert(t1 * b == q1 * bb + r1 * b) by (nonlinear_arith)
            requires
                t1 == q1 * b + r1,
                bb == b * b,
        ;
        assert(t2 * b == q2 * bb + r2 * b) by (nonlinear_arith)
            requires
                t2 == q2 * b + r2,
                bb == b * b,
        ;
        assert(m * b == q0 * b + r1 * b + r2 * b) by (nonlinear_arith)
            requires
                m == q0 + r1 + r2,
        ;
        assert(m * b == qm * bb + rm * b) by (nonlinear_arith)
            requires
                m == qm * b + rm,
                bb == b * b,
        ;
        assert(hi * bb == t3 * bb + q1 * bb + q2 * bb + qm * bb) by (nonlinear_arith)
            requires
                hi == t3 + q1 + q2 + qm,
        ;
        assert(lo == rm * b + r0);
        assert(xi * yi == hi * bb + lo);
    }
    (hi, lo)
}

/// The number with words `words`, most significant first.
pub open spec fn value_of_words(words: (u128, u128, u128)) -> int {
    (words.0 * word() + words.1) * word() + words.2
}

/// `a * d + c * b` for the fractions `s = a / b` and `t = c / d`: the
/// numerator of their sum over the denominator `b * d`, as a carry and a
/// low word.
fn sum_numerator(s: (u64, u64), t: (u64, u64)) -> (numerator: (u128, u128))
    ensures
        numerator.0 <= 1,
        numerator.0 * word() + numerator.1 == s.0 * t.1 + t.0 * s.1,
{
    proof {
        assert(s.0 * t.1 < word()) by (nonlinear_arith)
            requires
                s.0 < 0x1_0000_0000_0000_0000,
                t.1 < 0x1_0000_0000_0000_0000,
        ;
        assert(t.0 * s.1 < word()) by (nonlinear_arith)
            requires
                t.0 < 0x1_0000_0000_0000_0000,
                s.1 < 0x1_0000_0000_0000_0000,
        ;
    }
    let x = s.0 as u128 * t.1 as u128;
    let y = t.0 as u128 * s.1 as u128;
    if x > u128::MAX - y {
        (1, x - (u128::MAX - y) - 1)
    } else {
        (0, x + y)
    }
}

/// `(p.0 * 2^128 + p.1) * q` as three words.
fn times_word(p: (u128, u128), q: u128) -> (product: (u128, u128, u128))
    requires
        p.0 <= 1,
    ensures
        product.0 <= 1,
        value_of_words(product) == (p.0 * word() + p.1) * q,
{
    let (h, l) = mul_wide(p.1, q);
    let carried: u128 = if p.0 == 1 {
        q
    } else {
        0
    };
    proof {
        assert(carried == p.0 * q);
        assert((p.0 * word() + p.1) * q == (carried + h) * word() + l) by (nonlinear_arith)
            requires
                carried == p.0 * q,
                p.1 * q == h * word() + l,
        ;
    }
    if h > u128::MAX - carried {
        let middle = h - (u128::MAX - carried) - 1;
        proof {
            assert(carried + h == word() + middle);
            assert((carried + h) * word() == (1 * word() + middle) * word());
        }
        (1, middle, l)
    } else {
        (0, h + carried, l)
    }
}

/// Compares two three-word numbers.
fn compare_words(x: (u128, u128, u128), y: (u128, u128, u128)) -> (order: Order)
    ensures
        order == order_of(value_of_words(x) <= value_of_words(y), value_of_words(y) <= value_of_words(x)),
{
    proof {
        let w = word();
        lemma_two_digits(w, x.0 as int, x.1 as int, y.0 as int, y.1 as int);
        lemma_two_digits(w, y.0 as int, y.1 as int, x.0 as int, x.1 as int);
        lemma_two_digits(w, x.0 * w + x.1, x.2 as int, y.0 * w + y.1, y.2 as int);
        lemma_two_digits(w, y.0 * w + y.1, y.2 as int, x.0 * w + x.1, x.2 as int);
    }
    if x.0 < y.0 || (x.0 == y.0 && (x.1 < y.1 || (x.1 == y.1 && x.2 < y.2))) {
        Order::Less
    } else if x.0 == y.0 && x.1 == y.1 && x.2 == y.2 {
        Order::Equal
    } else {
        Order::Greater
    }
}

/// The normalized slack `s.0 / s.1` is at most `t.0 / t.1`; a zero
/// coefficient counts as an infinitely large normalized slack.
pub open spec fn slack_le(s: (u64, u64), t: (u64, u64)) -> bool {
    if s.1 == 0 {
        t.1 == 0
    } else if t.1 == 0 {
        true
    } else {
        s.0 * t.1 <= t.0 * s.1
    }
}

/// The numerator and the denominator of the sum of the two normalized
/// slacks.
pub open spec fn slack_sum(slacks: [(u64, u64); 2]) -> (int, int) {
    (
        slacks@[0].0 * slacks@[1].1 + slacks@[1].0 * slacks@[0].1,
        slacks@[0].1 * slacks@[1].1,
    )
}

/// The sum of the normalized slacks `s` is at most that of `t`; a zero
/// coefficient makes a sum infinitely large.
pub open spec fn slack_sum_le(s: [(u64, u64); 2], t: [(u64, u64); 2]) -> bool {
    let (p, q) = slack_sum(s);
    let (r, u) = slack_sum(t);
    if q == 0 {
        u == 0
    } else if u == 0 {
        true
    } else {
        p * u <= r * q
    }
}

/// Comparing fractions with positive denominators by cross products is
/// transitive.
proof fn lemma_cross_transitive(p1: int, q1: int, p2: int, q2: int, p3: int, q3: int)
    requires
        q1 > 0,
        q2 > 0,
        q3 > 0,
        p1 * q2 <= p2 * q1,
        p2 * q3 <= p3 * q2,
    ensures
        p1 * q3 <= p3 * q1,
{
    assert(p1 * q2 * q3 <= p2 * q1 * q3) by (nonlinear_arith)
        requires
            p1 * q2 <= p2 * q1,
            q3 > 0,
    ;
    assert(p2 * q3 * q1 <= p3 * q2 * q1) by (nonlinear_arith)
        requires
            p2 * q3 <= p3 * q2,
            q1 > 0,
    ;
    assert(p1 * q3 * q2 <= p3 * q1 * q2) by (nonlinear_arith)
        requires
            p1 * q2 * q3 <= p2 * q1 * q3,
            p2 * q3 * q1 <= p3 * q2 * q1,
    ;
    assert(p1 * q3 <= p3 * q1) by (nonlinear_arith)
        requires
            p1 * q3 * q2 <= p3 * q1 * q2,
            q2 > 0,
    ;
}

/// Compares two normalized slacks.
fn compare_slacks(s: (u64, u64), t: (u64, u64)) -> (order: Order)
    ensures
        order == order_of(slack_le(s, t), slack_le(t, s)),
{
    if s.1 == 0 {
        if t.1 == 0 {
            Order::Equal
        } else {
            Order::Greater
        }
    } else if t.1 == 0 {
        Order::Less
    } else {
        proof {
            assert(s.0 * t.1 < word()) by (nonlinear_arith)
                requires
                    s.0 < 0x1_0000_0000_0000_0000,
                    t.1 < 0x1_0000_0000_0000_0000,
            ;
            assert(t.0 * s.1 < word()) by (nonlinear_arith)
                requires
                    t.0 < 0x1_0000_0000_0000_0000,
                    s.1 < 0x1_0000_0000_0000_0000,
            ;
        }
        let x = s.0 as u128 * t.1 as u128;
        let y = t.0 as u128 * s.1 as u128;
        if x < y {
            Order::Less
        } else if x == y {
            Order::Equal
        } else {
            Order::Greater
        }
    }
}

/// Compares the sums of two pairs of normalized slacks.
fn compare_slack_sums(s: &[(u64, u64); 2], t: &[(u64, u64); 2]) -> (order: Order)
    ensures
        order == order_of(slack_sum_le(*s, *t), slack_sum_le(*t, *s)),
{
    proof {
        assert(s@[0].1 * s@[1].1 < word()) by (nonlinear_arith)
            requires
                s@[0].1 < 0x1_0000_0000_0000_0000,
                s@[1].1 < 0x1_0000_0000_0000_0000,
        ;
        assert(t@[0].1 * t@[1].1 < word()) by (nonlinear_arith)
            requires
                t@[0].1 < 0x1_0000_0000_0000_0000,
                t@[1].1 < 0x1_0000_0000_0000_0000,
        ;
    }
    let q = s[0].1 as u128 * s[1].1 as u128;
    let u = t[0].1 as u128 * t[1].1 as u128;
    if q == 0 {
        if u == 0 {
            Order::Equal
        } else {
            Order::Greater
        }
    } else if u == 0 {
        Order::Less
    } else {
        let p = sum_numerator(s[0], s[1]);
        let r = sum_numerator(t[0], t[1]);
        let x = times_word(p, u);
        let y = times_word(r, q);
        compare_words(x, y)
    }
}

/// Both values of a variable are implied: the normalized slacks, as
/// `(slack, coefficient)`, and the keys of the implications of the false
/// value (first) and of the true value (second).
#[derive(Debug)]
pub struct ConflictLiteralAssertion<ExplainKeyT> {
    pub normalized_slacks: [(u64, u64); 2],
    pub explain_keys: [ExplainKeyT; 2],
}

/// One value of a variable is implied: the normalized slack, as
/// `(slack, coefficient)`, and the key of the implication, and the value.
#[derive(Debug)]
pub struct NoconflictLiteralAssertion<ExplainKeyT> {
    pub normalized_slack: (u64, u64),
    pub explain_key: ExplainKeyT,
    pub value: bool,
}

/// Orders conflicting assertions by the sum of their normalized slacks,
/// the least first.
#[derive(Default, Clone, Copy, Debug)]
pub struct VariableConflictComparator {}

impl<ExplainKeyT> Comparator<ConflictLiteralAssertion<ExplainKeyT>> for VariableConflictComparator {
    open spec fn spec_le(
        &self,
        lhs: ConflictLiteralAssertion<ExplainKeyT>,
        rhs: ConflictLiteralAssertion<ExplainKeyT>,
    ) -> bool {
        slack_sum_le(lhs.normalized_slacks, rhs.normalized_slacks)
    }

    proof fn lemma_total(
        &self,
        lhs: ConflictLiteralAssertion<ExplainKeyT>,
        rhs: ConflictLiteralAssertion<ExplainKeyT>,
    ) {
    }

    proof fn lemma_transitive(
        &self,
        a: ConflictLiteralAssertion<ExplainKeyT>,
        b: ConflictLiteralAssertion<ExplainKeyT>,
        c: ConflictLiteralAssertion<ExplainKeyT>,
    ) {
        let (p1, q1) = slack_sum(a.normalized_slacks);
        let (p2, q2) = slack_sum(b.normalized_slacks);
        let (p3, q3) = slack_sum(c.normalized_slacks);
        lemma_denominator_nonneg(a.normalized_slacks);
        lemma_denominator_nonneg(b.normalized_slacks);
        lemma_denominator_nonneg(c.normalized_slacks);
        if q1 != 0 && q2 != 0 && q3 != 0 {
            lemma_cross_transitive(p1, q1, p2, q2, p3, q3);
        }
    }

    fn cmp(&self, lhs: &ConflictLiteralAssertion<ExplainKeyT>, rhs: &ConflictLiteralAssertion<ExplainKeyT>) -> (order: Order) {
        compare_slack_sums(&lhs.normalized_slacks, &rhs.normalized_slacks)
    }
}

/// The denominator of a sum of normalized slacks is not negative.
proof fn lemma_denominator_nonneg(slacks: [(u64, u64); 2])
    ensures
        slack_sum(slacks).1 >= 0,
{
    assert(slacks@[0].1 * slacks@[1].1 >= 0) by (nonlinear_arith)
        requires
            slacks@[0].1 >= 0,
            slacks@[1].1 >= 0,
    ;
}

/// Orders implications by their normalized slack, the least first.
#[derive(Default, Clone, Copy, Debug)]
pub struct VariablePropagationComparator {}

impl<ExplainKeyT> Comparator<NoconflictLiteralAssertion<ExplainKeyT>> for VariablePropagationComparator {
    open spec fn spec_le(
        &self,
        lhs: NoconflictLiteralAssertion<ExplainKeyT>,
        rhs: NoconflictLiteralAssertion<ExplainKeyT>,
    ) -> bool {
        slack_le(lhs.normalized_slack, rhs.normalized_slack)
    }

    proof fn lemma_total(
        &self,
        lhs: NoconflictLiteralAssertion<ExplainKeyT>,
        rhs: NoconflictLiteralAssertion<ExplainKeyT>,
    ) {
    }

    proof fn lemma_transitive(
        &self,
        a: NoconflictLiteralAssertion<ExplainKeyT>,
        b: NoconflictLiteralAssertion<ExplainKeyT>,
        c: NoconflictLiteralAssertion<ExplainKeyT>,
    ) {
        let s1 = a.normalized_slack;
        let s2 = b.normalized_slack;
        let s3 = c.normalized_slack;
        if s1.1 != 0 && s2.1 != 0 && s3.1 != 0 {
            lemma_cross_transitive(s1.0 as int, s1.1 as int, s2.0 as int, s2.1 as int, s3.0 as int, s3.1 as int);
        }
    }

    fn cmp(&self, lhs: &NoconflictLiteralAssertion<ExplainKeyT>, rhs: &NoconflictLiteralAssertion<ExplainKeyT>) -> (order: Order) {
        compare_slacks(lhs.normalized_slack, rhs.normalized_slack)
    }
}

/// The normalized slack `s` is less than `t`.
pub open spec fn slack_lt(s: (u64, u64), t: (u64, u64)) -> bool {
    !slack_le(t, s)
}

/// The position of a value in the pair of a conflicting assertion: the
/// false value first.
pub open spec fn slot(value: bool) -> int {
    if value {
        1
    } else {
        0
    }
}

/// `(v, e)` is an entry of `m` whose sum of normalized slacks is least.
pub open spec fn is_least_conflict<ExplainKeyT>(
    m: Map<usize, ConflictLiteralAssertion<ExplainKeyT>>,
    v: usize,
    e: ConflictLiteralAssertion<ExplainKeyT>,
) -> bool {
    &&& m.contains_key(v)
    &&& m[v] == e
    &&& forall|u: usize| #[trigger] m.contains_key(u) ==> slack_sum_le(e.normalized_slacks, m[u].normalized_slacks)
}

/// `(v, e)` is an entry of `m` whose normalized slack is least.
pub open spec fn is_least_propagation<ExplainKeyT>(
    m: Map<usize, NoconflictLiteralAssertion<ExplainKeyT>>,
    v: usize,
    e: NoconflictLiteralAssertion<ExplainKeyT>,
) -> bool {
    &&& m.contains_key(v)
    &&& m[v] == e
    &&& forall|u: usize| #[trigger] m.contains_key(u) ==> slack_le(e.normalized_slack, m[u].normalized_slack)
}

/// The conflicting and the other implied assertions after receiving the
/// implication of `literal` by `key` with normalized slack `slack`: a
/// variable with both values implied keeps, for each value, the implication
/// of least normalized slack; an implication of the other value of a
/// variable with one value implied makes it conflicting; otherwise each
/// variable keeps the implication of least normalized slack, the first
/// received among equals.
pub open spec fn received<ExplainKeyT>(
    conflicts: Map<usize, ConflictLiteralAssertion<ExplainKeyT>>,
    others: Map<usize, NoconflictLiteralAssertion<ExplainKeyT>>,
    conflicts_after: Map<usize, ConflictLiteralAssertion<ExplainKeyT>>,
    others_after: Map<usize, NoconflictLiteralAssertion<ExplainKeyT>>,
    literal: Literal,
    key: ExplainKeyT,
    slack: (u64, u64),
) -> bool {
    let v = literal.spec_index() as usize;
    let b = literal.spec_value();
    if conflicts.contains_key(v) {
        let c = conflicts[v];
        &&& others_after =~= others
        &&& if slack_lt(slack, c.normalized_slacks@[slot(b)]) {
            &&& conflicts_after =~= conflicts.insert(v, conflicts_after[v])
            &&& conflicts_after[v].normalized_slacks@ =~= c.normalized_slacks@.update(slot(b), slack)
            &&& conflicts_after[v].explain_keys@ =~= c.explain_keys@.update(slot(b), key)
        } else {
            conflicts_after =~= conflicts
        }
    } else if others.contains_key(v) {
        let o = others[v];
        if o.value != b {
            &&& others_after =~= others.remove(v)
            &&& conflicts_after =~= conflicts.insert(v, conflicts_after[v])
            &&& conflicts_after[v].normalized_slacks@ =~= if b {
                seq![o.normalized_slack, slack]
            } else {
                seq![slack, o.normalized_slack]
            }
            &&& conflicts_after[v].explain_keys@ =~= if b {
                seq![o.explain_key, key]
            } else {
                seq![key, o.explain_key]
            }
        } else if slack_lt(slack, o.normalized_slack) {
            &&& conflicts_after =~= conflicts
            &&& others_after =~= others.insert(
                v,
                NoconflictLiteralAssertion { normalized_slack: slack, explain_key: key, value: b },
            )
        } else {
            &&& conflicts_after =~= conflicts
            &&& others_after =~= others
        }
    } else {
        &&& conflicts_after =~= conflicts
        &&& others_after =~= others.insert(
            v,
            NoconflictLiteralAssertion { normalized_slack: slack, explain_key: key, value: b },
        )
    }
}

/// The implications waiting to be asserted: the violated constraints in
/// the order they were reported, the variables with both values implied,
/// and the variables with one value implied.
pub struct ImplicationQueue<ExplainKeyT> {
    conflict_constraints: VecDeque<ExplainKeyT>,
    conflict_literal_assertions: HeapedMap<
        ConflictLiteralAssertion<ExplainKeyT>,
        ValueComparator<VariableConflictComparator>,
    >,
    noconflict_literal_assertions: HeapedMap<
        NoconflictLiteralAssertion<ExplainKeyT>,
        ValueComparator<VariablePropagationComparator>,
    >,
}

impl<ExplainKeyT: Copy> ImplicationQueue<ExplainKeyT> {
    /// The keys of the violated constraints, in the order they were
    /// reported.
    pub closed spec fn conflict_constraints(&self) -> Seq<ExplainKeyT> {
        self.conflict_constraints@
    }

    /// The variables with both values implied.
    pub closed spec fn conflict_literals(&self) -> Map<usize, ConflictLiteralAssertion<ExplainKeyT>> {
        self.conflict_literal_assertions@
    }

    /// The variables with one value implied.
    pub closed spec fn propagations(&self) -> Map<usize, NoconflictLiteralAssertion<ExplainKeyT>> {
        self.noconflict_literal_assertions@
    }

    /// Both maps are well formed, no variable is in both, and every
    /// variable is one that a literal can name.
    pub closed spec fn wf(&self) -> bool {
        &&& self.conflict_literal_assertions.wf()
        &&& self.noconflict_literal_assertions.wf()
        &&& forall|v: usize| #[trigger]
            self.conflict_literals().contains_key(v) ==> !self.propagations().contains_key(v)
        &&& forall|v: usize| #[trigger] self.propagations().contains_key(v) ==> v <= usize::MAX / 2
    }

    /// Both maps are finite.
    pub proof fn lemma_finite(&self)
        requires
            self.wf(),
        ensures
            self.conflict_literals().dom().finite(),
            self.propagations().dom().finite(),
    {
        self.conflict_literal_assertions.lemma_items();
        self.noconflict_literal_assertions.lemma_items();
    }

    /// No variable is both conflicting and implied once.
    pub proof fn lemma_disjoint(&self, v: usize)
        requires
            self.wf(),
        ensures
            !(self.conflict_literals().contains_key(v) && self.propagations().contains_key(v)),
    {
    }

    /// An empty queue.
    pub fn new() -> (queue: Self)
        ensures
            queue.wf(),
            queue.conflict_constraints() == Seq::<ExplainKeyT>::empty(),
            queue.conflict_literals() == Map::<usize, ConflictLiteralAssertion<ExplainKeyT>>::empty(),
            queue.propagations() == Map::<usize, NoconflictLiteralAssertion<ExplainKeyT>>::empty(),
    {
        Self {
            conflict_constraints: VecDeque::new(),
            conflict_literal_assertions: HeapedMap::new(ValueComparator::new(VariableConflictComparator {})),
            noconflict_literal_assertions: HeapedMap::new(ValueComparator::new(VariablePropagationComparator {})),
        }
    }

    /// Whether nothing waits.
    pub fn is_empty(&self) -> (empty: bool)
        requires
            self.wf(),
        ensures
            empty == (self.conflict_constraints().len() == 0 && self.conflict_literals().len() == 0
                && self.propagations().len() == 0),
    {
        self.conflict_constraints.len() == 0 && self.conflict_literal_assertions.is_empty()
            && self.noconflict_literal_assertions.is_empty()
    }

    /// The first violated constraint reported; else a variable with both
    /// values implied whose sum of normalized slacks is least; else none.
    pub fn get_conflict(&self) -> (conflict: Option<ConflictImplication<ExplainKeyT>>)
        requires
            self.wf(),
        ensures
            self.conflict_constraints().len() > 0 ==> conflict == Some(
                ConflictImplication::Constraint { explain_key: self.conflict_constraints()[0] },
            ),
            self.conflict_constraints().len() == 0 && self.conflict_literals().len() > 0 ==> (
            conflict matches Some(ConflictImplication::Literals { variable, explain_keys }) && is_least_conflict(
                self.conflict_literals(),
                variable,
                self.conflict_literals()[variable],
            ) && explain_keys == self.conflict_literals()[variable].explain_keys),
            self.conflict_constraints().len() == 0 && self.conflict_literals().len() == 0 ==> conflict is None,
    {
        if self.conflict_constraints.len() > 0 {
            return Some(ConflictImplication::Constraint { explain_key: self.conflict_constraints[0] });
        }
        match self.conflict_literal_assertions.first() {
            Some((variable, assertion)) => {
                proof {
                    lemma_least_conflict(
                        self.conflict_literal_assertions.comparator(),
                        self.conflict_literals(),
                        *variable,
                        *assertion,
                    );
                }
                Some(ConflictImplication::Literals { variable: *variable, explain_keys: assertion.explain_keys })
            },
            None => None,
        }
    }

    /// Removes and returns, as a predicate and a key, an implication of
    /// least normalized slack; none when no variable has one value implied.
    pub fn pop_propagation(&mut self) -> (popped: Option<(Predicate, ExplainKeyT)>)
        requires
            old(self).wf(),
            old(self).conflict_constraints().len() == 0,
            old(self).conflict_literals().len() == 0,
        ensures
            final(self).wf(),
            final(self).conflict_constraints() == old(self).conflict_constraints(),
            final(self).conflict_literals() == old(self).conflict_literals(),
            popped is None <==> old(self).propagations().len() == 0,
            popped is None ==> final(self).propagations() == old(self).propagations(),
            popped matches Some((predicate, key)) ==> {
                let v = predicate.spec_literal().spec_index() as usize;
                let e = old(self).propagations()[v];
                &&& is_least_propagation(old(self).propagations(), v, e)
                &&& predicate.spec_literal().spec_value() == e.value
                &&& key == e.explain_key
                &&& final(self).propagations() == old(self).propagations().remove(v)
            },
    {
        let entry = self.noconflict_literal_assertions.pop_first();
        proof {
            assert(self.conflict_literals() == old(self).conflict_literals());
            assert forall|v: usize| #[trigger] self.propagations().contains_key(v) implies old(
                self,
            ).propagations().contains_key(v) by {}
        }
        match entry {
            Some((variable, assertion)) => {
                proof {
                    lemma_least_propagation(
                        old(self).noconflict_literal_assertions.comparator(),
                        old(self).propagations(),
                        variable,
                        assertion,
                    );
                }
                let literal = Literal::new(variable, assertion.value);
                Some((Predicate::Literal(literal), assertion.explain_key))
            },
            None => None,
        }
    }

    /// Empties the queue.
    pub fn clear(&mut self)
        requires
            old(self).wf(),
        ensures
            final(self).wf(),
            final(self).conflict_constraints() == Seq::<ExplainKeyT>::empty(),
            final(self).conflict_literals() == Map::<usize, ConflictLiteralAssertion<ExplainKeyT>>::empty(),
            final(self).propagations() == Map::<usize, NoconflictLiteralAssertion<ExplainKeyT>>::empty(),
    {
        self.conflict_constraints.clear();
        self.conflict_literal_assertions.clear();
        self.noconflict_literal_assertions.clear();
    }

    /// Records that the constraint behind `explain_key` is violated.
    pub fn receive_conflict(&mut self, explain_key: ExplainKeyT)
        requires
            old(self).wf(),
        ensures
            final(self).wf(),
            final(self).conflict_constraints() == old(self).conflict_constraints().push(explain_key),
            final(self).conflict_literals() == old(self).conflict_literals(),
            final(self).propagations() == old(self).propagations(),
    {
        self.conflict_constraints.push_back(explain_key);
        proof {
            assert(self.conflict_literals() == old(self).conflict_literals());
            assert(self.propagations() == old(self).propagations());
        }
    }
    /// Records that the constraint behind `explain_key` implies `literal`
    /// with slack `slack` and coefficient `coefficient`, whose quotient is
    /// the normalized slack (see `received`).
    pub fn receive_literal_assertion(&mut self, literal: Literal, explain_key: ExplainKeyT, slack: u64, coefficient: u64)
        requires
            old(self).wf(),
            old(self).conflict_literals().len() + 1 < usize::MAX / 2,
            old(self).propagations().len() + 1 < usize::MAX / 2,
        ensures
            final(self).wf(),
            final(self).conflict_constraints() == old(self).conflict_constraints(),
            received(
                old(self).conflict_literals(),
                old(self).propagations(),
                final(self).conflict_literals(),
                final(self).propagations(),
                literal,
                explain_key,
                (slack, coefficient),
            ),
    {
        let normalized_slack = (slack, coefficient);
        let variable = literal.index();
        let value = literal.value();
        let position: usize = if value {
            1
        } else {
            0
        };
        proof {
            assert(index_fits(self.conflict_literal_assertions.spec_capacity(), variable));
        }
        let existing = match self.conflict_literal_assertions.get(variable) {
            Some(conflict) => Some((conflict.normalized_slacks, conflict.explain_keys)),
            None => None,
        };
        match existing {
            Some((slacks, keys)) => {
                let order = compare_slacks(normalized_slack, slacks[position]);
                if order == Order::Less {
                    let (new_slacks, new_keys) = if position == 0 {
                        ([normalized_slack, slacks[1]], [explain_key, keys[1]])
                    } else {
                        ([slacks[0], normalized_slack], [keys[0], explain_key])
                    };
                    self.conflict_literal_assertions.insert(
                        variable,
                        ConflictLiteralAssertion { normalized_slacks: new_slacks, explain_keys: new_keys },
                    );
                    proof {
                        assert(new_slacks@ =~= slacks@.update(slot(value), normalized_slack));
                        assert(new_keys@ =~= keys@.update(slot(value), explain_key));
                    }
                }
                proof {
                    assert(self.propagations() == old(self).propagations());
                }
            },
            None => {
                let other = match self.noconflict_literal_assertions.get(variable) {
                    Some(assertion) => Some((assertion.normalized_slack, assertion.explain_key, assertion.value)),
                    None => None,
                };
                match other {
                    Some((other_slack, other_key, other_value)) => {
                        if other_value != value {
                            let (new_slacks, new_keys) = if !value {
                                ([normalized_slack, other_slack], [explain_key, other_key])
                            } else {
                                ([other_slack, normalized_slack], [other_key, explain_key])
                            };
                            self.conflict_literal_assertions.insert(
                                variable,
                                ConflictLiteralAssertion { normalized_slacks: new_slacks, explain_keys: new_keys },
                            );
                            self.noconflict_literal_assertions.remove(variable);
                            proof {
                                assert(new_slacks@ =~= if value {
                                    seq![other_slack, normalized_slack]
                                } else {
                                    seq![normalized_slack, other_slack]
                                });
                                assert(new_keys@ =~= if value {
                                    seq![other_key, explain_key]
                                } else {
                                    seq![explain_key, other_key]
                                });
                            }
                        } else {
                            let order = compare_slacks(normalized_slack, other_slack);
                            if order == Order::Less {
                                self.noconflict_literal_assertions.insert(
                                    variable,
                                    NoconflictLiteralAssertion { normalized_slack, explain_key, value },
                                );
                            }
                            proof {
                                assert(self.conflict_literals() == old(self).conflict_literals());
                            }
                        }
                    },
                    None => {
                        self.noconflict_literal_assertions.insert(
                            variable,
                            NoconflictLiteralAssertion { normalized_slack, explain_key, value },
                        );
                        proof {
                            assert(self.conflict_literals() == old(self).conflict_literals());
                        }
                    },
                }
            },
        }
        proof {
            assert forall|v: usize| #[trigger] self.conflict_literals().contains_key(v) implies !self.propagations().contains_key(v) by {
                if v != variable {
                    assert(old(self).conflict_literals().contains_key(v) || old(self).propagations().contains_key(v));
                }
            }
        }
    }

    /// Records an implication of a propagator: a violated constraint (see
    /// `receive_conflict`) or an implied literal (see
    /// `receive_literal_assertion`).
    pub fn receive(&mut self, implication: Implication<ExplainKeyT>)
        requires
            old(self).wf(),
            old(self).conflict_literals().len() + 1 < usize::MAX / 2,
            old(self).propagations().len() + 1 < usize::MAX / 2,
        ensures
            final(self).wf(),
            match implication {
                Implication::Conflict(key) => {
                    &&& final(self).conflict_constraints() == old(self).conflict_constraints().push(key)
                    &&& final(self).conflict_literals() == old(self).conflict_literals()
                    &&& final(self).propagations() == old(self).propagations()
                },
                Implication::Literal(literal, key, slack, coefficient) => {
                    &&& final(self).conflict_constraints() == old(self).conflict_constraints()
                    &&& received(
                        old(self).conflict_literals(),
                        old(self).propagations(),
                        final(self).conflict_literals(),
                        final(self).propagations(),
                        literal,
                        key,
                        (slack, coefficient),
                    )
                },
            },
    {
        match implication {
            Implication::Conflict(key) => self.receive_conflict(key),
            Implication::Literal(literal, key, slack, coefficient) => self.receive_literal_assertion(
                literal,
                key,
                slack,
                coefficient,
            ),
        }
    }
}

/// A least entry under the value comparator is a least conflict.
proof fn lemma_least_conflict<ExplainKeyT>(
    c: ValueComparator<VariableConflictComparator>,
    m: Map<usize, ConflictLiteralAssertion<ExplainKeyT>>,
    v: usize,
    e: ConflictLiteralAssertion<ExplainKeyT>,
)
    requires
        is_least_entry(c, m, v, e),
    ensures
        is_least_conflict(m, v, e),
{
    assert forall|u: usize| #[trigger] m.contains_key(u) implies slack_sum_le(
        e.normalized_slacks,
        m[u].normalized_slacks,
    ) by {
        c.lemma_by_value((v, e), (u, m[u]));
    }
}

/// A least entry under the value comparator is a least propagation.
proof fn lemma_least_propagation<ExplainKeyT>(
    c: ValueComparator<VariablePropagationComparator>,
    m: Map<usize, NoconflictLiteralAssertion<ExplainKeyT>>,
    v: usize,
    e: NoconflictLiteralAssertion<ExplainKeyT>,
)
    requires
        is_least_entry(c, m, v, e),
    ensures
        is_least_propagation(m, v, e),
{
    assert forall|u: usize| #[trigger] m.contains_key(u) implies slack_le(e.normalized_slack, m[u].normalized_slack) by {
        c.lemma_by_value((v, e), (u, m[u]));
    }
}

/// Two implications popped one after the other, with nothing received in
/// between, come in order of normalized slack.
pub proof fn lemma_pop_order<ExplainKeyT>(m: Map<usize, NoconflictLiteralAssertion<ExplainKeyT>>, v1: usize, v2: usize)
    requires
        is_least_propagation(m, v1, m[v1]),
        is_least_propagation(m.remove(v1), v2, m.remove(v1)[v2]),
    ensures
        slack_le(m[v1].normalized_slack, m[v2].normalized_slack),
{
    assert(m.contains_key(v2));
}

/// Receiving the same implication again changes nothing.
pub proof fn lemma_receive_idempotent<ExplainKeyT>(
    conflicts: Map<usize, ConflictLiteralAssertion<ExplainKeyT>>,
    others: Map<usize, NoconflictLiteralAssertion<ExplainKeyT>>,
    conflicts1: Map<usize, ConflictLiteralAssertion<ExplainKeyT>>,
    others1: Map<usize, NoconflictLiteralAssertion<ExplainKeyT>>,
    conflicts2: Map<usize, ConflictLiteralAssertion<ExplainKeyT>>,
    others2: Map<usize, NoconflictLiteralAssertion<ExplainKeyT>>,
    literal: Literal,
    key: ExplainKeyT,
    slack: (u64, u64),
)
    requires
        received(conflicts, others, conflicts1, others1, literal, key, slack),
        received(conflicts1, others1, conflicts2, others2, literal, key, slack),
    ensures
        conflicts2 == conflicts1,
        others2 == others1,
{
    let v = literal.spec_index() as usize;
    assert(conflicts1.contains_key(v) || others1.contains_key(v));
    if conflicts1.contains_key(v) {
        let c = conflicts1[v];
        assert(!slack_lt(slack, c.normalized_slacks@[slot(literal.spec_value())])) by {
            if conflicts.contains_key(v) {
                let c0 = conflicts[v];
                if slack_lt(slack, c0.normalized_slacks@[slot(literal.spec_value())]) {
                    assert(c.normalized_slacks@[slot(literal.spec_value())] == slack);
                } else {
                    assert(c == c0);
                }
            } else {
                assert(others.contains_key(v));
                assert(c.normalized_slacks@[slot(literal.spec_value())] == slack);
            }
        }
    } else {
        let o = others1[v];
        assert(o.value == literal.spec_value() && !slack_lt(slack, o.normalized_slack)) by {
            assert(!conflicts.contains_key(v));
            if others.contains_key(v) {
                let o0 = others[v];
                if o0.value != literal.spec_value() {
                    assert(conflicts1.contains_key(v));
                } else if slack_lt(slack, o0.normalized_slack) {
                    assert(o.normalized_slack == slack);
                } else {
                    assert(o == o0);
                }
            }
        }
    }
}

} // verus!
