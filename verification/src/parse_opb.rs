//! The line grammar of the OPB format of pseudo-Boolean instances, on bytes:
//!
//! ```text
//! <line>               ::= <comment> | <objective> | <constraint>
//! <comment>            ::= "*" <any bytes up to the line end>
//! <objective>          ::= ("min:" | "max:") <spaces> <sum> <spaces> ";"
//! <constraint>         ::= <sum> ("=" | ">=") <spaces> <integer> <spaces> ";"
//! <sum>                ::= <weighted term> | <weighted term> <sum>
//! <weighted term>      ::= <integer> <space>+ "x" <unsigned integer> <space>+
//! <integer>            ::= ["+" | "-"] <digit>+        (an i64)
//! <unsigned integer>   ::= <digit>+                    (a usize)
//! ```
//!
//! A space is a blank or a tab; `<spaces>` may be empty but must be followed
//! by a byte of the line.
use vstd::prelude::*;

verus! {

/// The line could not be parsed; it is kept.
#[derive(Clone, Debug)]
pub struct FormatError {
    pub line: String,
}

/// `std::io::Error`, carried as it is.
#[verifier::external_type_specification]
#[verifier::external_body]
pub struct ExIoError(std::io::Error);

/// An error of reading an instance.
#[derive(Debug)]
pub enum Error {
    Io(std::io::Error),
    Format(FormatError),
}

/// The kind of objective.
#[derive(Clone, Copy, PartialEq, Eq, Structural, Debug)]
pub enum ObjectiveType {
    Min,
    Max,
}

/// The relation of a constraint's sum to its right-hand side.
#[derive(Clone, Copy, PartialEq, Eq, Structural, Debug)]
pub enum RelationalOperator {
    Equal,
    GreaterOrEqual,
}

/// A variable `x<index>`.
#[derive(Clone, Copy, PartialEq, Eq, Structural, Debug)]
pub struct Variable {
    pub index: usize,
}

/// A term `weight x<index>`.
#[derive(Clone, Copy, PartialEq, Eq, Structural, Debug)]
pub struct WeightedTerm {
    pub weight: i64,
    pub term: Variable,
}

/// An objective to minimise or maximise.
#[derive(Clone, Debug)]
pub struct Objective {
    pub objective_type: ObjectiveType,
    pub sum: Vec<WeightedTerm>,
}

/// A constraint `sum = rhs` or `sum >= rhs`.
#[derive(Clone, Debug)]
pub struct Constraint {
    pub sum: Vec<WeightedTerm>,
    pub relational_operator: RelationalOperator,
    pub rhs: i64,
}

/// A parsed line.
#[derive(Clone, Debug)]
pub enum Line {
    /// A comment, without its leading `*`.
    Comment(Vec<u8>),
    Objective(Objective),
    Constraint(Constraint),
}

/// What a line holds, as values.
pub enum LineView {
    Comment(Seq<u8>),
    Objective(ObjectiveType, Seq<WeightedTerm>),
    Constraint(Seq<WeightedTerm>, RelationalOperator, i64),
}

impl View for Line {
    type V = LineView;

    open spec fn view(&self) -> LineView {
        match self {
            Line::Comment(text) => LineView::Comment(text@),
            Line::Objective(o) => LineView::Objective(o.objective_type, o.sum@),
            Line::Constraint(c) => LineView::Constraint(c.sum@, c.relational_operator, c.rhs),
        }
    }
}

/// An ASCII digit.
pub open spec fn is_digit(b: u8) -> bool {
    48 <= b <= 57
}

/// A blank or a tab.
pub open spec fn is_space(b: u8) -> bool {
    b == 32 || b == 9
}

/// The end of the run of digits that starts at `i`.
pub open spec fn digits_end(s: Seq<u8>, i: int) -> int
    decreases s.len() - i,
{
    if 0 <= i < s.len() && is_digit(s[i]) {
        digits_end(s, i + 1)
    } else {
        i
    }
}

/// The end of the run of spaces that starts at `i`.
pub open spec fn spaces_end(s: Seq<u8>, i: int) -> int
    decreases s.len() - i,
{
    if 0 <= i < s.len() && is_space(s[i]) {
        spaces_end(s, i + 1)
    } else {
        i
    }
}

/// The number written by the digits of `s` from `i` to `j`.
pub open spec fn digits_value(s: Seq<u8>, i: int, j: int) -> nat
    decreases j - i,
{
    if j <= i {
        0
    } else {
        10 * digits_value(s, i, j - 1) + (s[j - 1] - 48) as nat
    }
}

/// An unsigned integer at `i` that fits in a `usize`: its value and end.
pub open spec fn spec_unsigned(s: Seq<u8>, i: int) -> Option<(nat, int)> {
    let e = digits_end(s, i);
    if e == i || digits_value(s, i, e) > usize::MAX {
        None
    } else {
        Some((digits_value(s, i, e), e))
    }
}

/// An integer at `i` that fits in an `i64`: its value and end.
pub open spec fn spec_integer(s: Seq<u8>, i: int) -> Option<(int, int)> {
    if 0 <= i < s.len() && is_digit(s[i]) {
        let e = digits_end(s, i);
        let v = digits_value(s, i, e);
        if v <= i64::MAX {
            Some((v as int, e))
        } else {
            None
        }
    } else if 0 <= i && i + 1 < s.len() && (s[i] == 43 || s[i] == 45) && is_digit(s[i + 1]) {
        let e = digits_end(s, i + 1);
        let v = digits_value(s, i + 1, e);
        if s[i] == 43 {
            if v <= i64::MAX {
                Some((v as int, e))
            } else {
                None
            }
        } else {
            if v <= i64::MAX + 1 {
                Some((-v, e))
            } else {
                None
            }
        }
    } else {
        None
    }
}

/// A weighted term at `i` and its end.
pub open spec fn spec_weighted_term(s: Seq<u8>, i: int) -> Option<(WeightedTerm, int)> {
    match spec_integer(s, i) {
        None => None,
        Some((w, e1)) => {
            let x = spaces_end(s, e1);
            if x == e1 || x >= s.len() || s[x] != 120 {
                None
            } else {
                match spec_unsigned(s, x + 1) {
                    None => None,
                    Some((index, e2)) => {
                        let e3 = spaces_end(s, e2);
                        if e3 == e2 {
                            None
                        } else {
                            Some((WeightedTerm { weight: w as i64, term: Variable { index: index as usize } }, e3))
                        }
                    },
                }
            }
        },
    }
}

/// As many weighted terms as follow from `i`, and their end.
pub open spec fn spec_terms(s: Seq<u8>, i: int) -> (Seq<WeightedTerm>, int)
    decreases s.len() - i,
{
    match spec_weighted_term(s, i) {
        Some((t, e)) => if i < e <= s.len() {
            let (rest, end) = spec_terms(s, e);
            (seq![t] + rest, end)
        } else {
            (Seq::empty(), i)
        },
        None => (Seq::empty(), i),
    }
}

/// A sum of at least one weighted term at `i`, and its end.
pub open spec fn spec_sum(s: Seq<u8>, i: int) -> Option<(Seq<WeightedTerm>, int)> {
    let (terms, end) = spec_terms(s, i);
    if terms.len() == 0 {
        None
    } else {
        Some((terms, end))
    }
}

/// Optional spaces at `i` followed by a byte: the position of that byte.
pub open spec fn spec_spaces_before_byte(s: Seq<u8>, i: int) -> Option<int> {
    let e = spaces_end(s, i);
    if e >= s.len() {
        None
    } else {
        Some(e)
    }
}

/// A relational operator at `i`, and its end.
pub open spec fn spec_relational_operator(s: Seq<u8>, i: int) -> Option<(RelationalOperator, int)> {
    if 0 <= i < s.len() && s[i] == 61 {
        Some((RelationalOperator::Equal, i + 1))
    } else if 0 <= i && i + 1 < s.len() && s[i] == 62 && s[i + 1] == 61 {
        Some((RelationalOperator::GreaterOrEqual, i + 2))
    } else {
        None
    }
}

/// A comment: its text and end.
pub open spec fn spec_comment(s: Seq<u8>) -> Option<(Seq<u8>, int)> {
    if s.len() == 0 || s[0] != 42 {
        None
    } else {
        let e = line_end(s, 1);
        if e == s.len() || s[e] == 10 || (e + 1 < s.len() && s[e + 1] == 10) {
            Some((s.subrange(1, e), e))
        } else {
            None
        }
    }
}

/// The first carriage return or line feed from `i` on, or the end.
pub open spec fn line_end(s: Seq<u8>, i: int) -> int
    decreases s.len() - i,
{
    if 0 <= i < s.len() && s[i] != 13 && s[i] != 10 {
        line_end(s, i + 1)
    } else {
        i
    }
}

/// An objective, and its end.
pub open spec fn spec_objective(s: Seq<u8>) -> Option<(ObjectiveType, Seq<WeightedTerm>, int)> {
    let kind = if s.len() >= 4 && s[0] == 109 && s[1] == 105 && s[2] == 110 && s[3] == 58 {
        Some(ObjectiveType::Min)
    } else if s.len() >= 4 && s[0] == 109 && s[1] == 97 && s[2] == 120 && s[3] == 58 {
        Some(ObjectiveType::Max)
    } else {
        None
    };
    match kind {
        None => None,
        Some(objective_type) => match spec_spaces_before_byte(s, 4) {
            None => None,
            Some(e1) => match spec_sum(s, e1) {
                None => None,
                Some((sum, e2)) => match spec_spaces_before_byte(s, e2) {
                    None => None,
                    Some(e3) => if s[e3] == 59 {
                        Some((objective_type, sum, e3 + 1))
                    } else {
                        None
                    },
                },
            },
        },
    }
}

/// A constraint, and its end.
pub open spec fn spec_constraint(s: Seq<u8>) -> Option<(Seq<WeightedTerm>, RelationalOperator, i64, int)> {
    match spec_sum(s, 0) {
        None => None,
        Some((sum, e1)) => match spec_relational_operator(s, e1) {
            None => None,
            Some((operator, e2)) => match spec_spaces_before_byte(s, e2) {
                None => None,
                Some(e3) => match spec_integer(s, e3) {
                    None => None,
                    Some((rhs, e4)) => match spec_spaces_before_byte(s, e4) {
                        None => None,
                        Some(e5) => if s[e5] == 59 {
                            Some((sum, operator, rhs as i64, e5 + 1))
                        } else {
                            None
                        },
                    },
                },
            },
        },
    }
}

/// A line: a comment, else an objective, else a constraint; and the number
/// of bytes it takes.
pub open spec fn spec_line(s: Seq<u8>) -> Option<(LineView, int)> {
    match spec_comment(s) {
        Some((text, e)) => Some((LineView::Comment(text), e)),
        None => match spec_objective(s) {
            Some((kind, sum, e)) => Some((LineView::Objective(kind, sum), e)),
            None => match spec_constraint(s) {
                Some((sum, operator, rhs, e)) => Some((LineView::Constraint(sum, operator, rhs), e)),
                None => None,
            },
        },
    }
}

/// Runs end within the bytes and no earlier than they start.
proof fn lemma_runs(s: Seq<u8>, i: int)
    requires
        0 <= i <= s.len(),
    ensures
        i <= digits_end(s, i) <= s.len(),
        i <= spaces_end(s, i) <= s.len(),
        i <= line_end(s, i) <= s.len(),
        forall|k: int| i <= k < digits_end(s, i) ==> is_digit(#[trigger] s[k]),
        digits_end(s, i) < s.len() ==> !is_digit(s[digits_end(s, i)]),
        spaces_end(s, i) < s.len() ==> !is_space(s[spaces_end(s, i)]),
        line_end(s, i) < s.len() ==> (s[line_end(s, i)] == 13 || s[line_end(s, i)] == 10),
    decreases s.len() - i,
{
    if i < s.len() {
        lemma_runs(s, i + 1);
    }
}

/// A longer run of digits writes a number no smaller.
proof fn lemma_digits_value_grows(s: Seq<u8>, i: int, k: int, j: int)
    requires
        i <= k <= j,
    ensures
        digits_value(s, i, k) <= digits_value(s, i, j),
    decreases j - k,
{
    if k < j {
        lemma_digits_value_grows(s, i, k, j - 1);
    }
}

/// The end of the run of digits from `i`.
fn scan_digits(s: &[u8], i: usize) -> (e: usize)
    requires
        i <= s@.len(),
    ensures
        e == digits_end(s@, i as int),
{
    let mut e = i;
    while e < s.len() && 48 <= s[e] && s[e] <= 57
        invariant
            i <= e <= s@.len(),
            digits_end(s@, i as int) == digits_end(s@, e as int),
        decreases s@.len() - e,
    {
        e = e + 1;
    }
    e
}

/// The end of the run of spaces from `i`.
fn scan_spaces(s: &[u8], i: usize) -> (e: usize)
    requires
        i <= s@.len(),
    ensures
        e == spaces_end(s@, i as int),
{
    let mut e = i;
    while e < s.len() && (s[e] == 32 || s[e] == 9)
        invariant
            i <= e <= s@.len(),
            spaces_end(s@, i as int) == spaces_end(s@, e as int),
        decreases s@.len() - e,
    {
        e = e + 1;
    }
    e
}

/// The first carriage return or line feed from `i`, or the end.
fn scan_line_end(s: &[u8], i: usize) -> (e: usize)
    requires
        i <= s@.len(),
    ensures
        e == line_end(s@, i as int),
{
    let mut e = i;
    while e < s.len() && s[e] != 13 && s[e] != 10
        invariant
            i <= e <= s@.len(),
            line_end(s@, i as int) == line_end(s@, e as int),
        decreases s@.len() - e,
    {
        e = e + 1;
    }
    e
}

/// The number written by the digits from `i` to `e`, if it is at most
/// `bound`.
fn digits_value_up_to(s: &[u8], i: usize, e: usize, bound: u128) -> (value: Option<u128>)
    requires
        i <= e <= s@.len(),
        bound <= u64::MAX + 1,
        forall|k: int| i <= k < e ==> is_digit(#[trigger] s@[k]),
    ensures
        value == if digits_value(s@, i as int, e as int) <= bound {
            Some(digits_value(s@, i as int, e as int) as u128)
        } else {
            None::<u128>
        },
{
    let mut acc: u128 = 0;
    let mut k = i;
    while k < e
        invariant
            i <= k <= e,
            e <= s@.len(),
            bound <= u64::MAX + 1,
            forall|j: int| i <= j < e ==> is_digit(#[trigger] s@[j]),
            acc == digits_value(s@, i as int, k as int),
            acc <= bound,
        decreases e - k,
    {
        assert(is_digit(s@[k as int]));
        let digit = (s[k] - 48) as u128;
        let next = acc * 10 + digit;
        if next > bound {
            proof {
                lemma_digits_value_grows(s@, i as int, k as int + 1, e as int);
            }
            return None;
        }
        acc = next;
        k = k + 1;
    }
    Some(acc)
}

/// An unsigned integer at `i` that fits in a `usize`.
fn parse_unsigned(s: &[u8], i: usize) -> (result: Option<(usize, usize)>)
    requires
        i <= s@.len(),
    ensures
        match result {
            None => spec_unsigned(s@, i as int) is None,
            Some((v, e)) => spec_unsigned(s@, i as int) == Some((v as nat, e as int)),
        },
{
    let e = scan_digits(s, i);
    proof {
        lemma_runs(s@, i as int);
    }
    if e == i {
        return None;
    }
    match digits_value_up_to(s, i, e, usize::MAX as u128) {
        None => None,
        Some(v) => Some((v as usize, e)),
    }
}

/// An integer at `i` that fits in an `i64`.
fn parse_integer(s: &[u8], i: usize) -> (result: Option<(i64, usize)>)
    requires
        i <= s@.len(),
    ensures
        match result {
            None => spec_integer(s@, i as int) is None,
            Some((v, e)) => spec_integer(s@, i as int) == Some((v as int, e as int)),
        },
{
    let length = s.len();
    if i < length && 48 <= s[i] && s[i] <= 57 {
        let e = scan_digits(s, i);
        proof {
            lemma_runs(s@, i as int);
        }
        match digits_value_up_to(s, i, e, i64::MAX as u128) {
            None => None,
            Some(v) => Some((v as i64, e)),
        }
    } else if i < length && i + 1 < length && (s[i] == 43 || s[i] == 45) && 48 <= s[i + 1] && s[i + 1] <= 57 {
        let e = scan_digits(s, i + 1);
        proof {
            lemma_runs(s@, i as int + 1);
        }
        if s[i] == 43 {
            match digits_value_up_to(s, i + 1, e, i64::MAX as u128) {
                None => None,
                Some(v) => Some((v as i64, e)),
            }
        } else {
            match digits_value_up_to(s, i + 1, e, i64::MAX as u128 + 1) {
                None => None,
                Some(v) => if v == i64::MAX as u128 + 1 {
                    Some((i64::MIN, e))
                } else {
                    Some((-(v as i64), e))
                },
            }
        }
    } else {
        None
    }
}

/// A weighted term at `i`.
fn parse_weighted_term(s: &[u8], i: usize) -> (result: Option<(WeightedTerm, usize)>)
    requires
        i <= s@.len(),
    ensures
        match result {
            None => spec_weighted_term(s@, i as int) is None,
            Some((t, e)) => spec_weighted_term(s@, i as int) == Some((t, e as int)) && i < e <= s@.len(),
        },
{
    match parse_integer(s, i) {
        None => None,
        Some((weight, e1)) => {
            proof {
                lemma_runs(s@, i as int);
                if i + 1 <= s@.len() {
                    lemma_runs(s@, i as int + 1);
                }
            }
            let x = scan_spaces(s, e1);
            proof {
                lemma_runs(s@, e1 as int);
            }
            if x == e1 || x >= s.len() || s[x] != 120 {
                return None;
            }
            match parse_unsigned(s, x + 1) {
                None => None,
                Some((index, e2)) => {
                    proof {
                        lemma_runs(s@, x as int + 1);
                    }
                    let e3 = scan_spaces(s, e2);
                    proof {
                        lemma_runs(s@, e2 as int);
                    }
                    if e3 == e2 {
                        None
                    } else {
                        Some((WeightedTerm { weight, term: Variable { index } }, e3))
                    }
                },
            }
        },
    }
}

/// A sum of at least one weighted term at `i`.
fn parse_sum(s: &[u8], i: usize) -> (result: Option<(Vec<WeightedTerm>, usize)>)
    requires
        i <= s@.len(),
    ensures
        match result {
            None => spec_sum(s@, i as int) is None,
            Some((terms, e)) => spec_sum(s@, i as int) == Some((terms@, e as int)) && e <= s@.len(),
        },
{
    let mut terms: Vec<WeightedTerm> = Vec::new();
    let mut position = i;
    loop
        invariant
            i <= position <= s@.len(),
            spec_terms(s@, i as int) == (terms@ + spec_terms(s@, position as int).0, spec_terms(
                s@,
                position as int,
            ).1),
        decreases s@.len() - position,
    {
        match parse_weighted_term(s, position) {
            None => {
                proof {
                    assert(terms@ + Seq::<WeightedTerm>::empty() =~= terms@);
                }
                if terms.len() == 0 {
                    return None;
                }
                return Some((terms, position));
            },
            Some((t, e)) => {
                proof {
                    let (rest, end) = spec_terms(s@, e as int);
                    assert(spec_terms(s@, position as int) == (seq![t] + rest, end));
                    assert(terms@ + (seq![t] + rest) =~= terms@.push(t) + rest);
                }
                terms.push(t);
                position = e;
            },
        }
    }
}

/// Optional spaces at `i` followed by a byte: the position of that byte.
fn spaces_before_byte(s: &[u8], i: usize) -> (result: Option<usize>)
    requires
        i <= s@.len(),
    ensures
        match result {
            None => spec_spaces_before_byte(s@, i as int) is None,
            Some(e) => spec_spaces_before_byte(s@, i as int) == Some(e as int) && e < s@.len(),
        },
{
    let e = scan_spaces(s, i);
    if e >= s.len() {
        None
    } else {
        Some(e)
    }
}

/// A relational operator at `i`.
fn parse_relational_operator(s: &[u8], i: usize) -> (result: Option<(RelationalOperator, usize)>)
    requires
        i <= s@.len(),
    ensures
        match result {
            None => spec_relational_operator(s@, i as int) is None,
            Some((o, e)) => spec_relational_operator(s@, i as int) == Some((o, e as int)) && e <= s@.len(),
        },
{
    if i < s.len() && s[i] == 61 {
        Some((RelationalOperator::Equal, i + 1))
    } else if i < s.len() && i + 1 < s.len() && s[i] == 62 && s[i + 1] == 61 {
        Some((RelationalOperator::GreaterOrEqual, i + 2))
    } else {
        None
    }
}

/// A comment line.
fn parse_comment(s: &[u8]) -> (result: Option<(Vec<u8>, usize)>)
    ensures
        match result {
            None => spec_comment(s@) is None,
            Some((text, e)) => spec_comment(s@) == Some((text@, e as int)),
        },
{
    if s.len() == 0 || s[0] != 42 {
        return None;
    }
    let e = scan_line_end(s, 1);
    proof {
        lemma_runs(s@, 1);
    }
    if e == s.len() || s[e] == 10 || (e + 1 < s.len() && s[e + 1] == 10) {
        let mut text: Vec<u8> = Vec::new();
        let mut k: usize = 1;
        while k < e
            invariant
                1 <= k <= e,
                e <= s@.len(),
                text@ == s@.subrange(1, k as int),
            decreases e - k,
        {
            text.push(s[k]);
            k = k + 1;
            proof {
                assert(text@ =~= s@.subrange(1, k as int));
            }
        }
        Some((text, e))
    } else {
        None
    }
}

/// An objective line.
fn parse_objective(s: &[u8]) -> (result: Option<(Objective, usize)>)
    ensures
        match result {
            None => spec_objective(s@) is None,
            Some((o, e)) => spec_objective(s@) == Some((o.objective_type, o.sum@, e as int)),
        },
{
    let objective_type = if s.len() >= 4 && s[0] == 109 && s[1] == 105 && s[2] == 110 && s[3] == 58 {
        ObjectiveType::Min
    } else if s.len() >= 4 && s[0] == 109 && s[1] == 97 && s[2] == 120 && s[3] == 58 {
        ObjectiveType::Max
    } else {
        return None;
    };
    let e1 = match spaces_before_byte(s, 4) {
        None => return None,
        Some(e1) => e1,
    };
    let (sum, e2) = match parse_sum(s, e1) {
        None => return None,
        Some(parsed) => parsed,
    };
    let e3 = match spaces_before_byte(s, e2) {
        None => return None,
        Some(e3) => e3,
    };
    if s[e3] == 59 {
        Some((Objective { objective_type, sum }, e3 + 1))
    } else {
        None
    }
}

/// A constraint line.
fn parse_constraint(s: &[u8]) -> (result: Option<(Constraint, usize)>)
    ensures
        match result {
            None => spec_constraint(s@) is None,
            Some((c, e)) => spec_constraint(s@) == Some((c.sum@, c.relational_operator, c.rhs, e as int)),
        },
{
    let (sum, e1) = match parse_sum(s, 0) {
        None => return None,
        Some(parsed) => parsed,
    };
    let (relational_operator, e2) = match parse_relational_operator(s, e1) {
        None => return None,
        Some(parsed) => parsed,
    };
    let e3 = match spaces_before_byte(s, e2) {
        None => return None,
        Some(e3) => e3,
    };
    let (rhs, e4) = match parse_integer(s, e3) {
        None => return None,
        Some(parsed) => parsed,
    };
    proof {
        lemma_runs(s@, e3 as int);
        if e3 + 1 <= s@.len() {
            lemma_runs(s@, e3 as int + 1);
        }
    }
    let e5 = match spaces_before_byte(s, e4) {
        None => return None,
        Some(e5) => e5,
    };
    if s[e5] == 59 {
        Some((Constraint { sum, relational_operator, rhs }, e5 + 1))
    } else {
        None
    }
}

/// Parses one line (without its line break): a comment, else an
/// objective, else a constraint (see the grammar above). Returns the line
/// and the number of bytes it takes, which may be fewer than the line has;
/// `None` when no alternative matches.
pub fn parse_line(s: &[u8]) -> (result: Option<(usize, Line)>)
    ensures
        match result {
            None => spec_line(s@) is None,
            Some((n, line)) => spec_line(s@) == Some((line@, n as int)),
        },
{
    if let Some((text, e)) = parse_comment(s) {
        return Some((e, Line::Comment(text)));
    }
    if let Some((objective, e)) = parse_objective(s) {
        return Some((e, Line::Objective(objective)));
    }
    if let Some((constraint, e)) = parse_constraint(s) {
        return Some((e, Line::Constraint(constraint)));
    }
    None
}

/// `line` without one trailing line feed, and without the carriage return
/// before it.
pub fn trim_line_ending(line: &[u8]) -> (trimmed: &[u8])
    ensures
        trimmed@ == if line@.len() > 0 && line@.last() == 10 {
            let rest = line@.drop_last();
            if rest.len() > 0 && rest.last() == 13 {
                rest.drop_last()
            } else {
                rest
            }
        } else {
            line@
        },
{
    let length = line.len();
    if length > 0 && line[length - 1] == 10 {
        if length > 1 && line[length - 2] == 13 {
            vstd::slice::slice_subrange(line, 0, length - 2)
        } else {
            vstd::slice::slice_subrange(line, 0, length - 1)
        }
    } else {
        line
    }
}


/// The decimal digits of `n`, most significant first.
pub open spec fn decimal(n: nat) -> Seq<u8>
    decreases n,
{
    if n < 10 {
        seq![(48 + n) as u8]
    } else {
        decimal(n / 10).push((48 + n % 10) as u8)
    }
}

/// `w` written with its sign: `+` or `-`, then the digits of its magnitude.
pub open spec fn signed_decimal(w: int) -> Seq<u8> {
    if w < 0 {
        seq![45u8] + decimal((-w) as nat)
    } else {
        seq![43u8] + decimal(w as nat)
    }
}

/// A weighted term as an OPB file writes it: `<weight> x<index> `.
pub open spec fn rendered_term(t: WeightedTerm) -> Seq<u8> {
    signed_decimal(t.weight as int) + seq![32u8, 120u8] + decimal(t.term.index as nat) + seq![32u8]
}

/// The weighted terms one after the other.
pub open spec fn rendered_terms(terms: Seq<WeightedTerm>) -> Seq<u8>
    decreases terms.len(),
{
    if terms.len() == 0 {
        Seq::empty()
    } else {
        rendered_term(terms[0]) + rendered_terms(terms.drop_first())
    }
}

/// A relational operator as an OPB file writes it.
pub open spec fn rendered_operator(operator: RelationalOperator) -> Seq<u8> {
    match operator {
        RelationalOperator::Equal => seq![61u8],
        RelationalOperator::GreaterOrEqual => seq![62u8, 61u8],
    }
}

/// A constraint line as an OPB file writes it:
/// `<terms><operator> <rhs> ;`.
pub open spec fn rendered_constraint(terms: Seq<WeightedTerm>, operator: RelationalOperator, rhs: i64) -> Seq<u8> {
    rendered_terms(terms) + rendered_operator(operator) + seq![32u8] + signed_decimal(rhs as int) + seq![32u8, 59u8]
}

/// The digits of a number are digits, at least one.
proof fn lemma_decimal_digits(n: nat)
    ensures
        decimal(n).len() >= 1,
        forall|k: int| 0 <= k < decimal(n).len() ==> is_digit(#[trigger] decimal(n)[k]),
    decreases n,
{
    if n >= 10 {
        lemma_decimal_digits(n / 10);
        let d = decimal(n);
        assert forall|k: int| 0 <= k < d.len() implies is_digit(#[trigger] d[k]) by {
            if k < d.len() - 1 {
                assert(d[k] == decimal(n / 10)[k]);
            }
        }
    }
}

/// Digits written at `i` are read back as the number they write.
proof fn lemma_decimal_value(s: Seq<u8>, i: int, n: nat)
    requires
        0 <= i,
        i + decimal(n).len() <= s.len(),
        s.subrange(i, i + decimal(n).len()) == decimal(n),
    ensures
        digits_value(s, i, i + decimal(n).len()) == n,
    decreases n,
{
    let d = decimal(n);
    let j = i + d.len();
    assert(s[j - 1] == d[d.len() - 1]) by {
        assert(s.subrange(i, j)[d.len() - 1] == s[j - 1]);
    }
    if n < 10 {
        assert(digits_value(s, i, i) == 0);
    } else {
        let m = decimal(n / 10);
        assert(d.len() == m.len() + 1);
        assert(s.subrange(i, i + m.len()) =~= m) by {
            assert forall|k: int| 0 <= k < m.len() implies s.subrange(i, i + m.len())[k] == m[k] by {
                assert(s.subrange(i, j)[k] == d[k]);
                assert(d[k] == m[k]);
            }
        }
        lemma_decimal_value(s, i, n / 10);
    }
}

/// A run of digits from `i` up to a byte that is not one ends there.
proof fn lemma_digits_end_at(s: Seq<u8>, i: int, e: int)
    requires
        0 <= i <= e <= s.len(),
        forall|k: int| i <= k < e ==> is_digit(#[trigger] s[k]),
        e == s.len() || !is_digit(s[e]),
    ensures
        digits_end(s, i) == e,
{
    lemma_runs(s, i);
    let de = digits_end(s, i);
    if de < e {
        assert(is_digit(s[de]));
    } else if de > e {
        assert(is_digit(s[e]));
    }
}

/// A single space before a byte that is not one.
proof fn lemma_one_space(s: Seq<u8>, i: int)
    requires
        0 <= i,
        i + 1 < s.len(),
        s[i] == 32,
        !is_space(s[i + 1]),
    ensures
        spaces_end(s, i) == i + 1,
{
    assert(spaces_end(s, i + 1) == i + 1);
}

/// A signed number written at `i`, before a byte that is not a digit, is
/// read back as that number.
proof fn lemma_signed_decimal(s: Seq<u8>, i: int, w: int)
    requires
        i64::MIN <= w <= i64::MAX,
        0 <= i,
        i + signed_decimal(w).len() < s.len(),
        s.subrange(i, i + signed_decimal(w).len()) == signed_decimal(w),
        !is_digit(s[i + signed_decimal(w).len()]),
    ensures
        spec_integer(s, i) == Some((w, i + signed_decimal(w).len())),
{
    let v: nat = if w < 0 { (-w) as nat } else { w as nat };
    let d = decimal(v);
    let sd = signed_decimal(w);
    let e = i + sd.len();
    lemma_decimal_digits(v);
    assert(sd =~= seq![if w < 0 { 45u8 } else { 43u8 }] + d);
    assert forall|k: int| 0 <= k < sd.len() implies s[i + k] == #[trigger] sd[k] by {
        assert(s.subrange(i, e)[k] == s[i + k]);
    }
    assert(s[i] == sd[0]);
    assert(s[i + 1] == sd[1]);
    assert(sd[1] == d[0]);
    assert forall|k: int| i + 1 <= k < e implies is_digit(#[trigger] s[k]) by {
        assert(s[i + (k - i)] == sd[k - i]);
        assert(sd[k - i] == d[k - i - 1]);
    }
    lemma_digits_end_at(s, i + 1, e);
    assert(s.subrange(i + 1, i + 1 + d.len()) =~= d) by {
        assert forall|k: int| 0 <= k < d.len() implies s.subrange(i + 1, i + 1 + d.len())[k] == d[k] by {
            assert(s[i + (k + 1)] == sd[k + 1]);
        }
    }
    lemma_decimal_value(s, i + 1, v);
    assert(!is_digit(s[i]));
}

/// A weighted term written at `i`, before a byte that is not a space, is
/// read back as that term.
proof fn lemma_rendered_term(s: Seq<u8>, i: int, t: WeightedTerm)
    requires
        0 <= i,
        i + rendered_term(t).len() < s.len(),
        s.subrange(i, i + rendered_term(t).len()) == rendered_term(t),
        !is_space(s[i + rendered_term(t).len()]),
    ensures
        spec_weighted_term(s, i) == Some((t, i + rendered_term(t).len())),
{
    let w = t.weight as int;
    let sd = signed_decimal(w);
    let d = decimal(t.term.index as nat);
    let r = rendered_term(t);
    let a = sd.len() as int;
    let p1 = i + a;
    let p2 = p1 + 2 + d.len();
    lemma_decimal_digits(t.term.index as nat);
    assert(r.len() == a + 2 + d.len() + 1);
    assert forall|k: int| 0 <= k < r.len() implies s[i + k] == #[trigger] r[k] by {
        assert(s.subrange(i, i + r.len())[k] == s[i + k]);
    }
    assert forall|k: int| 0 <= k < a implies #[trigger] r[k] == sd[k] by {}
    assert forall|k: int| 0 <= k < d.len() implies #[trigger] r[a + 2 + k] == d[k] by {}
    assert(r[a] == 32u8);
    assert(r[a + 1] == 120u8);
    assert(r[a + 2 + d.len()] == 32u8);
    assert(s[p1] == 32u8) by {
        assert(s[i + a] == r[a]);
    }
    assert(s[p1 + 1] == 120u8) by {
        assert(s[i + (a + 1)] == r[a + 1]);
    }
    assert(s[p2] == 32u8) by {
        assert(s[i + (a + 2 + d.len())] == r[a + 2 + d.len()]);
    }
    assert(s.subrange(i, i + a) =~= sd) by {
        assert forall|k: int| 0 <= k < a implies s.subrange(i, i + a)[k] == sd[k] by {
            assert(s[i + k] == r[k]);
        }
    }
    lemma_signed_decimal(s, i, w);
    lemma_one_space(s, p1);
    assert forall|k: int| p1 + 2 <= k < p2 implies is_digit(#[trigger] s[k]) by {
        assert(s[i + (a + 2 + (k - p1 - 2))] == r[a + 2 + (k - p1 - 2)]);
    }
    lemma_digits_end_at(s, p1 + 2, p2);
    assert(s.subrange(p1 + 2, p1 + 2 + d.len()) =~= d) by {
        assert forall|k: int| 0 <= k < d.len() implies s.subrange(p1 + 2, p1 + 2 + d.len())[k] == d[k] by {
            assert(s[i + (a + 2 + k)] == r[a + 2 + k]);
        }
    }
    lemma_decimal_value(s, p1 + 2, t.term.index as nat);
    lemma_one_space(s, p2);
}

/// A written term starts with its sign.
proof fn lemma_rendered_term_start(t: WeightedTerm)
    ensures
        rendered_term(t).len() > 0,
        rendered_term(t)[0] == 43 || rendered_term(t)[0] == 45,
{
}

/// Weighted terms written at `i`, before an operator or a semicolon, are
/// read back as those terms, ending before that byte.
proof fn lemma_rendered_terms(s: Seq<u8>, i: int, terms: Seq<WeightedTerm>)
    requires
        0 <= i,
        i + rendered_terms(terms).len() < s.len(),
        s.subrange(i, i + rendered_terms(terms).len()) == rendered_terms(terms),
        s[i + rendered_terms(terms).len()] == 59 || s[i + rendered_terms(terms).len()] == 61 || s[i
            + rendered_terms(terms).len()] == 62,
    ensures
        spec_terms(s, i) == (terms, i + rendered_terms(terms).len()),
    decreases terms.len(),
{
    if terms.len() == 0 {
        assert(spec_integer(s, i) is None);
        assert(terms =~= Seq::<WeightedTerm>::empty());
    } else {
        let r0 = rendered_term(terms[0]);
        let rest = terms.drop_first();
        let rr = rendered_terms(rest);
        let all = rendered_terms(terms);
        assert(all == r0 + rr);
        let n0 = r0.len() as int;
        assert forall|k: int| 0 <= k < all.len() implies s[i + k] == #[trigger] all[k] by {
            assert(s.subrange(i, i + all.len())[k] == s[i + k]);
        }
        assert(s.subrange(i, i + n0) =~= r0) by {
            assert forall|k: int| 0 <= k < n0 implies s.subrange(i, i + n0)[k] == r0[k] by {
                assert(s[i + k] == all[k]);
            }
        }
        assert(s.subrange(i + n0, i + n0 + rr.len()) =~= rr) by {
            assert forall|k: int| 0 <= k < rr.len() implies s.subrange(i + n0, i + n0 + rr.len())[k] == rr[k] by {
                assert(s[i + (n0 + k)] == all[n0 + k]);
            }
        }
        if rest.len() > 0 {
            lemma_rendered_term_start(rest[0]);
            assert(rr == rendered_term(rest[0]) + rendered_terms(rest.drop_first()));
            assert(rr[0] == rendered_term(rest[0])[0]);
            assert(s[i + n0] == all[n0]);
        } else {
            assert(rr.len() == 0);
        }
        assert(!is_space(s[i + n0]));
        lemma_rendered_term(s, i, terms[0]);
        lemma_rendered_terms(s, i + n0, rest);
        assert(seq![terms[0]] + rest =~= terms);
    }
}

/// Reading back what was written: a constraint written as an OPB file
/// writes it (each term as its signed weight, ` x`, its index and a space,
/// then `=` or `>=`, a space, the signed right-hand side and ` ;`) is read
/// as a line holding that constraint, and the line takes every byte.
pub proof fn lemma_parse_rendered_constraint(terms: Seq<WeightedTerm>, operator: RelationalOperator, rhs: i64)
    requires
        terms.len() > 0,
    ensures
        spec_line(rendered_constraint(terms, operator, rhs)) == Some(
            (LineView::Constraint(terms, operator, rhs), rendered_constraint(terms, operator, rhs).len() as int),
        ),
{
    let s = rendered_constraint(terms, operator, rhs);
    let r = rendered_terms(terms);
    let o = rendered_operator(operator);
    let sd = signed_decimal(rhs as int);
    let e = r.len() as int;
    let e2 = e + o.len();
    let e3 = e2 + 1;
    let e4 = e3 + sd.len();
    assert(s.len() == e4 + 2);
    assert(s == r + o + seq![32u8] + sd + seq![32u8, 59u8]);
    assert forall|k: int| 0 <= k < e implies #[trigger] s[k] == r[k] by {}
    assert forall|k: int| 0 <= k < o.len() implies #[trigger] s[e + k] == o[k] by {}
    assert forall|k: int| 0 <= k < sd.len() implies #[trigger] s[e3 + k] == sd[k] by {}
    assert(s[e2] == 32u8);
    assert(s[e4] == 32u8);
    assert(s[e4 + 1] == 59u8);
    assert(s.subrange(0, e) =~= r);
    assert(s.subrange(e3, e3 + sd.len()) =~= sd) by {
        assert forall|k: int| 0 <= k < sd.len() implies s.subrange(e3, e3 + sd.len())[k] == sd[k] by {
            assert(s[e3 + k] == sd[k]);
        }
    }
    assert(s[e] == o[0]);
    lemma_rendered_terms(s, 0, terms);
    lemma_rendered_term_start(terms[0]);
    assert(r == rendered_term(terms[0]) + rendered_terms(terms.drop_first()));
    assert(s[0] == r[0]);
    assert(r[0] == rendered_term(terms[0])[0]);
    match operator {
        RelationalOperator::Equal => {},
        RelationalOperator::GreaterOrEqual => {
            assert(s[e + 1] == o[1]);
        },
    }
    assert(s[e3] == sd[0]);
    lemma_one_space(s, e2);
    lemma_signed_decimal(s, e3, rhs as int);
    lemma_one_space(s, e4);
}

/// An objective line as an OPB file writes it: `min: <terms>;` or
/// `max: <terms>;`.
pub open spec fn rendered_objective(objective_type: ObjectiveType, terms: Seq<WeightedTerm>) -> Seq<u8> {
    let keyword = match objective_type {
        ObjectiveType::Min => seq![109u8, 105u8, 110u8, 58u8],
        ObjectiveType::Max => seq![109u8, 97u8, 120u8, 58u8],
    };
    keyword + seq![32u8] + rendered_terms(terms) + seq![59u8]
}

/// Reading back what was written: an objective written as an OPB file
/// writes it is read as a line holding that objective, and the line takes
/// every byte.
pub proof fn lemma_parse_rendered_objective(objective_type: ObjectiveType, terms: Seq<WeightedTerm>)
    requires
        terms.len() > 0,
    ensures
        spec_line(rendered_objective(objective_type, terms)) == Some(
            (LineView::Objective(objective_type, terms), rendered_objective(objective_type, terms).len() as int),
        ),
{
    let s = rendered_objective(objective_type, terms);
    let r = rendered_terms(terms);
    let e = 5 + r.len() as int;
    assert(s.len() == e + 1);
    assert forall|k: int| 0 <= k < r.len() implies #[trigger] s[5 + k] == r[k] by {}
    assert(s[4] == 32u8);
    assert(s[e] == 59u8);
    assert(s.subrange(5, e) =~= r) by {
        assert forall|k: int| 0 <= k < r.len() implies s.subrange(5, e)[k] == r[k] by {
            assert(s[5 + k] == r[k]);
        }
    }
    lemma_rendered_terms(s, 5, terms);
    lemma_rendered_term_start(terms[0]);
    assert(r == rendered_term(terms[0]) + rendered_terms(terms.drop_first()));
    assert(s[5] == r[0]);
    assert(r[0] == rendered_term(terms[0])[0]);
    lemma_one_space(s, 4);
    assert(spaces_end(s, e) == e);
}

/// Reading back what was written: `*` followed by text without a line
/// break is read as a comment holding that text, taking every byte.
pub proof fn lemma_parse_rendered_comment(text: Seq<u8>)
    requires
        forall|k: int| 0 <= k < text.len() ==> #[trigger] text[k] != 13 && text[k] != 10,
    ensures
        spec_line(seq![42u8] + text) == Some((LineView::Comment(text), text.len() + 1int)),
{
    let s = seq![42u8] + text;
    lemma_runs(s, 1);
    let e = line_end(s, 1);
    if e < s.len() {
        assert(s[e] == text[e - 1]);
    }
    assert(s.subrange(1, e) =~= text);
}

} // verus!
