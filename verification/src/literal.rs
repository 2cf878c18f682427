use vstd::prelude::*;

verus! {

/// A Boolean literal: a variable index together with the value it asserts.
///
/// The literal is packed into one machine word, `bits == 2 * index + value`.
#[derive(Clone, Copy, PartialEq, Eq, Structural, Debug, Hash)]
pub struct Literal {
    bits: usize,
}

impl Literal {
    /// The packed representation.
    pub closed spec fn spec_bits(self) -> usize {
        self.bits
    }

    /// The variable the literal speaks of.
    pub open spec fn spec_index(self) -> nat {
        (self.spec_bits() / 2) as nat
    }

    /// The value that the literal asserts for its variable.
    pub open spec fn spec_value(self) -> bool {
        self.spec_bits() % 2 == 1
    }

    /// The packing of a variable and a value.
    pub open spec fn pack(variable: nat, value: bool) -> int {
        2 * variable + if value { 1int } else { 0int }
    }

    /// Two literals with the same packed bits are the same literal.
    pub broadcast proof fn lemma_bits_determine(a: Literal, b: Literal)
        ensures
            #[trigger] a.spec_bits() == #[trigger] b.spec_bits() ==> a == b,
    {
    }

    /// The literal whose packed representation is `bits`.
    pub closed spec fn from_bits_spec(bits: usize) -> Literal {
        Literal { bits }
    }

    /// `from_bits_spec` builds the literal with the given bits.
    pub broadcast proof fn lemma_from_bits_spec(bits: usize)
        ensures
            #[trigger] Literal::from_bits_spec(bits).spec_bits() == bits,
    {
    }

    /// The literal on `variable` asserting `value`.
    pub fn new(variable: usize, value: bool) -> (literal: Self)
        requires
            variable <= usize::MAX / 2,
        ensures
            literal.spec_bits() == Self::pack(variable as nat, value),
            literal.spec_index() == variable,
            literal.spec_value() == value,
    {
        let bit: usize = if value { 1 } else { 0 };
        Self { bits: variable * 2 + bit }
    }

    /// The literal whose packed representation is `bits`.
    pub fn from_bits(bits: usize) -> (literal: Self)
        ensures
            literal.spec_bits() == bits,
            literal == Self::from_bits_spec(bits),
    {
        Self { bits }
    }

    /// The variable index of the literal.
    pub fn index(&self) -> (index: usize)
        ensures
            index == self.spec_index(),
    {
        self.bits / 2
    }

    /// The value the literal asserts.
    pub fn value(&self) -> (value: bool)
        ensures
            value == self.spec_value(),
    {
        self.bits % 2 == 1
    }

    /// The packed representation.
    pub fn bits(&self) -> (bits: usize)
        ensures
            bits == self.spec_bits(),
    {
        self.bits
    }

    /// The literal on the same variable asserting the other value.
    pub closed spec fn negated(self) -> Literal {
        Literal { bits: if self.bits % 2 == 1 { (self.bits - 1) as usize } else { (self.bits + 1) as usize } }
    }

    /// Negation keeps the variable and flips the value.
    pub broadcast proof fn lemma_negated(self)
        ensures
            #[trigger] self.negated().spec_index() == self.spec_index(),
            self.negated().spec_value() == !self.spec_value(),
            self.negated().negated() == self,
    {
    }

    /// The literal on the same variable asserting the other value.
    pub fn negation(&self) -> (literal: Literal)
        ensures
            literal == self.negated(),
            literal.spec_index() == self.spec_index(),
            literal.spec_value() == !self.spec_value(),
    {
        if self.bits % 2 == 1 {
            Self { bits: self.bits - 1 }
        } else {
            Self { bits: self.bits + 1 }
        }
    }
}

impl core::ops::Not for Literal {
    type Output = Literal;

    fn not(self) -> (literal: Literal) {
        self.negation()
    }
}

impl vstd::std_specs::ops::NotSpecImpl for Literal {
    open spec fn obeys_not_spec() -> bool {
        true
    }

    open spec fn not_req(self) -> bool {
        true
    }

    open spec fn not_spec(self) -> Literal {
        Literal::negated(self)
    }
}

} // verus!
