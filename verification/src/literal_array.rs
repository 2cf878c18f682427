use vstd::prelude::*;

use crate::literal::Literal;

verus! {

/// A value for each literal, the value of literal `l` stored at `l.bits()`;
/// variables are added two literals at a time.
#[derive(Clone, Debug)]
pub struct LiteralArray<ValueT> {
    array: Vec<ValueT>,
}

impl<ValueT> View for LiteralArray<ValueT> {
    type V = Seq<ValueT>;

    /// The values, indexed by the literals' packed bits.
    closed spec fn view(&self) -> Seq<ValueT> {
        self.array@
    }
}

impl<ValueT> LiteralArray<ValueT> {
    /// An empty array.
    pub fn new() -> (array: Self)
        ensures
            array@ == Seq::<ValueT>::empty(),
    {
        Self { array: Vec::new() }
    }

    /// The number of literals with a value.
    pub fn len(&self) -> (length: usize)
        ensures
            length == self@.len(),
    {
        self.array.len()
    }

    /// Adds the values of the two literals of a new variable: first the one
    /// asserting `false` (`negative`), then the one asserting `true`
    /// (`positive`).
    pub fn push(&mut self, negative: ValueT, positive: ValueT)
        ensures
            final(self)@ == old(self)@.push(negative).push(positive),
    {
        self.array.push(negative);
        self.array.push(positive);
    }

    /// Each literal with its value, in order of the literals' packed bits:
    /// entry `k` is `Literal::from_bits(k)` and its value.
    pub fn iter(&self) -> (entries: Vec<(Literal, &ValueT)>)
        ensures
            entries@.len() == self@.len(),
            forall|k: int|
                0 <= k < entries@.len() ==> (#[trigger] entries@[k]).0 == Literal::from_bits_spec(k as usize)
                    && *entries@[k].1 == self@[k],
    {
        let mut entries: Vec<(Literal, &ValueT)> = Vec::new();
        let mut k: usize = 0;
        while k < self.array.len()
            invariant
                k <= self@.len(),
                self@ == self.array@,
                entries@.len() == k,
                forall|j: int|
                    0 <= j < k ==> (#[trigger] entries@[j]).0 == Literal::from_bits_spec(j as usize)
                        && *entries@[j].1 == self@[j],
            decreases self@.len() - k,
        {
            entries.push((Literal::from_bits(k), &self.array[k]));
            k = k + 1;
        }
        entries
    }

    /// The value of `literal`.
    pub fn get(&self, literal: Literal) -> (value: &ValueT)
        requires
            literal.spec_bits() < self@.len(),
        ensures
            *value == self@[literal.spec_bits() as int],
    {
        &self.array[literal.bits()]
    }

    /// Sets the value of `literal`.
    pub fn set(&mut self, literal: Literal, value: ValueT)
        requires
            literal.spec_bits() < old(self)@.len(),
        ensures
            final(self)@ == old(self)@.update(literal.spec_bits() as int, value),
    {
        self.array.set(literal.bits(), value);
    }

    /// A mutable reference to the value of `literal`.
    pub fn get_mut(&mut self, literal: Literal) -> (value: &mut ValueT)
        requires
            literal.spec_bits() < old(self)@.len(),
        ensures
            *value == old(self)@[literal.spec_bits() as int],
            final(self)@ == old(self)@.update(literal.spec_bits() as int, *final(value)),
    {
        &mut self.array[literal.bits()]
    }
}

impl<ValueT> Default for LiteralArray<ValueT> {
    fn default() -> (array: Self)
        ensures
            array@ == Seq::<ValueT>::empty(),
    {
        Self::new()
    }
}

} // verus!
