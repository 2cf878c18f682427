use vstd::prelude::*;

use crate::literal::Literal;
use crate::map::index_fits;
use crate::set::{appended_new, swap_removed, IndexSet};

verus! {

/// The literals of `s`.
pub open spec fn literal_bits(s: Seq<Literal>) -> Seq<usize> {
    s.map_values(|l: Literal| l.spec_bits())
}

/// How many literals of `s` belong to `set`, counted with repetition.
pub open spec fn count_contained_literals(s: Seq<Literal>, set: vstd::set::Set<Literal>) -> nat
    decreases s.len(),
{
    if s.len() == 0 {
        0
    } else {
        count_contained_literals(s.drop_last(), set) + if set.contains(s.last()) {
            1nat
        } else {
            0nat
        }
    }
}

/// A set of literals.
/// Over distinct literals, the count of those in `set` is the size of the
/// intersection.
proof fn lemma_count_is_intersection(s: Seq<Literal>, set: vstd::set::Set<Literal>)
    requires
        s.no_duplicates(),
        set.finite(),
    ensures
        count_contained_literals(s, set) == s.to_set().intersect(set).len(),
        s.to_set().intersect(set).finite(),
    decreases s.len(),
{
    if s.len() == 0 {
        assert(s.to_set().intersect(set) =~= vstd::set::Set::<Literal>::empty());
    } else {
        let rest = s.drop_last();
        let x = s.last();
        assert(rest.no_duplicates()) by {
            assert forall|i: int, j: int| 0 <= i < rest.len() && 0 <= j < rest.len() && i != j implies rest[i]
                != rest[j] by {
                assert(rest[i] == s[i] && rest[j] == s[j]);
            }
        }
        lemma_count_is_intersection(rest, set);
        assert(s.to_set() =~= rest.to_set().insert(x)) by {
            assert forall|y: Literal| #[trigger] s.contains(y) <==> rest.contains(y) || y == x by {
                if s.contains(y) {
                    let i = choose|i: int| 0 <= i < s.len() && s[i] == y;
                    if i < s.len() - 1 {
                        assert(rest[i] == y);
                    }
                }
                if rest.contains(y) {
                    let i = choose|i: int| 0 <= i < rest.len() && rest[i] == y;
                    assert(s[i] == y);
                }
                if y == x {
                    assert(s[s.len() - 1] == y);
                }
            }
        }
        assert(!rest.contains(x)) by {
            if rest.contains(x) {
                let i = choose|i: int| 0 <= i < rest.len() && rest[i] == x;
                assert(s[i] == s[s.len() - 1]);
            }
        }
        let before = rest.to_set().intersect(set);
        if set.contains(x) {
            assert(s.to_set().intersect(set) =~= before.insert(x));
        } else {
            assert(s.to_set().intersect(set) =~= before);
        }
    }
}

/// A finite set meets another in as many elements as it has exactly when
/// it is a subset of it.
proof fn lemma_full_intersection(a: vstd::set::Set<Literal>, set: vstd::set::Set<Literal>)
    requires
        set.finite(),
        a.intersect(set).finite(),
    ensures
        a.intersect(set).len() == set.len() <==> set.subset_of(a),
{
    if set.subset_of(a) {
        assert(a.intersect(set) =~= set);
    } else {
        let x = choose|x: Literal| set.contains(x) && !a.contains(x);
        vstd::set_lib::lemma_len_subset(a.intersect(set), set.remove(x));
    }
}

#[derive(Clone, Debug)]
pub struct LiteralSet {
    set: IndexSet,
}

impl View for LiteralSet {
    type V = vstd::set::Set<Literal>;

    closed spec fn view(&self) -> vstd::set::Set<Literal> {
        self.set@.map(|bits: usize| Literal::from_bits_spec(bits))
    }
}

/// `from_bits_spec` inverts `spec_bits`.
proof fn lemma_from_bits(bits: usize)
    ensures
        Literal::from_bits_spec(bits).spec_bits() == bits,
{
    Literal::lemma_from_bits_spec(bits);
}

/// `from_bits_spec` of the bits of a literal is that literal.
proof fn lemma_to_bits(l: Literal)
    ensures
        Literal::from_bits_spec(l.spec_bits()) == l,
{
    broadcast use Literal::lemma_bits_determine;

    lemma_from_bits(l.spec_bits());
}

impl LiteralSet {
    /// The underlying set is well formed.
    pub closed spec fn wf(self) -> bool {
        self.set.wf()
    }

    /// The number of variables the set holds without growing, times two.
    pub closed spec fn spec_capacity(self) -> nat {
        self.set.spec_capacity()
    }

    /// The literals in the order they are stored: a new literal goes last,
    /// and a removed one is replaced by the last.
    pub closed spec fn elements(self) -> Seq<Literal> {
        self.set.elements().map_values(|b: usize| Literal::from_bits_spec(b))
    }

    /// The stored literals are the literals of the set, each once.
    pub proof fn lemma_elements(self)
        requires
            self.wf(),
        ensures
            forall|l: Literal| #[trigger] self.elements().contains(l) <==> self@.contains(l),
            self.elements().no_duplicates(),
    {
        self.set.lemma_elements();
        let b = self.set.elements();
        let e = self.elements();
        assert forall|l: Literal| #[trigger] e.contains(l) <==> self@.contains(l) by {
            self.lemma_contains(l);
            lemma_to_bits(l);
            if e.contains(l) {
                let p = choose|p: int| 0 <= p < e.len() && e[p] == l;
                lemma_from_bits(b[p]);
                assert(b[p] == l.spec_bits());
                assert(b.contains(l.spec_bits()));
            }
            if self@.contains(l) {
                assert(b.contains(l.spec_bits()));
                let p = choose|p: int| 0 <= p < b.len() && b[p] == l.spec_bits();
                assert(e[p] == l);
            }
        }
        assert forall|p: int, q: int| 0 <= p < e.len() && 0 <= q < e.len() && p != q implies e[p] != e[q] by {
            lemma_from_bits(b[p]);
            lemma_from_bits(b[q]);
        }
    }

    /// The number of literals, as a sequence length.
    pub closed spec fn spec_len(self) -> nat {
        self.set.spec_len()
    }

    /// Membership of a literal is membership of its bits.
    proof fn lemma_contains(self, l: Literal)
        ensures
            self@.contains(l) == self.set@.contains(l.spec_bits()),
    {
        lemma_to_bits(l);
        if self@.contains(l) {
            let b = choose|b: usize| self.set@.contains(b) && Literal::from_bits_spec(b) == l;
            lemma_from_bits(b);
        }
    }

    /// A well-formed literal set is finite, with `spec_len` elements.
    pub proof fn lemma_len(self)
        requires
            self.wf(),
        ensures
            self@.finite(),
            self@.len() == self.spec_len(),
    {
        self.set.lemma_wf();
        assert forall|a: usize, b: usize|
            Literal::from_bits_spec(a) == Literal::from_bits_spec(b) implies a == b by {
            lemma_from_bits(a);
            lemma_from_bits(b);
        }
        vstd::set_lib::lemma_map_size(self.set@, self@, |bits: usize| Literal::from_bits_spec(bits));
    }

    /// An empty set.
    pub fn new() -> (set: Self)
        ensures
            set.wf(),
            set@ == vstd::set::Set::<Literal>::empty(),
            set.spec_len() == 0,
            set.spec_capacity() == 0,
            set.elements() == Seq::<Literal>::empty(),
    {
        let set = Self { set: IndexSet::new() };
        proof {
            assert(set@ =~= vstd::set::Set::<Literal>::empty());
            assert(set.elements() =~= Seq::<Literal>::empty());
        }
        set
    }

    /// The number of literals.
    pub fn len(&self) -> (length: usize)
        requires
            self.wf(),
        ensures
            length == self@.len(),
    {
        proof {
            self.lemma_len();
            self.set.lemma_wf();
        }
        self.set.len()
    }

    /// Whether the set is empty.
    pub fn is_empty(&self) -> (empty: bool)
        requires
            self.wf(),
        ensures
            empty == (self@.len() == 0),
    {
        proof {
            self.lemma_len();
            self.set.lemma_wf();
        }
        self.set.is_empty()
    }

    /// Whether `literal` is an element.
    pub fn contains_key(&self, literal: Literal) -> (contains: bool)
        requires
            self.wf(),
        ensures
            contains == self@.contains(literal),
    {
        proof {
            self.lemma_contains(literal);
        }
        self.set.contains_key(literal.bits())
    }

    /// Whether as many literals of `literals` (counted with repetition)
    /// belong to the set as the set has elements.
    pub fn is_subset_of(&self, literals: &[Literal]) -> (subset: bool)
        requires
            self.wf(),
        ensures
            subset == (count_contained_literals(literals@, self@) == self@.len()),
            literals@.no_duplicates() ==> (subset <==> self@.subset_of(literals@.to_set())),
    {
        let mut count: usize = 0;
        let mut k: usize = 0;
        while k < literals.len()
            invariant
                self.wf(),
                k <= literals@.len(),
                count == count_contained_literals(literals@.subrange(0, k as int), self@),
                count <= k,
            decreases literals@.len() - k,
        {
            proof {
                assert(literals@.subrange(0, k as int + 1).drop_last() =~= literals@.subrange(
                    0,
                    k as int,
                ));
            }
            if self.contains_key(literals[k]) {
                count = count + 1;
            }
            k = k + 1;
        }
        proof {
            assert(literals@.subrange(0, literals@.len() as int) =~= literals@);
            self.lemma_len();
            if literals@.no_duplicates() {
                lemma_count_is_intersection(literals@, self@);
                lemma_full_intersection(literals@.to_set(), self@);
            }
        }
        count == self.len()
    }

    /// Adds `literal`.
    pub fn insert(&mut self, literal: Literal)
        requires
            old(self).wf(),
            index_fits(old(self).spec_capacity(), literal.spec_bits()),
            old(self).spec_len() + 1 < usize::MAX,
        ensures
            final(self).wf(),
            final(self)@ == old(self)@.insert(literal),
            final(self)@.finite(),
            final(self)@.len() == old(self)@.len() + if old(self)@.contains(literal) {
                0int
            } else {
                1int
            },
            final(self).spec_len() <= old(self).spec_len() + 1,
            final(self).spec_capacity() >= old(self).spec_capacity(),
            final(self).elements() == if old(self)@.contains(literal) {
                old(self).elements()
            } else {
                old(self).elements().push(literal)
            },
    {
        self.set.insert(literal.bits());
        proof {
            old(self).lemma_contains(literal);
            lemma_to_bits(literal);
            if old(self)@.contains(literal) {
                assert(self.elements() =~= old(self).elements());
            } else {
                assert(self.elements() =~= old(self).elements().push(literal));
            }
            old(self).lemma_len();
            self.lemma_len();
            crate::slots::lemma_grown_capacity(literal.spec_bits() as nat);
            assert forall|l: Literal| self@.contains(l) == old(self)@.insert(literal).contains(l) by {
                self.lemma_contains(l);
                old(self).lemma_contains(l);
                broadcast use Literal::lemma_bits_determine;
            }
            assert(self@ =~= old(self)@.insert(literal));
        }
    }

    /// Adds every literal of `literals`.
    pub fn extend(&mut self, literals: Vec<Literal>)
        requires
            old(self).wf(),
            forall|k: int|
                0 <= k < literals@.len() ==> index_fits(
                    old(self).spec_capacity(),
                    (#[trigger] literals@[k]).spec_bits(),
                ),
            old(self).spec_len() + literals@.len() + 1 < usize::MAX,
        ensures
            final(self).wf(),
            final(self)@ == old(self)@.union(literals@.to_set()),
            final(self).elements() == appended_new(old(self).elements(), literals@),
    {
        let mut k: usize = 0;
        while k < literals.len()
            invariant
                self.wf(),
                k <= literals@.len(),
                self@ == old(self)@.union(literals@.subrange(0, k as int).to_set()),
                self.elements() == appended_new(old(self).elements(), literals@.subrange(0, k as int)),
                self.spec_len() <= old(self).spec_len() + k,
                self.spec_capacity() >= old(self).spec_capacity(),
                old(self).spec_len() + literals@.len() + 1 < usize::MAX,
                forall|j: int|
                    0 <= j < literals@.len() ==> index_fits(
                        old(self).spec_capacity(),
                        (#[trigger] literals@[j]).spec_bits(),
                    ),
            decreases literals@.len() - k,
        {
            let literal = literals[k];
            proof {
                self.lemma_elements();
                assert(literals@.subrange(0, k as int + 1).drop_last() =~= literals@.subrange(0, k as int));
            }
            self.insert(literal);
            proof {
                let before = literals@.subrange(0, k as int);
                let after = literals@.subrange(0, k as int + 1);
                assert forall|l: Literal| #[trigger] after.to_set().contains(l) == before.to_set().insert(
                    literal,
                ).contains(l) by {
                    if after.to_set().contains(l) {
                        let p = choose|p: int| 0 <= p < after.len() && after[p] == l;
                        if p < before.len() {
                            assert(before[p] == l);
                        }
                    }
                    if before.to_set().insert(literal).contains(l) {
                        if l == literal {
                            assert(after[k as int] == l);
                        } else {
                            let p = choose|p: int| 0 <= p < before.len() && before[p] == l;
                            assert(after[p] == l);
                        }
                    }
                }
                assert(self@ =~= old(self)@.union(after.to_set()));
            }
            k = k + 1;
        }
        proof {
            assert(literals@.subrange(0, literals@.len() as int) =~= literals@);
        }
    }

    /// Removes `literal`.
    pub fn remove(&mut self, literal: Literal)
        requires
            old(self).wf(),
        ensures
            final(self).wf(),
            final(self)@ == old(self)@.remove(literal),
            final(self)@.finite(),
            final(self)@.len() == old(self)@.len() - if old(self)@.contains(literal) {
                1int
            } else {
                0int
            },
            final(self).elements() == if old(self)@.contains(literal) {
                swap_removed(old(self).elements(), literal)
            } else {
                old(self).elements()
            },
    {
        self.set.remove(literal.bits());
        proof {
            old(self).lemma_contains(literal);
            lemma_to_bits(literal);
            if old(self)@.contains(literal) {
                old(self).set.lemma_elements();
                old(self).lemma_elements();
                let b = old(self).set.elements();
                let e = old(self).elements();
                assert(b.contains(literal.spec_bits()));
                let pb = choose|p: int| 0 <= p < b.len() && b[p] == literal.spec_bits();
                assert(e[pb] == Literal::from_bits_spec(b[pb]));
                assert(e[pb] == literal);
                assert(e.contains(literal));
                let pe = choose|p: int| 0 <= p < e.len() && e[p] == literal;
                assert(pe == pb);
                assert(self.elements() =~= swap_removed(e, literal));
            } else {
                assert(self.elements() =~= old(self).elements());
            }
            old(self).lemma_len();
            assert forall|l: Literal| self@.contains(l) == old(self)@.remove(literal).contains(l) by {
                self.lemma_contains(l);
                old(self).lemma_contains(l);
                broadcast use Literal::lemma_bits_determine;
            }
            assert(self@ =~= old(self)@.remove(literal));
            self.lemma_len();
        }
    }

    /// Removes every literal.
    pub fn clear(&mut self)
        requires
            old(self).wf(),
        ensures
            final(self).wf(),
            final(self)@ == vstd::set::Set::<Literal>::empty(),
            final(self).spec_len() == 0,
            final(self).spec_capacity() == old(self).spec_capacity(),
            final(self).elements() == Seq::<Literal>::empty(),
    {
        self.set.clear();
        proof {
            assert(self@ =~= vstd::set::Set::<Literal>::empty());
            assert(self.elements() =~= Seq::<Literal>::empty());
        }
    }

    /// The literals, each once, in the order they are stored (see
    /// `elements`).
    pub fn iter(&self) -> (literals: Vec<Literal>)
        requires
            self.wf(),
        ensures
            literals@ == self.elements(),
            literals@.to_set() == self@,
            literals@.no_duplicates(),
    {
        let bits = self.set.iter();
        let mut literals: Vec<Literal> = Vec::new();
        let mut k: usize = 0;
        while k < bits.len()
            invariant
                k <= bits@.len(),
                literals@.len() == k,
                forall|j: int| 0 <= j < k ==> (#[trigger] literals@[j]).spec_bits() == bits@[j],
            decreases bits@.len() - k,
        {
            literals.push(Literal::from_bits(bits[k]));
            k = k + 1;
        }
        proof {
            broadcast use Literal::lemma_bits_determine;

            assert forall|j: int| 0 <= j < literals@.len() implies literals@[j] == self.elements()[j] by {
                lemma_from_bits(bits@[j]);
            }
            assert(literals@ =~= self.elements());
            assert forall|l: Literal| #[trigger] literals@.to_set().contains(l) == self@.contains(l) by {
                self.lemma_contains(l);
                if literals@.to_set().contains(l) {
                    let p = choose|p: int| 0 <= p < literals@.len() && literals@[p] == l;
                    assert(bits@.to_set().contains(bits@[p]));
                }
                if self@.contains(l) {
                    assert(bits@.to_set().contains(l.spec_bits()));
                    let p = choose|p: int| 0 <= p < bits@.len() && bits@[p] == l.spec_bits();
                    assert(literals@[p] == l);
                }
            }
            assert(literals@.to_set() =~= self@);
            assert forall|p: int, q: int|
                0 <= p < literals@.len() && 0 <= q < literals@.len() && p != q implies literals@[p]
                != literals@[q] by {
                assert(bits@[p] != bits@[q]);
            }
        }
        literals
    }
}

impl Default for LiteralSet {
    fn default() -> (set: Self)
        ensures
            set.wf(),
            set@ == vstd::set::Set::<Literal>::empty(),
    {
        Self::new()
    }
}

} // verus!
