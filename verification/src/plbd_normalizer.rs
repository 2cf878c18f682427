//! A complete binary tree of counts over the observed PLBD values, from
//! which the rank of an observation among all observations is read.
use vstd::prelude::*;

use crate::slots::{grown_capacity, grown_capacity_of, lemma_grown_capacity};

verus! {

/// The number of leaves of a tree stored in `length` slots.
pub open spec fn leaf_count(length: nat) -> nat {
    ((length + 1) / 2) as nat
}

/// The tree after growing it to `m` leaves: the counts of the old leaves
/// move to the first leaves of the new tree, every other slot is zero.
pub open spec fn grown_tree(array: Seq<usize>, m: nat) -> Seq<usize> {
    let n = leaf_count(array.len());
    Seq::new(
        (2 * m - 1) as nat,
        |k: int|
            if m - 1 <= k < m - 1 + n {
                array[n - 1 + k - (m - 1)]
            } else {
                0usize
            },
    )
}

/// Climbing from slot `current` to the root: each parent takes the sum of
/// its two children, and the counts of the left sisters passed on the way
/// are added to `lowers`.
pub open spec fn climbed(tree: Seq<usize>, current: int, lowers: int) -> (Seq<usize>, int)
    decreases current,
{
    if current <= 0 {
        (tree, lowers)
    } else {
        let parent = (current - 1) / 2;
        let sister = if current % 2 == 0 {
            current - 1
        } else {
            current + 1
        };
        let passed = if current % 2 == 0 {
            lowers + tree[current - 1]
        } else {
            lowers
        };
        climbed(tree.update(parent, (tree[current] + tree[sister]) as usize), parent, passed)
    }
}

/// No sum of the climb from `current` exceeds `usize::MAX`.
pub open spec fn climb_fits(tree: Seq<usize>, current: int, lowers: int) -> bool
    decreases current,
{
    if current <= 0 {
        true
    } else {
        let parent = (current - 1) / 2;
        let sister = if current % 2 == 0 {
            current - 1
        } else {
            current + 1
        };
        let passed = if current % 2 == 0 {
            lowers + tree[current - 1]
        } else {
            lowers
        };
        &&& tree[current] + tree[sister] <= usize::MAX
        &&& passed <= usize::MAX
        &&& climb_fits(tree.update(parent, (tree[current] + tree[sister]) as usize), parent, passed)
    }
}

/// The tree that observing `x` starts from: grown to hold `x` when it has
/// too few leaves (see `PlbdNormalizer::resize`).
pub open spec fn tree_holding(array: Seq<usize>, x: nat) -> Seq<usize> {
    if x < leaf_count(array.len()) || grown_capacity(x) <= leaf_count(array.len()) {
        array
    } else {
        grown_tree(array, grown_capacity(x))
    }
}

/// The slot of the leaf of `x` in `tree`.
pub open spec fn leaf_slot(tree: Seq<usize>, x: nat) -> int {
    leaf_count(tree.len()) - 1 + x
}

/// `tree_holding` with the leaf of `x` counted once more.
pub open spec fn counted_tree(array: Seq<usize>, x: nat) -> Seq<usize> {
    let t = tree_holding(array, x);
    t.update(leaf_slot(t, x), (t[leaf_slot(t, x)] + 1) as usize)
}

/// Counts of observed values, kept in a complete binary tree stored in an
/// array (the children of slot `k` are `2k + 1` and `2k + 2`; the leaves
/// are the last half).
#[derive(Clone, Debug)]
pub struct PlbdNormalizer {
    array: Vec<usize>,
}

impl View for PlbdNormalizer {
    type V = Seq<usize>;

    closed spec fn view(&self) -> Seq<usize> {
        self.array@
    }
}

impl PlbdNormalizer {
    /// An empty tree.
    pub fn new() -> (normalizer: Self)
        ensures
            normalizer@ == Seq::<usize>::empty(),
    {
        Self { array: Vec::new() }
    }

    /// Grows the tree to the smallest power of two of leaves that is at
    /// least `new_n`, when it has fewer leaves; the old leaf counts move to
    /// the first leaves and every other slot becomes zero.
    pub fn resize(&mut self, new_n: usize)
        requires
            new_n >= 1,
            new_n - 1 <= usize::MAX / 2,
            2 * grown_capacity((new_n - 1) as nat) - 1 <= usize::MAX,
            old(self)@.len() % 2 == 1 || old(self)@.len() == 0,
        ensures
            ({
                let m = grown_capacity((new_n - 1) as nat);
                if m <= leaf_count(old(self)@.len()) {
                    final(self)@ == old(self)@
                } else {
                    final(self)@ == grown_tree(old(self)@, m)
                }
            }),
    {
        let n = self.array.len() / 2 + self.array.len() % 2;
        let m = grown_capacity_of(new_n - 1);
        proof {
            lemma_grown_capacity((new_n - 1) as nat);
        }
        if m <= n {
            return ;
        }
        let length = m + (m - 1);
        let mut new_array: Vec<usize> = Vec::new();
        while new_array.len() < length
            invariant
                new_array@.len() <= length,
                forall|k: int| 0 <= k < new_array@.len() ==> new_array@[k] == 0,
            decreases length - new_array@.len(),
        {
            new_array.push(0);
        }
        let ghost old_array = self.array@;
        let mut i: usize = n;
        while i > 0
            invariant
                i <= n,
                n == leaf_count(old_array.len()),
                old_array == self.array@,
                n < m,
                length == 2 * m - 1,
                old_array.len() == 0 || old_array.len() == 2 * n - 1,
                new_array@.len() == length,
                forall|k: int|
                    0 <= k < length ==> #[trigger] new_array@[k] == if m - 1 + i <= k < m - 1 + n {
                        old_array[n - 1 + k - (m - 1)]
                    } else {
                        0usize
                    },
            decreases i,
        {
            i = i - 1;
            let value = self.array[n - 1 + i];
            new_array.set(m - 1 + i, value);
        }
        proof {
            assert(new_array@ =~= grown_tree(old_array, m as nat));
        }
        self.array = new_array;
    }
}

impl PlbdNormalizer {
    /// Counts one more observation of `x` (growing the tree first when it
    /// has no leaf for `x`) and returns the counts from which its rank is
    /// read: the observations of smaller values, those of `x`, and all
    /// observations, as they stand at the root. Each parent on the way from
    /// the leaf of `x` to the root is set to the sum of its two children
    /// (see `climbed`).
    pub fn observe_counts(&mut self, x: usize) -> (counts: (usize, usize, usize))
        requires
            old(self)@.len() % 2 == 1 || old(self)@.len() == 0,
            x <= usize::MAX / 2,
            2 * grown_capacity(x as nat) - 1 <= usize::MAX,
            tree_holding(old(self)@, x as nat)[leaf_slot(tree_holding(old(self)@, x as nat), x as nat)] + 1 <= usize::MAX,
            climb_fits(
                counted_tree(old(self)@, x as nat),
                leaf_slot(tree_holding(old(self)@, x as nat), x as nat),
                0,
            ),
        ensures
            ({
                let start = counted_tree(old(self)@, x as nat);
                let i = leaf_slot(tree_holding(old(self)@, x as nat), x as nat);
                let (tree, lowers) = climbed(start, i, 0);
                &&& final(self)@ == tree
                &&& counts.0 == lowers
                &&& counts.1 == tree[i]
                &&& counts.2 == tree[0]
            }),
    {
        let n = self.array.len() / 2 + self.array.len() % 2;
        if x >= n {
            self.resize(x + 1);
        }
        let ghost held = self.array@;
        proof {
            lemma_grown_capacity(x as nat);
            assert(held == tree_holding(old(self)@, x as nat));
            assert(held.len() % 2 == 1);
            assert(x < leaf_count(held.len()));
        }
        let leaves = self.array.len() / 2 + self.array.len() % 2;
        let i = leaves - 1 + x;
        let count = self.array[i] + 1;
        self.array.set(i, count);
        let length = self.array.len();
        let mut current = i;
        let mut sum_of_lowers: usize = 0;
        proof {
            assert(self.array@ == counted_tree(old(self)@, x as nat));
        }
        while current != 0
            invariant
                current <= i,
                i < self.array@.len(),
                self.array@.len() == held.len(),
                length == held.len(),
                held.len() % 2 == 1,
                climbed(self.array@, current as int, sum_of_lowers as int) == climbed(
                    counted_tree(old(self)@, x as nat),
                    i as int,
                    0,
                ),
                climb_fits(self.array@, current as int, sum_of_lowers as int),
            decreases current,
        {
            let parent = (current - 1) / 2;
            let sister = if current % 2 == 0 {
                sum_of_lowers = sum_of_lowers + self.array[current - 1];
                current - 1
            } else {
                current + 1
            };
            let total = self.array[current] + self.array[sister];
            self.array.set(parent, total);
            current = parent;
        }
        proof {
            assert(climbed(self.array@, 0, sum_of_lowers as int) == (self.array@, sum_of_lowers as int));
        }
        (sum_of_lowers, self.array[i], self.array[0])
    }
}

impl Default for PlbdNormalizer {
    fn default() -> (normalizer: Self)
        ensures
            normalizer@ == Seq::<usize>::empty(),
    {
        Self::new()
    }
}

} // verus!
