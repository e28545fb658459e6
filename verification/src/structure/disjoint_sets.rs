//! Disjoint sets, also known as union-find.
//!
//! The structure keeps a family of disjoint sets over the elements `0..n`. It
//! merges two sets and tells whether two elements belong to the same set, both
//! in almost constant time.

use vstd::prelude::*;

verus! {

/// The number of positions below `k` at which `s` holds `r`.
pub open spec fn count_in(s: Seq<int>, r: int, k: nat) -> nat
    decreases k,
{
    if k == 0 {
        0
    } else {
        count_in(s, r, (k - 1) as nat) + if s[k - 1] == r {
            1nat
        } else {
            0nat
        }
    }
}

/// The number of positions below `k` that `s` maps to themselves.
pub open spec fn count_fixed(s: Seq<int>, k: nat) -> nat
    decreases k,
{
    if k == 0 {
        0
    } else {
        count_fixed(s, (k - 1) as nat) + if s[k - 1] == k - 1 {
            1nat
        } else {
            0nat
        }
    }
}

/// The size of the set with the representative `r`, where `s` maps each
/// element to the representative of its set.
pub open spec fn set_size(s: Seq<int>, r: int) -> nat {
    count_in(s, r, s.len())
}

/// The number of sets, where `s` maps each element to the representative of
/// its set: the number of elements that represent themselves.
pub open spec fn num_sets(s: Seq<int>) -> nat {
    count_fixed(s, s.len())
}

/// Whether `x` and `y` belong to the same set, where `s` maps each element to
/// the representative of its set.
pub open spec fn same_set(s: Seq<int>, x: int, y: int) -> bool {
    s[x] == s[y]
}

/// Belonging to the same set is an equivalence: it is reflexive, symmetric
/// and transitive.
pub proof fn lemma_same_set_equivalence(s: Seq<int>, x: int, y: int, z: int)
    ensures
        same_set(s, x, x),
        same_set(s, x, y) ==> same_set(s, y, x),
        same_set(s, x, y) && same_set(s, y, z) ==> same_set(s, x, z),
{
}

/// The representatives after the set of `from` has been merged into the set of
/// `to`: every element of the former now has the representative `to`.
pub open spec fn relabel(s: Seq<int>, from: int, to: int) -> Seq<int> {
    Seq::new(s.len(), |i: int| if s[i] == from { to } else { s[i] })
}

/// The representative that survives when the sets of the representatives `a`
/// and `b` are merged: that of the larger set, and `a` when both have the same
/// size.
pub open spec fn survivor(s: Seq<int>, a: int, b: int) -> int {
    if set_size(s, a) >= set_size(s, b) {
        a
    } else {
        b
    }
}

/// The representatives after the sets of the elements `x` and `y` have been
/// merged: unchanged when both belong to one set, and otherwise the smaller set
/// taken into the larger.
pub open spec fn merged(s: Seq<int>, x: int, y: int) -> Seq<int> {
    let a = s[x];
    let b = s[y];
    if a == b {
        s
    } else if survivor(s, a, b) == a {
        relabel(s, b, a)
    } else {
        relabel(s, a, b)
    }
}

proof fn lemma_count_in_bound(s: Seq<int>, a: int, b: int, k: nat)
    requires
        a != b,
        k <= s.len(),
    ensures
        count_in(s, a, k) + count_in(s, b, k) <= k,
    decreases k,
{
    if k > 0 {
        lemma_count_in_bound(s, a, b, (k - 1) as nat);
    }
}

proof fn lemma_count_fixed_positive(s: Seq<int>, i: int, k: nat)
    requires
        0 <= i < k <= s.len(),
        s[i] == i,
    ensures
        count_fixed(s, k) >= 1,
    decreases k,
{
    if i < k - 1 {
        lemma_count_fixed_positive(s, i, (k - 1) as nat);
    }
}

proof fn lemma_count_identity(n: nat, r: int, k: nat)
    requires
        k <= n,
    ensures
        count_in(Seq::new(n, |i: int| i), r, k) == if 0 <= r < k {
            1nat
        } else {
            0nat
        },
        count_fixed(Seq::new(n, |i: int| i), k) == k,
    decreases k,
{
    if k > 0 {
        lemma_count_identity(n, r, (k - 1) as nat);
    }
}

proof fn lemma_count_relabel(s: Seq<int>, from: int, to: int, r: int, k: nat)
    requires
        from != to,
        k <= s.len(),
    ensures
        count_in(relabel(s, from, to), r, k) == if r == to {
            count_in(s, to, k) + count_in(s, from, k)
        } else if r == from {
            0
        } else {
            count_in(s, r, k)
        },
    decreases k,
{
    if k > 0 {
        lemma_count_relabel(s, from, to, r, (k - 1) as nat);
    }
}

proof fn lemma_fixed_relabel(s: Seq<int>, from: int, to: int, k: nat)
    requires
        from != to,
        k <= s.len(),
        0 <= from < s.len(),
        0 <= to < s.len(),
        s[from] == from,
        s[to] == to,
    ensures
        count_fixed(relabel(s, from, to), k) == count_fixed(s, k) - if from < k {
            1int
        } else {
            0int
        },
    decreases k,
{
    if k > 0 {
        lemma_fixed_relabel(s, from, to, (k - 1) as nat);
    }
}

/// A family of disjoint sets over the elements `0..n`.
///
/// Each element holds either the index of its parent, or, when it is the
/// representative of its set, the size of the set as a negative number.
pub struct DisjointSets {
    par: Vec<i64>,
    size: usize,
    roots: Ghost<Seq<int>>,
    rank: Ghost<Seq<nat>>,
    merges: Ghost<nat>,
}

/// The same structure under its former name.
pub type DisjointSet = DisjointSets;

impl View for DisjointSets {
    type V = Seq<int>;

    /// The representative of the set of each element.
    closed spec fn view(&self) -> Seq<int> {
        self.roots@
    }
}

impl DisjointSets {
    /// The invariant of the structure: the parent links lead from every
    /// element to the representative of its set without running in a circle,
    /// every representative knows the size of its set, and the number of sets
    /// is the number of representatives.
    pub closed spec fn wf(&self) -> bool {
        let n = self.par@.len();
        &&& n <= i64::MAX
        &&& n <= usize::MAX
        &&& self.roots@.len() == n
        &&& self.rank@.len() == n
        &&& forall|i: int| 0 <= i < n ==> 0 <= (#[trigger] self.roots@[i]) < n
        &&& forall|i: int| 0 <= i < n ==> ((#[trigger] self.par@[i]) < 0 <==> self.roots@[i] == i)
        &&& forall|i: int|
            0 <= i < n && (#[trigger] self.par@[i]) >= 0 ==> {
                &&& self.par@[i] < n
                &&& self.roots@[self.par@[i] as int] == self.roots@[i]
                &&& self.rank@[i] < self.rank@[self.par@[i] as int]
                &&& self.rank@[i] < self.rank@[self.roots@[i]]
            }
        &&& forall|i: int| 0 <= i < n ==> (#[trigger] self.rank@[i]) <= self.merges@
        &&& forall|i: int|
            0 <= i < n && (#[trigger] self.par@[i]) < 0 ==> -self.par@[i] == set_size(self.roots@, i)
        &&& self.size == num_sets(self.roots@)
        &&& self.size + self.merges@ == n
    }

    /// A bound on the number of parent links between `x` and the
    /// representative of its set.
    pub closed spec fn height(&self, x: int) -> int {
        self.merges@ - self.rank@[x]
    }

    /// The parent of `x`: the element that its link leads to, or `x` itself
    /// where it represents its set.
    pub closed spec fn parent(&self, x: int) -> int {
        if self.par@[x] < 0 {
            x
        } else {
            self.par@[x] as int
        }
    }

    /// Whether `y` lies on the way from `x` to the representative of its set,
    /// both ends included.
    pub closed spec fn on_path(&self, x: int, y: int) -> bool
        decreases self.height(x),
        when self.wf() && 0 <= x < self@.len()
    {
        y == x || (self.par@[x] >= 0 && self.on_path(self.par@[x] as int, y))
    }

    /// The number of merges so far that joined two different sets.
    pub closed spec fn merges(&self) -> nat {
        self.merges@
    }

    /// In a well-formed structure every element has a representative, which
    /// represents itself, and the number of sets is the number of elements less
    /// the number of merges that joined two different sets.
    pub proof fn lemma_wf(&self)
        requires
            self.wf(),
        ensures
            forall|i: int| 0 <= i < self@.len() ==> 0 <= #[trigger] self@[i] < self@.len(),
            forall|i: int| 0 <= i < self@.len() ==> self@[#[trigger] self@[i]] == self@[i],
            num_sets(self@) == self@.len() - self.merges(),
    {
        assert forall|i: int| 0 <= i < self@.len() implies self@[#[trigger] self@[i]] == self@[i] by {
            self.lemma_root_is_fixed(i);
        }
    }

    proof fn lemma_root_is_fixed(&self, i: int)
        requires
            self.wf(),
            0 <= i < self.par@.len(),
        ensures
            self.roots@[self.roots@[i]] == self.roots@[i],
            self.par@[self.roots@[i]] < 0,
        decreases self.merges@ - self.rank@[i],
    {
        if self.par@[i] >= 0 {
            let r = self.roots@[i];
            if self.par@[r] >= 0 {
                self.lemma_root_is_fixed(self.par@[i] as int);
            }
        }
    }

    /// Makes `n` sets of one element each.
    pub fn new(n: usize) -> (sets: DisjointSets)
        requires
            n <= i64::MAX,
        ensures
            sets.wf(),
            sets@ == Seq::new(n as nat, |i: int| i),
            sets.merges() == 0,
    {
        let mut par: Vec<i64> = Vec::new();
        let mut i: usize = 0;
        while i < n
            invariant
                i <= n,
                par@.len() == i,
                forall|j: int| 0 <= j < i ==> #[trigger] par@[j] == -1,
            decreases n - i,
        {
            par.push(-1);
            i += 1;
        }
        let ghost roots = Seq::new(n as nat, |i: int| i);
        let sets = DisjointSets {
            par,
            size: n,
            roots: Ghost(roots),
            rank: Ghost(Seq::new(n as nat, |i: int| 0nat)),
            merges: Ghost(0),
        };
        proof {
            lemma_count_identity(n as nat, 0, n as nat);
            assert forall|i: int| 0 <= i < n && (#[trigger] sets.par@[i]) < 0 implies -sets.par@[i]
                == set_size(roots, i) by {
                lemma_count_identity(n as nat, i, n as nat);
            }
        }
        sets
    }

    /// Merges the sets of `x` and `y`. Returns `false`, and changes nothing,
    /// if both already belong to one set.
    ///
    /// The smaller set is taken into the larger one, whose representative
    /// survives; of two sets of the same size that of `x` survives.
    pub fn merge(&mut self, x: usize, y: usize) -> (joined: bool)
        requires
            old(self).wf(),
            x < old(self)@.len(),
            y < old(self)@.len(),
        ensures
            final(self).wf(),
            joined == !same_set(old(self)@, x as int, y as int),
            final(self)@ == merged(old(self)@, x as int, y as int),
            final(self).merges() == old(self).merges() + if joined {
                1nat
            } else {
                0nat
            },
    {
        let rx = self.root(x);
        let ry = self.root(y);
        if rx == ry {
            return false;
        }
        proof {
            self.lemma_root_is_fixed(x as int);
            self.lemma_root_is_fixed(y as int);
            lemma_count_in_bound(self.roots@, rx as int, ry as int, self.roots@.len());
            lemma_count_fixed_positive(self.roots@, rx as int, self.roots@.len());
        }
        let (keep, drop) = if self.par[rx] > self.par[ry] {
            (ry, rx)
        } else {
            (rx, ry)
        };
        let ghost before = *self;
        let sum = self.par[keep] + self.par[drop];
        self.par[keep] = sum;
        self.par[drop] = keep as i64;
        self.size -= 1;
        proof {
            let roots = relabel(before.roots@, drop as int, keep as int);
            let top = if before.rank@[keep as int] > before.rank@[drop as int] {
                before.rank@[keep as int]
            } else {
                before.rank@[drop as int] + 1
            };
            self.roots@ = roots;
            self.rank@ = before.rank@.update(keep as int, top as nat);
            self.merges@ = before.merges@ + 1;
            let n = self.par@.len();
            assert forall|i: int| 0 <= i < n && (#[trigger] self.par@[i]) < 0 implies -self.par@[i]
                == set_size(roots, i) by {
                lemma_count_relabel(before.roots@, drop as int, keep as int, i, n);
                assert(before.par@[i] < 0);
            }
            lemma_fixed_relabel(before.roots@, drop as int, keep as int, n);
            assert(self.wf());
        }
        true
    }

    /// Tells whether `x` and `y` belong to the same set.
    pub fn in_same(&mut self, x: usize, y: usize) -> (same: bool)
        requires
            old(self).wf(),
            x < old(self)@.len(),
            y < old(self)@.len(),
        ensures
            final(self).wf(),
            final(self)@ == old(self)@,
            final(self).merges() == old(self).merges(),
            same == same_set(old(self)@, x as int, y as int),
    {
        let a = self.root(x);
        let b = self.root(y);
        a == b
    }

    /// Returns the representative of the set of `x`.
    ///
    /// On the way every element between `x` and the representative is linked
    /// to the representative directly, which shortens later searches and leaves
    /// the sets as they are.
    pub fn root(&mut self, x: usize) -> (r: usize)
        requires
            old(self).wf(),
            x < old(self)@.len(),
        ensures
            final(self).wf(),
            final(self)@ == old(self)@,
            final(self).merges() == old(self).merges(),
            r == old(self)@[x as int],
            forall|y: int|
                0 <= y < old(self)@.len() ==> #[trigger] final(self).parent(y) == if old(self).on_path(
                    x as int,
                    y,
                ) {
                    r as int
                } else {
                    old(self).parent(y)
                },
        decreases old(self).height(x as int),
    {
        let parx = self.par[x];
        if parx < 0 {
            x
        } else {
            let root = self.root(parx as usize);
            let ghost mid = *self;
            proof {
                self.lemma_root_is_fixed(x as int);
            }
            self.par[x] = root as i64;
            proof {
                assert forall|y: int| 0 <= y < old(self)@.len() implies #[trigger] self.parent(y)
                    == if old(self).on_path(x as int, y) {
                    root as int
                } else {
                    old(self).parent(y)
                } by {
                    assert(old(self).on_path(x as int, y) == (y == x || old(self).on_path(
                        parx as int,
                        y,
                    )));
                    if y != x {
                        assert(self.parent(y) == mid.parent(y));
                    }
                }
            }
            root
        }
    }

    /// Returns the size of the set of `x`.
    pub fn size_of(&mut self, x: usize) -> (n: usize)
        requires
            old(self).wf(),
            x < old(self)@.len(),
        ensures
            final(self).wf(),
            final(self)@ == old(self)@,
            final(self).merges() == old(self).merges(),
            n == set_size(old(self)@, old(self)@[x as int]),
    {
        let r = self.root(x);
        proof {
            self.lemma_root_is_fixed(x as int);
            lemma_count_in_bound(self.roots@, r as int, -1, self.roots@.len());
        }
        (-self.par[r]) as usize
    }

    /// Returns the number of sets.
    pub fn size(&self) -> (n: usize)
        requires
            self.wf(),
        ensures
            n == num_sets(self@),
    {
        self.size
    }
}

} // verus!
