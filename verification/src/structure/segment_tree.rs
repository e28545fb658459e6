//! The segment tree.
//!
//! A segment tree holds a sequence of elements of a monoid and supports two
//! operations in logarithmic time:
//!
//! - replacing one element ([`SegmentTree::update`]);
//! - combining the elements of a range under the operation of the monoid
//!   ([`SegmentTree::query`]): the sum of the range for an additive monoid, its
//!   minimum for [`Min`](crate::traits::math::monoid::Min).

use crate::traits::math::fold::{all_valid, fold, lemma_fold_shift, lemma_fold_single, lemma_fold_split, lemma_fold_valid};
use crate::traits::math::monoid::Monoid;
use crate::utils::range::{range_end, range_end_spec, range_start, range_start_spec, endpoints_fit, RangeBounds};
use vstd::prelude::*;

verus! {

/// A segment tree over the monoid `T`.
///
/// The tree is stored in one buffer of `2 * capacity` elements, where
/// `capacity` is the smallest power of two that is at least the number of
/// elements. The leaves stand at `capacity..2 * capacity`; those beyond the
/// last element hold the identity. The node at `i` in `1..capacity` holds the
/// combination of its two children at `2 * i` and `2 * i + 1`.
#[derive(Debug)]
pub struct SegmentTree<T> {
    data: Vec<T>,
    lenexp2: usize,
    len: usize,
}

/// Whether `n` is a power of two.
pub open spec fn is_power_of_two(n: int) -> bool
    decreases n,
{
    n == 1 || (n > 1 && n % 2 == 0 && is_power_of_two(n / 2))
}

/// Whether every inner node in `1..cap`, except the node `skip`, holds the
/// combination of its two children.
pub open spec fn nodes_combine<T: Monoid>(data: Seq<T>, cap: int, skip: int) -> bool {
    forall|i: int|
        1 <= i < cap && i != skip ==> #[trigger] data[i] == T::op_spec(data[2 * i], data[2 * i + 1])
}

/// Folding a level of the tree gives the same value as folding the level above
/// it: where every inner node holds the combination of its children, the fold
/// of the nodes `2 * a..2 * b` is the fold of the nodes `a..b`.
proof fn lemma_fold_level<T: Monoid>(data: Seq<T>, cap: int, a: int, b: int)
    requires
        all_valid(data),
        data.len() == 2 * cap,
        nodes_combine(data, cap, 0),
        1 <= a <= b <= cap,
    ensures
        fold(data, 2 * a, 2 * b) == fold(data, a, b),
    decreases b - a,
{
    if b > a {
        lemma_fold_level(data, cap, a, b - 1);
        let rest = fold(data, 2 * a, 2 * b - 2);
        lemma_fold_valid(data, 2 * a, 2 * b - 2);
        assert(fold(data, 2 * a, 2 * b - 1) == T::op_spec(rest, data[2 * b - 2]));
        assert(fold(data, 2 * a, 2 * b) == T::op_spec(fold(data, 2 * a, 2 * b - 1), data[2 * b - 1]));
        T::lemma_associative(rest, data[2 * b - 2], data[2 * b - 1]);
        assert(data[b - 1] == T::op_spec(data[2 * (b - 1)], data[2 * (b - 1) + 1]));
    }
}

/// Returns the smallest power of two that is at least `len`.
pub fn calc_lenexp2(len: usize) -> (cap: usize)
    requires
        len <= usize::MAX / 2,
    ensures
        is_power_of_two(cap as int),
        len <= cap,
        cap == 1 || cap / 2 < len,
{
    let mut cap: usize = 1;
    while cap < len
        invariant
            len <= usize::MAX / 2,
            1 <= cap,
            is_power_of_two(cap as int),
            cap == 1 || cap / 2 < len,
        decreases 2 * len - cap,
    {
        cap = cap * 2;
    }
    cap
}

impl<T: Monoid + Copy> View for SegmentTree<T> {
    type V = Seq<T>;

    /// The elements of the tree, in order.
    closed spec fn view(&self) -> Seq<T> {
        self.data@.subrange(self.lenexp2 as int, self.lenexp2 + self.len)
    }
}

impl<T: Monoid + Copy> SegmentTree<T> {
    /// The invariant of the tree: the capacity is the smallest power of two
    /// that is at least the number of elements, the leaves beyond the last
    /// element hold the identity, every inner node holds the combination of its
    /// children, and every element belongs to the carrier of the monoid.
    pub closed spec fn wf(&self) -> bool {
        &&& is_power_of_two(self.lenexp2 as int)
        &&& self.len <= self.lenexp2
        &&& self.lenexp2 == 1 || self.lenexp2 / 2 < self.len
        &&& self.data@.len() == 2 * self.lenexp2
        &&& 2 * self.lenexp2 <= usize::MAX
        &&& all_valid(self.data@)
        &&& nodes_combine(self.data@, self.lenexp2 as int, 0)
        &&& forall|i: int|
            self.lenexp2 + self.len <= i < 2 * self.lenexp2 ==> #[trigger] self.data@[i]
                == T::id_spec()
    }

    /// The capacity of the tree: the number of its leaves.
    pub closed spec fn capacity(&self) -> nat {
        self.lenexp2 as nat
    }

    /// Every element of a well-formed tree belongs to the carrier, and the
    /// capacity is the smallest power of two that holds them all.
    pub proof fn lemma_wf(&self)
        requires
            self.wf(),
        ensures
            all_valid(self@),
            is_power_of_two(self.capacity() as int),
            self@.len() <= self.capacity(),
            self.capacity() == 1 || self.capacity() / 2 < self@.len(),
    {
        assert forall|i: int| 0 <= i < self@.len() implies (#[trigger] self@[i]).valid() by {
            assert(self@[i] == self.data@[self.lenexp2 + i]);
        }
    }

    /// Builds the tree that holds the elements of `arr`.
    pub fn from_array(arr: &[T]) -> (tree: SegmentTree<T>)
        requires
            arr@.len() <= usize::MAX / 4,
            all_valid(arr@),
        ensures
            tree.wf(),
            tree@ == arr@,
    {
        let len = arr.len();
        let lenexp2 = calc_lenexp2(len);
        let mut data: Vec<T> = Vec::new();
        let mut i: usize = 0;
        while i < lenexp2 * 2
            invariant
                len == arr@.len(),
                len <= lenexp2,
                lenexp2 == 1 || lenexp2 / 2 < len,
                len <= usize::MAX / 4,
                i <= lenexp2 * 2,
                data@.len() == i,
                all_valid(arr@),
                all_valid(data@),
                forall|j: int| 0 <= j < i && lenexp2 <= j < lenexp2 + len ==> #[trigger] data@[j] == arr@[j - lenexp2],
                forall|j: int| 0 <= j < i && !(lenexp2 <= j < lenexp2 + len) ==> #[trigger] data@[j] == T::id_spec(),
            decreases lenexp2 * 2 - i,
        {
            proof {
                T::lemma_id_valid();
            }
            if lenexp2 <= i && i < lenexp2 + len {
                data.push(arr[i - lenexp2]);
            } else {
                data.push(T::id());
            }
            i += 1;
        }
        let mut k: usize = lenexp2;
        while k > 1
            invariant
                1 <= k <= lenexp2,
                len == arr@.len(),
                len <= lenexp2,
                2 * lenexp2 <= usize::MAX,
                data@.len() == 2 * lenexp2,
                all_valid(data@),
                forall|j: int| lenexp2 <= j < lenexp2 + len ==> #[trigger] data@[j] == arr@[j - lenexp2],
                forall|j: int| lenexp2 + len <= j < 2 * lenexp2 ==> #[trigger] data@[j] == T::id_spec(),
                forall|j: int| k <= j < lenexp2 ==> #[trigger] data@[j] == T::op_spec(data@[2 * j], data@[2 * j + 1]),
            decreases k,
        {
            k -= 1;
            let v = T::op(data[2 * k], data[2 * k + 1]);
            proof {
                T::lemma_closed(data@[2 * k], data@[2 * k + 1]);
            }
            data[k] = v;
        }
        let tree = SegmentTree { data, lenexp2, len };
        assert(tree@ =~= arr@);
        tree
    }

    /// Replaces the element at `idx` by `value`.
    pub fn update(&mut self, idx: usize, value: T)
        requires
            old(self).wf(),
            idx < old(self)@.len(),
            value.valid(),
        ensures
            final(self).wf(),
            final(self)@ == old(self)@.update(idx as int, value),
    {
        let mut pos = idx + self.lenexp2;
        self.data[pos] = value;
        let ghost leaves = self.data@;
        loop
            invariant_except_break
                1 <= pos,
            invariant
                pos < 2 * self.lenexp2,
                2 * self.lenexp2 <= usize::MAX,
                self.lenexp2 == old(self).lenexp2,
                self.len == old(self).len,
                is_power_of_two(self.lenexp2 as int),
                self.len <= self.lenexp2,
                self.lenexp2 == 1 || self.lenexp2 / 2 < self.len,
                self.data@.len() == 2 * self.lenexp2,
                all_valid(self.data@),
                nodes_combine(self.data@, self.lenexp2 as int, pos as int / 2),
                forall|j: int| self.lenexp2 <= j < 2 * self.lenexp2 ==> #[trigger] self.data@[j] == leaves[j],
            ensures
                nodes_combine(self.data@, self.lenexp2 as int, 0),
                self.lenexp2 == old(self).lenexp2,
                self.len == old(self).len,
                self.data@.len() == 2 * self.lenexp2,
                all_valid(self.data@),
                forall|j: int| self.lenexp2 <= j < 2 * self.lenexp2 ==> #[trigger] self.data@[j] == leaves[j],
            decreases pos,
        {
            pos = pos / 2;
            if pos == 0 {
                break;
            }
            let v = T::op(self.data[pos * 2], self.data[pos * 2 + 1]);
            proof {
                T::lemma_closed(self.data@[pos * 2], self.data@[pos * 2 + 1]);
            }
            self.data[pos] = v;
        }
        assert(self@ =~= old(self)@.update(idx as int, value));
    }

    /// Combines the elements of `range` in order and returns the result; the
    /// identity when the range is empty.
    ///
    /// With the monoid `Min`, for example, this is the smallest element of the
    /// range.
    pub fn query<R: RangeBounds<usize>>(&self, range: R) -> (r: T)
        requires
            self.wf(),
            endpoints_fit(&range),
        ensures
            r == fold(self@, range_start_spec(&range, 0), range_end_spec(&range, self@.len() as usize)),
    {
        let first = range_start(&range, 0);
        let last = range_end(&range, self.len);
        if last <= first {
            return T::id();
        }
        let mut start = first + self.lenexp2;
        let mut end = last + self.lenexp2;

        let mut res1 = T::id();
        let mut res2 = T::id();
        let ghost data = self.data@;
        let ghost goal = fold(data, start as int, end as int);
        proof {
            T::lemma_id_valid();
            lemma_fold_shift(self@, data, first as int, last as int, self.lenexp2 as int);
            lemma_fold_valid(data, start as int, end as int);
            T::lemma_identity(goal);
        }

        while start < end
            invariant
                self.wf(),
                data == self.data@,
                end <= 2 * self.lenexp2,
                start < end ==> 1 <= start,
                res1.valid(),
                res2.valid(),
                start <= end,
                T::op_spec(T::op_spec(res1, fold(data, start as int, end as int)), res2) == goal,
                goal == fold(self@, first as int, last as int),
            decreases end - start,
        {
            let ghost mid = fold(data, start as int, end as int);
            proof {
                lemma_fold_valid(data, start as int, end as int);
            }
            if start % 2 != 0 {
                proof {
                    lemma_fold_split(data, start as int, start + 1, end as int);
                    lemma_fold_single(data, start as int);
                    lemma_fold_valid(data, start + 1, end as int);
                    T::lemma_associative(res1, data[start as int], fold(data, start + 1, end as int));
                    T::lemma_closed(res1, data[start as int]);
                }
                res1 = T::op(res1, self.data[start]);
                start += 1;
            }
            if end % 2 != 0 {
                end -= 1;
                proof {
                    let rest = fold(data, start as int, end as int);
                    lemma_fold_valid(data, start as int, end as int);
                    T::lemma_closed(res1, rest);
                    T::lemma_closed(data[end as int], res2);
                    T::lemma_associative(res1, rest, data[end as int]);
                    T::lemma_associative(T::op_spec(res1, rest), data[end as int], res2);
                }
                res2 = T::op(self.data[end], res2);
            }
            proof {
                if start < end {
                    lemma_fold_level(data, self.lenexp2 as int, start as int / 2, end as int / 2);
                }
            }
            start = start / 2;
            end = end / 2;
        }
        proof {
            T::lemma_identity(res1);
        }
        T::op(res1, res2)
    }
}

} // verus!
