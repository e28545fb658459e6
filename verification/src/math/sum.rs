//! Sums over ranges in constant time: `CumSum` and `CumSum2D`.
//!
//! Both structures take the prefix sums of their input once, when they are
//! built, and answer each query from a few of them. The elements need not be
//! numbers under addition: any [`Group`] will do.

use crate::traits::math::fold::{all_valid, fold, lemma_fold_split, lemma_fold_valid};
use crate::traits::math::group::{is_commutative, Group};
use crate::traits::math::monoid::Monoid;
use crate::utils::range::{endpoints_fit, range_end, range_end_spec, range_start, range_start_spec, RangeBounds};
use vstd::prelude::*;

verus! {

/// What [`CumSum::sum`] returns for the half-open interval `[start, end)` of
/// `s`: the identity when the interval is empty, and otherwise the prefix sum
/// up to `end` combined with the inverse of the prefix sum up to `start`.
pub open spec fn range_sum<T: Group>(s: Seq<T>, start: int, end: int) -> T {
    if end <= start {
        T::id_spec()
    } else {
        T::op_spec(fold(s, 0, end), T::inv_spec(fold(s, 0, start)))
    }
}

/// In a commutative group, combining `a` and `b` and then the inverse of `a`
/// leaves `b`.
pub proof fn lemma_cancel<T: Group>(a: T, b: T)
    requires
        is_commutative::<T>(),
        a.valid(),
        b.valid(),
    ensures
        T::op_spec(T::op_spec(a, b), T::inv_spec(a)) == b,
{
    T::lemma_inverse(a);
    T::lemma_identity(b);
    assert(T::op_spec(a, b) == T::op_spec(b, a));
    T::lemma_associative(b, a, T::inv_spec(a));
}

/// In a commutative group the sum of a range is the fold of its elements, and
/// the sum of an empty or inverted range is the identity.
pub proof fn lemma_range_sum_is_fold<T: Group>(s: Seq<T>, start: int, end: int)
    requires
        is_commutative::<T>(),
        all_valid(s),
        0 <= start,
        end <= s.len(),
    ensures
        range_sum(s, start, end) == fold(s, start, end),
{
    if start < end {
        lemma_fold_split(s, 0, start, end);
        lemma_fold_valid(s, 0, start);
        lemma_fold_valid(s, start, end);
        lemma_cancel(fold(s, 0, start), fold(s, start, end));
    }
}

/// The sum of a range from the beginning is the prefix sum itself.
pub proof fn lemma_range_sum_prefix<T: Group>(s: Seq<T>, end: int)
    requires
        all_valid(s),
        0 < end <= s.len(),
    ensures
        range_sum(s, 0, end) == fold(s, 0, end),
{
    T::lemma_id_valid();
    T::lemma_inverse(T::id_spec());
    T::lemma_identity(T::inv_spec(T::id_spec()));
    lemma_fold_valid(s, 0, end);
    T::lemma_identity(fold(s, 0, end));
}

/// The sum of a range that is not empty is the sum of the range from the
/// beginning to its end, combined with the inverse of the sum of the range
/// from the beginning to its start.
pub proof fn lemma_range_sum_by_prefixes<T: Group>(s: Seq<T>, start: int, end: int)
    requires
        all_valid(s),
        0 <= start < end <= s.len(),
    ensures
        range_sum(s, start, end) == T::op_spec(
            range_sum(s, 0, end),
            T::inv_spec(range_sum(s, 0, start)),
        ),
{
    lemma_range_sum_prefix(s, end);
    if start > 0 {
        lemma_range_sum_prefix(s, start);
    }
}

/// Prefix sums of a sequence of group elements.
pub struct CumSum<T> {
    psum: Vec<T>,
    elems: Ghost<Seq<T>>,
}

impl<T: Group + Copy> View for CumSum<T> {
    type V = Seq<T>;

    /// The sequence that the structure was built from.
    closed spec fn view(&self) -> Seq<T> {
        self.elems@
    }
}

impl<T: Group + Copy> CumSum<T> {
    /// The invariant of the structure: it holds one prefix sum for each
    /// prefix of the sequence, the empty one included.
    pub closed spec fn wf(&self) -> bool {
        &&& all_valid(self.elems@)
        &&& self.elems@.len() < usize::MAX
        &&& self.psum@.len() == self.elems@.len() + 1
        &&& forall|k: int| 0 <= k <= self.elems@.len() ==> #[trigger] self.psum@[k] == fold(self.elems@, 0, k)
    }

    /// The elements of a well-formed structure belong to the carrier.
    pub proof fn lemma_wf(&self)
        requires
            self.wf(),
        ensures
            all_valid(self@),
            self@.len() < usize::MAX,
    {
    }

    /// Takes the prefix sums of `array`.
    pub fn from_array(array: &[T]) -> (cumsum: CumSum<T>)
        requires
            all_valid(array@),
            array@.len() < usize::MAX,
        ensures
            cumsum.wf(),
            cumsum@ == array@,
    {
        let mut psum: Vec<T> = Vec::new();
        psum.push(T::id());
        let mut i: usize = 0;
        while i < array.len()
            invariant
                all_valid(array@),
                i <= array@.len(),
                psum@.len() == i + 1,
                forall|k: int| 0 <= k <= i ==> #[trigger] psum@[k] == fold(array@, 0, k),
            decreases array@.len() - i,
        {
            proof {
                lemma_fold_valid(array@, 0, i as int);
            }
            let next = T::op(psum[i], array[i]);
            psum.push(next);
            i += 1;
        }
        CumSum { psum, elems: Ghost(array@) }
    }

    /// Returns the sum of the elements of `range`.
    pub fn sum<R: RangeBounds<usize>>(&self, range: R) -> (r: T)
        requires
            self.wf(),
            endpoints_fit(&range),
        ensures
            r == range_sum(self@, range_start_spec(&range, 0), range_end_spec(&range, self@.len() as usize)),
    {
        let orig_len = self.psum.len() - 1;

        let start = range_start(&range, 0);
        let end = range_end(&range, orig_len);

        if end <= start {
            return T::id();
        }
        proof {
            lemma_fold_valid(self@, 0, start as int);
            lemma_fold_valid(self@, 0, end as int);
            T::lemma_inverse(fold(self@, 0, start as int));
        }
        T::op(self.psum[end], T::inv(self.psum[start]))
    }

    /// Returns the length of the sequence.
    pub fn len(&self) -> (n: usize)
        requires
            self.wf(),
        ensures
            n == self@.len(),
    {
        self.psum.len() - 1
    }
}

/// Prefix sums of a sequence of numbers: a [`CumSum`] under its plainest
/// name.
pub struct Line<T> {
    sum: CumSum<T>,
}

impl<T: Group + Copy> View for Line<T> {
    type V = Seq<T>;

    /// The sequence that the structure was built from.
    closed spec fn view(&self) -> Seq<T> {
        self.sum@
    }
}

impl<T: Group + Copy> Line<T> {
    /// The invariant of the structure.
    pub closed spec fn wf(&self) -> bool {
        self.sum.wf()
    }

    /// Takes the prefix sums of `slice`.
    pub fn from_slice(slice: &[T]) -> (line: Line<T>)
        requires
            all_valid(slice@),
            slice@.len() < usize::MAX,
        ensures
            line.wf(),
            line@ == slice@,
    {
        Line { sum: CumSum::from_array(slice) }
    }

    /// Returns the sum of the elements of `range`.
    pub fn sum<R: RangeBounds<usize>>(&self, range: R) -> (r: T)
        requires
            self.wf(),
            endpoints_fit(&range),
        ensures
            r == range_sum(self@, range_start_spec(&range, 0), range_end_spec(&range, self@.len() as usize)),
    {
        self.sum.sum(range)
    }
}

/// Whether `m` is a matrix with `h` rows of `w` members of the carrier each.
pub open spec fn is_matrix<T: Monoid>(m: Seq<Seq<T>>, h: int, w: int) -> bool {
    &&& m.len() == h
    &&& forall|i: int| 0 <= i < h ==> (#[trigger] m[i]).len() == w
    &&& forall|i: int| 0 <= i < h ==> all_valid(#[trigger] m[i])
}

/// The number of columns of a matrix: the length of its first row, and 0
/// where it has no row.
pub open spec fn width<T>(m: Seq<Seq<T>>) -> int {
    if m.len() == 0 {
        0
    } else {
        m[0].len() as int
    }
}

/// The table of prefix sums that [`CumSum2D`] keeps: the entry at `(i, j)` is
/// the identity on the upper and the left border, and elsewhere the entry above
/// it, combined with the entry to its left, with the inverse of the entry
/// above that one, and with the element `m[i - 1][j - 1]`.
pub open spec fn prefix_sum<T: Group>(m: Seq<Seq<T>>, i: int, j: int) -> T
    decreases i + j,
{
    if i <= 0 || j <= 0 {
        T::id_spec()
    } else {
        T::op_spec(
            T::op_spec(
                T::op_spec(prefix_sum(m, i - 1, j), prefix_sum(m, i, j - 1)),
                T::inv_spec(prefix_sum(m, i - 1, j - 1)),
            ),
            m[i - 1][j - 1],
        )
    }
}

/// What [`CumSum2D::sum`] returns for the rows `[ystart, yend)` and the
/// columns `[xstart, xend)` of `m`: the identity when either interval is
/// empty, and otherwise the four corner entries of the table of prefix sums
/// combined by inclusion and exclusion.
pub open spec fn rect_sum<T: Group>(m: Seq<Seq<T>>, ystart: int, yend: int, xstart: int, xend: int) -> T {
    if yend <= ystart || xend <= xstart {
        T::id_spec()
    } else {
        T::op_spec(
            T::op_spec(
                T::op_spec(prefix_sum(m, yend, xend), prefix_sum(m, ystart, xstart)),
                T::inv_spec(prefix_sum(m, ystart, xend)),
            ),
            T::inv_spec(prefix_sum(m, yend, xstart)),
        )
    }
}

/// The elements of the rows `[y1, y2)` and the columns `[x1, x2)` of `m`
/// combined row by row, each row from left to right.
pub open spec fn fold_rect<T: Monoid>(m: Seq<Seq<T>>, y1: int, y2: int, x1: int, x2: int) -> T
    decreases y2 - y1,
{
    if y2 <= y1 {
        T::id_spec()
    } else {
        T::op_spec(fold_rect(m, y1, y2 - 1, x1, x2), fold(m[y2 - 1], x1, x2))
    }
}

/// Every entry of the table of prefix sums belongs to the carrier.
pub proof fn lemma_prefix_sum_valid<T: Group>(m: Seq<Seq<T>>, h: int, w: int, i: int, j: int)
    requires
        is_matrix(m, h, w),
        i <= h,
        j <= w,
    ensures
        prefix_sum(m, i, j).valid(),
    decreases i + j,
{
    if i <= 0 || j <= 0 {
        T::lemma_id_valid();
    } else {
        lemma_prefix_sum_valid(m, h, w, i - 1, j);
        lemma_prefix_sum_valid(m, h, w, i, j - 1);
        lemma_prefix_sum_valid(m, h, w, i - 1, j - 1);
        let a = prefix_sum(m, i - 1, j);
        let b = prefix_sum(m, i, j - 1);
        let c = prefix_sum(m, i - 1, j - 1);
        T::lemma_closed(a, b);
        T::lemma_inverse(c);
        T::lemma_closed(T::op_spec(a, b), T::inv_spec(c));
        assert(m[i - 1][j - 1].valid());
        T::lemma_closed(T::op_spec(T::op_spec(a, b), T::inv_spec(c)), m[i - 1][j - 1]);
    }
}

/// Every fold over a rectangle of a matrix belongs to the carrier.
pub proof fn lemma_fold_rect_valid<T: Monoid>(m: Seq<Seq<T>>, h: int, w: int, y1: int, y2: int, x1: int, x2: int)
    requires
        is_matrix(m, h, w),
        0 <= y1,
        y2 <= h,
        0 <= x1,
        x2 <= w,
    ensures
        fold_rect(m, y1, y2, x1, x2).valid(),
    decreases y2 - y1,
{
    if y2 <= y1 {
        T::lemma_id_valid();
    } else {
        lemma_fold_rect_valid(m, h, w, y1, y2 - 1, x1, x2);
        lemma_fold_valid(m[y2 - 1], x1, x2);
        T::lemma_closed(fold_rect(m, y1, y2 - 1, x1, x2), fold(m[y2 - 1], x1, x2));
    }
}

/// The fold over a rectangle without columns is the identity.
pub proof fn lemma_fold_rect_no_columns<T: Monoid>(m: Seq<Seq<T>>, y1: int, y2: int, x1: int, x2: int)
    requires
        x2 <= x1,
    ensures
        fold_rect(m, y1, y2, x1, x2) == T::id_spec(),
    decreases y2 - y1,
{
    if y2 > y1 {
        lemma_fold_rect_no_columns(m, y1, y2 - 1, x1, x2);
        T::lemma_id_valid();
        T::lemma_identity(T::id_spec());
    }
}

/// A fold over a rectangle can be cut between two rows.
pub proof fn lemma_fold_rect_split_rows<T: Monoid>(
    m: Seq<Seq<T>>,
    h: int,
    w: int,
    y1: int,
    y2: int,
    y3: int,
    x1: int,
    x2: int,
)
    requires
        is_matrix(m, h, w),
        0 <= y1 <= y2 <= y3 <= h,
        0 <= x1,
        x2 <= w,
    ensures
        fold_rect(m, y1, y3, x1, x2) == T::op_spec(
            fold_rect(m, y1, y2, x1, x2),
            fold_rect(m, y2, y3, x1, x2),
        ),
    decreases y3 - y2,
{
    lemma_fold_rect_valid(m, h, w, y1, y2, x1, x2);
    if y3 == y2 {
        T::lemma_identity(fold_rect(m, y1, y2, x1, x2));
    } else {
        lemma_fold_rect_split_rows(m, h, w, y1, y2, y3 - 1, x1, x2);
        lemma_fold_rect_valid(m, h, w, y2, y3 - 1, x1, x2);
        lemma_fold_valid(m[y3 - 1], x1, x2);
        T::lemma_associative(
            fold_rect(m, y1, y2, x1, x2),
            fold_rect(m, y2, y3 - 1, x1, x2),
            fold(m[y3 - 1], x1, x2),
        );
    }
}

/// In a commutative monoid the two inner elements of a combination of four
/// can change places.
pub proof fn lemma_interchange<T: Monoid>(a: T, b: T, c: T, d: T)
    requires
        is_commutative::<T>(),
        a.valid(),
        b.valid(),
        c.valid(),
        d.valid(),
    ensures
        T::op_spec(T::op_spec(a, b), T::op_spec(c, d)) == T::op_spec(
            T::op_spec(a, c),
            T::op_spec(b, d),
        ),
{
    T::lemma_closed(c, d);
    T::lemma_closed(b, d);
    T::lemma_associative(a, b, T::op_spec(c, d));
    T::lemma_associative(b, c, d);
    assert(T::op_spec(b, c) == T::op_spec(c, b));
    T::lemma_associative(c, b, d);
    T::lemma_associative(a, c, T::op_spec(b, d));
}

/// In a commutative monoid a fold over a rectangle can be cut between two
/// columns.
pub proof fn lemma_fold_rect_split_columns<T: Monoid>(
    m: Seq<Seq<T>>,
    h: int,
    w: int,
    y1: int,
    y2: int,
    x1: int,
    x2: int,
    x3: int,
)
    requires
        is_commutative::<T>(),
        is_matrix(m, h, w),
        0 <= y1,
        y2 <= h,
        0 <= x1 <= x2 <= x3 <= w,
    ensures
        fold_rect(m, y1, y2, x1, x3) == T::op_spec(
            fold_rect(m, y1, y2, x1, x2),
            fold_rect(m, y1, y2, x2, x3),
        ),
    decreases y2 - y1,
{
    if y2 <= y1 {
        T::lemma_id_valid();
        T::lemma_identity(T::id_spec());
    } else {
        let row = m[y2 - 1];
        lemma_fold_rect_split_columns(m, h, w, y1, y2 - 1, x1, x2, x3);
        lemma_fold_split(row, x1, x2, x3);
        lemma_fold_rect_valid(m, h, w, y1, y2 - 1, x1, x2);
        lemma_fold_rect_valid(m, h, w, y1, y2 - 1, x2, x3);
        lemma_fold_valid(row, x1, x2);
        lemma_fold_valid(row, x2, x3);
        lemma_interchange(
            fold_rect(m, y1, y2 - 1, x1, x2),
            fold_rect(m, y1, y2 - 1, x2, x3),
            fold(row, x1, x2),
            fold(row, x2, x3),
        );
    }
}

/// In a commutative group the entry at `(i, j)` of the table of prefix sums is
/// the fold over the first `i` rows and the first `j` columns.
pub proof fn lemma_prefix_sum_is_fold<T: Group>(m: Seq<Seq<T>>, h: int, w: int, i: int, j: int)
    requires
        is_commutative::<T>(),
        is_matrix(m, h, w),
        0 <= i <= h,
        0 <= j <= w,
    ensures
        prefix_sum(m, i, j) == fold_rect(m, 0, i, 0, j),
    decreases i + j,
{
    if i == 0 {
    } else if j == 0 {
        lemma_fold_rect_no_columns(m, 0, i, 0, 0);
    } else {
        lemma_prefix_sum_is_fold(m, h, w, i - 1, j);
        lemma_prefix_sum_is_fold(m, h, w, i, j - 1);
        lemma_prefix_sum_is_fold(m, h, w, i - 1, j - 1);
        let row = m[i - 1];
        let above = fold_rect(m, 0, i - 1, 0, j);
        let corner = fold_rect(m, 0, i - 1, 0, j - 1);
        let left = fold(row, 0, j - 1);
        let last = row[j - 1];
        lemma_fold_rect_valid(m, h, w, 0, i - 1, 0, j);
        lemma_fold_rect_valid(m, h, w, 0, i - 1, 0, j - 1);
        lemma_fold_valid(row, 0, j - 1);
        assert(last.valid());
        T::lemma_inverse(corner);
        T::lemma_closed(corner, left);
        T::lemma_associative(above, T::op_spec(corner, left), T::inv_spec(corner));
        lemma_cancel(corner, left);
        T::lemma_associative(above, left, last);
    }
}

/// In a commutative group the sum of a rectangle is the fold of its
/// elements, and the sum of a rectangle without rows or without columns is the
/// identity.
pub proof fn lemma_rect_sum_is_fold<T: Group>(
    m: Seq<Seq<T>>,
    h: int,
    w: int,
    ystart: int,
    yend: int,
    xstart: int,
    xend: int,
)
    requires
        is_commutative::<T>(),
        is_matrix(m, h, w),
        0 <= ystart,
        yend <= h,
        0 <= xstart,
        xend <= w,
    ensures
        rect_sum(m, ystart, yend, xstart, xend) == fold_rect(m, ystart, yend, xstart, xend),
{
    if yend <= ystart {
    } else if xend <= xstart {
        lemma_fold_rect_no_columns(m, ystart, yend, xstart, xend);
    } else {
        lemma_prefix_sum_is_fold(m, h, w, yend, xend);
        lemma_prefix_sum_is_fold(m, h, w, ystart, xstart);
        lemma_prefix_sum_is_fold(m, h, w, ystart, xend);
        lemma_prefix_sum_is_fold(m, h, w, yend, xstart);
        let tl = fold_rect(m, 0, ystart, 0, xstart);
        let tr = fold_rect(m, 0, ystart, xstart, xend);
        let bl = fold_rect(m, ystart, yend, 0, xstart);
        let br = fold_rect(m, ystart, yend, xstart, xend);
        lemma_fold_rect_valid(m, h, w, 0, ystart, 0, xstart);
        lemma_fold_rect_valid(m, h, w, 0, ystart, xstart, xend);
        lemma_fold_rect_valid(m, h, w, ystart, yend, 0, xstart);
        lemma_fold_rect_valid(m, h, w, ystart, yend, xstart, xend);
        lemma_fold_rect_split_columns(m, h, w, 0, ystart, 0, xstart, xend);
        lemma_fold_rect_split_columns(m, h, w, ystart, yend, 0, xstart, xend);
        lemma_fold_rect_split_rows(m, h, w, 0, ystart, yend, 0, xend);
        lemma_fold_rect_split_rows(m, h, w, 0, ystart, yend, 0, xstart);
        let top = T::op_spec(tl, tr);
        let bottom = T::op_spec(bl, br);
        let left = T::op_spec(tl, bl);
        T::lemma_closed(tl, tr);
        T::lemma_closed(bl, br);
        T::lemma_closed(tl, bl);
        T::lemma_closed(bottom, tl);
        assert(prefix_sum(m, yend, xend) == T::op_spec(top, bottom));
        assert(prefix_sum(m, ystart, xstart) == tl);
        assert(prefix_sum(m, ystart, xend) == top);
        assert(prefix_sum(m, yend, xstart) == left);
        T::lemma_associative(top, bottom, tl);
        lemma_cancel(top, T::op_spec(bottom, tl));
        assert(T::op_spec(bottom, tl) == T::op_spec(tl, bottom));
        T::lemma_associative(tl, bl, br);
        lemma_cancel(left, br);
    }
}

/// Prefix sums of a matrix of group elements.
pub struct CumSum2D<T> {
    psum: Vec<Vec<T>>,
    elems: Ghost<Seq<Seq<T>>>,
}

impl<T: Group + Copy> View for CumSum2D<T> {
    type V = Seq<Seq<T>>;

    /// The matrix that the structure was built from, as the sequence of its
    /// rows.
    closed spec fn view(&self) -> Seq<Seq<T>> {
        self.elems@
    }
}

impl<T: Group + Copy> CumSum2D<T> {
    /// The invariant of the structure: it holds the table of prefix sums of
    /// its matrix, which has one row and one column more than the matrix.
    pub closed spec fn wf(&self) -> bool {
        let h = self.elems@.len() as int;
        let w = width(self.elems@);
        &&& is_matrix(self.elems@, h, w)
        &&& h < usize::MAX
        &&& w < usize::MAX
        &&& self.psum@.len() == h + 1
        &&& forall|i: int| 0 <= i <= h ==> (#[trigger] self.psum@[i])@.len() == w + 1
        &&& forall|i: int, j: int|
            0 <= i <= h && 0 <= j <= w ==> #[trigger] self.psum@[i]@[j] == prefix_sum(
                self.elems@,
                i,
                j,
            )
    }

    /// A well-formed structure holds a matrix: all rows have the same length,
    /// and the elements belong to the carrier.
    pub proof fn lemma_wf(&self)
        requires
            self.wf(),
        ensures
            is_matrix(self@, self@.len() as int, width(self@)),
            self@.len() < usize::MAX,
            width(self@) < usize::MAX,
    {
        assert(self.psum@[0]@.len() == width(self@) + 1);
    }

    /// Takes the prefix sums of `matrix`, whose rows must all have the same
    /// length.
    pub fn from_matrix(matrix: &[Vec<T>]) -> (cumsum: CumSum2D<T>)
        requires
            matrix@.len() < usize::MAX,
            forall|i: int| 0 <= i < matrix@.len() ==> (#[trigger] matrix@[i])@.len() == matrix@[0]@.len(),
            forall|i: int| 0 <= i < matrix@.len() ==> (#[trigger] matrix@[i])@.len() < usize::MAX,
            forall|i: int| 0 <= i < matrix@.len() ==> all_valid((#[trigger] matrix@[i])@),
        ensures
            cumsum.wf(),
            cumsum@ == matrix@.map_values(|row: Vec<T>| row@),
    {
        let ghost m = matrix@.map_values(|row: Vec<T>| row@);
        let height = matrix.len();
        let mut psum: Vec<Vec<T>> = Vec::new();
        if height == 0 {
            let mut row: Vec<T> = Vec::new();
            row.push(T::id());
            psum.push(row);
            return CumSum2D { psum, elems: Ghost(m) };
        }
        let width = matrix[0].len();
        assert(is_matrix(m, height as int, width as int));

        let mut first: Vec<T> = Vec::new();
        let mut j: usize = 0;
        while j <= width
            invariant
                width < usize::MAX,
                j <= width + 1,
                first@.len() == j,
                forall|k: int| 0 <= k < j ==> #[trigger] first@[k] == T::id_spec(),
            decreases width + 1 - j,
        {
            first.push(T::id());
            j += 1;
        }
        psum.push(first);

        let mut i: usize = 0;
        while i < height
            invariant
                height == matrix@.len(),
                height < usize::MAX,
                width < usize::MAX,
                m == matrix@.map_values(|row: Vec<T>| row@),
                is_matrix(m, height as int, width as int),
                i <= height,
                psum@.len() == i + 1,
                forall|a: int| 0 <= a <= i ==> (#[trigger] psum@[a])@.len() == width + 1,
                forall|a: int, b: int| 0 <= a <= i && 0 <= b <= width ==> #[trigger] psum@[a]@[b] == prefix_sum(m, a, b),
            decreases height - i,
        {
            let mut row: Vec<T> = Vec::new();
            row.push(T::id());
            let mut j: usize = 0;
            while j < width
                invariant
                    height == matrix@.len(),
                    width < usize::MAX,
                    m == matrix@.map_values(|row: Vec<T>| row@),
                    is_matrix(m, height as int, width as int),
                    i < height,
                    j <= width,
                    psum@.len() == i + 1,
                    psum@[i as int]@.len() == width + 1,
                    forall|b: int| 0 <= b <= width ==> #[trigger] psum@[i as int]@[b] == prefix_sum(m, i as int, b),
                    row@.len() == j + 1,
                    forall|b: int| 0 <= b <= j ==> #[trigger] row@[b] == prefix_sum(m, i + 1, b),
                decreases width - j,
            {
                proof {
                    lemma_prefix_sum_valid(m, height as int, width as int, i as int, j + 1);
                    lemma_prefix_sum_valid(m, height as int, width as int, i + 1, j as int);
                    lemma_prefix_sum_valid(m, height as int, width as int, i as int, j as int);
                    let a = prefix_sum(m, i as int, j + 1);
                    let b = prefix_sum(m, i + 1, j as int);
                    let c = prefix_sum(m, i as int, j as int);
                    T::lemma_closed(a, b);
                    T::lemma_inverse(c);
                    T::lemma_closed(T::op_spec(a, b), T::inv_spec(c));
                    assert(m[i as int] == matrix@[i as int]@);
                    assert(m[i as int][j as int].valid());
                }
                let above = psum[i][j + 1];
                let left = row[j];
                let corner = psum[i][j];
                let next = T::op(T::op(T::op(above, left), T::inv(corner)), matrix[i][j]);
                row.push(next);
                j += 1;
            }
            psum.push(row);
            i += 1;
        }
        CumSum2D { psum, elems: Ghost(m) }
    }

    /// Returns the sum of the elements in the rows of `yrange` and the
    /// columns of `xrange`.
    pub fn sum<RY: RangeBounds<usize>, RX: RangeBounds<usize>>(&self, yrange: RY, xrange: RX) -> (r: T)
        requires
            self.wf(),
            endpoints_fit(&yrange),
            endpoints_fit(&xrange),
        ensures
            r == rect_sum(
                self@,
                range_start_spec(&yrange, 0),
                range_end_spec(&yrange, self@.len() as usize),
                range_start_spec(&xrange, 0),
                range_end_spec(&xrange, width(self@) as usize),
            ),
    {
        let orig_height = self.psum.len() - 1;
        let orig_width = self.psum[0].len() - 1;

        let ystart = range_start(&yrange, 0);
        let yend = range_end(&yrange, orig_height);
        let xstart = range_start(&xrange, 0);
        let xend = range_end(&xrange, orig_width);

        if yend <= ystart || xend <= xstart {
            return T::id();
        }
        proof {
            let h = orig_height as int;
            let w = orig_width as int;
            lemma_prefix_sum_valid(self@, h, w, yend as int, xend as int);
            lemma_prefix_sum_valid(self@, h, w, ystart as int, xstart as int);
            lemma_prefix_sum_valid(self@, h, w, ystart as int, xend as int);
            lemma_prefix_sum_valid(self@, h, w, yend as int, xstart as int);
            let a = prefix_sum(self@, yend as int, xend as int);
            let b = prefix_sum(self@, ystart as int, xstart as int);
            let c = prefix_sum(self@, ystart as int, xend as int);
            T::lemma_closed(a, b);
            T::lemma_inverse(c);
            T::lemma_closed(T::op_spec(a, b), T::inv_spec(c));
            T::lemma_inverse(prefix_sum(self@, yend as int, xstart as int));
        }
        T::op(
            T::op(
                T::op(self.psum[yend][xend], self.psum[ystart][xstart]),
                T::inv(self.psum[ystart][xend]),
            ),
            T::inv(self.psum[yend][xstart]),
        )
    }

    /// Returns the height and the width of the matrix.
    pub fn size(&self) -> (hw: (usize, usize))
        requires
            self.wf(),
        ensures
            hw.0 == self@.len(),
            hw.1 == width(self@),
    {
        (self.psum.len() - 1, self.psum[0].len() - 1)
    }
}

} // verus!
