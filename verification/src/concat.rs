//! Concatenation of several matrices into one multilinear polynomial: each matrix gets a
//! sub-cube of the concatenated evaluations, its rows padded to a power-of-two width, the
//! largest matrices first.
use itertools::Itertools;
use vstd::arithmetic::power2::{lemma_pow2_unfold, pow2};
use vstd::prelude::*;
use vstd::seq_lib::lemma_fold_left_permutation;

verus! {

/// Shape of a matrix: its number of columns and of rows.
#[derive(Clone, Copy, Debug, PartialEq, Eq, Structural)]
pub struct Dimensions {
    pub width: usize,
    pub height: usize,
}

/// `ceil(log2(n))`, with `0` for `n <= 1`.
pub open spec fn log2_ceil(n: nat) -> nat
    decreases n,
{
    if n <= 1 {
        0
    } else {
        1 + log2_ceil(((n + 1) / 2) as nat)
    }
}

/// The smallest power of two at least `n` (`1` for `n == 0`).
pub open spec fn next_pow2(n: nat) -> nat {
    pow2(log2_ceil(n))
}

/// Number of evaluations a matrix takes once its rows are padded to a power-of-two width.
pub open spec fn mat_size(d: Dimensions) -> nat {
    next_pow2(d.width as nat) * (d.height as nat)
}

/// The key the layout orders matrices by: their number of entries.
pub open spec fn sort_key(d: Dimensions) -> nat {
    (d.width as nat) * (d.height as nat)
}

/// `0, 1, ..., n - 1`.
pub open spec fn indices(n: nat) -> Seq<usize> {
    Seq::new(n, |i: int| i as usize)
}

/// The entry of `s` at index `i`.
pub open spec fn at(s: Seq<usize>, i: usize) -> usize {
    s[i as int]
}

/// `ord` lists the indices of `keys` by decreasing key, equal keys in increasing index order.
pub open spec fn sorted_desc_stable(keys: Seq<usize>, ord: Seq<usize>) -> bool {
    forall|a: int, b: int|
        0 <= a < b < ord.len() ==> at(keys, #[trigger] ord[a]) > at(keys, #[trigger] ord[b]) || (
        at(keys, ord[a]) == at(keys, ord[b]) && ord[a] < ord[b])
}

/// Adds the size of the `i`-th matrix to `acc`.
pub open spec fn add_size(dims: Seq<Dimensions>) -> spec_fn(nat, usize) -> nat {
    |acc: nat, i: usize| acc + mat_size(dims[i as int])
}

/// Total size of the matrices listed in `idxs`.
pub open spec fn sizes_sum(dims: Seq<Dimensions>, idxs: Seq<usize>) -> nat {
    idxs.fold_left(0nat, add_size(dims))
}

/// Total size of all the matrices.
pub open spec fn total_size(dims: Seq<Dimensions>) -> nat {
    sizes_sum(dims, indices(dims.len()))
}

/// `ord` is a layout order of `dims`: every index once, larger matrices (by entries) first,
/// equal ones in index order.
pub open spec fn is_layout_order(dims: Seq<Dimensions>, ord: Seq<usize>) -> bool {
    &&& dims.len() <= usize::MAX
    &&& ord.len() == dims.len()
    &&& ord.to_multiset() == indices(dims.len()).to_multiset()
    &&& forall|a: int, b: int|
        0 <= a < b < ord.len() ==> sort_key(dims[#[trigger] ord[a] as int]) > sort_key(
            dims[#[trigger] ord[b] as int],
        ) || (sort_key(dims[ord[a] as int]) == sort_key(dims[ord[b] as int]) && ord[a] < ord[b])
}

/// `ranges` places the matrices one after the other in the layout order `ord`, starting at 0,
/// each taking its padded size.
pub open spec fn laid_out_along(
    dims: Seq<Dimensions>,
    ranges: Seq<core::ops::Range<usize>>,
    ord: Seq<usize>,
) -> bool {
    &&& ranges.len() == dims.len()
    &&& forall|k: int|
        0 <= k < ord.len() ==> {
            let i = #[trigger] ord[k] as int;
            &&& ranges[i].start == sizes_sum(dims, ord.take(k))
            &&& ranges[i].end == ranges[i].start + mat_size(dims[i])
        }
}

/// `ranges` is the layout of `dims`.
pub open spec fn is_layout(dims: Seq<Dimensions>, ranges: Seq<core::ops::Range<usize>>) -> bool {
    exists|ord: Seq<usize>| is_layout_order(dims, ord) && laid_out_along(dims, ranges, ord)
}

/// The largest end of the ranges, `0` when there are none.
pub open spec fn max_end(ranges: Seq<core::ops::Range<usize>>) -> nat
    decreases ranges.len(),
{
    if ranges.len() == 0 {
        0
    } else {
        let m = max_end(ranges.drop_last());
        if ranges.last().end > m {
            ranges.last().end as nat
        } else {
            m
        }
    }
}

/// Calls `p3_util::log2_ceil_usize`, which computes `usize::BITS - n.saturating_sub(1).leading_zeros()`:
/// the number of bits of `n - 1`, that is `ceil(log2(n))` (`0` for `n <= 1`).
#[verifier::external_body]
pub(crate) fn log2_ceil_usize(n: usize) -> (r: usize)
    ensures
        r == log2_ceil(n as nat),
{
    p3_util::log2_ceil_usize(n)
}

/// Calls `usize::next_power_of_two`, documented as the smallest power of two greater than or
/// equal to `n`; it overflows (panicking in debug builds) when that power does not fit.
#[verifier::external_body]
fn next_power_of_two(n: usize) -> (r: usize)
    requires
        next_pow2(n as nat) <= usize::MAX,
    ensures
        r == next_pow2(n as nat),
{
    n.next_power_of_two()
}

/// Calls `Itertools::sorted_by_key` on the indices of `keys`, keyed by the reversed key: a
/// stable sort, so the indices come by decreasing key, equal keys in increasing index order.
#[verifier::external_body]
fn order_by_key_desc(keys: &Vec<usize>) -> (ord: Vec<usize>)
    ensures
        ord@.len() == keys@.len(),
        ord@.to_multiset() == indices(keys@.len()).to_multiset(),
        sorted_desc_stable(keys@, ord@),
{
    (0..keys.len()).sorted_by_key(|&i| core::cmp::Reverse(keys[i])).collect()
}

/// `next_pow2(n)` is a power of two at least `n`.
pub proof fn lemma_next_pow2_bound(n: nat)
    ensures
        next_pow2(n) >= n,
        next_pow2(n) >= 1,
    decreases n,
{
    vstd::arithmetic::power2::lemma_pow2_pos(log2_ceil(n));
    if n > 1 {
        let h = ((n + 1) / 2) as nat;
        lemma_next_pow2_bound(h);
        lemma_pow2_unfold(log2_ceil(n));
    }
}

/// Adding sizes commutes.
proof fn lemma_add_size_commutes(dims: Seq<Dimensions>)
    ensures
        vstd::seq_lib::commutative_foldl(add_size(dims)),
{
}

/// The sizes of a prefix of a list sum to no more than those of the whole list.
proof fn lemma_sizes_prefix_le(dims: Seq<Dimensions>, s: Seq<usize>, k: int)
    requires
        0 <= k <= s.len(),
    ensures
        sizes_sum(dims, s.take(k)) <= sizes_sum(dims, s),
    decreases s.len(),
{
    if k < s.len() {
        assert(s.drop_last().take(k) =~= s.take(k));
        lemma_sizes_prefix_le(dims, s.drop_last(), k);
    } else {
        assert(s.take(k) =~= s);
    }
}

/// Extending a prefix by one index adds that matrix's size.
proof fn lemma_sizes_take_step(dims: Seq<Dimensions>, s: Seq<usize>, k: int)
    requires
        0 <= k < s.len(),
    ensures
        sizes_sum(dims, s.take(k + 1)) == sizes_sum(dims, s.take(k)) + mat_size(dims[s[k] as int]),
{
    assert(s.take(k + 1).drop_last() =~= s.take(k));
}

/// Every index of a layout order is in range, and no index occurs twice.
proof fn lemma_order_indices(dims: Seq<Dimensions>, ord: Seq<usize>)
    requires
        is_layout_order(dims, ord),
    ensures
        forall|k: int| 0 <= k < ord.len() ==> #[trigger] ord[k] < dims.len(),
        forall|a: int, b: int| 0 <= a < b < ord.len() ==> #[trigger] ord[a] != #[trigger] ord[b],
        sizes_sum(dims, ord) == total_size(dims),
{
    broadcast use vstd::seq_lib::group_to_multiset_ensures;

    let n = dims.len();
    assert forall|k: int| 0 <= k < ord.len() implies #[trigger] ord[k] < n by {
        assert(ord.to_multiset().count(ord[k]) > 0);
        assert(indices(n).to_multiset().count(ord[k]) > 0);
        assert(indices(n).contains(ord[k]));
        let j = choose|j: int| 0 <= j < indices(n).len() && indices(n)[j] == ord[k];
        assert(indices(n)[j] == j as usize);
    }
    lemma_add_size_commutes(dims);
    lemma_fold_left_permutation(ord, indices(n), add_size(dims), 0nat);
}

/// Shape and sub-cube layout of concatenated matrices.
#[derive(Clone, Debug)]
pub struct ConcatMatsMeta {
    /// Number of variables of the concatenated polynomial.
    pub log_b: usize,
    /// Shapes of the matrices, in the order they were given.
    pub dimensions: Vec<Dimensions>,
    /// Range of the concatenated evaluations taken by each matrix, in the order they were given.
    pub ranges: Vec<core::ops::Range<usize>>,
}

impl ConcatMatsMeta {
    /// The ranges are the layout of the dimensions and `log_b` covers them.
    pub open spec fn wf(&self) -> bool {
        &&& is_layout(self.dimensions@, self.ranges@)
        &&& self.log_b == log2_ceil(max_end(self.ranges@))
        &&& forall|i: int|
            0 <= i < self.dimensions@.len() ==> next_pow2(#[trigger] self.dimensions@[i].width as nat)
                <= usize::MAX
    }

    /// Lays out matrices of the given shapes: by decreasing number of entries (equal ones in
    /// their given order), one after the other from 0, each taking its height times its width
    /// rounded up to a power of two.
    pub fn new(dims: Vec<Dimensions>) -> (r: Self)
        requires
            total_size(dims@) <= usize::MAX,
            forall|i: int| 0 <= i < dims@.len() ==> next_pow2(#[trigger] dims@[i].width as nat) <= usize::MAX,
        ensures
            r.dimensions@ == dims@,
            r.wf(),
    {
        let n = dims.len();
        let ghost total = total_size(dims@);
        let mut keys: Vec<usize> = Vec::new();
        let mut sizes: Vec<usize> = Vec::new();
        let mut i: usize = 0;
        while i < n
            invariant
                n == dims@.len(),
                i <= n,
                total == total_size(dims@),
                total <= usize::MAX,
                forall|j: int| 0 <= j < n ==> next_pow2(#[trigger] dims@[j].width as nat) <= usize::MAX,
                keys@.len() == i,
                sizes@.len() == i,
                forall|j: int| 0 <= j < i ==> #[trigger] keys@[j] == sort_key(dims@[j]),
                forall|j: int| 0 <= j < i ==> #[trigger] sizes@[j] == mat_size(dims@[j]),
            decreases n - i,
        {
            let d = dims[i];
            let pw = next_power_of_two(d.width);
            proof {
                lemma_sizes_take_step(dims@, indices(n as nat), i as int);
                lemma_sizes_prefix_le(dims@, indices(n as nat), i + 1);
                lemma_next_pow2_bound(d.width as nat);
                assert(mat_size(d) <= total);
                assert((d.width as nat) * (d.height as nat) <= (pw as nat) * (d.height as nat)) by (nonlinear_arith)
                    requires
                        d.width <= pw,
                ;
            }
            let size = pw * d.height;
            let key = d.width * d.height;
            keys.push(key);
            sizes.push(size);
            i = i + 1;
        }
        let ord = order_by_key_desc(&keys);
        let ghost o = ord@;
        proof {
            assert(is_layout_order(dims@, o)) by {
                assert forall|k: int| 0 <= k < o.len() implies #[trigger] o[k] < n by {
                    broadcast use vstd::seq_lib::group_to_multiset_ensures;
                    assert(o.to_multiset().count(o[k]) > 0);
                    assert(indices(n as nat).contains(o[k]));
                    let j = choose|j: int| 0 <= j < n && indices(n as nat)[j] == o[k];
                }
                assert forall|a: int, b: int| 0 <= a < b < o.len() implies sort_key(
                    dims@[#[trigger] o[a] as int],
                ) > sort_key(dims@[#[trigger] o[b] as int]) || (sort_key(dims@[o[a] as int])
                    == sort_key(dims@[o[b] as int]) && o[a] < o[b]) by {
                    assert(at(keys@, o[a]) == keys@[o[a] as int]);
                    assert(at(keys@, o[b]) == keys@[o[b] as int]);
                }
            }
            lemma_order_indices(dims@, o);
        }
        let mut ranges: Vec<core::ops::Range<usize>> = Vec::new();
        let mut i: usize = 0;
        while i < n
            invariant
                i <= n,
                ranges@.len() == i,
            decreases n - i,
        {
            ranges.push(0..0);
            i = i + 1;
        }
        let mut offset: usize = 0;
        let mut k: usize = 0;
        while k < n
            invariant
                n == dims@.len(),
                o == ord@,
                is_layout_order(dims@, o),
                forall|q: int| 0 <= q < o.len() ==> #[trigger] o[q] < n,
                forall|a: int, b: int| 0 <= a < b < o.len() ==> #[trigger] o[a] != #[trigger] o[b],
                sizes_sum(dims@, o) <= usize::MAX,
                sizes@.len() == n,
                forall|j: int| 0 <= j < n ==> #[trigger] sizes@[j] == mat_size(dims@[j]),
                k <= n,
                ranges@.len() == n,
                offset == sizes_sum(dims@, o.take(k as int)),
                forall|a: int|
                    0 <= a < k ==> {
                        let j = #[trigger] o[a] as int;
                        &&& ranges@[j].start == sizes_sum(dims@, o.take(a))
                        &&& ranges@[j].end == ranges@[j].start + mat_size(dims@[j])
                    },
            decreases n - k,
        {
            let j = ord[k];
            proof {
                lemma_sizes_take_step(dims@, o, k as int);
                lemma_sizes_prefix_le(dims@, o, k + 1);
            }
            let end = offset + sizes[j];
            ranges.set(j, offset..end);
            offset = end;
            k = k + 1;
        }
        proof {
            assert(laid_out_along(dims@, ranges@, o));
        }
        let mut m: usize = 0;
        let mut i: usize = 0;
        while i < n
            invariant
                i <= n,
                ranges@.len() == n,
                m == max_end(ranges@.take(i as int)),
            decreases n - i,
        {
            assert(ranges@.take(i + 1).drop_last() =~= ranges@.take(i as int));
            if ranges[i].end > m {
                m = ranges[i].end;
            }
            i = i + 1;
        }
        assert(ranges@.take(n as int) =~= ranges@);
        let log_b = log2_ceil_usize(m);
        ConcatMatsMeta { log_b, dimensions: dims, ranges }
    }
}

/// The largest `ceil(log2(width))` over the shapes, `0` when there are none.
pub open spec fn max_log_width(dims: Seq<Dimensions>) -> nat
    decreases dims.len(),
{
    if dims.len() == 0 {
        0
    } else {
        let m = max_log_width(dims.drop_last());
        let l = log2_ceil(dims.last().width as nat);
        if l > m {
            l
        } else {
            m
        }
    }
}

impl ConcatMatsMeta {
    /// The number of variables needed to index a column of the widest matrix.
    pub fn max_log_width(&self) -> (r: usize)
        ensures
            r == max_log_width(self.dimensions@),
    {
        let n = self.dimensions.len();
        let mut m: usize = 0;
        let mut i: usize = 0;
        while i < n
            invariant
                n == self.dimensions@.len(),
                i <= n,
                m == max_log_width(self.dimensions@.take(i as int)),
            decreases n - i,
        {
            assert(self.dimensions@.take(i + 1).drop_last() =~= self.dimensions@.take(i as int));
            let l = log2_ceil_usize(self.dimensions[i].width);
            if l > m {
                m = l;
            }
            i = i + 1;
        }
        assert(self.dimensions@.take(n as int) =~= self.dimensions@);
        m
    }
}

/// In a layout order, a matrix placed earlier ends no later than a later one starts.
proof fn lemma_along_ordered(
    dims: Seq<Dimensions>,
    ranges: Seq<core::ops::Range<usize>>,
    ord: Seq<usize>,
    a: int,
    b: int,
)
    requires
        is_layout_order(dims, ord),
        laid_out_along(dims, ranges, ord),
        0 <= a < b < ord.len(),
    ensures
        ranges[ord[a] as int].end <= ranges[ord[b] as int].start,
{
    lemma_order_indices(dims, ord);
    lemma_sizes_take_step(dims, ord, a);
    assert(ord.take(b).take(a + 1) =~= ord.take(a + 1));
    lemma_sizes_prefix_le(dims, ord.take(b), a + 1);
}

/// Every index of the matrices has a place in a layout order.
proof fn lemma_order_covers(dims: Seq<Dimensions>, ord: Seq<usize>, i: int) -> (a: int)
    requires
        is_layout_order(dims, ord),
        0 <= i < dims.len(),
    ensures
        0 <= a < ord.len(),
        ord[a] == i,
{
    broadcast use vstd::seq_lib::group_to_multiset_ensures;

    assert(indices(dims.len())[i] == i as usize);
    assert(indices(dims.len()).contains(i as usize));
    assert(ord.to_multiset().count(i as usize) > 0);
    assert(ord.contains(i as usize));
    let a = choose|a: int| 0 <= a < ord.len() && ord[a] == i as usize;
    a
}

/// In a layout, each matrix takes its padded size, the ranges of two matrices never overlap,
/// and together they end at the total size.
pub proof fn lemma_layout_disjoint(dims: Seq<Dimensions>, ranges: Seq<core::ops::Range<usize>>)
    requires
        is_layout(dims, ranges),
    ensures
        ranges.len() == dims.len(),
        forall|i: int|
            0 <= i < ranges.len() ==> #[trigger] ranges[i].end == ranges[i].start + mat_size(
                dims[i],
            ) && ranges[i].end <= total_size(dims),
        forall|i: int, j: int|
            0 <= i < ranges.len() && 0 <= j < ranges.len() && i != j ==> #[trigger] ranges[i].end
                <= #[trigger] ranges[j].start || ranges[j].end <= ranges[i].start,
        max_end(ranges) == total_size(dims),
{
    let ord = choose|ord: Seq<usize>| is_layout_order(dims, ord) && laid_out_along(dims, ranges, ord);
    lemma_order_indices(dims, ord);
    assert forall|i: int| 0 <= i < ranges.len() implies #[trigger] ranges[i].end == ranges[i].start
        + mat_size(dims[i]) && ranges[i].end <= total_size(dims) by {
        let a = lemma_order_covers(dims, ord, i);
        lemma_sizes_take_step(dims, ord, a);
        lemma_sizes_prefix_le(dims, ord, a + 1);
    }
    assert forall|i: int, j: int|
        0 <= i < ranges.len() && 0 <= j < ranges.len() && i != j implies #[trigger] ranges[i].end
            <= #[trigger] ranges[j].start || ranges[j].end <= ranges[i].start by {
        let a = lemma_order_covers(dims, ord, i);
        let b = lemma_order_covers(dims, ord, j);
        if a < b {
            lemma_along_ordered(dims, ranges, ord, a, b);
        } else {
            lemma_along_ordered(dims, ranges, ord, b, a);
        }
    }
    lemma_max_end_le(ranges, total_size(dims));
    let n = dims.len();
    if n > 0 {
        let i = ord[n - 1] as int;
        lemma_sizes_take_step(dims, ord, n - 1);
        assert(ord.take(n as int) =~= ord);
        lemma_max_end_ge(ranges, i);
    } else {
        assert(indices(0) =~= Seq::<usize>::empty());
    }
}

/// The largest end is at least the end of every range.
proof fn lemma_max_end_ge(ranges: Seq<core::ops::Range<usize>>, i: int)
    requires
        0 <= i < ranges.len(),
    ensures
        max_end(ranges) >= ranges[i].end,
    decreases ranges.len(),
{
    if i < ranges.len() - 1 {
        lemma_max_end_ge(ranges.drop_last(), i);
    }
}

/// The largest end is at most any bound on every end.
proof fn lemma_max_end_le(ranges: Seq<core::ops::Range<usize>>, bound: nat)
    requires
        forall|i: int| 0 <= i < ranges.len() ==> #[trigger] ranges[i].end <= bound,
    ensures
        max_end(ranges) <= bound,
    decreases ranges.len(),
{
    if ranges.len() > 0 {
        lemma_max_end_le(ranges.drop_last(), bound);
    }
}

/// A dense matrix of field elements (canonical `u32` values), stored row after row.
#[derive(Clone, Debug, PartialEq, Eq)]
pub struct RowMajorMatrix {
    pub values: Vec<u32>,
    pub width: usize,
}

impl RowMajorMatrix {
    /// The values fill whole rows (none when the width is zero).
    pub open spec fn wf(&self) -> bool {
        if self.width == 0 {
            self.values@.len() == 0
        } else {
            self.values@.len() % (self.width as nat) == 0
        }
    }

    /// Number of rows.
    pub open spec fn rows(&self) -> nat {
        if self.width == 0 {
            0
        } else {
            self.values@.len() / (self.width as nat)
        }
    }

    /// Shape of the matrix.
    pub fn dimensions(&self) -> (d: Dimensions)
        ensures
            d.width == self.width,
            d.height == self.rows(),
    {
        if self.width == 0 {
            Dimensions { width: 0, height: 0 }
        } else {
            Dimensions { width: self.width, height: self.values.len() / self.width }
        }
    }
}

/// Shapes of the matrices.
pub open spec fn dims_of(mats: Seq<RowMajorMatrix>) -> Seq<Dimensions> {
    mats.map_values(|m: RowMajorMatrix| Dimensions { width: m.width, height: m.rows() as usize })
}

/// The value at offset `o` of the sub-cube of a matrix with values `m`, width `w`, rows padded
/// to `pw` columns: the entry at row `o / pw`, column `o % pw`, or zero in the padding.
pub open spec fn cell(m: Seq<u32>, w: nat, pw: nat, o: int) -> u32 {
    if o % (pw as int) < w {
        m[(o / (pw as int)) * (w as int) + o % (pw as int)]
    } else {
        0
    }
}

/// The value at offset `o` of the sub-cube of the `i`-th matrix.
pub open spec fn mat_cell(mats: Seq<RowMajorMatrix>, i: int, o: int) -> u32 {
    cell(mats[i].values@, mats[i].width as nat, next_pow2(mats[i].width as nat), o)
}

/// `values` holds each matrix in its range and zeros beyond the last range.
pub open spec fn holds_concat(
    values: Seq<u32>,
    mats: Seq<RowMajorMatrix>,
    ranges: Seq<core::ops::Range<usize>>,
) -> bool {
    &&& forall|i: int, p: int|
        #![trigger ranges[i], values[p]]
        0 <= i < mats.len() && ranges[i].start <= p < ranges[i].end ==> values[p] == mat_cell(
            mats,
            i,
            p - ranges[i].start,
        )
    &&& forall|p: int| total_size(dims_of(mats)) <= p < values.len() ==> #[trigger] values[p] == 0
}

/// What the concatenated evaluations hold at `p` once the first `k` matrices are copied in.
pub open spec fn filled(mats: Seq<RowMajorMatrix>, ranges: Seq<core::ops::Range<usize>>, k: nat, p: int) -> u32
    decreases k,
{
    if k == 0 {
        0
    } else if ranges[k - 1].start <= p < ranges[k - 1].end {
        mat_cell(mats, k - 1, p - ranges[k - 1].start)
    } else {
        filled(mats, ranges, (k - 1) as nat, p)
    }
}

/// Before the matrix whose range holds `p` is copied in, `p` holds zero.
proof fn lemma_filled_before(
    mats: Seq<RowMajorMatrix>,
    ranges: Seq<core::ops::Range<usize>>,
    k: nat,
    p: int,
)
    requires
        forall|j: int| 0 <= j < k ==> !(ranges[j].start <= p < #[trigger] ranges[j].end),
    ensures
        filled(mats, ranges, k, p) == 0,
    decreases k,
{
    if k > 0 {
        lemma_filled_before(mats, ranges, (k - 1) as nat, p);
    }
}

/// Once copied in, a matrix stays in its range: no other range overlaps it.
proof fn lemma_filled_owner(
    mats: Seq<RowMajorMatrix>,
    ranges: Seq<core::ops::Range<usize>>,
    k: nat,
    i: int,
    p: int,
)
    requires
        0 <= i < k <= ranges.len(),
        ranges[i].start <= p < ranges[i].end,
        forall|a: int, b: int|
            0 <= a < ranges.len() && 0 <= b < ranges.len() && a != b ==> #[trigger] ranges[a].end
                <= #[trigger] ranges[b].start || ranges[b].end <= ranges[a].start,
    ensures
        filled(mats, ranges, k, p) == mat_cell(mats, i, p - ranges[i].start),
    decreases k,
{
    if k - 1 != i {
        assert(ranges[i].end <= ranges[k - 1].start || ranges[k - 1].end <= ranges[i].start);
        lemma_filled_owner(mats, ranges, (k - 1) as nat, i, p);
    }
}

/// `(r * pw + c) / pw == r` and `(r * pw + c) % pw == c` for a column `c < pw`.
proof fn lemma_row_col(pw: int, r: int, c: int)
    requires
        pw > 0,
        r >= 0,
        0 <= c < pw,
    ensures
        (r * pw + c) / pw == r,
        (r * pw + c) % pw == c,
{
    vstd::arithmetic::div_mod::lemma_fundamental_div_mod_converse(r * pw + c, pw, r, c);
}

/// `next_pow2` grows with its argument.
proof fn lemma_next_pow2_monotone(a: nat, b: nat)
    requires
        a <= b,
    ensures
        next_pow2(a) <= next_pow2(b),
{
    lemma_log2_ceil_monotone(a, b);
    if log2_ceil(a) < log2_ceil(b) {
        vstd::arithmetic::power2::lemma_pow2_strictly_increases(log2_ceil(a), log2_ceil(b));
    }
}

/// `log2_ceil` grows with its argument.
proof fn lemma_log2_ceil_monotone(a: nat, b: nat)
    requires
        a <= b,
    ensures
        log2_ceil(a) <= log2_ceil(b),
    decreases b,
{
    if a > 1 {
        lemma_log2_ceil_monotone(((a + 1) / 2) as nat, ((b + 1) / 2) as nat);
    }
}

/// Matrices concatenated into the evaluations of one multilinear polynomial.
#[derive(Clone, Debug)]
pub struct ConcatMats {
    /// The concatenated evaluations.
    pub values: Vec<u32>,
    /// Where each matrix lies in them.
    pub meta: ConcatMatsMeta,
}

/// Copies the rows of matrix `k` into its range, each row at the start of a chunk of `pw`
/// values; the padding stays zero.
#[verifier::rlimit(40)]
fn copy_rows(
    values: &mut Vec<u32>,
    mats: &Vec<RowMajorMatrix>,
    ranges: &Vec<core::ops::Range<usize>>,
    k: usize,
    pw: usize,
)
    requires
        0 <= k < mats@.len(),
        ranges@.len() == mats@.len(),
        mats@[k as int].wf(),
        pw == next_pow2(mats@[k as int].width as nat),
        ranges@[k as int].end == ranges@[k as int].start + pw * mats@[k as int].rows(),
        ranges@[k as int].end <= old(values)@.len(),
        forall|o: int|
            0 <= o < pw * mats@[k as int].rows() ==> #[trigger] old(values)@[ranges@[k as int].start + o] == 0,
    ensures
        final(values)@.len() == old(values)@.len(),
        forall|p: int|
            0 <= p < old(values)@.len() && !(ranges@[k as int].start <= p < ranges@[k as int].end)
                ==> #[trigger] final(values)@[p] == old(values)@[p],
        forall|o: int|
            0 <= o < pw * mats@[k as int].rows() ==> #[trigger] final(values)@[ranges@[k as int].start + o]
                == mat_cell(mats@, k as int, o),
{
    let m = &mats[k];
    let w = m.width;
    let start = ranges[k].start;
    let ghost h = m.rows();
    let ghost size = pw * h;
    let ghost mv = m.values@;
    proof {
        lemma_next_pow2_bound(w as nat);
        if w > 0 {
            vstd::arithmetic::div_mod::lemma_fundamental_div_mod(mv.len() as int, w as int);
            assert(mv.len() == h * w) by (nonlinear_arith)
                requires
                    mv.len() == (w as int) * (mv.len() as int / w as int) + mv.len() as int % w as int,
                    mv.len() as int % w as int == 0,
                    h == mv.len() as int / w as int,
            ;
        }
    }
    let mlen = m.values.len();
    let height: usize = if w == 0 { 0 } else { mlen / w };
    assert(height == h);
    let mut r: usize = 0;
    while r < height
        invariant
            m == &mats@[k as int],
            mv == m.values@,
            w == m.width,
            w <= pw,
            pw >= 1,
            height == h,
            mv.len() == h * w,
            mv.len() == mlen,
            size == pw * h,
            start == ranges@[k as int].start,
            ranges@[k as int].end == start + size,
            ranges@[k as int].end <= old(values)@.len(),
            pw == next_pow2(w as nat),
            r <= height,
            values@.len() == old(values)@.len(),
            forall|p: int|
                0 <= p < old(values)@.len() && !(start <= p < start + size) ==> #[trigger] values@[p]
                    == old(values)@[p],
            forall|o: int| 0 <= o < r * pw ==> #[trigger] values@[start + o] == cell(mv, w as nat, pw as nat, o),
            forall|o: int| r * pw <= o < size ==> #[trigger] values@[start + o] == 0,
        decreases height - r,
    {
        assert(r * pw + pw <= size) by (nonlinear_arith)
            requires
                r < h,
                size == pw * h,
        ;
        assert(r * w + w <= h * w) by (nonlinear_arith)
            requires
                r < h,
        ;
        let row_start = start + r * pw;
        let src = r * w;
        let mut c: usize = 0;
        while c < w
            invariant
                m == &mats@[k as int],
                mv == m.values@,
                w == m.width,
                w <= pw,
                pw >= 1,
                mv.len() == h * w,
                mv.len() == mlen,
                size == pw * h,
                r < height,
                height == h,
                r * pw + pw <= size,
                r * w + w <= h * w,
                row_start == start + r * pw,
                src == r * w,
                start == ranges@[k as int].start,
                ranges@[k as int].end == start + size,
                ranges@[k as int].end <= old(values)@.len(),
                c <= w,
                values@.len() == old(values)@.len(),
                forall|p: int|
                    0 <= p < old(values)@.len() && !(start <= p < start + size) ==> #[trigger] values@[p]
                        == old(values)@[p],
                forall|o: int| 0 <= o < r * pw + c ==> #[trigger] values@[start + o] == cell(mv, w as nat, pw as nat, o),
                forall|o: int| r * pw + c <= o < size ==> #[trigger] values@[start + o] == 0,
            decreases w - c,
        {
            let v = m.values[src + c];
            values.set(row_start + c, v);
            proof {
                lemma_row_col(pw as int, r as int, c as int);
                assert(values@[start + (r * pw + c)] == cell(mv, w as nat, pw as nat, r * pw + c));
            }
            c = c + 1;
        }
        proof {
            assert((r + 1) * pw == r * pw + pw) by (nonlinear_arith);
            assert forall|o: int| 0 <= o < (r + 1) * pw implies #[trigger] values@[start + o] == cell(
                mv,
                w as nat,
                pw as nat,
                o,
            ) by {
                if o >= r * pw + w {
                    lemma_row_col(pw as int, r as int, o - r * pw);
                }
            }
        }
        r = r + 1;
    }
    assert forall|o: int| 0 <= o < pw * mats@[k as int].rows() implies #[trigger] values@[ranges@[k as int].start + o]
        == mat_cell(mats@, k as int, o) by {
        assert(r * pw == size) by (nonlinear_arith)
            requires
                r == h,
                size == pw * h,
        ;
    }
}

impl ConcatMats {
    /// Concatenates matrices: lays them out as `ConcatMatsMeta::new` does, then copies each
    /// into its range, row `r` at offset `r` times the width rounded up to a power of two,
    /// into `2^log_b` evaluations that are zero elsewhere.
    pub fn new(mats: Vec<RowMajorMatrix>) -> (r: Self)
        requires
            forall|i: int| 0 <= i < mats@.len() ==> #[trigger] mats@[i].wf(),
            forall|i: int| 0 <= i < mats@.len() ==> next_pow2(#[trigger] mats@[i].width as nat) <= usize::MAX,
            total_size(dims_of(mats@)) <= usize::MAX,
            next_pow2(total_size(dims_of(mats@))) <= usize::MAX,
        ensures
            r.meta.dimensions@ == dims_of(mats@),
            r.meta.wf(),
            r.values@.len() == pow2(r.meta.log_b as nat),
            holds_concat(r.values@, mats@, r.meta.ranges@),
    {
        let n = mats.len();
        let mut dims: Vec<Dimensions> = Vec::new();
        let mut i: usize = 0;
        while i < n
            invariant
                n == mats@.len(),
                i <= n,
                dims@ == dims_of(mats@).take(i as int),
                forall|j: int| 0 <= j < i ==> #[trigger] mats@[j].rows() <= usize::MAX,
            decreases n - i,
        {
            let d = mats[i].dimensions();
            dims.push(d);
            i = i + 1;
            assert(dims@ =~= dims_of(mats@).take(i as int));
        }
        assert(dims_of(mats@).take(n as int) =~= dims_of(mats@));
        let meta = ConcatMatsMeta::new(dims);
        let ghost ranges = meta.ranges@;
        let ghost total = total_size(dims_of(mats@));
        proof {
            lemma_layout_disjoint(dims_of(mats@), ranges);
            lemma_next_pow2_monotone(max_end(ranges), total);
            lemma_next_pow2_bound(total);
            let l = meta.log_b as nat;
            if l >= usize::BITS {
                vstd::arithmetic::power2::lemma2_to64();
                if l > usize::BITS {
                    vstd::arithmetic::power2::lemma_pow2_strictly_increases(usize::BITS as nat, l);
                }
            }
            vstd::bits::lemma_usize_shl_is_mul(1, meta.log_b);
        }
        let len: usize = 1usize << meta.log_b;
        let mut values: Vec<u32> = Vec::new();
        let mut i: usize = 0;
        while i < len
            invariant
                i <= len,
                values@.len() == i,
                forall|p: int| 0 <= p < i ==> #[trigger] values@[p] == 0,
            decreases len - i,
        {
            values.push(0);
            i = i + 1;
        }
        let mut k: usize = 0;
        while k < n
            invariant
                n == mats@.len(),
                k <= n,
                ranges == meta.ranges@,
                ranges.len() == n,
                forall|j: int| 0 <= j < n ==> #[trigger] mats@[j].wf(),
                forall|j: int| 0 <= j < n ==> #[trigger] mats@[j].rows() <= usize::MAX,
                forall|j: int| 0 <= j < n ==> next_pow2(#[trigger] mats@[j].width as nat) <= usize::MAX,
                forall|j: int|
                    0 <= j < ranges.len() ==> #[trigger] ranges[j].end == ranges[j].start + mat_size(
                        dims_of(mats@)[j],
                    ) && ranges[j].end <= total,
                forall|a: int, b: int|
                    0 <= a < ranges.len() && 0 <= b < ranges.len() && a != b ==> #[trigger] ranges[a].end
                        <= #[trigger] ranges[b].start || ranges[b].end <= ranges[a].start,
                total <= len,
                values@.len() == len,
                forall|p: int| 0 <= p < len ==> #[trigger] values@[p] == filled(mats@, ranges, k as nat, p),
            decreases n - k,
        {
            let pw = next_power_of_two(mats[k].width);
            let ghost before = values@;
            proof {
                assert(dims_of(mats@)[k as int].height == mats@[k as int].rows());
                assert(ranges[k as int].end == ranges[k as int].start + pw * mats@[k as int].rows());
                assert forall|o: int| 0 <= o < pw * mats@[k as int].rows() implies #[trigger] before[ranges[k as int].start + o] == 0 by {
                    let p = ranges[k as int].start + o;
                    assert forall|j: int| 0 <= j < k implies !(ranges[j].start <= p < #[trigger] ranges[j].end) by {
                        assert(ranges[j].end <= ranges[k as int].start || ranges[k as int].end <= ranges[j].start);
                    }
                    lemma_filled_before(mats@, ranges, k as nat, p);
                }
            }
            copy_rows(&mut values, &mats, &meta.ranges, k, pw);
            proof {
                assert forall|p: int| 0 <= p < len implies #[trigger] values@[p] == filled(mats@, ranges, (k + 1) as nat, p) by {
                    if ranges[k as int].start <= p < ranges[k as int].end {
                        assert(values@[ranges[k as int].start + (p - ranges[k as int].start)] == mat_cell(mats@, k as int, p - ranges[k as int].start));
                    }
                }
            }
            k = k + 1;
        }
        proof {
            assert forall|i: int, p: int|
                #![trigger ranges[i], values@[p]]
                0 <= i < mats@.len() && ranges[i].start <= p < ranges[i].end implies values@[p] == mat_cell(
                    mats@,
                    i,
                    p - ranges[i].start,
                ) by {
                lemma_filled_owner(mats@, ranges, n as nat, i, p);
            }
            assert forall|p: int| total <= p < values@.len() implies #[trigger] values@[p] == 0 by {
                lemma_filled_before(mats@, ranges, n as nat, p);
            }
        }
        ConcatMats { values, meta }
    }
}

/// The `h` rows of width `w` stored from `start` in chunks of `pw` values.
pub open spec fn extract(values: Seq<u32>, start: int, w: nat, pw: nat, h: nat) -> Seq<u32> {
    Seq::new(h * w, |q: int| values[start + (q / (w as int)) * (pw as int) + q % (w as int)])
}

impl ConcatMats {
    /// The layout is well formed and the evaluations cover its `2^log_b` points.
    pub open spec fn wf(&self) -> bool {
        &&& self.meta.wf()
        &&& self.values@.len() == pow2(self.meta.log_b as nat)
    }

    /// The `idx`-th matrix, read back from its range without the row padding.
    pub fn mat(&self, idx: usize) -> (m: RowMajorMatrix)
        requires
            self.wf(),
            idx < self.meta.dimensions@.len(),
        ensures
            m.width == self.meta.dimensions@[idx as int].width,
            m.values@ == extract(
                self.values@,
                self.meta.ranges@[idx as int].start as int,
                m.width as nat,
                next_pow2(m.width as nat),
                self.meta.dimensions@[idx as int].height as nat,
            ),
    {
        let ghost dims = self.meta.dimensions@;
        let ghost ranges = self.meta.ranges@;
        proof {
            lemma_layout_disjoint(dims, ranges);
            lemma_next_pow2_monotone(max_end(ranges), total_size(dims));
            lemma_next_pow2_bound(max_end(ranges));
        }
        let d = self.meta.dimensions[idx];
        let w = d.width;
        let h = d.height;
        let start = self.meta.ranges[idx].start;
        let pw = next_power_of_two(w);
        let ghost target = extract(self.values@, start as int, w as nat, pw as nat, h as nat);
        proof {
            lemma_next_pow2_bound(w as nat);
            assert(ranges[idx as int].end == start + mat_size(dims[idx as int]));
            assert(mat_size(dims[idx as int]) == pw * h);
            assert(ranges[idx as int].end <= total_size(dims));
            assert(max_end(ranges) == total_size(dims));
            assert(self.values@.len() == next_pow2(max_end(ranges)));
            assert(start + pw * h <= self.values@.len());
        }
        let vlen = self.values.len();
        let mut out: Vec<u32> = Vec::new();
        let mut r: usize = 0;
        while r < h
            invariant
                vlen == self.values@.len(),
                r <= h,
                w <= pw,
                pw >= 1,
                start + pw * h <= self.values@.len(),
                target == extract(self.values@, start as int, w as nat, pw as nat, h as nat),
                out@ == target.take(r * w),
            decreases h - r,
        {
            assert(r * pw + pw <= pw * h) by (nonlinear_arith)
                requires
                    r < h,
            ;
            assert(r * w + w <= h * w) by (nonlinear_arith)
                requires
                    r < h,
            ;
            let base = start + r * pw;
            let mut c: usize = 0;
            while c < w
                invariant
                    vlen == self.values@.len(),
                    r < h,
                    w <= pw,
                    pw >= 1,
                    r * pw + pw <= pw * h,
                    r * w + w <= h * w,
                    base == start + r * pw,
                    start + pw * h <= self.values@.len(),
                    target == extract(self.values@, start as int, w as nat, pw as nat, h as nat),
                    c <= w,
                    out@ == target.take(r * w + c),
                decreases w - c,
            {
                out.push(self.values[base + c]);
                proof {
                    lemma_row_col(w as int, r as int, c as int);
                    assert(target[r * w + c] == self.values@[base + c]);
                    assert(out@ =~= target.take(r * w + c + 1));
                }
                c = c + 1;
            }
            assert((r + 1) * w == r * w + w) by (nonlinear_arith);
            r = r + 1;
        }
        assert(target.take(h * w) =~= target);
        RowMajorMatrix { values: out, width: w }
    }
}

/// Reading a matrix back out of the concatenation of well-formed matrices gives its values.
pub proof fn lemma_concat_mat_roundtrip(
    mats: Seq<RowMajorMatrix>,
    values: Seq<u32>,
    ranges: Seq<core::ops::Range<usize>>,
    i: int,
)
    requires
        forall|j: int| 0 <= j < mats.len() ==> #[trigger] mats[j].wf(),
        forall|j: int| 0 <= j < mats.len() ==> #[trigger] mats[j].rows() <= usize::MAX,
        is_layout(dims_of(mats), ranges),
        holds_concat(values, mats, ranges),
        0 <= i < mats.len(),
    ensures
        extract(
            values,
            ranges[i].start as int,
            mats[i].width as nat,
            next_pow2(mats[i].width as nat),
            mats[i].rows(),
        ) == mats[i].values@,
{
    let m = mats[i];
    assert(m.wf());
    let w = m.width as int;
    let pw = next_pow2(m.width as nat) as int;
    let h = m.rows() as int;
    let e = extract(values, ranges[i].start as int, w as nat, pw as nat, h as nat);
    lemma_layout_disjoint(dims_of(mats), ranges);
    lemma_next_pow2_bound(m.width as nat);
    assert(dims_of(mats)[i].height == h);
    if w > 0 {
        vstd::arithmetic::div_mod::lemma_fundamental_div_mod(m.values@.len() as int, w);
        assert(m.values@.len() == h * w) by (nonlinear_arith)
            requires
                m.values@.len() == w * (m.values@.len() as int / w) + m.values@.len() as int % w,
                m.values@.len() as int % w == 0,
                h == m.values@.len() as int / w,
        ;
        assert forall|q: int| 0 <= q < h * w implies #[trigger] e[q] == m.values@[q] by {
            let r = q / w;
            let c = q % w;
            vstd::arithmetic::div_mod::lemma_fundamental_div_mod(q, w);
            assert(0 <= r < h) by (nonlinear_arith)
                requires
                    q == w * r + c,
                    0 <= c < w,
                    0 <= q < h * w,
            ;
            assert(r * pw + c < pw * h) by (nonlinear_arith)
                requires
                    0 <= r < h,
                    0 <= c < w,
                    w <= pw,
            ;
            lemma_row_col(pw, r, c);
            let p = ranges[i].start + (r * pw + c);
            assert(values[p] == mat_cell(mats, i, p - ranges[i].start));
            assert(r * w + c == q) by (nonlinear_arith)
                requires
                    q == w * r + c,
            ;
        }
    } else {
        assert(m.values@.len() == 0);
        assert(h * w == 0) by (nonlinear_arith)
            requires
                w == 0,
        ;
    }
    assert(e =~= m.values@);
}

/// `n` is a power of two.
pub open spec fn is_power_of_2(n: nat) -> bool {
    exists|e: nat| pow2(e) == n
}

/// For `n >= 2`, half of `next_pow2(n)` is still below `n`.
proof fn lemma_next_pow2_half(n: nat)
    requires
        n >= 2,
    ensures
        log2_ceil(n) >= 1,
        pow2((log2_ceil(n) - 1) as nat) < n,
    decreases n,
{
    let h = ((n + 1) / 2) as nat;
    assert(2 * h <= n + 1);
    if h >= 2 {
        lemma_next_pow2_half(h);
        lemma_pow2_unfold(log2_ceil(h));
    } else {
        vstd::arithmetic::power2::lemma2_to64();
    }
}

/// `next_pow2(n) < 2 * n` for `n >= 1`.
proof fn lemma_next_pow2_tight(n: nat)
    requires
        n >= 1,
    ensures
        next_pow2(n) < 2 * n,
{
    if n >= 2 {
        lemma_next_pow2_half(n);
        lemma_pow2_unfold(log2_ceil(n));
    } else {
        vstd::arithmetic::power2::lemma2_to64();
    }
}

/// A power of two is a multiple of every smaller or equal power of two.
proof fn lemma_pow2_divides(a: nat, b: nat)
    requires
        pow2(b) <= pow2(a),
    ensures
        pow2(a) % pow2(b) == 0,
        b <= a,
{
    if a < b {
        vstd::arithmetic::power2::lemma_pow2_strictly_increases(a, b);
    }
    vstd::arithmetic::power2::lemma_pow2_adds((a - b) as nat, b);
    vstd::arithmetic::power2::lemma_pow2_pos(b);
    vstd::arithmetic::div_mod::lemma_mod_multiples_basic(pow2((a - b) as nat) as int, pow2(b) as int);
}

/// The size of a matrix of positive width and power-of-two height is a power of two, between
/// its number of entries and twice that.
proof fn lemma_size_of_pow2(d: Dimensions) -> (x: nat)
    requires
        d.width >= 1,
        is_power_of_2(d.height as nat),
    ensures
        mat_size(d) == pow2(x),
        sort_key(d) <= mat_size(d) < 2 * sort_key(d),
{
    let e = choose|e: nat| pow2(e) == d.height as nat;
    lemma_next_pow2_bound(d.width as nat);
    lemma_next_pow2_tight(d.width as nat);
    vstd::arithmetic::power2::lemma_pow2_adds(log2_ceil(d.width as nat), e);
    vstd::arithmetic::power2::lemma_pow2_pos(e);
    let pw = next_pow2(d.width as nat);
    let h = d.height as nat;
    assert((d.width as nat) * h <= pw * h && pw * h < 2 * ((d.width as nat) * h)) by (nonlinear_arith)
        requires
            d.width <= pw < 2 * d.width,
            h >= 1,
    ;
    log2_ceil(d.width as nat) + e
}

/// A sum of multiples of `m` is a multiple of `m`.
proof fn lemma_sizes_multiple(dims: Seq<Dimensions>, s: Seq<usize>, m: nat)
    requires
        m > 0,
        forall|a: int| 0 <= a < s.len() ==> #[trigger] mat_size(dims[s[a] as int]) % m == 0,
    ensures
        sizes_sum(dims, s) % m == 0,
    decreases s.len(),
{
    if s.len() > 0 {
        let t = s.drop_last();
        assert forall|a: int| 0 <= a < t.len() implies #[trigger] mat_size(dims[t[a] as int]) % m == 0 by {
            assert(t[a] == s[a]);
        }
        lemma_sizes_multiple(dims, t, m);
        let x = sizes_sum(dims, t);
        let y = mat_size(dims[s.last() as int]);
        assert(y % m == 0);
        assert(sizes_sum(dims, s) == x + y);
        vstd::arithmetic::div_mod::lemma_add_mod_noop(x as int, y as int, m as int);
        assert(0int % (m as int) == 0);
    }
}

/// In a layout order of matrices of positive widths and power-of-two heights, the size of an
/// earlier matrix is a multiple of the size of a later one.
proof fn lemma_earlier_size_multiple(dims: Seq<Dimensions>, ord: Seq<usize>, a: int, k: int)
    requires
        is_layout_order(dims, ord),
        forall|i: int| 0 <= i < dims.len() ==> (#[trigger] dims[i]).width >= 1 && is_power_of_2(dims[i].height as nat),
        0 <= a < k < ord.len(),
    ensures
        mat_size(dims[ord[a] as int]) % mat_size(dims[ord[k] as int]) == 0,
{
    lemma_order_indices(dims, ord);
    let da = dims[ord[a] as int];
    let dk = dims[ord[k] as int];
    let xa = lemma_size_of_pow2(da);
    let xk = lemma_size_of_pow2(dk);
    assert(sort_key(da) >= sort_key(dk));
    if xa < xk {
        if xa + 1 < xk {
            vstd::arithmetic::power2::lemma_pow2_strictly_increases(xa + 1, xk);
        }
        lemma_pow2_unfold(xa + 1);
        assert(false);
    }
    if xa > xk {
        vstd::arithmetic::power2::lemma_pow2_strictly_increases(xk, xa);
    }
    lemma_pow2_divides(xa, xk);
}

/// When every matrix has a positive width and a power-of-two height, each range starts at a
/// multiple of its own size: the matrices lie in aligned sub-cubes.
pub proof fn lemma_layout_aligned(dims: Seq<Dimensions>, ranges: Seq<core::ops::Range<usize>>)
    requires
        is_layout(dims, ranges),
        forall|i: int| 0 <= i < dims.len() ==> (#[trigger] dims[i]).width >= 1 && is_power_of_2(dims[i].height as nat),
    ensures
        forall|i: int| 0 <= i < ranges.len() ==> (#[trigger] ranges[i].start as nat) % mat_size(dims[i]) == 0,
{
    let ord = choose|ord: Seq<usize>| is_layout_order(dims, ord) && laid_out_along(dims, ranges, ord);
    lemma_order_indices(dims, ord);
    assert forall|i: int| 0 <= i < ranges.len() implies (#[trigger] ranges[i].start as nat) % mat_size(dims[i]) == 0 by {
        let k = lemma_order_covers(dims, ord, i);
        let xk = lemma_size_of_pow2(dims[i]);
        vstd::arithmetic::power2::lemma_pow2_pos(xk);
        let pre = ord.take(k);
        assert forall|a: int| 0 <= a < pre.len() implies #[trigger] mat_size(dims[pre[a] as int]) % mat_size(dims[i]) == 0 by {
            lemma_earlier_size_multiple(dims, ord, a, k);
        }
        lemma_sizes_multiple(dims, pre, mat_size(dims[i]));
    }
}

/// The exponent of a power of two.
pub open spec fn exp_of(n: nat) -> nat {
    choose|e: nat| pow2(e) == n
}

/// Calls `p3_util::log2_strict_usize`: the exponent of `n`, which must be a power of two (the
/// function asserts it).
#[verifier::external_body]
pub(crate) fn log2_strict_usize(n: usize) -> (r: usize)
    requires
        is_power_of_2(n as nat),
    ensures
        pow2(r as nat) == n,
{
    p3_util::log2_strict_usize(n)
}

/// `log2_ceil(n)` is at most any exponent whose power of two reaches `n`.
proof fn lemma_log2_ceil_le(n: nat, e: nat)
    requires
        pow2(e) >= n,
    ensures
        log2_ceil(n) <= e,
    decreases n,
{
    if n > 1 {
        vstd::arithmetic::power2::lemma2_to64();
        if e == 0 {
            assert(false);
        }
        lemma_pow2_unfold(e);
        lemma_log2_ceil_le(((n + 1) / 2) as nat, (e - 1) as nat);
    }
}

impl ConcatMatsMeta {
    /// The values of the variables `l .. log_b` that select the sub-cube of matrix `idx`, where
    /// its range has `2^l` points: bit `i` of the start of the range, for each such `i` in
    /// increasing order.
    pub fn sub_cube_selector(&self, idx: usize) -> (bits: Vec<bool>)
        requires
            self.wf(),
            idx < self.dimensions@.len(),
            is_power_of_2(mat_size(self.dimensions@[idx as int])),
        ensures
            ({
                let l = exp_of(mat_size(self.dimensions@[idx as int]));
                let start = self.ranges@[idx as int].start as nat;
                &&& bits@.len() == self.log_b - l
                &&& forall|k: int|
                    0 <= k < bits@.len() ==> #[trigger] bits@[k] == ((start / pow2(l + k as nat)) % 2
                        == 1)
            }),
    {
        let ghost dims = self.dimensions@;
        let ghost ranges = self.ranges@;
        proof {
            lemma_layout_disjoint(dims, ranges);
        }
        let start = self.ranges[idx].start;
        let len = self.ranges[idx].end - self.ranges[idx].start;
        let l = log2_strict_usize(len);
        let ghost size = mat_size(dims[idx as int]);
        proof {
            let e = choose|e: nat| pow2(e) == size;
            if e < l {
                vstd::arithmetic::power2::lemma_pow2_strictly_increases(e, l as nat);
            } else if e > l {
                vstd::arithmetic::power2::lemma_pow2_strictly_increases(l as nat, e);
            }
            assert(exp_of(size) == l);
            vstd::arithmetic::power2::lemma2_to64();
            lemma_max_end_le(ranges, usize::MAX as nat);
            assert(pow2(usize::BITS as nat) > usize::MAX) by {
                if usize::BITS == 32 {
                    assert(usize::MAX == 0xffff_ffffnat);
                } else {
                    assert(usize::MAX == 0xffff_ffff_ffff_ffffnat);
                }
            }
            lemma_log2_ceil_le(max_end(ranges), usize::BITS as nat);
            assert(self.log_b <= usize::BITS);
            lemma_next_pow2_bound(max_end(ranges));
            if l > self.log_b {
                vstd::arithmetic::power2::lemma_pow2_strictly_increases(self.log_b as nat, l as nat);
            }
            assert(l <= self.log_b);
        }
        let mut bits: Vec<bool> = Vec::new();
        let mut i = l;
        while i < self.log_b
            invariant
                l <= i <= self.log_b,
                self.log_b <= usize::BITS,
                bits@.len() == i - l,
                forall|k: int|
                    0 <= k < bits@.len() ==> #[trigger] bits@[k] == ((start as nat / pow2((l + k) as nat))
                        % 2 == 1),
            decreases self.log_b - i,
        {
            let shifted = start >> i;
            let bit = shifted & 1usize;
            proof {
                vstd::bits::lemma_usize_shr_is_div(start, i);
                assert(bit == shifted % 2) by (bit_vector)
                    requires
                        bit == shifted & 1usize,
                ;
            }
            bits.push(bit == 1);
            i = i + 1;
        }
        bits
    }
}

/// When every matrix has a positive width and a power-of-two height, the range of a matrix of
/// `2^l` points is exactly the set of indices that agree with its start on every variable from
/// `l` on: its sub-cube.
pub proof fn lemma_layout_sub_cube(
    dims: Seq<Dimensions>,
    ranges: Seq<core::ops::Range<usize>>,
    i: int,
    p: nat,
    l: nat,
)
    requires
        is_layout(dims, ranges),
        forall|j: int| 0 <= j < dims.len() ==> (#[trigger] dims[j]).width >= 1 && is_power_of_2(dims[j].height as nat),
        0 <= i < dims.len(),
        pow2(l) == mat_size(dims[i]),
    ensures
        (ranges[i].start <= p < ranges[i].end) <==> p / pow2(l) == (ranges[i].start as nat) / pow2(l),
{
    lemma_layout_disjoint(dims, ranges);
    lemma_layout_aligned(dims, ranges);
    let m = pow2(l) as int;
    vstd::arithmetic::power2::lemma_pow2_pos(l);
    let s = ranges[i].start as int;
    assert(s % m == 0);
    let q = s / m;
    vstd::arithmetic::div_mod::lemma_fundamental_div_mod(s, m);
    assert(s == q * m) by (nonlinear_arith)
        requires
            s == m * (s / m) + s % m,
            s % m == 0,
            q == s / m,
    ;
    if s <= p < s + m {
        vstd::arithmetic::div_mod::lemma_fundamental_div_mod_converse(p as int, m, q, p - s);
    }
    if p as int / m == q {
        vstd::arithmetic::div_mod::lemma_fundamental_div_mod(p as int, m);
        assert(s <= p < s + m) by (nonlinear_arith)
            requires
                p == m * (p as int / m) + (p as int) % m,
                0 <= (p as int) % m < m,
                p as int / m == q,
                s == q * m,
        ;
    }
}

/// The `2^log_b` evaluations of the concatenated polynomial hold every range, and `log_b` is
/// the fewest variables that do: with one variable fewer the matrices would not fit.
pub proof fn lemma_log_b_fits(meta: ConcatMatsMeta)
    requires
        meta.wf(),
    ensures
        forall|i: int| 0 <= i < meta.ranges@.len() ==> #[trigger] meta.ranges@[i].end <= pow2(meta.log_b as nat),
        total_size(meta.dimensions@) <= pow2(meta.log_b as nat),
        meta.log_b >= 1 ==> pow2((meta.log_b - 1) as nat) < total_size(meta.dimensions@),
{
    let dims = meta.dimensions@;
    let ranges = meta.ranges@;
    lemma_layout_disjoint(dims, ranges);
    lemma_next_pow2_bound(max_end(ranges));
    if meta.log_b >= 1 {
        if max_end(ranges) >= 2 {
            lemma_next_pow2_half(max_end(ranges));
        }
    }
}

} // verus!
