//! The constraint that an equality query on one matrix puts on the concatenated polynomial:
//! the query point extended by the variables selecting the matrix's sub-cube, and the claimed
//! value, the query's column values combined by `eq(r, ·)`.
use crate::concat::{exp_of, is_power_of_2, log2_ceil, mat_size, ConcatMatsMeta};
use crate::field::{ext_add, ext_mul, ext_zero, Challenge};
use p3_field::extension::BinomialExtensionField;
use p3_field::{BasedVectorSpace, PrimeCharacteristicRing, PrimeField32};
use p3_koala_bear::KoalaBear;
use vstd::arithmetic::power2::pow2;
use vstd::prelude::*;

verus! {

/// The extension-field element `1` when `b`, else `0`.
pub open spec fn chal_of_bool(b: bool) -> Challenge {
    Challenge { c0: if b { 1 } else { 0 }, c1: 0, c2: 0, c3: 0 }
}

/// The sum of the products of the first `n` pairs of `xs` and `ys`, in the degree-4 binomial
/// extension of KoalaBear.
pub open spec fn ext_dot_prefix(xs: Seq<Challenge>, ys: Seq<Challenge>, n: nat) -> Challenge
    decreases n,
{
    if n == 0 {
        ext_zero()
    } else {
        ext_add(ext_dot_prefix(xs, ys, (n - 1) as nat), ext_mul(xs[n - 1], ys[n - 1]))
    }
}

/// The dot product of `xs` and `ys` over the pairs the shorter list has (as a zip stops at the
/// shorter side), in the degree-4 binomial extension of KoalaBear.
pub open spec fn ext_dot(xs: Seq<Challenge>, ys: Seq<Challenge>) -> Challenge {
    ext_dot_prefix(xs, ys, if xs.len() <= ys.len() { xs.len() } else { ys.len() })
}

/// Calls `p3_field::dot_product` on the extension-field elements whose limbs are `xs` and
/// `ys` (each limb read with `KoalaBear::from_u32`, so reduced modulo the prime), and returns
/// the canonical limbs of the result. `dot_product` zips the two lists, multiplies each pair
/// and sums the products (`Sum` of no item is zero); `BinomialExtensionField<KoalaBear, 4>`
/// is `KoalaBear[X] / (X^4 - W)` with `W = 3` (p3-koala-bear's `BinomialExtensionData<4>`).
/// The contract says the result is that dot product.
#[verifier::external_body]
fn dot_product_ext(xs: &[Challenge], ys: &[Challenge]) -> (r: Challenge)
    ensures
        r == ext_dot(xs@, ys@),
{
    let ext = |c: &Challenge| {
        BinomialExtensionField::<KoalaBear, 4>::from_basis_coefficients_fn(|i| {
            KoalaBear::from_u32([c.c0, c.c1, c.c2, c.c3][i])
        })
    };
    let d: BinomialExtensionField<KoalaBear, 4> = p3_field::dot_product(xs.iter().map(ext), ys.iter().map(ext));
    let l: &[KoalaBear] = BasedVectorSpace::<KoalaBear>::as_basis_coefficients_slice(&d);
    Challenge { c0: l[0].as_canonical_u32(), c1: l[1].as_canonical_u32(), c2: l[2].as_canonical_u32(), c3: l[3].as_canonical_u32() }
}

/// The extension-field element `1` or `0`.
fn challenge_from_bool(b: bool) -> (c: Challenge)
    ensures
        c == chal_of_bool(b),
{
    Challenge { c0: if b { 1 } else { 0 }, c1: 0, c2: 0, c3: 0 }
}

/// The variables that select the sub-cube of matrix `idx`, as field elements: bit `l + k` of
/// the start of its range, where the range has `2^l` points.
pub open spec fn selector_point(meta: ConcatMatsMeta, idx: int) -> Seq<Challenge> {
    let l = exp_of(mat_size(meta.dimensions@[idx]));
    let start = meta.ranges@[idx].start as nat;
    Seq::new(
        (meta.log_b - l) as nat,
        |k: int| chal_of_bool((start / pow2((l + k) as nat)) % 2 == 1),
    )
}

impl ConcatMatsMeta {
    /// The point of an equality query at `z` on matrix `idx`: the first `ceil(log2(width))`
    /// entries of `r`, then `z`, then the sub-cube selector, all reversed.
    fn eq_point(&self, idx: usize, z: &[Challenge], r: &[Challenge]) -> (point: Vec<Challenge>)
        requires
            self.wf(),
            idx < self.dimensions@.len(),
            is_power_of_2(mat_size(self.dimensions@[idx as int])),
            log2_ceil(self.dimensions@[idx as int].width as nat) <= r@.len(),
        ensures
            point@ == (r@.take(log2_ceil(self.dimensions@[idx as int].width as nat) as int) + z@
                + selector_point(*self, idx as int)).reverse(),
    {
        let log_width = crate::concat::log2_ceil_usize(self.dimensions[idx].width);
        let r = &r[0..log_width];
        let bits = self.sub_cube_selector(idx);
        let ghost fwd = r@ + z@ + selector_point(*self, idx as int);
        let mut point: Vec<Challenge> = Vec::new();
        let mut i: usize = 0;
        while i < bits.len()
            invariant
                i <= bits@.len(),
                fwd == r@ + z@ + selector_point(*self, idx as int),
                bits@.len() == selector_point(*self, idx as int).len(),
                forall|k: int|
                    0 <= k < bits@.len() ==> chal_of_bool(#[trigger] bits@[k]) == selector_point(
                        *self,
                        idx as int,
                    )[k],
                point@ == fwd.reverse().take(i as int),
            decreases bits@.len() - i,
        {
            let b = bits[bits.len() - 1 - i];
            point.push(challenge_from_bool(b));
            proof {
                assert(point@ =~= fwd.reverse().take(i + 1));
            }
            i = i + 1;
        }
        let mut j: usize = 0;
        while j < z.len()
            invariant
                j <= z@.len(),
                fwd == r@ + z@ + selector_point(*self, idx as int),
                bits@.len() == selector_point(*self, idx as int).len(),
                point@ == fwd.reverse().take(bits@.len() + j),
            decreases z@.len() - j,
        {
            point.push(z[z.len() - 1 - j]);
            proof {
                assert(point@ =~= fwd.reverse().take(bits@.len() + j + 1));
            }
            j = j + 1;
        }
        let mut k: usize = 0;
        while k < r.len()
            invariant
                k <= r@.len(),
                fwd == r@ + z@ + selector_point(*self, idx as int),
                bits@.len() == selector_point(*self, idx as int).len(),
                point@ == fwd.reverse().take(bits@.len() + z@.len() + k),
            decreases r@.len() - k,
        {
            point.push(r[r.len() - 1 - k]);
            proof {
                assert(point@ =~= fwd.reverse().take(bits@.len() + z@.len() + k + 1));
            }
            k = k + 1;
        }
        proof {
            assert(fwd.reverse().take(fwd.len() as int) =~= fwd.reverse());
        }
        point
    }
}

/// A query on one matrix's columns, as the PCS receives it.
#[derive(Clone, Debug, PartialEq, Eq)]
pub enum Query {
    /// The columns' multilinear extensions evaluated at the point `z`.
    Eq(Vec<Challenge>),
    /// A linear functional on the columns (equality at a point with the rows rotated right),
    /// given by its row weights: the functional's multilinear extension, which the PCS crate's
    /// `to_mle` computes.
    EqRotateRight { row_weights: Vec<Challenge> },
}

/// A constraint on the concatenated polynomial.
#[derive(Clone, Debug, PartialEq, Eq)]
pub enum ConcatConstraint {
    /// Its value at a point.
    Point(Vec<Challenge>),
    /// A tensor-product linear functional on the `2^log_range_len` evaluations starting at
    /// `range_start`: row weights times column weights.
    TensorProduct {
        range_start: usize,
        log_range_len: usize,
        row_weights: Vec<Challenge>,
        col_weights: Vec<Challenge>,
    },
}

/// `res` is the constraint, with its claimed value, that `query` on matrix `idx` with column
/// values `ys` puts on the concatenated polynomial, for column randomness `r` and its `eq`
/// table `eq_r` (see `ConcatMatsMeta::constraint_with_eq_r`).
pub open spec fn is_constraint_of(
    meta: ConcatMatsMeta,
    idx: int,
    query: Query,
    ys: Seq<Challenge>,
    r: Seq<Challenge>,
    eq_r: Seq<Challenge>,
    res: (ConcatConstraint, Challenge),
) -> bool {
    &&& res.1 == ext_dot(ys, eq_r.take(ys.len() as int))
    &&& match query {
        Query::Eq(z) => res.0 matches ConcatConstraint::Point(point) && point@ == (r.take(
            log2_ceil(meta.dimensions@[idx].width as nat) as int,
        ) + z@ + selector_point(meta, idx)).reverse(),
        Query::EqRotateRight { row_weights } => res.0 matches ConcatConstraint::TensorProduct {
            range_start: s,
            log_range_len: l,
            row_weights: rw,
            col_weights: cw,
        } && s == meta.ranges@[idx].start && l == exp_of(mat_size(meta.dimensions@[idx]))
            && rw@ == row_weights@ && cw@ == eq_r,
    }
}

impl ConcatMatsMeta {
    /// The constraint a query on matrix `idx` puts on the concatenated polynomial, and its
    /// claimed value: `ys` (the query's values per column) combined with the first
    /// `ys.len()` entries of `eq_r`, the `eq` table of the first `ceil(log2(width))` entries
    /// of the column randomness `r`.
    /// - An equality query at `z` gives the point made of those entries of `r`, then `z`, then
    ///   the sub-cube selector, all reversed.
    /// - A rotated query gives the tensor-product constraint over the matrix's range, with the
    ///   query's row weights and `eq_r` as column weights.
    pub fn constraint_with_eq_r(
        &self,
        idx: usize,
        query: &Query,
        ys: &[Challenge],
        r: &[Challenge],
        eq_r: &[Challenge],
    ) -> (res: (ConcatConstraint, Challenge))
        requires
            self.wf(),
            idx < self.dimensions@.len(),
            is_power_of_2(mat_size(self.dimensions@[idx as int])),
            log2_ceil(self.dimensions@[idx as int].width as nat) <= r@.len(),
            eq_r@.len() == pow2(log2_ceil(self.dimensions@[idx as int].width as nat)),
            ys@.len() <= eq_r@.len(),
        ensures
            is_constraint_of(*self, idx as int, *query, ys@, r@, eq_r@, res),
    {
        let sum = dot_product_ext(ys, &eq_r[0..ys.len()]);
        match query {
            Query::Eq(z) => (ConcatConstraint::Point(self.eq_point(idx, z.as_slice(), r)), sum),
            Query::EqRotateRight { row_weights } => {
                proof {
                    crate::concat::lemma_layout_disjoint(self.dimensions@, self.ranges@);
                }
                let start = self.ranges[idx].start;
                let len = self.ranges[idx].end - self.ranges[idx].start;
                let log_range_len = crate::concat::log2_strict_usize(len);
                proof {
                    let size = mat_size(self.dimensions@[idx as int]);
                    let e = choose|e: nat| pow2(e) == size;
                    if e < log_range_len {
                        vstd::arithmetic::power2::lemma_pow2_strictly_increases(e, log_range_len as nat);
                    } else if e > log_range_len {
                        vstd::arithmetic::power2::lemma_pow2_strictly_increases(log_range_len as nat, e);
                    }
                }
                let col_weights = vstd::slice::slice_to_vec(eq_r);
                (
                    ConcatConstraint::TensorProduct {
                        range_start: start,
                        log_range_len,
                        row_weights: row_weights.clone(),
                        col_weights,
                    },
                    sum,
                )
            },
        }
    }
}

/// The queries on matrix `idx` can be turned into constraints: its sub-cube has a power-of-two
/// size, `r` is long enough, its `eq` table has the right length and covers every query's
/// values.
pub open spec fn queries_ok(
    meta: ConcatMatsMeta,
    idx: int,
    queries: Seq<(Query, Vec<Challenge>)>,
    r: Seq<Challenge>,
    eq_r: Seq<Challenge>,
) -> bool {
    &&& is_power_of_2(mat_size(meta.dimensions@[idx]))
    &&& log2_ceil(meta.dimensions@[idx].width as nat) <= r.len()
    &&& eq_r.len() == pow2(log2_ceil(meta.dimensions@[idx].width as nat))
    &&& forall|j: int| 0 <= j < queries.len() ==> (#[trigger] queries[j]).1@.len() <= eq_r.len()
}

impl ConcatMatsMeta {
    /// The constraints of all queries, matrix by matrix and in order within each matrix: the
    /// `j`-th query on matrix `idx`, with its column values, gives the `j`-th constraint of
    /// `idx`, with the `eq` table `eq_rs[idx]`.
    pub fn constraints_with_eq_r(
        &self,
        queries: &Vec<Vec<(Query, Vec<Challenge>)>>,
        r: &[Challenge],
        eq_rs: &Vec<Vec<Challenge>>,
    ) -> (out: Vec<Vec<(ConcatConstraint, Challenge)>>)
        requires
            self.wf(),
            queries@.len() <= self.dimensions@.len(),
            queries@.len() <= eq_rs@.len(),
            forall|idx: int|
                0 <= idx < queries@.len() ==> queries_ok(
                    *self,
                    idx,
                    #[trigger] queries@[idx]@,
                    r@,
                    eq_rs@[idx]@,
                ),
        ensures
            out@.len() == queries@.len(),
            forall|idx: int|
                0 <= idx < out@.len() ==> (#[trigger] out@[idx])@.len() == queries@[idx]@.len(),
            forall|idx: int, j: int|
                0 <= idx < out@.len() && 0 <= j < out@[idx]@.len() ==> is_constraint_of(
                    *self,
                    idx,
                    queries@[idx]@[j].0,
                    queries@[idx]@[j].1@,
                    r@,
                    eq_rs@[idx]@,
                    #[trigger] out@[idx]@[j],
                ),
    {
        let mut out: Vec<Vec<(ConcatConstraint, Challenge)>> = Vec::new();
        let mut idx: usize = 0;
        while idx < queries.len()
            invariant
                idx <= queries@.len(),
                queries@.len() <= self.dimensions@.len(),
                queries@.len() <= eq_rs@.len(),
                self.wf(),
                forall|i: int|
                    0 <= i < queries@.len() ==> queries_ok(
                        *self,
                        i,
                        #[trigger] queries@[i]@,
                        r@,
                        eq_rs@[i]@,
                    ),
                out@.len() == idx,
                forall|i: int| 0 <= i < idx ==> (#[trigger] out@[i])@.len() == queries@[i]@.len(),
                forall|i: int, j: int|
                    0 <= i < idx && 0 <= j < out@[i]@.len() ==> is_constraint_of(
                        *self,
                        i,
                        queries@[i]@[j].0,
                        queries@[i]@[j].1@,
                        r@,
                        eq_rs@[i]@,
                        #[trigger] out@[i]@[j],
                    ),
            decreases queries@.len() - idx,
        {
            let qs = &queries[idx];
            let eq_r = &eq_rs[idx];
            assert(queries_ok(*self, idx as int, qs@, r@, eq_r@));
            let mut row: Vec<(ConcatConstraint, Challenge)> = Vec::new();
            let mut j: usize = 0;
            while j < qs.len()
                invariant
                    j <= qs@.len(),
                    idx < self.dimensions@.len(),
                    self.wf(),
                    queries_ok(*self, idx as int, qs@, r@, eq_r@),
                    row@.len() == j,
                    forall|k: int|
                        0 <= k < j ==> is_constraint_of(
                            *self,
                            idx as int,
                            qs@[k].0,
                            qs@[k].1@,
                            r@,
                            eq_r@,
                            #[trigger] row@[k],
                        ),
                decreases qs@.len() - j,
            {
                assert(qs@[j as int].1@.len() <= eq_r@.len());
                let c = self.constraint_with_eq_r(idx, &qs[j].0, qs[j].1.as_slice(), r, eq_r.as_slice());
                row.push(c);
                j = j + 1;
            }
            out.push(row);
            idx = idx + 1;
        }
        out
    }
}

} // verus!
