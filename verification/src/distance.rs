use vstd::prelude::*;

use crate::index::point_in_box;

verus! {

/// Order in which the dimensions are summed: the most selective first, so
/// that a partial sum reaches the limit early.
pub const DIM_ORDER: [usize; 14] = [0, 2, 7, 8, 12, 3, 5, 6, 1, 4, 9, 10, 11, 13];

/// `DIM_ORDER[k]`.
pub open spec fn dim_at(k: int) -> int {
    if k == 0 {
        0
    } else if k == 1 {
        2
    } else if k == 2 {
        7
    } else if k == 3 {
        8
    } else if k == 4 {
        12
    } else if k == 5 {
        3
    } else if k == 6 {
        5
    } else if k == 7 {
        6
    } else if k == 8 {
        1
    } else if k == 9 {
        4
    } else if k == 10 {
        9
    } else if k == 11 {
        10
    } else if k == 12 {
        11
    } else {
        13
    }
}

pub open spec fn sq(x: int) -> int {
    x * x
}

/// `s[0] + ... + s[n - 1]`.
pub open spec fn seq_sum(s: Seq<int>, n: int) -> int
    decreases n,
{
    if n <= 0 {
        0
    } else {
        seq_sum(s, n - 1) + s[n - 1]
    }
}

/// The sum of the first `k` terms taken in `DIM_ORDER`.
pub open spec fn ordered_sum(s: Seq<int>, k: int) -> int
    decreases k,
{
    if k <= 0 {
        0
    } else {
        ordered_sum(s, k - 1) + s[dim_at(k - 1)]
    }
}

/// Squared differences between the vector stored at `off` and `q`.
pub open spec fn coarse_terms(v: Seq<i16>, off: int, q: Seq<i16>) -> Seq<int> {
    Seq::new(14, |d: int| sq(v[off + d] - q[d]))
}

/// Distance from `x` to the interval `lo..=hi`.
pub open spec fn box_gap(lo: int, hi: int, x: int) -> int {
    if x < lo {
        lo - x
    } else if x > hi {
        x - hi
    } else {
        0
    }
}

/// Squared per-dimension distances from `q` to the box `min..=max`.
pub open spec fn box_terms(min: Seq<i16>, max: Seq<i16>, q: Seq<i16>) -> Seq<int> {
    Seq::new(14, |d: int| sq(box_gap(min[d] as int, max[d] as int, q[d] as int)))
}

/// Squared distance from `q` to the box `min..=max`: a lower bound on the
/// squared distance from `q` to any point in the box.
pub open spec fn box_distance(min: Seq<i16>, max: Seq<i16>, q: Seq<i16>) -> int {
    seq_sum(box_terms(min, max, q), 14)
}

/// The fine coordinate at `o`: the coarse one scaled by 256, refined by the
/// residual, centred.
pub open spec fn fine_value(v: Seq<i16>, r: Seq<u8>, o: int) -> int {
    v[o] * 256 + r[o] - 128
}

/// Squared differences between the fine vector stored at `off` and `q`.
pub open spec fn fine_terms(v: Seq<i16>, r: Seq<u8>, off: int, q: Seq<i32>) -> Seq<int> {
    Seq::new(14, |d: int| sq(fine_value(v, r, off + d) - q[d]))
}

/// Summing in `DIM_ORDER` gives the plain sum.
pub(crate) proof fn lemma_ordered_sum_full(s: Seq<int>)
    requires
        s.len() == 14,
    ensures
        ordered_sum(s, 14) == seq_sum(s, 14),
{
    reveal_with_fuel(ordered_sum, 15);
    reveal_with_fuel(seq_sum, 15);
}

/// Partial sums of non-negative terms grow with the number of terms.
pub(crate) proof fn lemma_ordered_sum_monotone(s: Seq<int>, k: int, b: int)
    requires
        s.len() == 14,
        0 <= k <= 14,
        forall|d: int| 0 <= d < 14 ==> 0 <= #[trigger] s[d] <= b,
    ensures
        0 <= ordered_sum(s, k) <= ordered_sum(s, 14),
        ordered_sum(s, k) <= k * b,
    decreases 14 - k,
{
    if k < 14 {
        lemma_ordered_sum_monotone(s, k + 1, b);
    }
    lemma_ordered_sum_bound(s, k, b);
}

pub(crate) proof fn lemma_ordered_sum_bound(s: Seq<int>, k: int, b: int)
    requires
        s.len() == 14,
        0 <= k <= 14,
        forall|d: int| 0 <= d < 14 ==> 0 <= #[trigger] s[d] <= b,
    ensures
        0 <= ordered_sum(s, k) <= k * b,
    decreases k,
{
    if k > 0 {
        lemma_ordered_sum_bound(s, k - 1, b);
        assert(0 <= s[dim_at(k - 1)] <= b);
        assert((k - 1) * b + b == k * b) by (nonlinear_arith);
    }
}

/// A square of a value within `-m..=m` lies within `0..=m * m`.
pub(crate) proof fn lemma_sq_bound(x: int, m: int)
    requires
        -m <= x <= m,
    ensures
        0 <= sq(x) <= m * m,
{
    assert(0 <= x * x <= m * m) by (nonlinear_arith)
        requires
            -m <= x <= m,
    ;
}

/// `box_distance(min, max, query)` when it lies below `limit`, `None`
/// otherwise.
pub(crate) fn bbox_lower_bound(min: &[i16; 14], max: &[i16; 14], query: &[i16; 14], limit: u64) -> (bound:
    Option<u64>)
    ensures
        box_distance(min@, max@, query@) >= 0,
        bound == if box_distance(min@, max@, query@) >= limit {
            None
        } else {
            Some(box_distance(min@, max@, query@) as u64)
        },
{
    let ghost terms = box_terms(min@, max@, query@);
    proof {
        assert forall|d: int| 0 <= d < 14 implies 0 <= #[trigger] terms[d] <= 65535 * 65535 by {
            lemma_sq_bound(box_gap(min@[d] as int, max@[d] as int, query@[d] as int), 65535);
        }
        lemma_ordered_sum_full(terms);
        lemma_ordered_sum_monotone(terms, 0, 4294836225);
    }
    let mut distance: u64 = 0;
    let mut k: usize = 0;
    while k < 14
        invariant
            k <= 14,
            terms == box_terms(min@, max@, query@),
            forall|d: int| 0 <= d < 14 ==> 0 <= #[trigger] terms[d] <= 65535 * 65535,
            ordered_sum(terms, 14) == box_distance(min@, max@, query@),
            distance == ordered_sum(terms, k as int),
            k > 0 ==> distance < limit,
        decreases 14 - k,
    {
        let dim = DIM_ORDER[k];
        assert(dim == dim_at(k as int));
        let query_value = query[dim] as i64;
        let lower = min[dim] as i64;
        let upper = max[dim] as i64;
        let delta = if query_value < lower {
            lower - query_value
        } else if query_value > upper {
            query_value - upper
        } else {
            0
        };
        proof {
            lemma_ordered_sum_monotone(terms, k + 1, 4294836225);
            lemma_sq_bound(delta as int, 65535);
        }
        distance += (delta * delta) as u64;
        if distance >= limit {
            proof {
                lemma_ordered_sum_monotone(terms, k + 1, 4294836225);
            }
            return None;
        }
        k += 1;
    }
    Some(distance)
}

/// The squared distance to a box lower-bounds that of any point in it.
pub(crate) proof fn lemma_box_distance_sound(min: Seq<i16>, max: Seq<i16>, v: Seq<i16>, off: int, q: Seq<i16>)
    requires
        point_in_box(min, max, v, off),
    ensures
        box_distance(min, max, q) <= seq_sum(coarse_terms(v, off, q), 14),
{
    let bt = box_terms(min, max, q);
    let ct = coarse_terms(v, off, q);
    assert forall|d: int| 0 <= d < 14 implies #[trigger] bt[d] <= ct[d] by {
        let g = box_gap(min[d] as int, max[d] as int, q[d] as int);
        let e = v[off + d] - q[d];
        assert(min[d] <= v[off + d] <= max[d]);
        assert(0 <= g);
        assert(g <= e || g <= -e);
        assert(g * g <= e * e) by (nonlinear_arith)
            requires
                0 <= g,
                g <= e || g <= -e,
        ;
    }
    lemma_seq_sum_le(bt, ct, 14);
}

/// Sums of pointwise smaller terms are smaller.
pub(crate) proof fn lemma_seq_sum_le(a: Seq<int>, b: Seq<int>, n: int)
    requires
        0 <= n <= a.len(),
        n <= b.len(),
        forall|d: int| 0 <= d < n ==> #[trigger] a[d] <= b[d],
    ensures
        seq_sum(a, n) <= seq_sum(b, n),
    decreases n,
{
    if n > 0 {
        lemma_seq_sum_le(a, b, n - 1);
    }
}

/// A sum of non-negative terms is at least each of them, and equals one of
/// them when all the others are zero.
pub(crate) proof fn lemma_seq_sum_term(s: Seq<int>, n: int, d: int)
    requires
        0 <= d < n <= s.len(),
        forall|e: int| 0 <= e < n ==> 0 <= #[trigger] s[e],
    ensures
        seq_sum(s, n) >= s[d],
        (forall|e: int| 0 <= e < n && e != d ==> #[trigger] s[e] == 0) ==> seq_sum(s, n) == s[d],
    decreases n,
{
    if d < n - 1 {
        lemma_seq_sum_term(s, n - 1, d);
    } else {
        lemma_seq_sum_low(s, n - 1);
    }
}

/// A sum of non-negative terms is non-negative, and zero when every term is.
pub(crate) proof fn lemma_seq_sum_low(s: Seq<int>, n: int)
    requires
        0 <= n <= s.len(),
        forall|e: int| 0 <= e < n ==> 0 <= #[trigger] s[e],
    ensures
        seq_sum(s, n) >= 0,
        (forall|e: int| 0 <= e < n ==> #[trigger] s[e] == 0) ==> seq_sum(s, n) == 0,
    decreases n,
{
    if n > 0 {
        lemma_seq_sum_low(s, n - 1);
    }
}

/// The box distance counts every coordinate: a query below the box in
/// coordinate `d` lies at least `(min[d] - q[d])^2` from it, one above the
/// range `min[d]..=max[d]` at least `(q[d] - max[d])^2`, and a query inside
/// the box lies at distance 0.
pub proof fn lemma_box_distance_per_coordinate(min: Seq<i16>, max: Seq<i16>, q: Seq<i16>, d: int)
    requires
        0 <= d < 14,
    ensures
        q[d] < min[d] ==> box_distance(min, max, q) >= (min[d] - q[d]) * (min[d] - q[d]),
        min[d] <= max[d] < q[d] ==> box_distance(min, max, q) >= (q[d] - max[d]) * (q[d] - max[d]),
        (forall|e: int| #![trigger q[e]] 0 <= e < 14 ==> min[e] <= q[e] && q[e] <= max[e]) ==> box_distance(
            min,
            max,
            q,
        ) == 0,
{
    let t = box_terms(min, max, q);
    assert forall|e: int| 0 <= e < 14 implies 0 <= #[trigger] t[e] by {
        let g = box_gap(min[e] as int, max[e] as int, q[e] as int);
        assert(0 <= g * g) by (nonlinear_arith);
    }
    lemma_seq_sum_term(t, 14, d);
    if forall|e: int| #![trigger q[e]] 0 <= e < 14 ==> min[e] <= q[e] && q[e] <= max[e] {
        assert forall|e: int| 0 <= e < 14 implies #[trigger] t[e] == 0 by {
            assert(min[e] <= q[e] && q[e] <= max[e]);
        }
        lemma_seq_sum_low(t, 14);
    }
}

/// The fine coordinate refines the coarse one by the residual: at residual
/// 128 it is the coarse coordinate times 256, each step of the residual
/// moves it by one, and each step of the coarse coordinate by 256.
pub proof fn lemma_fine_value_refines(v: Seq<i16>, r: Seq<u8>, o: int, v2: Seq<i16>, r2: Seq<u8>, o2: int)
    ensures
        r[o] == 128 ==> fine_value(v, r, o) == 256 * v[o],
        fine_value(v2, r2, o2) - fine_value(v, r, o) == 256 * (v2[o2] - v[o]) + (r2[o2] - r[o]),
        v[o] == v2[o2] && r[o] < r2[o2] ==> fine_value(v, r, o) < fine_value(v2, r2, o2),
{
}

} // verus!
