use vstd::prelude::*;

use crate::buckets::{PARTITION_COUNT, VECTOR_DIMS, bucket_key_from_quantized};
use crate::distance::{
    DIM_ORDER, bbox_lower_bound, box_distance, coarse_terms, dim_at, fine_terms, fine_value,
    lemma_box_distance_sound, lemma_ordered_sum_full, lemma_ordered_sum_monotone, lemma_seq_sum_le,
    lemma_seq_sum_term, lemma_sq_bound, ordered_sum, seq_sum, sq,
};
use crate::kbest::{
    absorbs, below, cap, count_lt, insert_best, insert_candidate, inserted, insertion_point,
    lemma_absorbs_below_worst, lemma_absorbs_nothing, lemma_absorbs_trans, lemma_count_lt_bounds,
    lemma_insert_counts, lemma_offer_accepted, lemma_offer_rejected, lemma_slot_after_range,
    lemma_slot_after_sorted, lemma_sorted_split, sorted,
};
use crate::sorting::sort_by_key;
use crate::index::{
    Block, VectorIndex, lemma_non_empty_parts_range, lemma_range_bounds, point_in_box, range_max,
    non_empty_parts, range_min, span_matches,
};

verus! {

/// Number of coarse candidates kept before re-ranking.
pub const CANDIDATE_COUNT: usize = 6;

/// Fine coordinates carry 256 steps per coarse step.
pub const RERANK_RESOLUTION: i32 = 256;

/// Centre of the residual range.
pub const RERANK_OFFSET: i32 = 128;

/// The squared distance between the vector `id` of the index and `q`.
pub open spec fn coarse_distance(idx: &VectorIndex, id: int, q: Seq<i16>) -> int {
    seq_sum(coarse_terms(idx.vectors@, id * 14, q), 14)
}

/// How many of the vectors `lo..hi` lie below distance `t` from `q`.
pub open spec fn ids_below(idx: &VectorIndex, q: Seq<i16>, lo: int, hi: int, t: int) -> nat
    decreases hi - lo,
{
    if hi <= lo {
        0
    } else {
        ids_below(idx, q, lo, hi - 1, t) + below(coarse_distance(idx, hi - 1, q), t)
    }
}

/// Whether vector `id` belongs to some block of the index.
pub open spec fn is_member(idx: &VectorIndex, id: int) -> bool {
    exists|j: int|
        0 <= j < idx.blocks@.len() && #[trigger] idx.blocks@[j].start <= id < idx.blocks@[j].end
}

/// An empty slot, or a member of the index with its distance from `q`.
pub open spec fn valid_candidate(idx: &VectorIndex, q: Seq<i16>, id: usize, d: u64) -> bool {
    ||| d == u64::MAX && id == 0
    ||| is_member(idx, id as int) && d == coarse_distance(idx, id as int, q)
}

/// Sorted by distance, each slot empty or a member with its distance.
pub open spec fn candidates_valid(
    idx: &VectorIndex,
    q: Seq<i16>,
    ids: Seq<usize>,
    ds: Seq<u64>,
) -> bool {
    &&& ids.len() == ds.len()
    &&& ds.len() > 0
    &&& sorted(ds)
    &&& forall|i: int| 0 <= i < ds.len() ==> #[trigger] valid_candidate(idx, q, ids[i], ds[i])
}

/// `(id, d)` is one of the slots of `ids`, `ds`.
pub open spec fn has_pair(ids: Seq<usize>, ds: Seq<u64>, id: usize, d: u64) -> bool {
    exists|k: int| 0 <= k < ids.len() && ids[k] == id && ds[k] == d
}

/// A slot that was there before (among `old_ids`, `old_ds`), or a vector
/// picked by `from`, with its distance from `q`.
pub open spec fn slot_from(
    idx: &VectorIndex,
    q: Seq<i16>,
    old_ids: Seq<usize>,
    old_ds: Seq<u64>,
    id: usize,
    d: u64,
    from: spec_fn(int) -> bool,
) -> bool {
    ||| has_pair(old_ids, old_ds, id, d)
    ||| from(id as int) && d == coarse_distance(idx, id as int, q)
}

/// Each slot of `ids`, `ds` was there before or holds a vector picked by
/// `from`, with its distance.
pub open spec fn slots_from(
    idx: &VectorIndex,
    q: Seq<i16>,
    old_ids: Seq<usize>,
    old_ds: Seq<u64>,
    ids: Seq<usize>,
    ds: Seq<u64>,
    from: spec_fn(int) -> bool,
) -> bool {
    forall|i: int|
        0 <= i < ids.len() ==> #[trigger] slot_from(idx, q, old_ids, old_ds, ids[i], ds[i], from)
}

/// Vector `id` belongs to one of the blocks `lo..hi`.
pub open spec fn in_blocks(idx: &VectorIndex, id: int, lo: int, hi: int) -> bool {
    exists|j: int| lo <= j < hi && #[trigger] idx.blocks@[j].start <= id < idx.blocks@[j].end
}

/// Vector `id` belongs to a block of a non-empty partition other than
/// `skip`.
pub open spec fn in_other_partitions(idx: &VectorIndex, id: int, skip: usize) -> bool {
    exists|m: int|
        0 <= m < idx.non_empty_partitions@.len() && #[trigger] idx.non_empty_partitions@[m] != skip
            && in_blocks(
            idx,
            id,
            idx.partition_offsets@[idx.non_empty_partitions@[m] as int] as int,
            idx.partition_offsets@[idx.non_empty_partitions@[m] + 1] as int,
        )
}

/// `p` is a non-empty partition other than `skip`.
pub open spec fn names_other_partition(idx: &VectorIndex, p: usize, skip: usize) -> bool {
    &&& p != skip
    &&& exists|m: int| 0 <= m < idx.non_empty_partitions@.len() && #[trigger] idx.non_empty_partitions@[m] == p
}

/// No two filled slots hold the same vector.
pub open spec fn distinct_filled(ids: Seq<usize>, ds: Seq<u64>) -> bool {
    forall|i: int, j: int|
        0 <= i < ids.len() && 0 <= j < ids.len() && i != j && ds[i] != u64::MAX && ds[j] != u64::MAX
            ==> #[trigger] ids[i] != #[trigger] ids[j]
}

/// No filled slot holds a vector picked by `from`.
pub open spec fn filled_outside(ids: Seq<usize>, ds: Seq<u64>, from: spec_fn(int) -> bool) -> bool {
    forall|i: int| 0 <= i < ids.len() && ds[i] != u64::MAX ==> !from(#[trigger] ids[i] as int)
}

/// Vector `id` belongs to one of the blocks named by the entries of `list`.
pub open spec fn in_listed_blocks(idx: &VectorIndex, list: Seq<(u64, usize)>, id: int) -> bool {
    exists|k: int|
        0 <= k < list.len() && idx.blocks@[#[trigger] list[k].1 as int].start <= id
            < idx.blocks@[list[k].1 as int].end
}

/// With disjoint blocks, a vector of block `j` lies in no other block.
proof fn lemma_block_apart(idx: &VectorIndex, j: int, k: int, id: int)
    requires
        idx.blocks_disjoint(),
        0 <= j < idx.blocks@.len(),
        0 <= k < idx.blocks@.len(),
        j != k,
        idx.blocks@[j].start <= id < idx.blocks@[j].end,
    ensures
        !(idx.blocks@[k].start <= id < idx.blocks@[k].end),
{
    let bj = idx.blocks@[j];
    let bk = idx.blocks@[k];
    assert(bj.end <= bk.start || bk.end <= bj.start);
}

/// Entries whose second components rise, reordered, still name each
/// second component once, when the first component is a function of it.
proof fn lemma_no_dup_keys(a: Seq<(u64, usize)>, b: Seq<(u64, usize)>, f: spec_fn(usize) -> int)
    requires
        a.to_multiset() == b.to_multiset(),
        forall|i: int, j: int| 0 <= i < j < a.len() ==> #[trigger] a[i].1 < #[trigger] a[j].1,
        forall|k: int| 0 <= k < b.len() ==> #[trigger] b[k].0 as int == f(b[k].1),
    ensures
        forall|i: int, j: int|
            0 <= i < b.len() && 0 <= j < b.len() && i != j ==> #[trigger] b[i].1 != #[trigger] b[j].1,
{
    broadcast use vstd::multiset::group_multiset_axioms;

    assert(a.no_duplicates()) by {
        assert forall|i: int, j: int| 0 <= i < a.len() && 0 <= j < a.len() && i != j implies a[i]
            != a[j] by {
            if i < j {
                assert(a[i].1 < a[j].1);
            } else {
                assert(a[j].1 < a[i].1);
            }
        }
    }
    a.lemma_multiset_has_no_duplicates();
    b.lemma_multiset_has_no_duplicates_conv();
    assert forall|i: int, j: int| 0 <= i < b.len() && 0 <= j < b.len() && i != j implies #[trigger] b[i].1
        != #[trigger] b[j].1 by {
        if b[i].1 == b[j].1 {
            assert(b[i].0 as int == f(b[i].1));
            assert(b[j].0 as int == f(b[j].1));
            assert(b[i] == b[j]);
        }
    }
}

/// Vector `id` belongs to a block of one of the partitions named by the
/// entries of `list`.
pub open spec fn in_listed_partitions(idx: &VectorIndex, list: Seq<(u64, usize)>, id: int) -> bool {
    exists|k: int|
        0 <= k < list.len() && in_blocks(
            idx,
            id,
            idx.partition_offsets@[#[trigger] list[k].1 as int] as int,
            idx.partition_offsets@[list[k].1 + 1] as int,
        )
}

/// With disjoint blocks, a vector of a block of partition `p` lies in no
/// block of another partition.
proof fn lemma_partitions_apart(idx: &VectorIndex, p: int, r: int, id: int)
    requires
        idx.well_formed(),
        idx.blocks_disjoint(),
        0 <= p < idx.partition_count(),
        0 <= r < idx.partition_count(),
        p != r,
        in_blocks(idx, id, idx.partition_offsets@[p] as int, idx.partition_offsets@[p + 1] as int),
    ensures
        !in_blocks(idx, id, idx.partition_offsets@[r] as int, idx.partition_offsets@[r + 1] as int),
{
    let o = idx.partition_offsets@;
    let j = choose|j: int| o[p] <= j < o[p + 1] && #[trigger] idx.blocks@[j].start <= id < idx.blocks@[j].end;
    if in_blocks(idx, id, o[r] as int, o[r + 1] as int) {
        let k = choose|k: int| o[r] <= k < o[r + 1] && #[trigger] idx.blocks@[k].start <= id < idx.blocks@[k].end;
        if p < r {
            assert(o[p + 1] <= o[r]);
        } else {
            assert(o[r + 1] <= o[p]);
        }
        assert(o[p + 1] <= idx.blocks@.len());
        assert(o[r + 1] <= idx.blocks@.len());
        lemma_block_apart(idx, j, k, id);
    }
}

/// One of the slots holds vector `x` with its distance from `q`.
pub open spec fn holds_vector(idx: &VectorIndex, q: Seq<i16>, ids: Seq<usize>, ds: Seq<u64>, x: int) -> bool {
    exists|i: int| 0 <= i < ids.len() && ids[i] as int == x && ds[i] == coarse_distance(idx, x, q)
}

/// Each vector picked by `from` that lies nearer to `q` than the worst
/// slot of `ds` is held.
pub open spec fn holds_near(
    idx: &VectorIndex,
    q: Seq<i16>,
    ids: Seq<usize>,
    ds: Seq<u64>,
    from: spec_fn(int) -> bool,
) -> bool {
    forall|x: int|
        from(x) && coarse_distance(idx, x, q) < ds.last() ==> #[trigger] holds_vector(idx, q, ids, ds, x)
}

/// Each old slot nearer than the worst slot of `ds` is still a slot.
pub open spec fn keeps_near(old_ids: Seq<usize>, old_ds: Seq<u64>, ids: Seq<usize>, ds: Seq<u64>) -> bool {
    forall|k: int|
        0 <= k < old_ds.len() && old_ds[k] < ds.last() ==> #[trigger] has_pair(ids, ds, old_ids[k], old_ds[k])
}

/// Some entry of `list` names `j`.
pub open spec fn names_entry(list: Seq<(u64, usize)>, j: int) -> bool {
    exists|k: int| 0 <= k < list.len() && #[trigger] list[k].1 as int == j
}

/// Old slots kept into `b` and then into `c` are kept into `c`.
proof fn lemma_keeps_near_trans(
    a_ids: Seq<usize>,
    a_ds: Seq<u64>,
    b_ids: Seq<usize>,
    b_ds: Seq<u64>,
    c_ids: Seq<usize>,
    c_ds: Seq<u64>,
)
    requires
        keeps_near(a_ids, a_ds, b_ids, b_ds),
        keeps_near(b_ids, b_ds, c_ids, c_ds),
        b_ids.len() == b_ds.len(),
        c_ds.last() <= b_ds.last(),
    ensures
        keeps_near(a_ids, a_ds, c_ids, c_ds),
{
    assert forall|k: int| 0 <= k < a_ds.len() && a_ds[k] < c_ds.last() implies #[trigger] has_pair(
        c_ids,
        c_ds,
        a_ids[k],
        a_ds[k],
    ) by {
        assert(has_pair(b_ids, b_ds, a_ids[k], a_ds[k]));
        let m = choose|m: int| 0 <= m < b_ids.len() && b_ids[m] == a_ids[k] && b_ds[m] == a_ds[k];
        assert(has_pair(c_ids, c_ds, b_ids[m], b_ds[m]));
    }
}

/// Vectors held near before a step that keeps near slots stay held; with
/// those the step itself holds, they cover `h`.
proof fn lemma_holds_near_step(
    idx: &VectorIndex,
    q: Seq<i16>,
    b_ids: Seq<usize>,
    b_ds: Seq<u64>,
    c_ids: Seq<usize>,
    c_ds: Seq<u64>,
    f: spec_fn(int) -> bool,
    g: spec_fn(int) -> bool,
    h: spec_fn(int) -> bool,
)
    requires
        holds_near(idx, q, b_ids, b_ds, f),
        keeps_near(b_ids, b_ds, c_ids, c_ds),
        b_ids.len() == b_ds.len(),
        c_ids.len() == c_ds.len(),
        c_ds.last() <= b_ds.last(),
        holds_near(idx, q, c_ids, c_ds, g),
        forall|x: int| #[trigger] h(x) ==> f(x) || g(x),
    ensures
        holds_near(idx, q, c_ids, c_ds, h),
{
    assert forall|x: int| h(x) && coarse_distance(idx, x, q) < c_ds.last() implies #[trigger] holds_vector(
        idx,
        q,
        c_ids,
        c_ds,
        x,
    ) by {
        if !g(x) {
            assert(f(x));
            assert(holds_vector(idx, q, b_ids, b_ds, x));
            let m = choose|m: int|
                0 <= m < b_ids.len() && b_ids[m] as int == x && b_ds[m] == coarse_distance(idx, x, q);
            assert(has_pair(c_ids, c_ds, b_ids[m], b_ds[m]));
            let n = choose|n: int| 0 <= n < c_ids.len() && c_ids[n] == b_ids[m] && c_ds[n] == b_ds[m];
            assert(c_ids[n] as int == x);
        }
    }
}

/// An entry kept across a reordering is found in the reordered list.
proof fn lemma_multiset_member(a: Seq<(u64, usize)>, b: Seq<(u64, usize)>, k: int)
    requires
        a.to_multiset() == b.to_multiset(),
        0 <= k < a.len(),
    ensures
        exists|m: int| 0 <= m < b.len() && b[m] == a[k],
{
    broadcast use vstd::seq_lib::group_to_multiset_ensures;

    assert(a.contains(a[k]));
    assert(a.to_multiset().count(a[k]) > 0);
    assert(b.contains(a[k]));
}

/// With sound blocks, a vector of block `j` lies no nearer than the box of
/// the block.
proof fn lemma_member_beyond_box(idx: &VectorIndex, q: Seq<i16>, j: int, x: int)
    requires
        idx.blocks_sound(),
        0 <= j < idx.blocks@.len(),
        idx.blocks@[j].start <= x < idx.blocks@[j].end,
    ensures
        box_distance(idx.blocks@[j].min@, idx.blocks@[j].max@, q) <= coarse_distance(idx, x, q),
{
    assert(point_in_box(idx.blocks@[j].min@, idx.blocks@[j].max@, idx.vectors@, x * 14));
    lemma_box_distance_sound(idx.blocks@[j].min@, idx.blocks@[j].max@, idx.vectors@, x * 14, q);
}

/// With sound blocks, a vector of a block of partition `p` lies no nearer
/// than the box of the partition.
proof fn lemma_member_beyond_partition_box(idx: &VectorIndex, q: Seq<i16>, p: int, j: int, x: int)
    requires
        idx.well_formed(),
        idx.blocks_sound(),
        0 <= p < idx.partition_count(),
        idx.partition_offsets@[p] <= j < idx.partition_offsets@[p + 1],
        idx.blocks@[j].start <= x < idx.blocks@[j].end,
    ensures
        box_distance(idx.partition_bounds@[p].min@, idx.partition_bounds@[p].max@, q)
            <= coarse_distance(idx, x, q),
{
    let pb = idx.partition_bounds@[p];
    let lo = idx.partition_offsets@[p] as int;
    let hi = idx.partition_offsets@[p + 1] as int;
    let b = idx.blocks@[j];
    assert(idx.partition_offsets@[p + 1] <= idx.blocks@.len());
    assert(span_matches(idx.blocks@, idx.partition_offsets@, pb, p));
    assert(point_in_box(b.min@, b.max@, idx.vectors@, x * 14));
    assert forall|dim: int| 0 <= dim < 14 implies #[trigger] pb.min@[dim] <= idx.vectors@[x * 14 + dim]
        <= pb.max@[dim] by {
        lemma_range_bounds(idx.blocks@, lo, hi, dim, j);
        assert(pb.min@[dim] as int == range_min(idx.blocks@, lo, hi, dim));
        assert(pb.max@[dim] as int == range_max(idx.blocks@, lo, hi, dim));
        assert(b.min@[dim] <= idx.vectors@[x * 14 + dim] <= b.max@[dim]);
    }
    lemma_box_distance_sound(pb.min@, pb.max@, idx.vectors@, x * 14, q);
}

/// Some partition `p` at or after `from` owns block `j`.
proof fn lemma_block_partition(idx: &VectorIndex, j: int, from: int) -> (p: int)
    requires
        idx.well_formed(),
        0 <= from < idx.partition_count(),
        idx.partition_offsets@[from] <= j < idx.blocks@.len(),
    ensures
        from <= p < idx.partition_count(),
        idx.partition_offsets@[p] <= j < idx.partition_offsets@[p + 1],
    decreases idx.partition_count() - from,
{
    if j < idx.partition_offsets@[from + 1] {
        from
    } else {
        if from + 1 == idx.partition_count() {
            assert(idx.partition_offsets@[from + 1] == idx.partition_offsets@.last());
        }
        lemma_block_partition(idx, j, from + 1)
    }
}

/// A partition below `n` whose range is not empty is listed.
proof fn lemma_non_empty_listed(offsets: Seq<u32>, n: int, p: int)
    requires
        0 <= p < n < offsets.len(),
        n <= usize::MAX,
        offsets[p] != offsets[p + 1],
    ensures
        exists|m: int| 0 <= m < non_empty_parts(offsets, n).len() && #[trigger] non_empty_parts(offsets, n)[m] == p,
    decreases n,
{
    let cur = non_empty_parts(offsets, n);
    let prev = non_empty_parts(offsets, n - 1);
    if p == n - 1 {
        assert(cur == prev.push((n - 1) as usize));
        assert(cur[prev.len() as int] == p);
    } else {
        lemma_non_empty_listed(offsets, n - 1, p);
        let m = choose|m: int| 0 <= m < prev.len() && #[trigger] prev[m] == p;
        if offsets[n - 1] != offsets[n] {
            assert(cur == prev.push((n - 1) as usize));
        } else {
            assert(cur == prev);
        }
        assert(cur[m] == p);
    }
}

/// Slots left as they were come from themselves.
proof fn lemma_slots_from_same(
    idx: &VectorIndex,
    q: Seq<i16>,
    ids: Seq<usize>,
    ds: Seq<u64>,
    from: spec_fn(int) -> bool,
)
    requires
        ids.len() == ds.len(),
    ensures
        slots_from(idx, q, ids, ds, ids, ds, from),
{
    assert forall|i: int| 0 <= i < ids.len() implies #[trigger] slot_from(
        idx,
        q,
        ids,
        ds,
        ids[i],
        ds[i],
        from,
    ) by {
        assert(ids[i] == ids[i] && ds[i] == ds[i]);
    }
}

/// Slots that come from `b`, whose slots come from `a`, come from `a`.
proof fn lemma_slots_from_trans(
    idx: &VectorIndex,
    q: Seq<i16>,
    a_ids: Seq<usize>,
    a_ds: Seq<u64>,
    b_ids: Seq<usize>,
    b_ds: Seq<u64>,
    c_ids: Seq<usize>,
    c_ds: Seq<u64>,
    f: spec_fn(int) -> bool,
    g: spec_fn(int) -> bool,
    h: spec_fn(int) -> bool,
)
    requires
        slots_from(idx, q, a_ids, a_ds, b_ids, b_ds, f),
        slots_from(idx, q, b_ids, b_ds, c_ids, c_ds, g),
        forall|x: int| #[trigger] f(x) ==> h(x),
        forall|x: int| #[trigger] g(x) ==> h(x),
    ensures
        slots_from(idx, q, a_ids, a_ds, c_ids, c_ds, h),
{
    assert forall|i: int| 0 <= i < c_ids.len() implies #[trigger] slot_from(
        idx,
        q,
        a_ids,
        a_ds,
        c_ids[i],
        c_ds[i],
        h,
    ) by {
        assert(slot_from(idx, q, b_ids, b_ds, c_ids[i], c_ds[i], g));
        if has_pair(b_ids, b_ds, c_ids[i], c_ds[i]) {
            let k = choose|k: int| 0 <= k < b_ids.len() && b_ids[k] == c_ids[i] && b_ds[k] == c_ds[i];
            assert(slot_from(idx, q, a_ids, a_ds, b_ids[k], b_ds[k], f));
            if has_pair(a_ids, a_ds, b_ids[k], b_ds[k]) {
                let m = choose|m: int|
                    0 <= m < a_ids.len() && a_ids[m] == b_ids[k] && a_ds[m] == b_ds[k];
                assert(a_ids[m] == c_ids[i] && a_ds[m] == c_ds[i]);
            } else {
                assert(f(b_ids[k] as int));
            }
        } else {
            assert(g(c_ids[i] as int));
        }
    }
}

/// A wider pick keeps what a narrower one picked.
proof fn lemma_slots_from_weaken(
    idx: &VectorIndex,
    q: Seq<i16>,
    a_ids: Seq<usize>,
    a_ds: Seq<u64>,
    b_ids: Seq<usize>,
    b_ds: Seq<u64>,
    f: spec_fn(int) -> bool,
    h: spec_fn(int) -> bool,
)
    requires
        slots_from(idx, q, a_ids, a_ds, b_ids, b_ds, f),
        forall|x: int| #[trigger] f(x) ==> h(x),
    ensures
        slots_from(idx, q, a_ids, a_ds, b_ids, b_ds, h),
{
    assert forall|i: int| 0 <= i < b_ids.len() implies #[trigger] slot_from(
        idx,
        q,
        a_ids,
        a_ds,
        b_ids[i],
        b_ds[i],
        h,
    ) by {
        assert(slot_from(idx, q, a_ids, a_ds, b_ids[i], b_ds[i], f));
        if !has_pair(a_ids, a_ds, b_ids[i], b_ds[i]) {
            assert(f(b_ids[i] as int));
        }
    }
}

/// Entries kept across a reordering keep what `pred` says of their second
/// component.
proof fn lemma_multiset_keeps(a: Seq<(u64, usize)>, b: Seq<(u64, usize)>, pred: spec_fn(usize) -> bool)
    requires
        a.to_multiset() == b.to_multiset(),
        forall|k: int| 0 <= k < a.len() ==> #[trigger] pred(a[k].1),
    ensures
        forall|k: int| 0 <= k < b.len() ==> #[trigger] pred(b[k].1),
{
    broadcast use vstd::seq_lib::group_to_multiset_ensures;

    assert forall|k: int| 0 <= k < b.len() implies #[trigger] pred(b[k].1) by {
        assert(b.contains(b[k]));
        assert(b.to_multiset().count(b[k]) > 0);
        assert(a.contains(b[k]));
        let j = choose|j: int| 0 <= j < a.len() && a[j] == b[k];
        assert(pred(a[j].1));
    }
}

/// Each squared coordinate difference of two `i16`s is at most
/// `65535 * 65535`.
proof fn lemma_coarse_terms_bounded(v: Seq<i16>, off: int, q: Seq<i16>)
    requires
        q.len() == 14,
    ensures
        forall|d: int|
            0 <= d < 14 ==> 0 <= #[trigger] coarse_terms(v, off, q)[d] <= 4294836225,
{
    assert forall|d: int| 0 <= d < 14 implies 0 <= #[trigger] coarse_terms(v, off, q)[d]
        <= 4294836225 by {
        lemma_sq_bound(v[off + d] - q[d], 65535);
    }
}

/// Offers each vector of `block` to the six candidates: one whose distance
/// is below the worst kept one replaces it.
pub fn scan_block(
    resources: &VectorIndex,
    query: &[i16; 14],
    block: &Block,
    best_ids: &mut [usize; CANDIDATE_COUNT],
    best_distances: &mut [u64; CANDIDATE_COUNT],
)
    requires
        resources.well_formed(),
        block.start < block.end ==> block.end <= resources.vector_count,
    ensures
        candidates_valid(resources, query@, old(best_ids)@, old(best_distances)@) && (exists|j: int|
            0 <= j < resources.blocks@.len() && resources.blocks@[j] == *block) ==> candidates_valid(
            resources,
            query@,
            final(best_ids)@,
            final(best_distances)@,
        ),
        sorted(old(best_distances)@) ==> {
            &&& sorted(final(best_distances)@)
            &&& final(best_distances)@.last() <= old(best_distances)@.last()
            &&& absorbs(
                old(best_distances)@,
                final(best_distances)@,
                |t: int| ids_below(resources, query@, block.start as int, block.end as int, t),
            )
            &&& keeps_near(
                old(best_ids)@,
                old(best_distances)@,
                final(best_ids)@,
                final(best_distances)@,
            )
            &&& holds_near(
                resources,
                query@,
                final(best_ids)@,
                final(best_distances)@,
                |x: int| block.start <= x < block.end,
            )
        },
        slots_from(
            resources,
            query@,
            old(best_ids)@,
            old(best_distances)@,
            final(best_ids)@,
            final(best_distances)@,
            |x: int| block.start <= x < block.end,
        ),
        distinct_filled(old(best_ids)@, old(best_distances)@) && filled_outside(
            old(best_ids)@,
            old(best_distances)@,
            |x: int| block.start <= x < block.end,
        ) ==> distinct_filled(final(best_ids)@, final(best_distances)@),
{
    let ghost q = query@;
    let ghost d0 = best_distances@;
    let ghost i0 = best_ids@;
    let ghost fresh = distinct_filled(i0, d0) && filled_outside(
        i0,
        d0,
        |x: int| block.start <= x < block.end,
    );
    proof {
        lemma_slots_from_same(resources, q, i0, d0, |x: int| block.start <= x < block.start);
    }
    let ghost sorted0 = sorted(d0);
    let ghost valid0 = candidates_valid(resources, q, i0, d0) && (exists|j: int|
        0 <= j < resources.blocks@.len() && resources.blocks@[j] == *block);
    proof {
        assert forall|t: int| 0 <= t <= u64::MAX implies #[trigger] count_lt(d0, t) == cap(
            d0.len(),
            count_lt(d0, t) + ids_below(resources, q, block.start as int, block.start as int, t),
        ) by {
            lemma_count_lt_bounds(d0, t);
        }
        assert forall|k: int| 0 <= k < d0.len() && d0[k] < d0.last() implies #[trigger] has_pair(
            i0,
            d0,
            i0[k],
            d0[k],
        ) by {}
    }
    let vector_len = resources.vectors.len();
    let end = block.end as usize;
    let mut id = block.start as usize;
    while id < end
        invariant
            resources.well_formed(),
            block.start < block.end ==> block.end <= resources.vector_count,
            end == block.end,
            vector_len == resources.vectors@.len(),
            block.start <= id,
            block.start < block.end ==> id <= end,
            block.start >= block.end ==> id == block.start,
            q == query@,
            d0.len() == CANDIDATE_COUNT,
            valid0 == (candidates_valid(resources, q, i0, d0) && (exists|j: int|
                0 <= j < resources.blocks@.len() && resources.blocks@[j] == *block)),
            valid0 ==> candidates_valid(resources, q, best_ids@, best_distances@),
            sorted0 == sorted(d0),
            sorted0 ==> sorted(best_distances@),
            sorted0 ==> best_distances@.last() <= d0.last(),
            sorted0 ==> absorbs(
                d0,
                best_distances@,
                |t: int| ids_below(resources, q, block.start as int, id as int, t),
            ),
            sorted0 ==> keeps_near(i0, d0, best_ids@, best_distances@),
            sorted0 ==> holds_near(
                resources,
                q,
                best_ids@,
                best_distances@,
                |x: int| block.start <= x < id,
            ),
            slots_from(
                resources,
                q,
                i0,
                d0,
                best_ids@,
                best_distances@,
                |x: int| block.start <= x < id,
            ),
            fresh == (distinct_filled(i0, d0) && filled_outside(
                i0,
                d0,
                |x: int| block.start <= x < block.end,
            )),
            fresh ==> distinct_filled(best_ids@, best_distances@),
        decreases end - id,
    {
        let ghost d1 = best_distances@;
        let ghost i1 = best_ids@;
        let ghost terms = coarse_terms(resources.vectors@, id * 14, q);
        proof {
            lemma_coarse_terms_bounded(resources.vectors@, id * 14, q);
            lemma_ordered_sum_full(terms);
            assert(id < resources.vector_count);
            assert(id * 14 + 14 <= vector_len) by (nonlinear_arith)
                requires
                    id < resources.vector_count,
                    vector_len == resources.vector_count * 14,
            ;
        }
        let offset = id * VECTOR_DIMS;
        let mut distance: u64 = 0;
        let limit = best_distances[CANDIDATE_COUNT - 1];
        let mut k: usize = 0;
        while k < 14
            invariant_except_break
                k <= 14,
                distance == ordered_sum(terms, k as int),
                k > 0 ==> distance < limit,
            invariant
                offset == id * 14,
                offset + 14 <= vector_len,
                vector_len == resources.vectors@.len(),
                terms == coarse_terms(resources.vectors@, offset as int, q),
                q == query@,
                forall|d: int| 0 <= d < 14 ==> 0 <= #[trigger] terms[d] <= 4294836225,
                ordered_sum(terms, 14) == seq_sum(terms, 14),
            ensures
                distance < limit ==> distance == seq_sum(terms, 14),
                distance >= limit ==> seq_sum(terms, 14) >= limit,
            decreases 14 - k,
        {
            let dim = DIM_ORDER[k];
            assert(dim == dim_at(k as int));
            let value = resources.vectors[offset + dim];
            let delta = value as i64 - query[dim] as i64;
            proof {
                lemma_ordered_sum_monotone(terms, k + 1, 4294836225);
                lemma_sq_bound(delta as int, 65535);
            }
            distance += (delta * delta) as u64;
            if distance >= limit {
                break;
            }
            k += 1;
        }
        proof {
            assert(coarse_distance(resources, id as int, q) == seq_sum(terms, 14));
        }
        if distance < best_distances[CANDIDATE_COUNT - 1] {
            proof {
                if sorted0 {
                    lemma_offer_accepted(d1, distance);
                    lemma_insert_counts(d1, distance);
                }
                lemma_slot_after_range(d1.drop_last(), distance);
            }
            insert_candidate(id, distance, best_ids, best_distances);
            proof {
                let p = insertion_point(d1, distance);
                let cur = best_distances@;
                if sorted0 {
                    assert(cur.last() <= d1.last()) by {
                        if p < 5 {
                            assert(cur[5] == d1[4]);
                            assert(d1[4] <= d1[5]);
                        }
                    }
                    assert forall|k: int| 0 <= k < d0.len() && d0[k] < cur.last() implies #[trigger] has_pair(
                        best_ids@,
                        cur,
                        i0[k],
                        d0[k],
                    ) by {
                        assert(has_pair(i1, d1, i0[k], d0[k]));
                        let m = choose|m: int| 0 <= m < i1.len() && i1[m] == i0[k] && d1[m] == d0[k];
                        if m < p {
                            assert(best_ids@[m] == i1[m] && cur[m] == d1[m]);
                        } else {
                            assert(m < 5);
                            assert(best_ids@[m + 1] == i1[m] && cur[m + 1] == d1[m]);
                        }
                    }
                    let fa = |x: int| block.start <= x < id;
                    let fb = |x: int| block.start <= x < id + 1;
                    assert forall|x: int| fb(x) && coarse_distance(resources, x, q) < cur.last() implies #[trigger] holds_vector(
                        resources,
                        q,
                        best_ids@,
                        cur,
                        x,
                    ) by {
                        if x == id {
                            assert(best_ids@[p] == id && cur[p] == distance);
                        } else {
                            assert(fa(x));
                            assert(holds_vector(resources, q, i1, d1, x));
                            let m = choose|m: int|
                                0 <= m < i1.len() && i1[m] as int == x && d1[m] == coarse_distance(resources, x, q);
                            if m < p {
                                assert(best_ids@[m] == i1[m] && cur[m] == d1[m]);
                            } else {
                                assert(m < 5);
                                assert(best_ids@[m + 1] == i1[m] && cur[m + 1] == d1[m]);
                            }
                        }
                    }
                }
                let f0 = |x: int| block.start <= x < id;
                let f1 = |x: int| block.start <= x < id + 1;
                if fresh {
                    let fb = |x: int| block.start <= x < block.end;
                    assert forall|k: int| 0 <= k < 6 && d1[k] != u64::MAX implies #[trigger] i1[k] != id by {
                        assert(slot_from(resources, q, i0, d0, i1[k], d1[k], f0));
                        if has_pair(i0, d0, i1[k], d1[k]) {
                            let m = choose|m: int| 0 <= m < i0.len() && i0[m] == i1[k] && d0[m] == d1[k];
                            assert(!fb(i0[m] as int));
                        }
                    }
                    assert forall|i: int, j: int|
                        0 <= i < 6 && 0 <= j < 6 && i != j && best_distances@[i] != u64::MAX
                            && best_distances@[j] != u64::MAX implies #[trigger] best_ids@[i]
                        != #[trigger] best_ids@[j] by {
                        let a = if i < p { i } else { i - 1 };
                        let b = if j < p { j } else { j - 1 };
                        if i != p && j != p {
                            assert(best_ids@[i] == i1[a] && best_distances@[i] == d1[a]);
                            assert(best_ids@[j] == i1[b] && best_distances@[j] == d1[b]);
                        } else if i == p {
                            assert(best_ids@[j] == i1[b] && best_distances@[j] == d1[b]);
                        } else {
                            assert(best_ids@[i] == i1[a] && best_distances@[i] == d1[a]);
                        }
                    }
                }
                assert forall|i: int| 0 <= i < 6 implies #[trigger] slot_from(
                    resources,
                    q,
                    i0,
                    d0,
                    best_ids@[i],
                    best_distances@[i],
                    f1,
                ) by {
                    if i < p {
                        assert(best_ids@[i] == i1[i] && best_distances@[i] == d1[i]);
                        assert(slot_from(resources, q, i0, d0, i1[i], d1[i], f0));
                    } else if i > p {
                        assert(best_ids@[i] == i1[i - 1] && best_distances@[i] == d1[i - 1]);
                        assert(slot_from(resources, q, i0, d0, i1[i - 1], d1[i - 1], f0));
                    }
                }
                if valid0 {
                    let j = choose|j: int| 0 <= j < resources.blocks@.len() && resources.blocks@[j] == *block;
                    assert(resources.blocks@[j] == *block);
                    assert(is_member(resources, id as int));
                    assert forall|i: int| 0 <= i < 6 implies #[trigger] valid_candidate(
                        resources,
                        q,
                        best_ids@[i],
                        best_distances@[i],
                    ) by {
                        if i < p {
                            assert(best_ids@[i] == i1[i] && best_distances@[i] == d1[i]);
                        } else if i > p {
                            assert(best_ids@[i] == i1[i - 1] && best_distances@[i] == d1[i - 1]);
                        }
                    }
                }
                if sorted0 {
                    lemma_absorbs_trans(
                        d0,
                        d1,
                        best_distances@,
                        |t: int| ids_below(resources, q, block.start as int, id as int, t),
                        |t: int| below(distance as int, t),
                    );
                }
            }
        } else {
            proof {
                lemma_slots_from_weaken(
                    resources,
                    q,
                    i0,
                    d0,
                    i1,
                    d1,
                    |x: int| block.start <= x < id,
                    |x: int| block.start <= x < id + 1,
                );
                if sorted0 {
                    lemma_offer_rejected(d1, coarse_distance(resources, id as int, q));
                    lemma_absorbs_trans(
                        d0,
                        d1,
                        d1,
                        |t: int| ids_below(resources, q, block.start as int, id as int, t),
                        |t: int| below(coarse_distance(resources, id as int, q), t),
                    );
                    let fa = |x: int| block.start <= x < id;
                    let fb = |x: int| block.start <= x < id + 1;
                    assert forall|x: int| fb(x) && coarse_distance(resources, x, q) < d1.last() implies #[trigger] holds_vector(
                        resources,
                        q,
                        i1,
                        d1,
                        x,
                    ) by {
                        assert(fa(x));
                    }
                }
            }
        }
        id += 1;
    }
    proof {
        let fa = |x: int| block.start <= x < id;
        let fb = |x: int| block.start <= x < block.end;
        assert forall|x: int| #[trigger] fa(x) implies fb(x) by {}
        lemma_slots_from_weaken(resources, q, i0, d0, best_ids@, best_distances@, fa, fb);
        if sorted0 {
            assert forall|x: int| fb(x) && coarse_distance(resources, x, q) < best_distances@.last() implies #[trigger] holds_vector(
                resources,
                q,
                best_ids@,
                best_distances@,
                x,
            ) by {
                assert(fa(x));
            }
            assert forall|t: int| 0 <= t <= u64::MAX implies #[trigger] count_lt(best_distances@, t) == cap(
                d0.len(),
                count_lt(d0, t) + ids_below(resources, q, block.start as int, block.end as int, t),
            ) by {
                assert(count_lt(best_distances@, t) == cap(
                    d0.len(),
                    count_lt(d0, t) + ids_below(resources, q, block.start as int, id as int, t),
                ));
                if block.start >= block.end {
                    assert(ids_below(resources, q, block.start as int, id as int, t) == 0);
                    assert(ids_below(resources, q, block.start as int, block.end as int, t) == 0);
                }
            }
        }
    }
}

/// How many members of block `j` lie below distance `t` from `q`.
pub open spec fn block_below(idx: &VectorIndex, q: Seq<i16>, j: int, t: int) -> nat {
    ids_below(idx, q, idx.blocks@[j].start as int, idx.blocks@[j].end as int, t)
}

/// How many members of the blocks `lo..hi` lie below distance `t` from `q`.
pub open spec fn blocks_below(idx: &VectorIndex, q: Seq<i16>, lo: int, hi: int, t: int) -> nat
    decreases hi - lo,
{
    if hi <= lo {
        0
    } else {
        blocks_below(idx, q, lo, hi - 1, t) + block_below(idx, q, hi - 1, t)
    }
}

/// `f` summed over the second components of `list`.
pub open spec fn pair_sum(list: Seq<(u64, usize)>, f: spec_fn(usize) -> nat) -> nat
    decreases list.len(),
{
    if list.len() == 0 {
        0
    } else {
        pair_sum(list.drop_last(), f) + f(list.last().1)
    }
}

/// How many members of the blocks named in `list` lie below distance `t`.
pub open spec fn listed_blocks_below(
    idx: &VectorIndex,
    q: Seq<i16>,
    list: Seq<(u64, usize)>,
    t: int,
) -> nat {
    pair_sum(list, block_counter(idx, q, t))
}

/// Block `j` mapped to its members below `t`.
pub open spec fn block_counter(idx: &VectorIndex, q: Seq<i16>, t: int) -> spec_fn(usize) -> nat {
    |j: usize| block_below(idx, q, j as int, t)
}

/// Summing over a concatenation adds the sums of its parts.
proof fn lemma_pair_sum_concat(a: Seq<(u64, usize)>, b: Seq<(u64, usize)>, f: spec_fn(usize) -> nat)
    ensures
        pair_sum(a + b, f) == pair_sum(a, f) + pair_sum(b, f),
    decreases b.len(),
{
    if b.len() == 0 {
        assert(a + b =~= a);
    } else {
        assert((a + b).drop_last() =~= a + b.drop_last());
        lemma_pair_sum_concat(a, b.drop_last(), f);
    }
}

/// Removing one entry takes its term out of the sum.
proof fn lemma_pair_sum_remove(s: Seq<(u64, usize)>, i: int, f: spec_fn(usize) -> nat)
    requires
        0 <= i < s.len(),
    ensures
        pair_sum(s, f) == pair_sum(s.remove(i), f) + f(s[i].1),
    decreases s.len(),
{
    if i == s.len() - 1 {
        assert(s.remove(i) =~= s.drop_last());
    } else {
        lemma_pair_sum_remove(s.drop_last(), i, f);
        assert(s.remove(i).drop_last() =~= s.drop_last().remove(i));
        assert(s.remove(i).last() == s.last());
    }
}

/// The sum over a list depends only on the multiset of its entries.
proof fn lemma_pair_sum_multiset(a: Seq<(u64, usize)>, b: Seq<(u64, usize)>, f: spec_fn(usize) -> nat)
    requires
        a.to_multiset() == b.to_multiset(),
    ensures
        pair_sum(a, f) == pair_sum(b, f),
    decreases a.len(),
{
    broadcast use vstd::seq_lib::group_to_multiset_ensures;

    if a.len() == 0 {
        assert(a.to_multiset().len() == a.len());
        assert(b.to_multiset().len() == b.len());
    } else {
        let x = a.last();
        let a1 = a.drop_last();
        assert(a1.push(x) =~= a);
        assert(a.to_multiset() =~= a1.to_multiset().insert(x));
        assert(b.to_multiset().count(x) > 0);
        assert(b.contains(x));
        let i = choose|i: int| 0 <= i < b.len() && b[i] == x;
        let b1 = b.remove(i);
        assert(b1.to_multiset() =~= b.to_multiset().remove(x));
        assert(a1.to_multiset() =~= b1.to_multiset());
        lemma_pair_sum_multiset(a1, b1, f);
        lemma_pair_sum_remove(b, i, f);
    }
}

/// Of the vectors `lo..hi`, all in the box, none lies below a `t` that the
/// box's distance reaches.
proof fn lemma_ids_pruned(
    idx: &VectorIndex,
    q: Seq<i16>,
    min: Seq<i16>,
    max: Seq<i16>,
    lo: int,
    hi: int,
    t: int,
)
    requires
        forall|id: int| lo <= id < hi ==> #[trigger] point_in_box(min, max, idx.vectors@, id * 14),
        box_distance(min, max, q) >= t,
    ensures
        ids_below(idx, q, lo, hi, t) == 0,
    decreases hi - lo,
{
    if hi > lo {
        lemma_ids_pruned(idx, q, min, max, lo, hi - 1, t);
        lemma_box_distance_sound(min, max, idx.vectors@, (hi - 1) * 14, q);
    }
}

/// With sound blocks, a block whose box lies at distance at least `t` has no
/// member below `t`.
proof fn lemma_block_pruned(idx: &VectorIndex, q: Seq<i16>, j: int, t: int)
    requires
        idx.blocks_sound(),
        0 <= j < idx.blocks@.len(),
        box_distance(idx.blocks@[j].min@, idx.blocks@[j].max@, q) >= t,
    ensures
        block_below(idx, q, j, t) == 0,
{
    let b = idx.blocks@[j];
    assert forall|id: int| b.start <= id < b.end implies #[trigger] point_in_box(
        b.min@,
        b.max@,
        idx.vectors@,
        id * 14,
    ) by {
        assert(point_in_box(
            idx.blocks@[j].min@,
            idx.blocks@[j].max@,
            idx.vectors@,
            id * 14,
        ));
    }
    lemma_ids_pruned(idx, q, b.min@, b.max@, b.start as int, b.end as int, t);
}

/// Entries sorted by their first component.
pub open spec fn sorted_by_distance(list: Seq<(u64, usize)>) -> bool {
    forall|i: int, j: int| 0 <= i <= j < list.len() ==> list[i].0 <= list[j].0
}

/// Sorts `entries` by distance: the result holds the same entries, in
/// non-decreasing order of distance.
fn sort_by_distance(entries: &mut Vec<(u64, usize)>)
    ensures
        final(entries)@.to_multiset() == old(entries)@.to_multiset(),
        sorted_by_distance(final(entries)@),
{
    sort_by_key(entries);
}

/// Reusable buffers of `(bound, index)` entries for the search.
pub struct SearchScratch {
    pub partitions: Vec<(u64, usize)>,
    pub blocks: Vec<(u64, usize)>,
}

impl SearchScratch {
    pub fn new() -> (scratch: Self)
        ensures
            scratch.partitions@.len() == 0,
            scratch.blocks@.len() == 0,
    {
        Self { partitions: Vec::with_capacity(4096), blocks: Vec::with_capacity(256) }
    }
}

/// Each entry names a block of the index and carries its box distance from `q`.
pub open spec fn block_entries(idx: &VectorIndex, q: Seq<i16>, list: Seq<(u64, usize)>) -> bool {
    forall|k: int|
        0 <= k < list.len() ==> #[trigger] list[k].1 < idx.blocks@.len() && list[k].0 as int
            == box_distance(idx.blocks@[list[k].1 as int].min@, idx.blocks@[list[k].1 as int].max@, q)
}

/// Blocks whose boxes all lie at distance at least `t` have no member below `t`.
proof fn lemma_listed_blocks_pruned(idx: &VectorIndex, q: Seq<i16>, list: Seq<(u64, usize)>, t: int)
    requires
        idx.blocks_sound(),
        block_entries(idx, q, list),
        forall|k: int| 0 <= k < list.len() ==> t <= #[trigger] list[k].0,
    ensures
        listed_blocks_below(idx, q, list, t) == 0,
    decreases list.len(),
{
    if list.len() > 0 {
        let init = list.drop_last();
        assert(block_entries(idx, q, init)) by {
            assert forall|k: int| 0 <= k < init.len() implies #[trigger] init[k].1 < idx.blocks@.len()
                && init[k].0 as int == box_distance(
                idx.blocks@[init[k].1 as int].min@,
                idx.blocks@[init[k].1 as int].max@,
                q,
            ) by {
                assert(init[k] == list[k]);
            }
        }
        lemma_listed_blocks_pruned(idx, q, init, t);
        let e = list.last();
        assert(e == list[list.len() - 1]);
        lemma_block_pruned(idx, q, e.1 as int, t);
    }
}

/// Entries kept across a reordering keep what `block_entries` says of them.
proof fn lemma_block_entries_multiset(
    idx: &VectorIndex,
    q: Seq<i16>,
    a: Seq<(u64, usize)>,
    b: Seq<(u64, usize)>,
)
    requires
        block_entries(idx, q, a),
        a.to_multiset() == b.to_multiset(),
    ensures
        block_entries(idx, q, b),
{
    broadcast use vstd::seq_lib::group_to_multiset_ensures;

    assert forall|k: int| 0 <= k < b.len() implies #[trigger] b[k].1 < idx.blocks@.len()
        && b[k].0 as int == box_distance(
        idx.blocks@[b[k].1 as int].min@,
        idx.blocks@[b[k].1 as int].max@,
        q,
    ) by {
        assert(b.contains(b[k]));
        assert(b.to_multiset().count(b[k]) > 0);
        assert(a.contains(b[k]));
    }
}

/// Offers the vectors of the blocks `start..end` to the six candidates,
/// visiting blocks by increasing box distance and skipping those whose box
/// lies no nearer than the worst kept candidate.
pub fn scan_block_range(
    resources: &VectorIndex,
    query: &[i16; 14],
    start: usize,
    end: usize,
    best_ids: &mut [usize; CANDIDATE_COUNT],
    best_distances: &mut [u64; CANDIDATE_COUNT],
    scratch: &mut SearchScratch,
)
    requires
        resources.well_formed(),
        start < end ==> end <= resources.blocks@.len(),
    ensures
        candidates_valid(resources, query@, old(best_ids)@, old(best_distances)@) ==> candidates_valid(
            resources,
            query@,
            final(best_ids)@,
            final(best_distances)@,
        ),
        final(scratch).partitions@ == old(scratch).partitions@,
        sorted(old(best_distances)@) ==> {
            &&& sorted(final(best_distances)@)
            &&& final(best_distances)@.last() <= old(best_distances)@.last()
            &&& keeps_near(
                old(best_ids)@,
                old(best_distances)@,
                final(best_ids)@,
                final(best_distances)@,
            )
        },
        sorted(old(best_distances)@) && resources.blocks_sound() ==> {
            &&& absorbs(
                old(best_distances)@,
                final(best_distances)@,
                |t: int| blocks_below(resources, query@, start as int, end as int, t),
            )
            &&& holds_near(
                resources,
                query@,
                final(best_ids)@,
                final(best_distances)@,
                |x: int| in_blocks(resources, x, start as int, end as int),
            )
        },
        slots_from(
            resources,
            query@,
            old(best_ids)@,
            old(best_distances)@,
            final(best_ids)@,
            final(best_distances)@,
            |x: int| in_blocks(resources, x, start as int, end as int),
        ),
        start >= end ==> final(best_ids)@ == old(best_ids)@ && final(best_distances)@ == old(
            best_distances,
        )@ && final(scratch).blocks@.len() == 0,
        resources.blocks_disjoint() && distinct_filled(old(best_ids)@, old(best_distances)@)
            && filled_outside(
            old(best_ids)@,
            old(best_distances)@,
            |x: int| in_blocks(resources, x, start as int, end as int),
        ) ==> distinct_filled(final(best_ids)@, final(best_distances)@),
{
    let ghost q = query@;
    let ghost d0 = best_distances@;
    let ghost i0 = best_ids@;
    let ghost worst0 = d0.last();
    let ghost from = |x: int| in_blocks(resources, x, start as int, end as int);
    let ghost fresh = resources.blocks_disjoint() && distinct_filled(i0, d0) && filled_outside(
        i0,
        d0,
        from,
    );
    let ghost sorted0 = sorted(d0);
    let ghost valid0 = candidates_valid(resources, q, i0, d0);
    scratch.blocks.clear();

    let mut block_id = start;
    while block_id < end
        invariant
            resources.well_formed(),
            q == query@,
            best_distances@ == d0,
            d0.len() == CANDIDATE_COUNT,
            worst0 == d0.last(),
            start <= block_id,
            start >= end ==> block_id == start,
            start < end ==> block_id <= end <= resources.blocks@.len(),
            scratch.partitions@ == old(scratch).partitions@,
            block_entries(resources, q, scratch.blocks@),
            forall|k: int| 0 <= k < scratch.blocks@.len() ==> #[trigger] scratch.blocks@[k].0 < worst0,
            forall|k: int|
                0 <= k < scratch.blocks@.len() ==> start <= #[trigger] scratch.blocks@[k].1 < end,
            forall|k: int|
                0 <= k < scratch.blocks@.len() ==> #[trigger] scratch.blocks@[k].1 < block_id,
            forall|a: int, b: int|
                0 <= a < b < scratch.blocks@.len() ==> #[trigger] scratch.blocks@[a].1
                    < #[trigger] scratch.blocks@[b].1,
            start >= end ==> scratch.blocks@.len() == 0,
            forall|j: int|
                start <= j < block_id && box_distance(
                    resources.blocks@[j].min@,
                    resources.blocks@[j].max@,
                    q,
                ) < worst0 ==> #[trigger] names_entry(scratch.blocks@, j),
            resources.blocks_sound() ==> forall|t: int|
                0 <= t <= worst0 ==> #[trigger] blocks_below(resources, q, start as int, block_id as int, t)
                    == listed_blocks_below(resources, q, scratch.blocks@, t),
        decreases end - block_id,
    {
        let block = &resources.blocks[block_id];
        let ghost before = scratch.blocks@;
        if let Some(distance) = bbox_lower_bound(
            &block.min,
            &block.max,
            query,
            best_distances[CANDIDATE_COUNT - 1],
        ) {
            scratch.blocks.push((distance, block_id));
            proof {
                assert(scratch.blocks@.drop_last() =~= before);
                assert(scratch.blocks@[before.len() as int] == (distance, block_id));
                assert(distance as int == box_distance(
                    resources.blocks@[block_id as int].min@,
                    resources.blocks@[block_id as int].max@,
                    q,
                ));
                assert forall|k: int| 0 <= k < scratch.blocks@.len() implies start <= #[trigger] scratch.blocks@[k].1
                    < end && scratch.blocks@[k].1 < block_id + 1 by {
                    if k < before.len() {
                        assert(scratch.blocks@[k] == before[k]);
                    }
                }
                assert forall|a: int, b: int| 0 <= a < b < scratch.blocks@.len() implies #[trigger] scratch.blocks@[a].1
                    < #[trigger] scratch.blocks@[b].1 by {
                    assert(scratch.blocks@[a] == before[a]);
                    if b < before.len() {
                        assert(scratch.blocks@[b] == before[b]);
                    }
                }
                assert forall|k: int| 0 <= k < scratch.blocks@.len() implies #[trigger] scratch.blocks@[k].1
                    < resources.blocks@.len() && scratch.blocks@[k].0 as int == box_distance(
                    resources.blocks@[scratch.blocks@[k].1 as int].min@,
                    resources.blocks@[scratch.blocks@[k].1 as int].max@,
                    q,
                ) by {
                    if k < before.len() {
                        assert(scratch.blocks@[k] == before[k]);
                    }
                }
                assert forall|j: int|
                    start <= j < block_id + 1 && box_distance(
                        resources.blocks@[j].min@,
                        resources.blocks@[j].max@,
                        q,
                    ) < worst0 implies #[trigger] names_entry(scratch.blocks@, j) by {
                    if j < block_id {
                        assert(names_entry(before, j));
                        let k = choose|k: int| 0 <= k < before.len() && #[trigger] before[k].1 as int == j;
                        assert(scratch.blocks@[k] == before[k]);
                    } else {
                        assert(scratch.blocks@[before.len() as int].1 as int == j);
                    }
                }
                assert forall|t: int| 0 <= t <= worst0 implies #[trigger] listed_blocks_below(
                    resources,
                    q,
                    scratch.blocks@,
                    t,
                ) == listed_blocks_below(resources, q, before, t) + block_below(
                    resources,
                    q,
                    block_id as int,
                    t,
                ) by {
                    assert(scratch.blocks@.last() == (distance, block_id));
                }
            }
        } else {
            proof {
                assert forall|j: int|
                    start <= j < block_id + 1 && box_distance(
                        resources.blocks@[j].min@,
                        resources.blocks@[j].max@,
                        q,
                    ) < worst0 implies #[trigger] names_entry(scratch.blocks@, j) by {
                    if j == block_id {
                        assert(box_distance(
                            resources.blocks@[block_id as int].min@,
                            resources.blocks@[block_id as int].max@,
                            q,
                        ) >= worst0);
                    }
                }
                if resources.blocks_sound() {
                    assert forall|t: int| 0 <= t <= worst0 implies block_below(resources, q, block_id as int, t) == 0 by {
                        lemma_block_pruned(resources, q, block_id as int, t);
                    }
                }
            }
        }
        proof {
            if resources.blocks_sound() {
                assert forall|t: int| 0 <= t <= worst0 implies #[trigger] blocks_below(
                    resources,
                    q,
                    start as int,
                    block_id + 1,
                    t,
                ) == listed_blocks_below(resources, q, scratch.blocks@, t) by {
                    assert(blocks_below(resources, q, start as int, block_id as int, t)
                        == listed_blocks_below(resources, q, before, t));
                    assert(blocks_below(resources, q, start as int, block_id + 1, t)
                        == blocks_below(resources, q, start as int, block_id as int, t) + block_below(resources, q, block_id as int, t));
                }
            }
        }
        block_id += 1;
    }

    let ghost pushed = scratch.blocks@;
    proof {
        if resources.blocks_sound() {
            assert forall|t: int| 0 <= t <= worst0 implies #[trigger] blocks_below(
                resources,
                q,
                start as int,
                end as int,
                t,
            ) == listed_blocks_below(resources, q, pushed, t) by {
                if start < end {
                    assert(block_id == end);
                } else {
                    assert(blocks_below(resources, q, start as int, block_id as int, t) == 0);
                }
            }
        }
    }
    sort_by_distance(&mut scratch.blocks);
    let ghost list = scratch.blocks@;
    proof {
        broadcast use vstd::seq_lib::group_to_multiset_ensures;

        lemma_block_entries_multiset(resources, q, pushed, list);
        lemma_no_dup_keys(
            pushed,
            list,
            |j: usize| box_distance(resources.blocks@[j as int].min@, resources.blocks@[j as int].max@, q),
        );
        lemma_slots_from_same(
            resources,
            q,
            i0,
            d0,
            |x: int| in_listed_blocks(resources, list.take(0), x),
        );
        let in_range = |b: usize| start <= b < end;
        lemma_multiset_keeps(pushed, list, in_range);
        assert forall|k: int| 0 <= k < list.len() implies start <= #[trigger] list[k].1 < end by {
            assert(in_range(list[k].1));
        }
        lemma_absorbs_nothing(d0);
        lemma_slots_from_same(resources, q, i0, d0, from);
        assert forall|k: int| 0 <= k < d0.len() && d0[k] < d0.last() implies #[trigger] has_pair(
            i0,
            d0,
            i0[k],
            d0[k],
        ) by {}
        assert(pushed.to_multiset().len() == pushed.len());
        assert(list.to_multiset().len() == list.len());
    }

    let count = scratch.blocks.len();
    let mut i: usize = 0;
    while i < count
        invariant_except_break
            i <= count,
        invariant
            resources.well_formed(),
            q == query@,
            count == list.len(),
            scratch.blocks@ == list,
            scratch.partitions@ == old(scratch).partitions@,
            block_entries(resources, q, list),
            forall|k: int| 0 <= k < list.len() ==> start <= #[trigger] list[k].1 < end,
            d0.len() == CANDIDATE_COUNT,
            valid0 == candidates_valid(resources, q, i0, d0),
            valid0 ==> candidates_valid(resources, q, best_ids@, best_distances@),
            sorted0 == sorted(d0),
            sorted0 ==> sorted(best_distances@),
            sorted0 ==> best_distances@.last() <= d0.last(),
            sorted0 ==> keeps_near(i0, d0, best_ids@, best_distances@),
            sorted0 ==> holds_near(
                resources,
                q,
                best_ids@,
                best_distances@,
                |x: int| in_listed_blocks(resources, list.take(i as int), x),
            ),
            sorted0 ==> absorbs(
                d0,
                best_distances@,
                |t: int| listed_blocks_below(resources, q, list.take(i as int), t),
            ),
            from == (|x: int| in_blocks(resources, x, start as int, end as int)),
            slots_from(resources, q, i0, d0, best_ids@, best_distances@, from),
            i == 0 ==> best_ids@ == i0 && best_distances@ == d0,
            forall|a: int, b: int|
                0 <= a < list.len() && 0 <= b < list.len() && a != b ==> #[trigger] list[a].1
                    != #[trigger] list[b].1,
            slots_from(
                resources,
                q,
                i0,
                d0,
                best_ids@,
                best_distances@,
                |x: int| in_listed_blocks(resources, list.take(i as int), x),
            ),
            fresh == (resources.blocks_disjoint() && distinct_filled(i0, d0) && filled_outside(
                i0,
                d0,
                from,
            )),
            fresh ==> distinct_filled(best_ids@, best_distances@),
        ensures
            i <= count,
            i < count ==> list[i as int].0 >= best_distances@.last(),
        decreases count - i,
    {
        let (distance, block_id) = scratch.blocks[i];
        if distance >= best_distances[CANDIDATE_COUNT - 1] {
            break;
        }
        let ghost d1 = best_distances@;
        let ghost i1 = best_ids@;
        let block = &resources.blocks[block_id];
        let ghost visited = |x: int| in_listed_blocks(resources, list.take(i as int), x);
        let ghost g = |x: int| block.start <= x < block.end;
        proof {
            assert(list[i as int].1 == block_id);
            if fresh {
                assert forall|k: int| 0 <= k < 6 && d1[k] != u64::MAX implies !g(#[trigger] i1[k] as int) by {
                    assert(slot_from(resources, q, i0, d0, i1[k], d1[k], visited));
                    let x = i1[k] as int;
                    if has_pair(i0, d0, i1[k], d1[k]) {
                        let m = choose|m: int| 0 <= m < i0.len() && i0[m] == i1[k] && d0[m] == d1[k];
                        assert(!from(i0[m] as int));
                        if g(x) {
                            assert(resources.blocks@[block_id as int].start <= x < resources.blocks@[block_id as int].end);
                        }
                    } else {
                        assert(visited(x));
                        let kk = choose|kk: int|
                            0 <= kk < list.take(i as int).len() && resources.blocks@[#[trigger] list.take(i as int)[kk].1 as int].start
                                <= x < resources.blocks@[list.take(i as int)[kk].1 as int].end;
                        assert(list.take(i as int)[kk] == list[kk]);
                        assert(list[kk].1 != list[i as int].1);
                        lemma_block_apart(resources, list[kk].1 as int, block_id as int, x);
                    }
                }
            }
        }
        scan_block(resources, query, block, best_ids, best_distances);
        proof {
            let visited1 = |x: int| in_listed_blocks(resources, list.take(i + 1), x);
            assert forall|x: int| #[trigger] visited(x) implies visited1(x) by {
                let kk = choose|kk: int|
                    0 <= kk < list.take(i as int).len() && resources.blocks@[#[trigger] list.take(i as int)[kk].1 as int].start
                        <= x < resources.blocks@[list.take(i as int)[kk].1 as int].end;
                assert(list.take(i as int)[kk] == list.take(i + 1)[kk]);
            }
            assert forall|x: int| #[trigger] g(x) implies visited1(x) by {
                assert(list.take(i + 1)[i as int] == list[i as int]);
            }
            lemma_slots_from_trans(resources, q, i0, d0, i1, d1, best_ids@, best_distances@, visited, g, visited1);
            assert forall|x: int| #[trigger] g(x) implies from(x) by {
                assert(start <= block_id < end);
                assert(resources.blocks@[block_id as int].start <= x < resources.blocks@[block_id as int].end);
            }
            lemma_slots_from_trans(resources, q, i0, d0, i1, d1, best_ids@, best_distances@, from, g, from);
            if sorted0 {
                lemma_absorbs_trans(
                    d0,
                    d1,
                    best_distances@,
                    |t: int| listed_blocks_below(resources, q, list.take(i as int), t),
                    |t: int| block_below(resources, q, block_id as int, t),
                );
                lemma_keeps_near_trans(i0, d0, i1, d1, best_ids@, best_distances@);
                assert forall|x: int| #[trigger] visited1(x) implies visited(x) || g(x) by {
                    let kk = choose|kk: int|
                        0 <= kk < list.take(i + 1).len() && resources.blocks@[#[trigger] list.take(i + 1)[kk].1 as int].start
                            <= x < resources.blocks@[list.take(i + 1)[kk].1 as int].end;
                    if kk < i {
                        assert(list.take(i as int)[kk] == list.take(i + 1)[kk]);
                    } else {
                        assert(list.take(i + 1)[kk] == list[i as int]);
                    }
                }
                lemma_holds_near_step(
                    resources,
                    q,
                    i1,
                    d1,
                    best_ids@,
                    best_distances@,
                    visited,
                    g,
                    visited1,
                );
            }
            assert(list.take(i + 1).drop_last() =~= list.take(i as int));
        }
        i += 1;
    }

    proof {
        if sorted0 && resources.blocks_sound() {
            let cur = best_distances@;
            let visited = |x: int| in_listed_blocks(resources, list.take(i as int), x);
            assert forall|x: int| from(x) && coarse_distance(resources, x, q) < cur.last() implies #[trigger] holds_vector(
                resources,
                q,
                best_ids@,
                cur,
                x,
            ) by {
                let j = choose|j: int|
                    start <= j < end && #[trigger] resources.blocks@[j].start <= x < resources.blocks@[j].end;
                lemma_member_beyond_box(resources, q, j, x);
                let bd = box_distance(resources.blocks@[j].min@, resources.blocks@[j].max@, q);
                assert(bd < worst0);
                assert(names_entry(pushed, j));
                let k0 = choose|k0: int| 0 <= k0 < pushed.len() && #[trigger] pushed[k0].1 as int == j;
                lemma_multiset_member(pushed, list, k0);
                let k = choose|k: int| 0 <= k < list.len() && list[k] == pushed[k0];
                assert(list[k].0 as int == bd);
                if k >= i {
                    assert(list[i as int].0 <= list[k].0);
                }
                assert(k < i);
                assert(list.take(i as int)[k] == list[k]);
                assert(visited(x));
            }
        }
        if resources.blocks_sound() && sorted0 {
            let cur = best_distances@;
            let rest = list.skip(i as int);
            assert forall|t: int| 0 <= t <= cur.last() implies #[trigger] listed_blocks_below(resources, q, rest, t) == 0nat by {
                assert(block_entries(resources, q, rest)) by {
                    assert forall|k: int| 0 <= k < rest.len() implies #[trigger] rest[k].1 < resources.blocks@.len()
                        && rest[k].0 as int == box_distance(
                        resources.blocks@[rest[k].1 as int].min@,
                        resources.blocks@[rest[k].1 as int].max@,
                        q,
                    ) by {
                        assert(rest[k] == list[i + k]);
                    }
                }
                assert forall|k: int| 0 <= k < rest.len() implies t <= #[trigger] rest[k].0 by {
                    assert(rest[k] == list[i + k]);
                    assert(list[i as int].0 <= list[i + k].0);
                }
                lemma_listed_blocks_pruned(resources, q, rest, t);
            }
            lemma_absorbs_nothing(cur);
            lemma_absorbs_below_worst(
                cur,
                cur,
                |t: int| 0nat,
                |t: int| listed_blocks_below(resources, q, rest, t),
            );
            lemma_absorbs_trans(
                d0,
                cur,
                cur,
                |t: int| listed_blocks_below(resources, q, list.take(i as int), t),
                |t: int| listed_blocks_below(resources, q, rest, t),
            );
            assert(list =~= list.take(i as int) + rest);
            assert forall|t: int| 0 <= t <= worst0 implies #[trigger] (listed_blocks_below(
                resources,
                q,
                list.take(i as int),
                t,
            ) + listed_blocks_below(resources, q, rest, t)) == blocks_below(
                resources,
                q,
                start as int,
                end as int,
                t,
            ) by {
                lemma_pair_sum_concat(list.take(i as int), rest, block_counter(resources, q, t));
                lemma_pair_sum_multiset(pushed, list, block_counter(resources, q, t));
            }
            lemma_absorbs_below_worst(
                d0,
                cur,
                |t: int|
                    listed_blocks_below(resources, q, list.take(i as int), t) + listed_blocks_below(
                        resources,
                        q,
                        rest,
                        t,
                    ),
                |t: int| blocks_below(resources, q, start as int, end as int, t),
            );
        }
    }
}

/// How many members of the blocks of partition `p` lie below distance `t`.
pub open spec fn partition_below(idx: &VectorIndex, q: Seq<i16>, p: int, t: int) -> nat {
    blocks_below(
        idx,
        q,
        idx.partition_offsets@[p] as int,
        idx.partition_offsets@[p + 1] as int,
        t,
    )
}

/// Partition `p` mapped to its members below `t`.
pub open spec fn partition_counter(idx: &VectorIndex, q: Seq<i16>, t: int) -> spec_fn(usize) -> nat {
    |p: usize| partition_below(idx, q, p as int, t)
}

/// How many members of the partitions named in `list` lie below `t`.
pub open spec fn listed_partitions_below(
    idx: &VectorIndex,
    q: Seq<i16>,
    list: Seq<(u64, usize)>,
    t: int,
) -> nat {
    pair_sum(list, partition_counter(idx, q, t))
}

/// How many members of the partitions in `parts`, other than `skip`, lie
/// below `t`.
pub open spec fn others_below(idx: &VectorIndex, q: Seq<i16>, parts: Seq<usize>, skip: usize, t: int) -> nat
    decreases parts.len(),
{
    if parts.len() == 0 {
        0
    } else {
        others_below(idx, q, parts.drop_last(), skip, t) + if parts.last() == skip {
            0
        } else {
            partition_below(idx, q, parts.last() as int, t)
        }
    }
}

/// How many members of all blocks of the index lie below `t` from `q`.
pub open spec fn all_below(idx: &VectorIndex, q: Seq<i16>, t: int) -> nat {
    blocks_below(idx, q, 0, idx.blocks@.len() as int, t)
}

/// With sound blocks, a partition whose box lies at distance at least `t`
/// has no member below `t`.
proof fn lemma_partition_pruned(idx: &VectorIndex, q: Seq<i16>, p: int, t: int)
    requires
        idx.well_formed(),
        idx.blocks_sound(),
        0 <= p < idx.partition_count(),
        box_distance(idx.partition_bounds@[p].min@, idx.partition_bounds@[p].max@, q) >= t,
    ensures
        partition_below(idx, q, p, t) == 0,
{
    let lo = idx.partition_offsets@[p] as int;
    let hi = idx.partition_offsets@[p + 1] as int;
    assert(lo <= hi);
    lemma_blocks_pruned(idx, q, p, lo, hi, t);
}

proof fn lemma_blocks_pruned(idx: &VectorIndex, q: Seq<i16>, p: int, lo: int, hi: int, t: int)
    requires
        idx.well_formed(),
        idx.blocks_sound(),
        0 <= p < idx.partition_count(),
        lo == idx.partition_offsets@[p],
        lo <= hi <= idx.partition_offsets@[p + 1],
        box_distance(idx.partition_bounds@[p].min@, idx.partition_bounds@[p].max@, q) >= t,
    ensures
        blocks_below(idx, q, lo, hi, t) == 0,
    decreases hi - lo,
{
    if hi > lo {
        lemma_blocks_pruned(idx, q, p, lo, hi - 1, t);
        let j = hi - 1;
        let b = idx.blocks@[j];
        let pb = idx.partition_bounds@[p];
        let phi = idx.partition_offsets@[p + 1] as int;
        assert(idx.partition_offsets@[p + 1] <= idx.blocks@.len());
        assert(span_matches(idx.blocks@, idx.partition_offsets@, pb, p));
        assert forall|id: int| b.start <= id < b.end implies #[trigger] point_in_box(
            pb.min@,
            pb.max@,
            idx.vectors@,
            id * 14,
        ) by {
            assert(point_in_box(b.min@, b.max@, idx.vectors@, id * 14));
            assert forall|dim: int| 0 <= dim < 14 implies #[trigger] pb.min@[dim] <= idx.vectors@[id
                * 14 + dim] <= pb.max@[dim] by {
                lemma_range_bounds(idx.blocks@, lo, phi, dim, j);
                assert(lo != phi);
                assert(idx.partition_bounds@[p].min@[dim] as int == range_min(idx.blocks@, lo, phi, dim));
                assert(idx.partition_bounds@[p].max@[dim] as int == range_max(idx.blocks@, lo, phi, dim));
                assert(b.min@[dim] <= idx.vectors@[id * 14 + dim] <= b.max@[dim]);
            }
        }
        lemma_ids_pruned(idx, q, pb.min@, pb.max@, b.start as int, b.end as int, t);
    }
}

/// Each entry names a partition of the index and carries its box distance.
pub open spec fn partition_entries(idx: &VectorIndex, q: Seq<i16>, list: Seq<(u64, usize)>) -> bool {
    forall|k: int|
        0 <= k < list.len() ==> #[trigger] list[k].1 < idx.partition_count() && list[k].0 as int
            == box_distance(
            idx.partition_bounds@[list[k].1 as int].min@,
            idx.partition_bounds@[list[k].1 as int].max@,
            q,
        )
}

proof fn lemma_listed_partitions_pruned(
    idx: &VectorIndex,
    q: Seq<i16>,
    list: Seq<(u64, usize)>,
    t: int,
)
    requires
        idx.well_formed(),
        idx.blocks_sound(),
        partition_entries(idx, q, list),
        forall|k: int| 0 <= k < list.len() ==> t <= #[trigger] list[k].0,
    ensures
        listed_partitions_below(idx, q, list, t) == 0,
    decreases list.len(),
{
    if list.len() > 0 {
        let init = list.drop_last();
        assert(partition_entries(idx, q, init)) by {
            assert forall|k: int| 0 <= k < init.len() implies #[trigger] init[k].1
                < idx.partition_count() && init[k].0 as int == box_distance(
                idx.partition_bounds@[init[k].1 as int].min@,
                idx.partition_bounds@[init[k].1 as int].max@,
                q,
            ) by {
                assert(init[k] == list[k]);
            }
        }
        lemma_listed_partitions_pruned(idx, q, init, t);
        let e = list.last();
        assert(e == list[list.len() - 1]);
        lemma_partition_pruned(idx, q, e.1 as int, t);
    }
}

proof fn lemma_partition_entries_multiset(
    idx: &VectorIndex,
    q: Seq<i16>,
    a: Seq<(u64, usize)>,
    b: Seq<(u64, usize)>,
)
    requires
        partition_entries(idx, q, a),
        a.to_multiset() == b.to_multiset(),
    ensures
        partition_entries(idx, q, b),
{
    broadcast use vstd::seq_lib::group_to_multiset_ensures;

    assert forall|k: int| 0 <= k < b.len() implies #[trigger] b[k].1 < idx.partition_count()
        && b[k].0 as int == box_distance(
        idx.partition_bounds@[b[k].1 as int].min@,
        idx.partition_bounds@[b[k].1 as int].max@,
        q,
    ) by {
        assert(b.contains(b[k]));
        assert(b.to_multiset().count(b[k]) > 0);
        assert(a.contains(b[k]));
    }
}

/// Offers the vectors of partition `partition` to the six candidates.
pub fn scan_partition_blocks(
    resources: &VectorIndex,
    query: &[i16; 14],
    partition: usize,
    best_ids: &mut [usize; CANDIDATE_COUNT],
    best_distances: &mut [u64; CANDIDATE_COUNT],
    scratch: &mut SearchScratch,
)
    requires
        resources.well_formed(),
        partition < resources.partition_count(),
    ensures
        candidates_valid(resources, query@, old(best_ids)@, old(best_distances)@) ==> candidates_valid(
            resources,
            query@,
            final(best_ids)@,
            final(best_distances)@,
        ),
        sorted(old(best_distances)@) ==> {
            &&& sorted(final(best_distances)@)
            &&& final(best_distances)@.last() <= old(best_distances)@.last()
            &&& keeps_near(
                old(best_ids)@,
                old(best_distances)@,
                final(best_ids)@,
                final(best_distances)@,
            )
        },
        sorted(old(best_distances)@) && resources.blocks_sound() ==> {
            &&& absorbs(
                old(best_distances)@,
                final(best_distances)@,
                |t: int| partition_below(resources, query@, partition as int, t),
            )
            &&& holds_near(
                resources,
                query@,
                final(best_ids)@,
                final(best_distances)@,
                |x: int|
                    in_blocks(
                        resources,
                        x,
                        resources.partition_offsets@[partition as int] as int,
                        resources.partition_offsets@[partition + 1] as int,
                    ),
            )
        },
        slots_from(
            resources,
            query@,
            old(best_ids)@,
            old(best_distances)@,
            final(best_ids)@,
            final(best_distances)@,
            |x: int|
                in_blocks(
                    resources,
                    x,
                    resources.partition_offsets@[partition as int] as int,
                    resources.partition_offsets@[partition + 1] as int,
                ),
        ),
        resources.blocks_disjoint() && distinct_filled(old(best_ids)@, old(best_distances)@)
            && filled_outside(
            old(best_ids)@,
            old(best_distances)@,
            |x: int|
                in_blocks(
                    resources,
                    x,
                    resources.partition_offsets@[partition as int] as int,
                    resources.partition_offsets@[partition + 1] as int,
                ),
        ) ==> distinct_filled(final(best_ids)@, final(best_distances)@),
{
    let start = resources.partition_offsets[partition] as usize;
    let end = resources.partition_offsets[partition + 1] as usize;
    let ghost i0 = best_ids@;
    let ghost d0 = best_distances@;
    proof {
        let f = |x: int| in_blocks(resources, x, start as int, end as int);
        let h = |x: int|
            in_blocks(
                resources,
                x,
                resources.partition_offsets@[partition as int] as int,
                resources.partition_offsets@[partition + 1] as int,
            );
        if filled_outside(i0, d0, h) {
            assert forall|i: int| 0 <= i < i0.len() && d0[i] != u64::MAX implies !f(#[trigger] i0[i] as int) by {
                assert(!h(i0[i] as int));
            }
        }
    }
    scan_block_range(resources, query, start, end, best_ids, best_distances, scratch);
    proof {
        let f = |x: int| in_blocks(resources, x, start as int, end as int);
        let h = |x: int|
            in_blocks(
                resources,
                x,
                resources.partition_offsets@[partition as int] as int,
                resources.partition_offsets@[partition + 1] as int,
            );
        assert forall|x: int| #[trigger] f(x) implies h(x) by {}
        lemma_slots_from_weaken(resources, query@, i0, d0, best_ids@, best_distances@, f, h);
        if sorted(d0) && resources.blocks_sound() {
            assert forall|x: int| h(x) && coarse_distance(resources, x, query@) < best_distances@.last() implies #[trigger] holds_vector(
                resources,
                query@,
                best_ids@,
                best_distances@,
                x,
            ) by {
                assert(f(x));
            }
        }
    }
}

/// Offers to the six candidates the vectors of the non-empty partitions
/// other than `partition`, visiting partitions by increasing box distance and
/// skipping those whose box lies no nearer than the worst kept candidate.
pub fn scan_other_partitions(
    resources: &VectorIndex,
    query: &[i16; 14],
    partition: usize,
    best_ids: &mut [usize; CANDIDATE_COUNT],
    best_distances: &mut [u64; CANDIDATE_COUNT],
    scratch: &mut SearchScratch,
)
    requires
        resources.well_formed(),
    ensures
        candidates_valid(resources, query@, old(best_ids)@, old(best_distances)@) ==> candidates_valid(
            resources,
            query@,
            final(best_ids)@,
            final(best_distances)@,
        ),
        sorted(old(best_distances)@) ==> {
            &&& sorted(final(best_distances)@)
            &&& final(best_distances)@.last() <= old(best_distances)@.last()
            &&& keeps_near(
                old(best_ids)@,
                old(best_distances)@,
                final(best_ids)@,
                final(best_distances)@,
            )
        },
        sorted(old(best_distances)@) && resources.blocks_sound() ==> {
            &&& absorbs(
                old(best_distances)@,
                final(best_distances)@,
                |t: int| others_below(resources, query@, resources.non_empty_partitions@, partition, t),
            )
            &&& holds_near(
                resources,
                query@,
                final(best_ids)@,
                final(best_distances)@,
                |x: int| in_other_partitions(resources, x, partition),
            )
        },
        slots_from(
            resources,
            query@,
            old(best_ids)@,
            old(best_distances)@,
            final(best_ids)@,
            final(best_distances)@,
            |x: int| in_other_partitions(resources, x, partition),
        ),
        resources.blocks_disjoint() && distinct_filled(old(best_ids)@, old(best_distances)@)
            && filled_outside(
            old(best_ids)@,
            old(best_distances)@,
            |x: int| in_other_partitions(resources, x, partition),
        ) ==> distinct_filled(final(best_ids)@, final(best_distances)@),
{
    let ghost q = query@;
    let ghost d0 = best_distances@;
    let ghost i0 = best_ids@;
    let ghost from = |x: int| in_other_partitions(resources, x, partition);
    let ghost worst0 = d0.last();
    let ghost ne = resources.non_empty_partitions@;
    let ghost fresh = resources.blocks_disjoint() && distinct_filled(i0, d0) && filled_outside(
        i0,
        d0,
        from,
    );
    let ghost sorted0 = sorted(d0);
    let ghost valid0 = candidates_valid(resources, q, i0, d0);
    proof {
        lemma_non_empty_parts_range(resources.partition_offsets@, resources.partition_count());
    }
    scratch.partitions.clear();

    let part_total = resources.non_empty_partitions.len();
    let mut k: usize = 0;
    while k < part_total
        invariant
            resources.well_formed(),
            q == query@,
            ne == resources.non_empty_partitions@,
            part_total == ne.len(),
            forall|m: int| 0 <= m < ne.len() ==> #[trigger] ne[m] < resources.partition_count(),
            best_distances@ == d0,
            d0.len() == CANDIDATE_COUNT,
            worst0 == d0.last(),
            k <= part_total,
            partition_entries(resources, q, scratch.partitions@),
            forall|m: int| 0 <= m < scratch.partitions@.len() ==> #[trigger] scratch.partitions@[m].0 < worst0,
            forall|m: int|
                0 <= m < scratch.partitions@.len() ==> #[trigger] names_other_partition(
                    resources,
                    scratch.partitions@[m].1,
                    partition,
                ),
            forall|a: int, b: int| 0 <= a < b < ne.len() ==> #[trigger] ne[a] < #[trigger] ne[b],
            k < part_total ==> forall|m: int|
                0 <= m < scratch.partitions@.len() ==> #[trigger] scratch.partitions@[m].1 < ne[k as int],
            forall|a: int, b: int|
                0 <= a < b < scratch.partitions@.len() ==> #[trigger] scratch.partitions@[a].1
                    < #[trigger] scratch.partitions@[b].1,
            forall|m: int|
                0 <= m < k && ne[m] != partition && box_distance(
                    resources.partition_bounds@[ne[m] as int].min@,
                    resources.partition_bounds@[ne[m] as int].max@,
                    q,
                ) < worst0 ==> #[trigger] names_entry(scratch.partitions@, ne[m] as int),
            resources.blocks_sound() ==> forall|t: int|
                0 <= t <= worst0 ==> #[trigger] others_below(resources, q, ne.take(k as int), partition, t)
                    == listed_partitions_below(resources, q, scratch.partitions@, t),
        decreases part_total - k,
    {
        let other_partition = resources.non_empty_partitions[k];
        let ghost before = scratch.partitions@;
        assert(ne.take(k + 1).drop_last() =~= ne.take(k as int));
        assert(ne.take(k + 1).last() == other_partition);
        if other_partition != partition {
            let bounds = &resources.partition_bounds[other_partition];
            if let Some(distance) = bbox_lower_bound(
                &bounds.min,
                &bounds.max,
                query,
                best_distances[CANDIDATE_COUNT - 1],
            ) {
                scratch.partitions.push((distance, other_partition));
                proof {
                    assert(scratch.partitions@.drop_last() =~= before);
                    assert(scratch.partitions@.last() == (distance, other_partition));
                    assert forall|m: int| 0 <= m < scratch.partitions@.len() implies #[trigger] names_other_partition(
                        resources,
                        scratch.partitions@[m].1,
                        partition,
                    ) by {
                        if m < before.len() {
                            assert(scratch.partitions@[m] == before[m]);
                        } else {
                            assert(ne[k as int] == other_partition);
                        }
                    }
                    assert forall|m: int| 0 <= m < scratch.partitions@.len() implies #[trigger] scratch.partitions@[m].1
                        < resources.partition_count() && scratch.partitions@[m].0 as int == box_distance(
                        resources.partition_bounds@[scratch.partitions@[m].1 as int].min@,
                        resources.partition_bounds@[scratch.partitions@[m].1 as int].max@,
                        q,
                    ) by {
                        if m < before.len() {
                            assert(scratch.partitions@[m] == before[m]);
                        }
                    }
                    if resources.blocks_sound() {
                        assert forall|t: int| 0 <= t <= worst0 implies #[trigger] others_below(
                            resources,
                            q,
                            ne.take(k + 1),
                            partition,
                            t,
                        ) == listed_partitions_below(resources, q, scratch.partitions@, t) by {
                            assert(others_below(resources, q, ne.take(k as int), partition, t)
                                == listed_partitions_below(resources, q, before, t));
                        }
                    }
                }
            } else {
                proof {
                    if resources.blocks_sound() {
                        assert forall|t: int| 0 <= t <= worst0 implies #[trigger] others_below(
                            resources,
                            q,
                            ne.take(k + 1),
                            partition,
                            t,
                        ) == listed_partitions_below(resources, q, scratch.partitions@, t) by {
                            assert(others_below(resources, q, ne.take(k as int), partition, t)
                                == listed_partitions_below(resources, q, before, t));
                            lemma_partition_pruned(resources, q, other_partition as int, t);
                        }
                    }
                }
            }
        } else {
            proof {
                if resources.blocks_sound() {
                    assert forall|t: int| 0 <= t <= worst0 implies #[trigger] others_below(
                        resources,
                        q,
                        ne.take(k + 1),
                        partition,
                        t,
                    ) == listed_partitions_below(resources, q, scratch.partitions@, t) by {
                        assert(others_below(resources, q, ne.take(k as int), partition, t)
                            == listed_partitions_below(resources, q, before, t));
                    }
                }
            }
        }
        proof {
            assert forall|a: int, b: int| 0 <= a < b < scratch.partitions@.len() implies #[trigger] scratch.partitions@[a].1
                < #[trigger] scratch.partitions@[b].1 by {
                assert(scratch.partitions@[a] == before[a]);
                if b < before.len() {
                    assert(scratch.partitions@[b] == before[b]);
                } else {
                    assert(scratch.partitions@[b].1 == ne[k as int]);
                }
            }
            assert forall|m: int|
                0 <= m < k + 1 && ne[m] != partition && box_distance(
                    resources.partition_bounds@[ne[m] as int].min@,
                    resources.partition_bounds@[ne[m] as int].max@,
                    q,
                ) < worst0 implies #[trigger] names_entry(scratch.partitions@, ne[m] as int) by {
                if m < k {
                    assert(names_entry(before, ne[m] as int));
                    let kk = choose|kk: int| 0 <= kk < before.len() && #[trigger] before[kk].1 as int == ne[m] as int;
                    assert(scratch.partitions@[kk] == before[kk]);
                } else {
                    assert(ne[m] == other_partition);
                    assert(scratch.partitions@.len() > before.len());
                    assert(scratch.partitions@[before.len() as int].1 == other_partition);
                }
            }
            if k + 1 < part_total {
                assert forall|m: int| 0 <= m < scratch.partitions@.len() implies #[trigger] scratch.partitions@[m].1
                    < ne[k + 1] by {
                    assert(ne[k as int] < ne[k + 1]);
                    if m < before.len() {
                        assert(scratch.partitions@[m] == before[m]);
                    }
                }
            }
        }
        k += 1;
    }

    let ghost pushed = scratch.partitions@;
    proof {
        assert(ne.take(part_total as int) =~= ne);
    }
    sort_by_distance(&mut scratch.partitions);
    let ghost list = scratch.partitions@;
    proof {
        lemma_partition_entries_multiset(resources, q, pushed, list);
        let other = |p: usize| names_other_partition(resources, p, partition);
        lemma_multiset_keeps(pushed, list, other);
        assert forall|m: int| 0 <= m < list.len() implies #[trigger] names_other_partition(
            resources,
            list[m].1,
            partition,
        ) by {
            assert(other(list[m].1));
        }
        lemma_absorbs_nothing(d0);
        lemma_slots_from_same(resources, q, i0, d0, from);
        assert forall|k: int| 0 <= k < d0.len() && d0[k] < d0.last() implies #[trigger] has_pair(
            i0,
            d0,
            i0[k],
            d0[k],
        ) by {}
        lemma_slots_from_same(
            resources,
            q,
            i0,
            d0,
            |x: int| in_listed_partitions(resources, list.take(0), x),
        );
        lemma_no_dup_keys(
            pushed,
            list,
            |p: usize|
                box_distance(
                    resources.partition_bounds@[p as int].min@,
                    resources.partition_bounds@[p as int].max@,
                    q,
                ),
        );
    }

    let mut partition_index: usize = 0;
    while partition_index < scratch.partitions.len()
        invariant_except_break
            partition_index <= list.len(),
        invariant
            resources.well_formed(),
            q == query@,
            scratch.partitions@ == list,
            partition_entries(resources, q, list),
            forall|m: int|
                0 <= m < list.len() ==> #[trigger] names_other_partition(resources, list[m].1, partition),
            from == (|x: int| in_other_partitions(resources, x, partition)),
            slots_from(resources, q, i0, d0, best_ids@, best_distances@, from),
            forall|a: int, b: int|
                0 <= a < list.len() && 0 <= b < list.len() && a != b ==> #[trigger] list[a].1
                    != #[trigger] list[b].1,
            slots_from(
                resources,
                q,
                i0,
                d0,
                best_ids@,
                best_distances@,
                |x: int| in_listed_partitions(resources, list.take(partition_index as int), x),
            ),
            fresh == (resources.blocks_disjoint() && distinct_filled(i0, d0) && filled_outside(
                i0,
                d0,
                from,
            )),
            fresh ==> distinct_filled(best_ids@, best_distances@),
            d0.len() == CANDIDATE_COUNT,
            valid0 == candidates_valid(resources, q, i0, d0),
            valid0 ==> candidates_valid(resources, q, best_ids@, best_distances@),
            sorted0 == sorted(d0),
            sorted0 ==> sorted(best_distances@),
            sorted0 ==> best_distances@.last() <= d0.last(),
            sorted0 ==> keeps_near(i0, d0, best_ids@, best_distances@),
            sorted0 && resources.blocks_sound() ==> holds_near(
                resources,
                q,
                best_ids@,
                best_distances@,
                |x: int| in_listed_partitions(resources, list.take(partition_index as int), x),
            ),
            sorted0 && resources.blocks_sound() ==> absorbs(
                d0,
                best_distances@,
                |t: int| listed_partitions_below(resources, q, list.take(partition_index as int), t),
            ),
        ensures
            partition_index <= list.len(),
            partition_index < list.len() ==> list[partition_index as int].0
                >= best_distances@.last(),
        decreases list.len() - partition_index,
    {
        let (distance, other_partition) = scratch.partitions[partition_index];
        if distance >= best_distances[CANDIDATE_COUNT - 1] {
            break;
        }
        let ghost d1 = best_distances@;
        let ghost ids1 = best_ids@;
        let ghost pi = partition_index;
        partition_index += 1;

        let start = resources.partition_offsets[other_partition] as usize;
        let end = resources.partition_offsets[other_partition + 1] as usize;
        let ghost visited = |x: int| in_listed_partitions(resources, list.take(pi as int), x);
        let ghost g = |x: int| in_blocks(resources, x, start as int, end as int);
        proof {
            assert(list[pi as int].1 == other_partition);
            assert(other_partition < resources.partition_count());
            if fresh {
                assert forall|k: int| 0 <= k < 6 && d1[k] != u64::MAX implies !g(#[trigger] ids1[k] as int) by {
                    assert(slot_from(resources, q, i0, d0, ids1[k], d1[k], visited));
                    let x = ids1[k] as int;
                    if has_pair(i0, d0, ids1[k], d1[k]) {
                        let m0 = choose|m0: int| 0 <= m0 < i0.len() && i0[m0] == ids1[k] && d0[m0] == d1[k];
                        assert(!from(i0[m0] as int));
                        if g(x) {
                            assert(names_other_partition(resources, other_partition, partition));
                            let m = choose|m: int|
                                0 <= m < resources.non_empty_partitions@.len()
                                    && #[trigger] resources.non_empty_partitions@[m] == other_partition;
                            assert(in_other_partitions(resources, x, partition));
                        }
                    } else {
                        assert(visited(x));
                        let kk = choose|kk: int|
                            0 <= kk < list.take(pi as int).len() && in_blocks(
                                resources,
                                x,
                                resources.partition_offsets@[#[trigger] list.take(pi as int)[kk].1 as int] as int,
                                resources.partition_offsets@[list.take(pi as int)[kk].1 + 1] as int,
                            );
                        assert(list.take(pi as int)[kk] == list[kk]);
                        assert(list[kk].1 != list[pi as int].1);
                        assert(list[kk].1 < resources.partition_count());
                        lemma_partitions_apart(resources, list[kk].1 as int, other_partition as int, x);
                    }
                }
            }
        }
        scan_block_range(resources, query, start, end, best_ids, best_distances, scratch);
        proof {
            let visited1 = |x: int| in_listed_partitions(resources, list.take(pi + 1), x);
            assert forall|x: int| #[trigger] visited(x) implies visited1(x) by {
                let kk = choose|kk: int|
                    0 <= kk < list.take(pi as int).len() && in_blocks(
                        resources,
                        x,
                        resources.partition_offsets@[#[trigger] list.take(pi as int)[kk].1 as int] as int,
                        resources.partition_offsets@[list.take(pi as int)[kk].1 + 1] as int,
                    );
                assert(list.take(pi as int)[kk] == list.take(pi + 1)[kk]);
            }
            assert forall|x: int| #[trigger] g(x) implies visited1(x) by {
                assert(list.take(pi + 1)[pi as int] == list[pi as int]);
            }
            lemma_slots_from_trans(resources, q, i0, d0, ids1, d1, best_ids@, best_distances@, visited, g, visited1);
            assert(names_other_partition(resources, other_partition, partition));
            let m = choose|m: int|
                0 <= m < resources.non_empty_partitions@.len()
                    && #[trigger] resources.non_empty_partitions@[m] == other_partition;
            assert forall|x: int| #[trigger] g(x) implies from(x) by {
                assert(resources.non_empty_partitions@[m] != partition);
            }
            lemma_slots_from_trans(
                resources,
                q,
                i0,
                d0,
                ids1,
                d1,
                best_ids@,
                best_distances@,
                from,
                g,
                from,
            );
            if sorted0 {
                lemma_keeps_near_trans(i0, d0, ids1, d1, best_ids@, best_distances@);
            }
            if sorted0 && resources.blocks_sound() {
                lemma_absorbs_trans(
                    d0,
                    d1,
                    best_distances@,
                    |t: int| listed_partitions_below(resources, q, list.take(pi as int), t),
                    |t: int| partition_below(resources, q, other_partition as int, t),
                );
                let g2 = |x: int|
                    in_blocks(
                        resources,
                        x,
                        resources.partition_offsets@[other_partition as int] as int,
                        resources.partition_offsets@[other_partition + 1] as int,
                    );
                assert forall|x: int| #[trigger] visited1(x) implies visited(x) || g2(x) by {
                    let kk = choose|kk: int|
                        0 <= kk < list.take(pi + 1).len() && in_blocks(
                            resources,
                            x,
                            resources.partition_offsets@[#[trigger] list.take(pi + 1)[kk].1 as int] as int,
                            resources.partition_offsets@[list.take(pi + 1)[kk].1 + 1] as int,
                        );
                    if kk < pi {
                        assert(list.take(pi as int)[kk] == list.take(pi + 1)[kk]);
                    } else {
                        assert(list.take(pi + 1)[kk] == list[pi as int]);
                    }
                }
                lemma_holds_near_step(
                    resources,
                    q,
                    ids1,
                    d1,
                    best_ids@,
                    best_distances@,
                    visited,
                    g2,
                    visited1,
                );
            }
            assert(list.take(pi + 1).drop_last() =~= list.take(pi as int));
            assert(list.take(pi + 1).last() == list[pi as int]);
        }
    }

    proof {
        if sorted0 && resources.blocks_sound() {
            let cur = best_distances@;
            let pi = partition_index;
            let visited = |x: int| in_listed_partitions(resources, list.take(pi as int), x);
            assert forall|x: int| from(x) && coarse_distance(resources, x, q) < cur.last() implies #[trigger] holds_vector(
                resources,
                q,
                best_ids@,
                cur,
                x,
            ) by {
                let m = choose|m: int|
                    0 <= m < resources.non_empty_partitions@.len() && #[trigger] resources.non_empty_partitions@[m]
                        != partition && in_blocks(
                        resources,
                        x,
                        resources.partition_offsets@[resources.non_empty_partitions@[m] as int] as int,
                        resources.partition_offsets@[resources.non_empty_partitions@[m] + 1] as int,
                    );
                let p = ne[m];
                let j = choose|j: int|
                    resources.partition_offsets@[p as int] <= j < resources.partition_offsets@[p + 1]
                        && #[trigger] resources.blocks@[j].start <= x < resources.blocks@[j].end;
                lemma_member_beyond_partition_box(resources, q, p as int, j, x);
                let bd = box_distance(
                    resources.partition_bounds@[p as int].min@,
                    resources.partition_bounds@[p as int].max@,
                    q,
                );
                assert(bd < worst0);
                assert(names_entry(pushed, ne[m] as int));
                let k0 = choose|k0: int| 0 <= k0 < pushed.len() && #[trigger] pushed[k0].1 as int == ne[m] as int;
                lemma_multiset_member(pushed, list, k0);
                let kk = choose|kk: int| 0 <= kk < list.len() && list[kk] == pushed[k0];
                assert(list[kk].0 as int == bd);
                if kk >= pi {
                    assert(list[pi as int].0 <= list[kk].0);
                }
                assert(kk < pi);
                assert(list.take(pi as int)[kk] == list[kk]);
                assert(visited(x));
            }
        }
        if resources.blocks_sound() && sorted0 {
            let i = partition_index;
            let cur = best_distances@;
            let rest = list.skip(i as int);
            assert forall|t: int| 0 <= t <= cur.last() implies #[trigger] listed_partitions_below(
                resources,
                q,
                rest,
                t,
            ) == 0nat by {
                assert(partition_entries(resources, q, rest)) by {
                    assert forall|m: int| 0 <= m < rest.len() implies #[trigger] rest[m].1
                        < resources.partition_count() && rest[m].0 as int == box_distance(
                        resources.partition_bounds@[rest[m].1 as int].min@,
                        resources.partition_bounds@[rest[m].1 as int].max@,
                        q,
                    ) by {
                        assert(rest[m] == list[i + m]);
                    }
                }
                assert forall|m: int| 0 <= m < rest.len() implies t <= #[trigger] rest[m].0 by {
                    assert(rest[m] == list[i + m]);
                    assert(list[i as int].0 <= list[i + m].0);
                }
                lemma_listed_partitions_pruned(resources, q, rest, t);
            }
            lemma_absorbs_nothing(cur);
            lemma_absorbs_below_worst(
                cur,
                cur,
                |t: int| 0nat,
                |t: int| listed_partitions_below(resources, q, rest, t),
            );
            lemma_absorbs_trans(
                d0,
                cur,
                cur,
                |t: int| listed_partitions_below(resources, q, list.take(i as int), t),
                |t: int| listed_partitions_below(resources, q, rest, t),
            );
            assert(list =~= list.take(i as int) + rest);
            assert forall|t: int| 0 <= t <= worst0 implies #[trigger] (listed_partitions_below(
                resources,
                q,
                list.take(i as int),
                t,
            ) + listed_partitions_below(resources, q, rest, t)) == others_below(
                resources,
                q,
                ne,
                partition,
                t,
            ) by {
                lemma_pair_sum_concat(list.take(i as int), rest, partition_counter(resources, q, t));
                lemma_pair_sum_multiset(pushed, list, partition_counter(resources, q, t));
            }
            lemma_absorbs_below_worst(
                d0,
                cur,
                |t: int|
                    listed_partitions_below(resources, q, list.take(i as int), t)
                        + listed_partitions_below(resources, q, rest, t),
                |t: int| others_below(resources, q, ne, partition, t),
            );
        }
    }
}

/// Counting over adjacent block ranges adds up.
proof fn lemma_blocks_below_split(idx: &VectorIndex, q: Seq<i16>, a: int, b: int, c: int, t: int)
    requires
        a <= b <= c,
    ensures
        blocks_below(idx, q, a, c, t) == blocks_below(idx, q, a, b, t) + blocks_below(idx, q, b, c, t),
    decreases c - b,
{
    if c > b {
        lemma_blocks_below_split(idx, q, a, b, c - 1, t);
    }
}

/// The members of the non-empty partitions below `n` other than `p0`,
/// together with those of `p0` when it is below `n`, are the members of the
/// blocks of those partitions.
proof fn lemma_partitions_total(idx: &VectorIndex, q: Seq<i16>, p0: usize, n: int, t: int)
    requires
        idx.well_formed(),
        0 <= n <= idx.partition_count(),
    ensures
        others_below(idx, q, crate::index::non_empty_parts(idx.partition_offsets@, n), p0, t) + (
        if p0 < n {
            partition_below(idx, q, p0 as int, t)
        } else {
            0
        }) == blocks_below(idx, q, 0, idx.partition_offsets@[n] as int, t),
    decreases n,
{
    let off = idx.partition_offsets@;
    assert(idx.partition_offsets.len() == off.len());
    if n > 0 {
        lemma_partitions_total(idx, q, p0, n - 1, t);
        assert(off[n - 1] <= off[n]);
        assert(0 <= off[n - 1]);
        lemma_blocks_below_split(idx, q, 0, off[n - 1] as int, off[n] as int, t);
        let prev = crate::index::non_empty_parts(off, n - 1);
        let cur = crate::index::non_empty_parts(off, n);
        assert(partition_below(idx, q, n - 1, t) == blocks_below(idx, q, off[n - 1] as int, off[n] as int, t));
        if off[n - 1] != off[n] {
            assert(cur == prev.push((n - 1) as usize));
            assert(cur.drop_last() =~= prev);
            assert(cur.last() == (n - 1) as usize);
            assert(others_below(idx, q, cur, p0, t) == others_below(idx, q, prev, p0, t) + if (n - 1) as usize == p0 {
                0
            } else {
                partition_below(idx, q, n - 1, t)
            });
        } else {
            assert(cur == prev);
            assert(blocks_below(idx, q, off[n - 1] as int, off[n] as int, t) == 0);
        }
    }
}

/// The members of partition `p0` and of the other listed partitions are all
/// the members of the index.
proof fn lemma_all_partitions(idx: &VectorIndex, q: Seq<i16>, p0: usize, t: int)
    requires
        idx.well_formed(),
        p0 < idx.partition_count(),
    ensures
        partition_below(idx, q, p0 as int, t) + others_below(
            idx,
            q,
            idx.non_empty_partitions@,
            p0,
            t,
        ) == all_below(idx, q, t),
{
    lemma_partitions_total(idx, q, p0, idx.partition_count(), t);
}

/// The squared distance between the fine vector `id` of the index and `q`.
pub open spec fn fine_distance(idx: &VectorIndex, id: int, q: Seq<i32>) -> int {
    seq_sum(fine_terms(idx.vectors@, idx.residuals@, id * 14, q), 14)
}

/// Where `x` goes into `s`: after the last entry whose distance (first
/// component) is not above that of `x`.
pub open spec fn stable_slot(s: Seq<(int, int)>, x: (int, int)) -> int
    decreases s.len(),
{
    if s.len() == 0 {
        0
    } else if x.0 < s.last().0 {
        stable_slot(s.drop_last(), x)
    } else {
        s.len() as int
    }
}

/// `s` with `x` put after the entries whose distance is not above its own.
pub open spec fn stable_insert(s: Seq<(int, int)>, x: (int, int)) -> Seq<(int, int)> {
    s.take(stable_slot(s, x)) + seq![x] + s.skip(stable_slot(s, x))
}

/// Whether a candidate slot takes part in re-ranking: it is not empty, and
/// its fine distance lies below `u64::MAX`, the mark of an empty slot.
pub open spec fn rankable(idx: &VectorIndex, q: Seq<i32>, ids: Seq<usize>, ds: Seq<u64>, c: int) -> bool {
    ds[c] != u64::MAX && fine_distance(idx, ids[c] as int, q) < u64::MAX
}

/// The rankable candidates among the first `n` slots, as pairs of fine
/// distance and slot, ordered by distance, the earlier slot first on equal
/// distances.
pub open spec fn fine_order(idx: &VectorIndex, q: Seq<i32>, ids: Seq<usize>, ds: Seq<u64>, n: int) -> Seq<
    (int, int),
>
    decreases n,
{
    if n <= 0 {
        Seq::empty()
    } else if rankable(idx, q, ids, ds, n - 1) {
        stable_insert(
            fine_order(idx, q, ids, ds, n - 1),
            (fine_distance(idx, ids[n - 1] as int, q), n - 1),
        )
    } else {
        fine_order(idx, q, ids, ds, n - 1)
    }
}

/// The first five distances of `order`, `u64::MAX` past its end.
pub open spec fn head_distances(order: Seq<(int, int)>) -> Seq<u64> {
    Seq::new(5, |r: int| if r < order.len() { order[r].0 as u64 } else { u64::MAX })
}

/// The ids of the slots of the first five entries of `order`, 0 past its
/// end.
pub open spec fn head_ids(order: Seq<(int, int)>, ids: Seq<usize>) -> Seq<usize> {
    Seq::new(5, |r: int| if r < order.len() { ids[order[r].1] } else { 0 })
}

/// The five candidates nearest to `q` by fine distance, earlier slots first
/// on equal distances; id 0 fills the places of missing candidates.
pub open spec fn reranked_ids(idx: &VectorIndex, q: Seq<i32>, ids: Seq<usize>, ds: Seq<u64>) -> Seq<
    usize,
> {
    head_ids(fine_order(idx, q, ids, ds, ids.len() as int), ids)
}

pub open spec fn order_sorted(s: Seq<(int, int)>) -> bool {
    forall|i: int, j: int| 0 <= i <= j < s.len() ==> s[i].0 <= s[j].0
}

/// In a sorted order the slot of `x` splits the entries not above it from
/// those above it, and inserting there keeps the order sorted.
proof fn lemma_stable_slot(s: Seq<(int, int)>, x: (int, int))
    requires
        order_sorted(s),
    ensures
        0 <= stable_slot(s, x) <= s.len(),
        forall|i: int| 0 <= i < stable_slot(s, x) ==> #[trigger] s[i].0 <= x.0,
        forall|i: int| stable_slot(s, x) <= i < s.len() ==> #[trigger] s[i].0 > x.0,
        stable_insert(s, x).len() == s.len() + 1,
        forall|i: int|
            0 <= i < s.len() + 1 ==> #[trigger] stable_insert(s, x)[i] == if i < stable_slot(s, x) {
                s[i]
            } else if i == stable_slot(s, x) {
                x
            } else {
                s[i - 1]
            },
        order_sorted(stable_insert(s, x)),
    decreases s.len(),
{
    let k = stable_slot(s, x);
    if s.len() > 0 {
        let init = s.drop_last();
        assert(order_sorted(init)) by {
            assert forall|i: int, j: int| 0 <= i <= j < init.len() implies init[i].0 <= init[j].0 by {
                assert(init[i] == s[i] && init[j] == s[j]);
            }
        }
        lemma_stable_slot(init, x);
        if x.0 < s.last().0 {
            assert forall|i: int| 0 <= i < k implies #[trigger] s[i].0 <= x.0 by {
                assert(s[i] == init[i]);
            }
            assert forall|i: int| k <= i < s.len() implies #[trigger] s[i].0 > x.0 by {
                if i < s.len() - 1 {
                    assert(s[i] == init[i]);
                }
            }
        } else {
            assert forall|i: int| 0 <= i < k implies #[trigger] s[i].0 <= x.0 by {
                assert(s[i].0 <= s[s.len() - 1].0);
            }
        }
    }
    let t = stable_insert(s, x);
    assert forall|i: int, j: int| 0 <= i <= j < t.len() implies t[i].0 <= t[j].0 by {
        if i < k && j > k {
            assert(t[j] == s[j - 1]);
        }
        if i > k {
            assert(t[i] == s[i - 1]);
            assert(t[j] == s[j - 1]);
        }
    }
}

/// A sum of non-negative terms is non-negative.
proof fn lemma_seq_sum_nonneg(s: Seq<int>, n: int)
    requires
        0 <= n <= s.len(),
        forall|d: int| 0 <= d < n ==> 0 <= #[trigger] s[d],
    ensures
        seq_sum(s, n) >= 0,
    decreases n,
{
    if n > 0 {
        lemma_seq_sum_nonneg(s, n - 1);
    }
}

/// The coarse distance counts every coordinate: it is at least the square
/// of the difference in any one coordinate, and exactly that square when
/// the vector matches the query in all the others.
pub proof fn lemma_coarse_distance_per_coordinate(idx: &VectorIndex, id: int, q: Seq<i16>, d: int)
    requires
        0 <= d < 14,
    ensures
        coarse_distance(idx, id, q) >= (idx.vectors@[id * 14 + d] - q[d]) * (idx.vectors@[id * 14 + d]
            - q[d]),
        (forall|e: int| 0 <= e < 14 && e != d ==> #[trigger] idx.vectors@[id * 14 + e] == q[e])
            ==> coarse_distance(idx, id, q) == (idx.vectors@[id * 14 + d] - q[d]) * (idx.vectors@[id
            * 14 + d] - q[d]),
{
    let t = coarse_terms(idx.vectors@, id * 14, q);
    assert forall|e: int| 0 <= e < 14 implies 0 <= #[trigger] t[e] by {
        let x = idx.vectors@[id * 14 + e] - q[e];
        assert(0 <= x * x) by (nonlinear_arith);
    }
    if forall|e: int| 0 <= e < 14 && e != d ==> #[trigger] idx.vectors@[id * 14 + e] == q[e] {
        assert forall|e: int| 0 <= e < 14 && e != d implies #[trigger] t[e] == 0 by {
            assert(idx.vectors@[id * 14 + e] == q[e]);
        }
    }
    lemma_seq_sum_term(t, 14, d);
}

/// The fine distance counts every coordinate: it is at least the square of
/// the difference between the fine coordinate and the query in any one
/// coordinate, and exactly that square when they match in all the others.
pub proof fn lemma_fine_distance_per_coordinate(idx: &VectorIndex, id: int, q: Seq<i32>, d: int)
    requires
        0 <= d < 14,
    ensures
        fine_distance(idx, id, q) >= (fine_value(idx.vectors@, idx.residuals@, id * 14 + d) - q[d]) * (
        fine_value(idx.vectors@, idx.residuals@, id * 14 + d) - q[d]),
        (forall|e: int|
            0 <= e < 14 && e != d ==> #[trigger] fine_value(idx.vectors@, idx.residuals@, id * 14 + e)
                == q[e]) ==> fine_distance(idx, id, q) == (fine_value(
            idx.vectors@,
            idx.residuals@,
            id * 14 + d,
        ) - q[d]) * (fine_value(idx.vectors@, idx.residuals@, id * 14 + d) - q[d]),
{
    let t = fine_terms(idx.vectors@, idx.residuals@, id * 14, q);
    assert forall|e: int| 0 <= e < 14 implies 0 <= #[trigger] t[e] by {
        let x = fine_value(idx.vectors@, idx.residuals@, id * 14 + e) - q[e];
        assert(0 <= x * x) by (nonlinear_arith);
    }
    if forall|e: int|
        0 <= e < 14 && e != d ==> #[trigger] fine_value(idx.vectors@, idx.residuals@, id * 14 + e) == q[e] {
        assert forall|e: int| 0 <= e < 14 && e != d implies #[trigger] t[e] == 0 by {
            assert(fine_value(idx.vectors@, idx.residuals@, id * 14 + e) == q[e]);
        }
    }
    lemma_seq_sum_term(t, 14, d);
}

/// Fine distances are sums of squares.
proof fn lemma_fine_distance_nonneg(idx: &VectorIndex, id: int, q: Seq<i32>)
    ensures
        fine_distance(idx, id, q) >= 0,
{
    let t = fine_terms(idx.vectors@, idx.residuals@, id * 14, q);
    assert forall|d: int| 0 <= d < 14 implies 0 <= #[trigger] t[d] by {
        let e = fine_value(idx.vectors@, idx.residuals@, id * 14 + d) - q[d];
        assert(0 <= e * e) by (nonlinear_arith);
    }
    lemma_seq_sum_nonneg(t, 14);
}

/// The order holds each rankable slot among the first `n` exactly once,
/// with its fine distance, sorted by distance, the earlier slot first on
/// equal distances.
pub proof fn lemma_fine_order_entries(idx: &VectorIndex, q: Seq<i32>, ids: Seq<usize>, ds: Seq<u64>, n: int)
    requires
        0 <= n <= ids.len(),
        n <= ds.len(),
    ensures
        order_sorted(fine_order(idx, q, ids, ds, n)),
        forall|i: int|
            0 <= i < fine_order(idx, q, ids, ds, n).len() ==> {
                let e = #[trigger] fine_order(idx, q, ids, ds, n)[i];
                &&& 0 <= e.1 < n
                &&& 0 <= e.0
                &&& rankable(idx, q, ids, ds, e.1)
                &&& e.0 == fine_distance(idx, ids[e.1] as int, q)
            },
        forall|i: int, j: int|
            0 <= i < j < fine_order(idx, q, ids, ds, n).len() ==> #[trigger] fine_order(
                idx,
                q,
                ids,
                ds,
                n,
            )[i].1 != #[trigger] fine_order(idx, q, ids, ds, n)[j].1,
        forall|i: int, j: int|
            0 <= i < j < fine_order(idx, q, ids, ds, n).len() && #[trigger] fine_order(
                idx,
                q,
                ids,
                ds,
                n,
            )[i].0 == #[trigger] fine_order(idx, q, ids, ds, n)[j].0 ==> fine_order(
                idx,
                q,
                ids,
                ds,
                n,
            )[i].1 < fine_order(idx, q, ids, ds, n)[j].1,
        forall|c: int|
            0 <= c < n && #[trigger] rankable(idx, q, ids, ds, c) ==> exists|i: int|
                0 <= i < fine_order(idx, q, ids, ds, n).len() && #[trigger] fine_order(
                    idx,
                    q,
                    ids,
                    ds,
                    n,
                )[i].1 == c,
    decreases n,
{
    if n > 0 {
        lemma_fine_order_entries(idx, q, ids, ds, n - 1);
        let prev = fine_order(idx, q, ids, ds, n - 1);
        let cur = fine_order(idx, q, ids, ds, n);
        if rankable(idx, q, ids, ds, n - 1) {
            let x = (fine_distance(idx, ids[n - 1] as int, q), n - 1);
            lemma_stable_slot(prev, x);
            lemma_fine_distance_nonneg(idx, ids[n - 1] as int, q);
            let k = stable_slot(prev, x);
            assert forall|i: int, j: int|
                0 <= i < j < cur.len() && #[trigger] cur[i].0 == #[trigger] cur[j].0 implies cur[i].1
                < cur[j].1 by {
                if j < k {
                    assert(cur[i] == prev[i] && cur[j] == prev[j]);
                } else if j == k {
                    assert(cur[i] == prev[i]);
                } else if i < k {
                    assert(cur[i] == prev[i] && cur[j] == prev[j - 1]);
                } else if i == k {
                    assert(cur[j] == prev[j - 1]);
                    assert(prev[j - 1].0 > x.0);
                } else {
                    assert(cur[i] == prev[i - 1] && cur[j] == prev[j - 1]);
                }
            }
            assert forall|c: int| 0 <= c < n && #[trigger] rankable(idx, q, ids, ds, c) implies exists|i: int|
                0 <= i < cur.len() && #[trigger] cur[i].1 == c by {
                if c == n - 1 {
                    assert(cur[k].1 == c);
                } else {
                    let i0 = choose|i0: int| 0 <= i0 < prev.len() && #[trigger] prev[i0].1 == c;
                    if i0 < k {
                        assert(cur[i0] == prev[i0]);
                    } else {
                        assert(cur[i0 + 1] == prev[i0]);
                    }
                }
            }
        } else {
            assert forall|c: int| 0 <= c < n && #[trigger] rankable(idx, q, ids, ds, c) implies exists|i: int|
                0 <= i < cur.len() && #[trigger] cur[i].1 == c by {
                let i0 = choose|i0: int| 0 <= i0 < prev.len() && #[trigger] prev[i0].1 == c;
                assert(cur[i0] == prev[i0]);
            }
        }
    }
}

/// The fine coordinates lie within `-8388736..=8388479`; a query
/// coordinate `x` is thus at most this far, squared, from any of them.
pub open spec fn fine_term_limit(x: int) -> int {
    if sq(x + 8388736) >= sq(x - 8388479) {
        sq(x + 8388736)
    } else {
        sq(x - 8388479)
    }
}

/// The largest squared difference that each query coordinate can have.
pub open spec fn fine_limits(q: Seq<i32>) -> Seq<int> {
    Seq::new(14, |d: int| fine_term_limit(q[d] as int))
}

/// The largest fine distance from `q` to any vector fits in `u64`.
pub open spec fn fine_query_in_range(q: Seq<i32>) -> bool {
    seq_sum(fine_limits(q), 14) <= u64::MAX
}

/// Whether no fine distance from `query` can overflow `u64`.
pub fn fine_query_fits(query: &[i32; 14]) -> (fits: bool)
    ensures
        fits == fine_query_in_range(query@),
{
    let mut total: u128 = 0;
    let mut d: usize = 0;
    while d < 14
        invariant
            d <= 14,
            total == seq_sum(fine_limits(query@), d as int),
            total <= d * 4647785731782098689,
        decreases 14 - d,
    {
        let x = query[d] as i128;
        let low = x + 8388736;
        let high = x - 8388479;
        proof {
            lemma_sq_bound(low as int, 2155872383);
            lemma_sq_bound(high as int, 2155872383);
        }
        let a = (low * low) as u128;
        let b = (high * high) as u128;
        let term = if a >= b {
            a
        } else {
            b
        };
        assert(term == fine_limits(query@)[d as int]);
        total = total + term;
        d += 1;
    }
    total <= u64::MAX as u128
}

/// The fine coordinate stored at `offset`.
fn exact_vector_value(resources: &VectorIndex, offset: usize) -> (value: i32)
    requires
        offset < resources.vectors@.len(),
        offset < resources.residuals@.len(),
    ensures
        value == fine_value(resources.vectors@, resources.residuals@, offset as int),
        -8388736 <= value <= 8388479,
{
    resources.vectors[offset] as i32 * RERANK_RESOLUTION + resources.residuals[offset] as i32
        - RERANK_OFFSET
}

/// Each squared fine difference fits in `i64`, and stays within the limit
/// of its query coordinate.
proof fn lemma_fine_terms_bounded(v: Seq<i16>, r: Seq<u8>, off: int, q: Seq<i32>)
    requires
        q.len() == 14,
        0 <= off,
        off + 14 <= v.len(),
        off + 14 <= r.len(),
    ensures
        forall|d: int|
            0 <= d < 14 ==> 0 <= #[trigger] fine_terms(v, r, off, q)[d] <= 4647785731782098689,
        seq_sum(fine_terms(v, r, off, q), 14) <= seq_sum(fine_limits(q), 14),
{
    let t = fine_terms(v, r, off, q);
    let l = fine_limits(q);
    assert forall|d: int| 0 <= d < 14 implies 0 <= #[trigger] t[d] <= 4647785731782098689 && t[d]
        <= l[d] by {
        let x = q[d] as int;
        let fv = fine_value(v, r, off + d);
        assert(-8388736 <= fv <= 8388479);
        let e = fv - x;
        assert(t[d] == sq(e));
        lemma_sq_bound(e, 2155872383);
        if e >= 0 {
            lemma_sq_bound(e, 8388479 - x);
            assert(sq(x - 8388479) == (8388479 - x) * (8388479 - x)) by (nonlinear_arith);
        } else {
            lemma_sq_bound(e, x + 8388736);
        }
    }
    lemma_seq_sum_le(t, l, 14);
}

/// Re-ranking adds the fine terms of each filled candidate in `DIM_ORDER`
/// while the running sum lies below the fifth kept distance at that point;
/// no such addition leaves `u64`.
pub open spec fn rerank_fits(idx: &VectorIndex, q: Seq<i32>, ids: Seq<usize>, ds: Seq<u64>) -> bool {
    forall|c: int, k: int|
        0 <= c < ids.len() && ds[c] != u64::MAX && 0 < k < 14 && ordered_sum(
            fine_terms(idx.vectors@, idx.residuals@, ids[c] * 14, q),
            k,
        ) < head_distances(fine_order(idx, q, ids, ds, c))[4] ==> #[trigger] ordered_sum(
            fine_terms(idx.vectors@, idx.residuals@, ids[c] * 14, q),
            k + 1,
        ) <= u64::MAX
}

/// Every vector of the index lies within `u64` fine distance of `q`.
pub open spec fn fine_fits_index(idx: &VectorIndex, q: Seq<i32>) -> bool {
    forall|id: int| 0 <= id < idx.vector_count ==> #[trigger] fine_distance(idx, id, q) <= u64::MAX
}

/// A query within the bound on its own lies within `u64` fine distance of
/// every vector.
pub proof fn lemma_query_bound_fits_index(idx: &VectorIndex, q: Seq<i32>)
    requires
        idx.well_formed(),
        q.len() == 14,
        fine_query_in_range(q),
    ensures
        fine_fits_index(idx, q),
{
    assert forall|id: int| 0 <= id < idx.vector_count implies #[trigger] fine_distance(idx, id, q)
        <= u64::MAX by {
        let n = idx.vector_count as int;
        assert(id * 14 + 14 <= n * 14) by (nonlinear_arith)
            requires
                id < n,
        ;
        lemma_fine_terms_bounded(idx.vectors@, idx.residuals@, id * 14, q);
    }
}

/// Filled candidates of the index within `u64` fine distance can be
/// re-ranked.
proof fn lemma_index_fit_reranks(idx: &VectorIndex, q: Seq<i32>, ids: Seq<usize>, ds: Seq<u64>)
    requires
        idx.well_formed(),
        q.len() == 14,
        fine_fits_index(idx, q),
        forall|c: int| 0 <= c < ids.len() && ds[c] != u64::MAX ==> #[trigger] ids[c] < idx.vector_count,
    ensures
        rerank_fits(idx, q, ids, ds),
{
    assert forall|c: int, k: int|
        0 <= c < ids.len() && ds[c] != u64::MAX && 0 < k < 14 && ordered_sum(
            fine_terms(idx.vectors@, idx.residuals@, ids[c] * 14, q),
            k,
        ) < head_distances(fine_order(idx, q, ids, ds, c))[4] implies #[trigger] ordered_sum(
        fine_terms(idx.vectors@, idx.residuals@, ids[c] * 14, q),
        k + 1,
    ) <= u64::MAX by {
        let id = ids[c] as int;
        let n = idx.vector_count as int;
        assert(id * 14 + 14 <= n * 14) by (nonlinear_arith)
            requires
                id < n,
        ;
        let terms = fine_terms(idx.vectors@, idx.residuals@, id * 14, q);
        lemma_fine_terms_bounded(idx.vectors@, idx.residuals@, id * 14, q);
        lemma_ordered_sum_full(terms);
        lemma_ordered_sum_monotone(terms, k + 1, 4647785731782098689);
        assert(fine_distance(idx, id, q) <= u64::MAX);
    }
}

/// Whether every vector of the index lies within `u64` fine distance of
/// `query`.
pub fn fine_distances_fit(resources: &VectorIndex, query: &[i32; 14]) -> (fits: bool)
    requires
        resources.well_formed(),
    ensures
        fits == fine_fits_index(resources, query@),
{
    let ghost q = query@;
    let count = resources.vector_count;
    let vector_len = resources.vectors.len();
    let mut id: usize = 0;
    while id < count
        invariant
            resources.well_formed(),
            count == resources.vector_count,
            vector_len == resources.vectors@.len(),
            q == query@,
            id <= count,
            forall|j: int| 0 <= j < id ==> #[trigger] fine_distance(resources, j, q) <= u64::MAX,
        decreases count - id,
    {
        proof {
            assert(id * 14 + 14 <= count * 14) by (nonlinear_arith)
                requires
                    id < count,
            ;
            assert(vector_len == count * 14);
        }
        let ghost terms = fine_terms(resources.vectors@, resources.residuals@, id * 14, q);
        let offset = id * VECTOR_DIMS;
        let mut total: u128 = 0;
        let mut d: usize = 0;
        while d < 14
            invariant
                d <= 14,
                offset == id * 14,
                offset + 14 <= vector_len,
                vector_len == resources.vectors@.len(),
                resources.residuals@.len() == resources.vectors@.len(),
                terms == fine_terms(resources.vectors@, resources.residuals@, offset as int, q),
                q == query@,
                total == seq_sum(terms, d as int),
                total <= d * 4647785731782098689,
            decreases 14 - d,
        {
            let value = exact_vector_value(resources, offset + d);
            let delta = value as i128 - query[d] as i128;
            proof {
                lemma_sq_bound(delta as int, 2155872383);
            }
            let term = (delta * delta) as u128;
            assert(term == terms[d as int]);
            total = total + term;
            d += 1;
        }
        if total > u64::MAX as u128 {
            assert(fine_distance(resources, id as int, q) > u64::MAX);
            return false;
        }
        id += 1;
    }
    true
}

/// Re-ranks the non-empty coarse candidates by fine distance and keeps the
/// five nearest.
pub fn rerank_candidates(
    resources: &VectorIndex,
    query: &[i32; 14],
    candidate_ids: &[usize; CANDIDATE_COUNT],
    candidate_distances: &[u64; CANDIDATE_COUNT],
) -> (best: [usize; 5])
    requires
        resources.well_formed(),
        rerank_fits(resources, query@, candidate_ids@, candidate_distances@),
        forall|c: int|
            0 <= c < CANDIDATE_COUNT ==> candidate_distances@[c] != u64::MAX ==> #[trigger] candidate_ids@[c]
                < resources.vector_count,
    ensures
        best@ == reranked_ids(resources, query@, candidate_ids@, candidate_distances@),
{
    let ghost q = query@;
    let ghost cids = candidate_ids@;
    let ghost cds = candidate_distances@;
    let mut best_ids = [0usize; 5];
    let mut best_distances = [u64::MAX; 5];
    let vector_len = resources.vectors.len();
    let ghost count = resources.vector_count;
    assert(best_distances@ =~= head_distances(fine_order(resources, q, cids, cds, 0)));
    assert(best_ids@ =~= head_ids(fine_order(resources, q, cids, cds, 0), cids));
    let mut c: usize = 0;
    while c < CANDIDATE_COUNT
        invariant
            c <= CANDIDATE_COUNT,
            vector_len == resources.vectors@.len(),
            vector_len == count * 14,
            resources.residuals@.len() == vector_len,
            count == resources.vector_count,
            q == query@,
            cids == candidate_ids@,
            cds == candidate_distances@,
            rerank_fits(resources, q, cids, cds),
            forall|c: int|
                0 <= c < CANDIDATE_COUNT ==> cds[c] != u64::MAX ==> #[trigger] cids[c] < count,
            best_distances@ == head_distances(fine_order(resources, q, cids, cds, c as int)),
            best_ids@ == head_ids(fine_order(resources, q, cids, cds, c as int), cids),
        decreases CANDIDATE_COUNT - c,
    {
        let id = candidate_ids[c];
        let candidate_distance = candidate_distances[c];
        let ghost o = fine_order(resources, q, cids, cds, c as int);
        proof {
            lemma_fine_order_entries(resources, q, cids, cds, c as int);
        }
        if candidate_distance == u64::MAX {
            assert(fine_order(resources, q, cids, cds, c + 1) == o);
            c += 1;
            continue;
        }
        let ghost terms = fine_terms(resources.vectors@, resources.residuals@, id * 14, q);
        proof {
            assert(id * 14 + 14 <= vector_len) by (nonlinear_arith)
                requires
                    id < count,
                    vector_len == count * 14,
            ;
            lemma_fine_terms_bounded(resources.vectors@, resources.residuals@, id * 14, q);
            lemma_ordered_sum_full(terms);
        }
        let offset = id * VECTOR_DIMS;
        let mut distance: u64 = 0;
        let limit = best_distances[4];
        assert(limit == head_distances(o)[4]);
        let mut k: usize = 0;
        while k < 14
            invariant_except_break
                k <= 14,
                distance == ordered_sum(terms, k as int),
                k > 0 ==> distance < limit,
            invariant
                offset == id * 14,
                offset + 14 <= vector_len,
                vector_len == resources.vectors@.len(),
                resources.residuals@.len() == vector_len,
                terms == fine_terms(resources.vectors@, resources.residuals@, offset as int, q),
                q == query@,
                forall|d: int| 0 <= d < 14 ==> 0 <= #[trigger] terms[d] <= 4647785731782098689,
                ordered_sum(terms, 14) == seq_sum(terms, 14),
                rerank_fits(resources, q, cids, cds),
                c < CANDIDATE_COUNT,
                cids[c as int] == id,
                cds[c as int] != u64::MAX,
                cids == candidate_ids@,
                cds == candidate_distances@,
                limit == head_distances(fine_order(resources, q, cids, cds, c as int))[4],
            ensures
                distance < limit ==> distance == seq_sum(terms, 14),
                distance >= limit ==> seq_sum(terms, 14) >= limit,
            decreases 14 - k,
        {
            let dim = DIM_ORDER[k];
            assert(dim == dim_at(k as int));
            let value = exact_vector_value(resources, offset + dim);
            let delta = value as i64 - query[dim] as i64;
            proof {
                lemma_ordered_sum_monotone(terms, k + 1, 4647785731782098689);
                lemma_sq_bound(delta as int, 2155872383);
                if k > 0 {
                    assert(ordered_sum(
                        fine_terms(resources.vectors@, resources.residuals@, cids[c as int] * 14, q),
                        k + 1,
                    ) <= u64::MAX);
                }
            }
            distance += (delta * delta) as u64;
            if distance >= limit {
                break;
            }
            k += 1;
        }
        let ghost fd = fine_distance(resources, id as int, q);
        let ghost x = (fd, c as int);
        proof {
            assert(fd == seq_sum(terms, 14));
            lemma_ordered_sum_monotone(terms, 0, 4647785731782098689);
        }
        if distance < best_distances[4] {
            proof {
                lemma_head_accept(o, x, cids);
                assert(rankable(resources, q, cids, cds, c as int));
                assert(fine_order(resources, q, cids, cds, c + 1) == stable_insert(o, x));
            }
            insert_best(id, distance, &mut best_ids, &mut best_distances);
        } else {
            proof {
                if fd < u64::MAX {
                    lemma_head_reject(o, x, cids);
                    assert(fine_order(resources, q, cids, cds, c + 1) == stable_insert(o, x));
                } else {
                    assert(fine_order(resources, q, cids, cds, c + 1) == o);
                }
            }
        }
        c += 1;
    }
    best_ids
}

/// Re-ranking reads the coarse distances only to tell empty slots
/// (`u64::MAX`) from filled ones.
pub proof fn lemma_reranked_by_mask(
    idx: &VectorIndex,
    q: Seq<i32>,
    ids: Seq<usize>,
    ds: Seq<u64>,
    ds2: Seq<u64>,
)
    requires
        ds.len() == ids.len(),
        ds2.len() == ids.len(),
        forall|c: int| 0 <= c < ids.len() ==> (#[trigger] ds[c] == u64::MAX) == (ds2[c] == u64::MAX),
    ensures
        reranked_ids(idx, q, ids, ds) == reranked_ids(idx, q, ids, ds2),
{
    lemma_fine_order_by_mask(idx, q, ids, ds, ds2, ids.len() as int);
}

proof fn lemma_fine_order_by_mask(
    idx: &VectorIndex,
    q: Seq<i32>,
    ids: Seq<usize>,
    ds: Seq<u64>,
    ds2: Seq<u64>,
    n: int,
)
    requires
        0 <= n <= ids.len(),
        ds.len() == ids.len(),
        ds2.len() == ids.len(),
        forall|c: int| 0 <= c < ids.len() ==> (#[trigger] ds[c] == u64::MAX) == (ds2[c] == u64::MAX),
    ensures
        fine_order(idx, q, ids, ds, n) == fine_order(idx, q, ids, ds2, n),
    decreases n,
{
    if n > 0 {
        lemma_fine_order_by_mask(idx, q, ids, ds, ds2, n - 1);
        assert((ds[n - 1] == u64::MAX) == (ds2[n - 1] == u64::MAX));
    }
}

/// A distance below the fifth: inserting it into the order puts it into
/// the first five where `insert_best` puts it.
proof fn lemma_head_accept(o: Seq<(int, int)>, x: (int, int), ids: Seq<usize>)
    requires
        order_sorted(o),
        forall|i: int| 0 <= i < o.len() ==> 0 <= #[trigger] o[i].0 < u64::MAX,
        0 <= x.0 < head_distances(o)[4],
    ensures
        head_distances(stable_insert(o, x)) == inserted(
            head_distances(o),
            insertion_point(head_distances(o), x.0 as u64),
            x.0 as u64,
        ),
        head_ids(stable_insert(o, x), ids) == inserted(
            head_ids(o, ids),
            insertion_point(head_distances(o), x.0 as u64),
            ids[x.1],
        ),
{
    lemma_stable_slot(o, x);
    let k = stable_slot(o, x);
    let d = head_distances(o);
    let xd = x.0 as u64;
    if o.len() >= 5 {
        assert(o[4].0 > x.0);
    }
    assert(k <= 4);
    let kept = d.drop_last();
    assert(sorted(kept)) by {
        assert forall|i: int, j: int| 0 <= i <= j < kept.len() implies kept[i] <= kept[j] by {
            if j < o.len() {
                assert(o[i].0 <= o[j].0);
            }
        }
    }
    lemma_slot_after_sorted(kept, xd);
    lemma_sorted_split(kept, xd);
    let split = count_lt(kept, xd + 1) as int;
    assert(split == k) by {
        if split < k {
            assert(kept[split] == o[split].0);
        } else if split > k {
            assert(kept[k] <= xd);
            if k < o.len() {
                assert(kept[k] == o[k].0);
            }
        }
    }
    assert(insertion_point(d, xd) == k);
    let t = stable_insert(o, x);
    assert(head_distances(t) =~= inserted(d, k, xd)) by {
        assert forall|r: int| 0 <= r < 5 implies #[trigger] head_distances(t)[r] == inserted(d, k, xd)[r] by {
            if r > k {
                assert(t[r] == o[r - 1] || r >= t.len());
            }
        }
    }
    assert(head_ids(t, ids) =~= inserted(head_ids(o, ids), k, ids[x.1])) by {
        assert forall|r: int| 0 <= r < 5 implies #[trigger] head_ids(t, ids)[r] == inserted(
            head_ids(o, ids),
            k,
            ids[x.1],
        )[r] by {
            if r > k {
                assert(t[r] == o[r - 1] || r >= t.len());
            }
        }
    }
}

/// A distance not below the fifth: inserting it leaves the first five.
proof fn lemma_head_reject(o: Seq<(int, int)>, x: (int, int), ids: Seq<usize>)
    requires
        order_sorted(o),
        forall|i: int| 0 <= i < o.len() ==> 0 <= #[trigger] o[i].0 < u64::MAX,
        head_distances(o)[4] <= x.0 < u64::MAX,
    ensures
        head_distances(stable_insert(o, x)) == head_distances(o),
        head_ids(stable_insert(o, x), ids) == head_ids(o, ids),
{
    lemma_stable_slot(o, x);
    let k = stable_slot(o, x);
    assert(o.len() >= 5);
    if k <= 4 {
        assert(o[4].0 > x.0);
    }
    let t = stable_insert(o, x);
    assert(head_distances(t) =~= head_distances(o)) by {
        assert forall|r: int| 0 <= r < 5 implies #[trigger] head_distances(t)[r] == head_distances(o)[r] by {
            assert(t[r] == o[r]);
        }
    }
    assert(head_ids(t, ids) =~= head_ids(o, ids)) by {
        assert forall|r: int| 0 <= r < 5 implies #[trigger] head_ids(t, ids)[r] == head_ids(o, ids)[r] by {
            assert(t[r] == o[r]);
        }
    }
}

/// `ds` are the six smallest coarse distances from `q` among the members
/// of all blocks (as many below each `t` as there are such members, capped
/// at six), with `ids` naming vectors at those distances; empty slots hold
/// `u64::MAX` and id 0; with sound blocks every member nearer than the
/// sixth distance is held, and with disjoint blocks no vector fills two
/// slots.
pub open spec fn coarse_selection(idx: &VectorIndex, q: Seq<i16>, ids: Seq<usize>, ds: Seq<u64>) -> bool {
    &&& ids.len() == CANDIDATE_COUNT
    &&& candidates_valid(idx, q, ids, ds)
    &&& idx.blocks_sound() ==> forall|t: int|
        0 <= t <= u64::MAX ==> #[trigger] count_lt(ds, t) == cap(
            CANDIDATE_COUNT as nat,
            all_below(idx, q, t),
        )
    &&& idx.blocks_disjoint() ==> distinct_filled(ids, ds)
    &&& idx.blocks_sound() ==> holds_near(idx, q, ids, ds, |x: int| is_member(idx, x))
}

/// The five reference vectors nearest to the query: the six nearest by
/// coarse distance, searched partition by partition with pruning by box
/// distance, re-ranked by fine distance, the earlier candidate first on
/// equal distances. With disjoint blocks the filled places name distinct
/// vectors.
pub fn nearest_5(
    resources: &VectorIndex,
    query: &[i16; 14],
    exact_query: &[i32; 14],
    scratch: &mut SearchScratch,
) -> (neighbours: [usize; 5])
    requires
        resources.well_formed(),
        fine_fits_index(resources, exact_query@),
    ensures
        forall|i: int| 0 <= i < 5 ==> #[trigger] neighbours@[i] < resources.vector_count,
        exists|ids: Seq<usize>, ds: Seq<u64>|
            {
                &&& coarse_selection(resources, query@, ids, ds)
                &&& neighbours@ == reranked_ids(resources, exact_query@, ids, ds)
                &&& resources.blocks_disjoint() ==> forall|i: int, j: int|
                    0 <= i < j < 5 && j < fine_order(resources, exact_query@, ids, ds, 6).len()
                        ==> #[trigger] neighbours@[i] != #[trigger] neighbours@[j]
            },
{
    let ghost q = query@;
    let mut candidate_ids = [0usize; CANDIDATE_COUNT];
    let mut candidate_distances = [u64::MAX; CANDIDATE_COUNT];
    let ghost init = candidate_distances@;
    let ghost ids0 = candidate_ids@;
    proof {
        assert forall|t: int| 0 <= t <= u64::MAX implies #[trigger] count_lt(init, t) == 0 by {
            lemma_count_lt_bounds(init, t);
        }
        assert forall|i: int| 0 <= i < 6 implies #[trigger] valid_candidate(
            resources,
            q,
            candidate_ids@[i],
            candidate_distances@[i],
        ) by {}
    }

    let partition = bucket_key_from_quantized(query);
    assert(partition < resources.partition_count());
    scan_partition_blocks(
        resources,
        query,
        partition,
        &mut candidate_ids,
        &mut candidate_distances,
        scratch,
    );
    let ghost d1 = candidate_distances@;
    let ghost ids1 = candidate_ids@;
    proof {
        if resources.blocks_disjoint() {
            let own = |x: int|
                in_blocks(
                    resources,
                    x,
                    resources.partition_offsets@[partition as int] as int,
                    resources.partition_offsets@[partition + 1] as int,
                );
            assert(distinct_filled(ids0, init));
            assert(filled_outside(ids0, init, own));
            assert(distinct_filled(ids1, d1));
            let others = |x: int| in_other_partitions(resources, x, partition);
            assert forall|k: int| 0 <= k < 6 && d1[k] != u64::MAX implies !others(#[trigger] ids1[k] as int) by {
                assert(slot_from(resources, q, ids0, init, ids1[k], d1[k], own));
                if has_pair(ids0, init, ids1[k], d1[k]) {
                    let m0 = choose|m0: int| 0 <= m0 < ids0.len() && ids0[m0] == ids1[k] && init[m0] == d1[k];
                    assert(init[m0] == u64::MAX);
                }
                if others(ids1[k] as int) {
                    let m = choose|m: int|
                        0 <= m < resources.non_empty_partitions@.len()
                            && #[trigger] resources.non_empty_partitions@[m] != partition && in_blocks(
                            resources,
                            ids1[k] as int,
                            resources.partition_offsets@[resources.non_empty_partitions@[m] as int] as int,
                            resources.partition_offsets@[resources.non_empty_partitions@[m] + 1] as int,
                        );
                    lemma_non_empty_parts_range(resources.partition_offsets@, resources.partition_count());
                    lemma_partitions_apart(
                        resources,
                        partition as int,
                        resources.non_empty_partitions@[m] as int,
                        ids1[k] as int,
                    );
                }
            }
        }
    }
    scan_other_partitions(
        resources,
        query,
        partition,
        &mut candidate_ids,
        &mut candidate_distances,
        scratch,
    );
    proof {
        if resources.blocks_sound() {
            lemma_absorbs_trans(
                init,
                d1,
                candidate_distances@,
                |t: int| partition_below(resources, q, partition as int, t),
                |t: int| others_below(resources, q, resources.non_empty_partitions@, partition, t),
            );
            assert forall|t: int| 0 <= t <= u64::MAX implies #[trigger] count_lt(
                candidate_distances@,
                t,
            ) == cap(CANDIDATE_COUNT as nat, all_below(resources, q, t)) by {
                lemma_all_partitions(resources, q, partition, t);
            }
        }
        if resources.blocks_sound() {
            let own = |x: int|
                in_blocks(
                    resources,
                    x,
                    resources.partition_offsets@[partition as int] as int,
                    resources.partition_offsets@[partition + 1] as int,
                );
            let others = |x: int| in_other_partitions(resources, x, partition);
            let member = |x: int| is_member(resources, x);
            assert forall|x: int| #[trigger] member(x) implies own(x) || others(x) by {
                let j = choose|j: int|
                    0 <= j < resources.blocks@.len() && #[trigger] resources.blocks@[j].start <= x
                        < resources.blocks@[j].end;
                let p = lemma_block_partition(resources, j, 0);
                if p != partition {
                    lemma_non_empty_listed(resources.partition_offsets@, resources.partition_count(), p);
                    let m = choose|m: int|
                        0 <= m < resources.non_empty_partitions@.len()
                            && #[trigger] resources.non_empty_partitions@[m] == p;
                    assert(in_blocks(
                        resources,
                        x,
                        resources.partition_offsets@[p] as int,
                        resources.partition_offsets@[p + 1] as int,
                    ));
                }
            }
            lemma_holds_near_step(
                resources,
                q,
                ids1,
                d1,
                candidate_ids@,
                candidate_distances@,
                own,
                others,
                member,
            );
        }
        assert(coarse_selection(resources, q, candidate_ids@, candidate_distances@));
        assert forall|c: int|
            0 <= c < CANDIDATE_COUNT && candidate_distances@[c] != u64::MAX implies #[trigger] candidate_ids@[c]
                < resources.vector_count by {
            assert(valid_candidate(resources, q, candidate_ids@[c], candidate_distances@[c]));
            let j = choose|j: int|
                0 <= j < resources.blocks@.len() && #[trigger] resources.blocks@[j].start
                    <= candidate_ids@[c] < resources.blocks@[j].end;
            assert(resources.blocks@[j].start < resources.blocks@[j].end <= resources.vector_count);
        }
    }
    proof {
        lemma_index_fit_reranks(resources, exact_query@, candidate_ids@, candidate_distances@);
    }
    let neighbours = rerank_candidates(resources, exact_query, &candidate_ids, &candidate_distances);
    proof {
        let eq = exact_query@;
        let order = fine_order(resources, eq, candidate_ids@, candidate_distances@, 6);
        lemma_fine_order_entries(resources, eq, candidate_ids@, candidate_distances@, 6);
        assert forall|i: int| 0 <= i < 5 implies #[trigger] neighbours@[i] < resources.vector_count by {
            if i < order.len() {
                assert(candidate_distances@[order[i].1] != u64::MAX);
            }
        }
        if resources.blocks_disjoint() {
            assert forall|i: int, j: int| 0 <= i < j < 5 && j < order.len() implies #[trigger] neighbours@[i]
                != #[trigger] neighbours@[j] by {
                assert(order[i].1 != order[j].1);
                assert(candidate_distances@[order[i].1] != u64::MAX);
                assert(candidate_distances@[order[j].1] != u64::MAX);
            }
        }
    }
    neighbours
}

/// How many of the first `n` neighbours carry label 1.
pub open spec fn fraud_labels(labels: Seq<u8>, ids: Seq<usize>, n: int) -> nat
    decreases n,
{
    if n <= 0 {
        0
    } else {
        fraud_labels(labels, ids, n - 1) + if labels[ids[n - 1] as int] == 1 {
            1nat
        } else {
            0nat
        }
    }
}

/// How many of the neighbours are labelled fraudulent (label 1).
pub fn count_labels(resources: &VectorIndex, neighbours: &[usize; 5]) -> (count: usize)
    requires
        resources.well_formed(),
        forall|i: int| 0 <= i < 5 ==> #[trigger] neighbours@[i] < resources.vector_count,
    ensures
        count == fraud_labels(resources.labels@, neighbours@, 5),
        count <= 5,
{
    let mut count: usize = 0;
    let mut i: usize = 0;
    while i < 5
        invariant
            resources.well_formed(),
            forall|i: int| 0 <= i < 5 ==> #[trigger] neighbours@[i] < resources.vector_count,
            i <= 5,
            count == fraud_labels(resources.labels@, neighbours@, i as int),
            count <= i,
        decreases 5 - i,
    {
        if resources.labels[neighbours[i]] == 1 {
            count += 1;
        }
        i += 1;
    }
    count
}

} // verus!
