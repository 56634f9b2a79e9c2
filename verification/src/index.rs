use vstd::prelude::*;

use crate::buckets::PARTITION_COUNT;

verus! {

/// A run of consecutive reference vectors, `start..end`, with the
/// per-dimension minimum and maximum of its members.
pub struct Block {
    pub start: u32,
    pub end: u32,
    pub min: [i16; 14],
    pub max: [i16; 14],
}

/// A per-dimension box.
pub struct Bounds {
    pub min: [i16; 14],
    pub max: [i16; 14],
}

/// Smallest `min[dim]` over the blocks `lo..hi` (`i16::MAX` when empty).
pub open spec fn range_min(blocks: Seq<Block>, lo: int, hi: int, dim: int) -> int
    decreases hi - lo,
{
    if hi <= lo {
        i16::MAX as int
    } else {
        let rest = range_min(blocks, lo, hi - 1, dim);
        let v = blocks[hi - 1].min@[dim] as int;
        if v < rest {
            v
        } else {
            rest
        }
    }
}

/// Largest `max[dim]` over the blocks `lo..hi` (`i16::MIN` when empty).
pub open spec fn range_max(blocks: Seq<Block>, lo: int, hi: int, dim: int) -> int
    decreases hi - lo,
{
    if hi <= lo {
        i16::MIN as int
    } else {
        let rest = range_max(blocks, lo, hi - 1, dim);
        let v = blocks[hi - 1].max@[dim] as int;
        if v > rest {
            v
        } else {
            rest
        }
    }
}

/// Every block of `lo..hi` has its `min[dim]` no lower than `range_min`
/// and its `max[dim]` no higher than `range_max`.
pub proof fn lemma_range_bounds(blocks: Seq<Block>, lo: int, hi: int, dim: int, j: int)
    requires
        lo <= j < hi,
    ensures
        range_min(blocks, lo, hi, dim) <= blocks[j].min@[dim],
        blocks[j].max@[dim] <= range_max(blocks, lo, hi, dim),
    decreases hi - lo,
{
    if j < hi - 1 {
        lemma_range_bounds(blocks, lo, hi - 1, dim, j);
    }
}

/// The listed partitions are below `n`, in increasing order.
pub proof fn lemma_non_empty_parts_range(offsets: Seq<u32>, n: int)
    requires
        n < offsets.len(),
        n <= usize::MAX,
    ensures
        forall|k: int|
            0 <= k < non_empty_parts(offsets, n).len() ==> #[trigger] non_empty_parts(offsets, n)[k]
                < n,
        forall|a: int, b: int|
            0 <= a < b < non_empty_parts(offsets, n).len() ==> #[trigger] non_empty_parts(offsets, n)[a]
                < #[trigger] non_empty_parts(offsets, n)[b],
    decreases n,
{
    if n > 0 {
        lemma_non_empty_parts_range(offsets, n - 1);
        let prev = non_empty_parts(offsets, n - 1);
        let cur = non_empty_parts(offsets, n);
        assert forall|k: int| 0 <= k < cur.len() implies #[trigger] cur[k] < n by {
            if k < prev.len() {
                assert(cur[k] == prev[k]);
            }
        }
        if offsets[n - 1] != offsets[n] {
            assert(cur == prev.push((n - 1) as usize));
            assert forall|a: int, b: int| 0 <= a < b < cur.len() implies #[trigger] cur[a]
                < #[trigger] cur[b] by {
                assert(cur[a] == prev[a]);
                if b < prev.len() {
                    assert(cur[b] == prev[b]);
                } else {
                    assert(prev[a] < n - 1);
                }
            }
        } else {
            assert(cur == prev);
        }
    }
}

/// The partitions among the first `n` whose block range is not empty, in
/// increasing order.
pub open spec fn non_empty_parts(offsets: Seq<u32>, n: int) -> Seq<usize>
    decreases n,
{
    if n <= 0 {
        Seq::empty()
    } else if offsets[n - 1] != offsets[n] {
        non_empty_parts(offsets, n - 1).push((n - 1) as usize)
    } else {
        non_empty_parts(offsets, n - 1)
    }
}

/// Offsets that never decrease and end within `block_count`.
pub open spec fn offsets_ordered(offsets: Seq<u32>, block_count: int) -> bool {
    &&& offsets.len() >= 1
    &&& forall|p: int, q: int| 0 <= p <= q < offsets.len() ==> offsets[p] <= offsets[q]
    &&& offsets.last() <= block_count
}

/// Offsets from which the bounds of all `PARTITION_COUNT` partitions can be
/// built: each partition whose range is not empty has its range in order and
/// within `block_count`.
pub open spec fn bounds_buildable(offsets: Seq<u32>, block_count: int) -> bool {
    &&& offsets.len() > PARTITION_COUNT
    &&& forall|p: int|
        #![trigger offsets[p], offsets[p + 1]]
        0 <= p < PARTITION_COUNT ==> offsets[p] != offsets[p + 1] ==> offsets[p] <= offsets[p + 1]
            <= block_count
}

/// `span` is the bounds of partition `p`: the box spanned by its blocks,
/// all zero when it has none.
pub open spec fn span_matches(blocks: Seq<Block>, offsets: Seq<u32>, span: Bounds, p: int) -> bool {
    let lo = offsets[p] as int;
    let hi = offsets[p + 1] as int;
    forall|dim: int|
        #![trigger span.min@[dim]]
        0 <= dim < 14 ==> if lo == hi {
            span.min@[dim] == 0 && span.max@[dim] == 0
        } else {
            span.min@[dim] as int == range_min(blocks, lo, hi, dim) && span.max@[dim] as int
                == range_max(blocks, lo, hi, dim)
        }
}

/// The bounds of the first `n` partitions.
pub open spec fn bounds_prefix_of(blocks: Seq<Block>, offsets: Seq<u32>, b: Seq<Bounds>, n: int) -> bool {
    &&& b.len() == n
    &&& forall|p: int| 0 <= p < n ==> #[trigger] span_matches(blocks, offsets, b[p], p)
}

/// The bounds of all `PARTITION_COUNT` partitions.
pub open spec fn partition_bounds_of(blocks: Seq<Block>, offsets: Seq<u32>, b: Seq<Bounds>) -> bool {
    bounds_prefix_of(blocks, offsets, b, PARTITION_COUNT as int)
}

/// The box spanned by the blocks `start..end`: per dimension the smallest
/// `min` and the largest `max`.
fn span_of_blocks(blocks: &[Block], start: usize, end: usize) -> (span: Bounds)
    requires
        start < end <= blocks@.len(),
    ensures
        forall|dim: int|
            0 <= dim < 14 ==> #[trigger] span.min@[dim] as int == range_min(
                blocks@,
                start as int,
                end as int,
                dim,
            ) && span.max@[dim] as int == range_max(blocks@, start as int, end as int, dim),
{
    let mut min = [i16::MAX; 14];
    let mut max = [i16::MIN; 14];
    let mut block_id = start;
    while block_id < end
        invariant
            start <= block_id <= end <= blocks@.len(),
            forall|dim: int|
                0 <= dim < 14 ==> #[trigger] min@[dim] as int == range_min(
                    blocks@,
                    start as int,
                    block_id as int,
                    dim,
                ) && max@[dim] as int == range_max(blocks@, start as int, block_id as int, dim),
        decreases end - block_id,
    {
        let block = &blocks[block_id];
        let mut dim: usize = 0;
        while dim < 14
            invariant
                dim <= 14,
                start <= block_id < end <= blocks@.len(),
                *block == blocks@[block_id as int],
                forall|d: int|
                    0 <= d < dim ==> #[trigger] min@[d] as int == range_min(
                        blocks@,
                        start as int,
                        block_id + 1,
                        d,
                    ) && max@[d] as int == range_max(blocks@, start as int, block_id + 1, d),
                forall|d: int|
                    dim <= d < 14 ==> #[trigger] min@[d] as int == range_min(
                        blocks@,
                        start as int,
                        block_id as int,
                        d,
                    ) && max@[d] as int == range_max(blocks@, start as int, block_id as int, d),
            decreases 14 - dim,
        {
            let ghost min0 = min@;
            let ghost max0 = max@;
            assert(min0[dim as int] as int == range_min(blocks@, start as int, block_id as int, dim as int));
            assert(max0[dim as int] as int == range_max(blocks@, start as int, block_id as int, dim as int));
            if block.min[dim] < min[dim] {
                min[dim] = block.min[dim];
            }
            if block.max[dim] > max[dim] {
                max[dim] = block.max[dim];
            }
            assert(forall|d: int| 0 <= d < 14 && d != dim ==> min@[d] == min0[d] && max@[d] == max0[d]);
            assert(block.min@[dim as int] == blocks@[block_id as int].min@[dim as int]);
            assert(min@[dim as int] as int == range_min(blocks@, start as int, block_id + 1, dim as int));
            assert(max@[dim as int] as int == range_max(blocks@, start as int, block_id + 1, dim as int));
            dim += 1;
        }
        block_id += 1;
    }
    Bounds { min, max }
}

/// The box spanned by the blocks of each of the `PARTITION_COUNT`
/// partitions (all zero for a partition without blocks).
pub fn build_partition_bounds(blocks: &[Block], partition_offsets: &[u32]) -> (bounds: Vec<Bounds>)
    requires
        bounds_buildable(partition_offsets@, blocks@.len() as int),
    ensures
        partition_bounds_of(blocks@, partition_offsets@, bounds@),
{
    let mut bounds: Vec<Bounds> = Vec::with_capacity(PARTITION_COUNT);
    let mut partition: usize = 0;
    while partition < PARTITION_COUNT
        invariant
            bounds_buildable(partition_offsets@, blocks@.len() as int),
            partition <= PARTITION_COUNT,
            bounds_prefix_of(blocks@, partition_offsets@, bounds@, partition as int),
        decreases PARTITION_COUNT - partition,
    {
        let start = partition_offsets[partition] as usize;
        let end = partition_offsets[partition + 1] as usize;
        let ghost before = bounds@;
        assert(partition_offsets@[partition as int] != partition_offsets@[partition + 1] ==> start
            <= end <= blocks@.len());
        let span = if start == end {
            Bounds { min: [0; 14], max: [0; 14] }
        } else {
            span_of_blocks(blocks, start, end)
        };
        bounds.push(span);
        proof {
            let o = partition_offsets@;
            assert(span_matches(blocks@, o, span, partition as int));
            assert forall|p: int| 0 <= p < partition + 1 implies #[trigger] span_matches(
                blocks@,
                o,
                bounds@[p],
                p,
            ) by {
                if p < partition {
                    assert(bounds@[p] == before[p]);
                }
            }
        }
        partition += 1;
    }
    bounds
}

/// The partitions below `PARTITION_COUNT` that own at least one block, in
/// increasing order.
pub fn build_non_empty_partitions(partition_offsets: &[u32]) -> (partitions: Vec<usize>)
    requires
        partition_offsets@.len() > PARTITION_COUNT,
    ensures
        partitions@ == non_empty_parts(partition_offsets@, PARTITION_COUNT as int),
{
    let count = PARTITION_COUNT;
    let mut partitions: Vec<usize> = Vec::new();
    let mut partition: usize = 0;
    while partition < count
        invariant
            count == PARTITION_COUNT,
            partition_offsets@.len() > PARTITION_COUNT,
            partition <= count,
            partitions@ == non_empty_parts(partition_offsets@, partition as int),
        decreases count - partition,
    {
        if partition_offsets[partition] != partition_offsets[partition + 1] {
            partitions.push(partition);
        }
        partition += 1;
    }
    partitions
}

/// The reference set and its block index: `vectors` holds `vector_count`
/// quantised vectors of 14 coordinates, `residuals` the fine part of each
/// coordinate, `labels` one label per vector; `blocks` are grouped into
/// partitions, partition `p` owning the blocks
/// `partition_offsets[p]..partition_offsets[p + 1]`.
pub struct VectorIndex {
    pub vectors: Vec<i16>,
    pub residuals: Vec<u8>,
    pub labels: Vec<u8>,
    pub blocks: Vec<Block>,
    pub partition_bounds: Vec<Bounds>,
    pub non_empty_partitions: Vec<usize>,
    pub partition_offsets: Vec<u32>,
    pub vector_count: usize,
}

/// The 14 coordinates stored at `off` lie in the box `min..=max`.
pub open spec fn point_in_box(min: Seq<i16>, max: Seq<i16>, v: Seq<i16>, off: int) -> bool {
    forall|dim: int| 0 <= dim < 14 ==> #[trigger] min[dim] <= v[off + dim] <= max[dim]
}

/// The shape that the loader checks of the parts of an index.
pub open spec fn parts_consistent(
    vectors: Seq<i16>,
    residuals: Seq<u8>,
    labels: Seq<u8>,
    blocks: Seq<Block>,
    partition_offsets: Seq<u32>,
    vector_count: int,
) -> bool {
    &&& vector_count > 0
    &&& vectors.len() == vector_count * 14
    &&& residuals.len() == vector_count * 14
    &&& labels.len() == vector_count
    &&& forall|j: int|
        0 <= j < blocks.len() ==> #[trigger] blocks[j].start < blocks[j].end <= vector_count
    &&& partition_offsets.len() == PARTITION_COUNT + 1
    &&& bounds_buildable(partition_offsets, blocks.len() as int)
    &&& partition_offsets[0] == 0
    &&& partition_offsets.last() == blocks.len()
}

/// With its first offset 0 and its last the block count, offsets that can
/// be built from never decrease.
pub proof fn lemma_buildable_ordered(offsets: Seq<u32>, block_count: int)
    requires
        offsets.len() == PARTITION_COUNT + 1,
        bounds_buildable(offsets, block_count),
        offsets[0] == 0,
        offsets.last() == block_count,
    ensures
        offsets_ordered(offsets, block_count),
{
    assert forall|p: int, q: int| 0 <= p <= q < offsets.len() implies offsets[p] <= offsets[q] by {
        lemma_offsets_chain(offsets, block_count, p, q);
    }
}

proof fn lemma_offsets_chain(offsets: Seq<u32>, block_count: int, p: int, q: int)
    requires
        offsets.len() == PARTITION_COUNT + 1,
        bounds_buildable(offsets, block_count),
        0 <= p <= q < offsets.len(),
    ensures
        offsets[p] <= offsets[q],
    decreases q - p,
{
    if p < q {
        lemma_offsets_chain(offsets, block_count, p, q - 1);
        let r = q - 1;
        assert(offsets[r] != offsets[r + 1] ==> offsets[r] <= offsets[r + 1]);
    }
}

impl VectorIndex {
    /// Number of partitions.
    pub open spec fn partition_count(&self) -> int {
        self.partition_offsets@.len() - 1
    }

    pub open spec fn well_formed(&self) -> bool {
        &&& parts_consistent(
            self.vectors@,
            self.residuals@,
            self.labels@,
            self.blocks@,
            self.partition_offsets@,
            self.vector_count as int,
        )
        &&& offsets_ordered(self.partition_offsets@, self.blocks@.len() as int)
        &&& partition_bounds_of(self.blocks@, self.partition_offsets@, self.partition_bounds@)
        &&& self.non_empty_partitions@ == non_empty_parts(
            self.partition_offsets@,
            self.partition_count(),
        )
    }

    /// No vector belongs to two blocks. The file format promises this; the
    /// loader does not check it.
    pub open spec fn blocks_disjoint(&self) -> bool {
        forall|j: int, k: int|
            #![trigger self.blocks@[j], self.blocks@[k]]
            0 <= j < self.blocks@.len() && 0 <= k < self.blocks@.len() && j != k ==> self.blocks@[j].end
                <= self.blocks@[k].start || self.blocks@[k].end <= self.blocks@[j].start
    }

    /// Every block's box holds the vectors of the block. The file format
    /// promises this; the loader does not check it.
    pub open spec fn blocks_sound(&self) -> bool {
        forall|j: int, id: int|
            0 <= j < self.blocks@.len() && self.blocks@[j].start <= id < self.blocks@[j].end
                ==> #[trigger] point_in_box(
                self.blocks@[j].min@,
                self.blocks@[j].max@,
                self.vectors@,
                id * 14,
            )
    }

    /// Builds the index from its parts, with the box of each partition and
    /// the list of partitions that own blocks.
    pub fn new(
        vectors: Vec<i16>,
        residuals: Vec<u8>,
        labels: Vec<u8>,
        blocks: Vec<Block>,
        partition_offsets: Vec<u32>,
        vector_count: usize,
    ) -> (index: Self)
        requires
            parts_consistent(
                vectors@,
                residuals@,
                labels@,
                blocks@,
                partition_offsets@,
                vector_count as int,
            ),
        ensures
            index.well_formed(),
            index.vectors@ == vectors@,
            index.residuals@ == residuals@,
            index.labels@ == labels@,
            index.blocks@ == blocks@,
            index.partition_offsets@ == partition_offsets@,
            index.vector_count == vector_count,
    {
        proof {
            lemma_buildable_ordered(partition_offsets@, blocks@.len() as int);
        }
        let partition_bounds = build_partition_bounds(blocks.as_slice(), partition_offsets.as_slice());
        let non_empty_partitions = build_non_empty_partitions(partition_offsets.as_slice());
        VectorIndex {
            vectors,
            residuals,
            labels,
            blocks,
            partition_bounds,
            non_empty_partitions,
            partition_offsets,
            vector_count,
        }
    }
}

/// Whether the bounds of all partitions can be built from `offsets`.
pub fn partition_bounds_buildable(offsets: &[u32], block_count: usize) -> (buildable: bool)
    ensures
        buildable == bounds_buildable(offsets@, block_count as int),
{
    if offsets.len() <= PARTITION_COUNT {
        return false;
    }
    let mut p: usize = 0;
    while p < PARTITION_COUNT
        invariant
            offsets@.len() > PARTITION_COUNT,
            p <= PARTITION_COUNT,
            forall|k: int|
                #![trigger offsets@[k], offsets@[k + 1]]
                0 <= k < p ==> offsets@[k] != offsets@[k + 1] ==> offsets@[k] <= offsets@[k + 1]
                    <= block_count,
        decreases PARTITION_COUNT - p,
    {
        let start = offsets[p];
        let end = offsets[p + 1];
        if start != end && (start > end || end as usize > block_count) {
            return false;
        }
        p += 1;
    }
    true
}

} // verus!
