use rbe26::buckets::{PARTITION_COUNT, bucket_key_from_quantized};
use rbe26::index::{
    Block, VectorIndex, build_non_empty_partitions, build_partition_bounds,
    partition_bounds_buildable,
};
use rbe26::search::{
    SearchScratch, count_labels, fine_distances_fit, fine_query_fits, nearest_5, rerank_candidates,
    scan_block, scan_block_range,
};

/// Offsets of all partitions, partition `p` owning `n` blocks for each
/// `(p, n)` and the others none.
fn offsets_for(owners: &[(usize, u32)]) -> Vec<u32> {
    let mut counts = vec![0u32; PARTITION_COUNT];
    for &(p, n) in owners {
        counts[p] += n;
    }
    let mut offsets = Vec::with_capacity(PARTITION_COUNT + 1);
    let mut total = 0u32;
    offsets.push(0);
    for c in counts {
        total += c;
        offsets.push(total);
    }
    offsets
}

fn block_of(vectors: &[[i16; 14]], start: usize, end: usize) -> Block {
    let mut min = [i16::MAX; 14];
    let mut max = [i16::MIN; 14];
    for v in &vectors[start..end] {
        for d in 0..14 {
            min[d] = min[d].min(v[d]);
            max[d] = max[d].max(v[d]);
        }
    }
    Block { start: start as u32, end: end as u32, min, max }
}

fn distance(a: &[i16; 14], b: &[i16; 14]) -> i64 {
    (0..14).map(|d| (a[d] as i64 - b[d] as i64).pow(2)).sum()
}

/// Twelve vectors in four blocks spread over three partitions.
fn sample() -> (Vec<[i16; 14]>, VectorIndex) {
    let mut vectors = Vec::new();
    for i in 0..12i16 {
        let mut v = [0i16; 14];
        for d in 0..14 {
            v[d] = (i * 37 + d as i16 * 11) % 200 - 100 + i * 300;
        }
        vectors.push(v);
    }
    let blocks = vec![
        block_of(&vectors, 0, 3),
        block_of(&vectors, 3, 6),
        block_of(&vectors, 6, 10),
        block_of(&vectors, 10, 12),
    ];
    // partition 0: blocks 0..2, partition 5: block 2, partition 9: block 3
    let offsets = offsets_for(&[(0, 2), (5, 1), (9, 1)]);
    let flat: Vec<i16> = vectors.iter().flatten().copied().collect();
    let labels = (0..12).map(|i| (i % 3 == 0) as u8).collect();
    let index = VectorIndex::new(flat, vec![128u8; 12 * 14], labels, blocks, offsets, 12);
    (vectors, index)
}

#[test]
fn partition_bounds_span_their_blocks() {
    let (vectors, index) = sample();
    let bounds = build_partition_bounds(&index.blocks, &index.partition_offsets);
    assert_eq!(bounds.len(), PARTITION_COUNT);
    let whole = block_of(&vectors, 0, 6);
    assert_eq!(bounds[0].min, whole.min);
    assert_eq!(bounds[0].max, whole.max);
    assert_eq!(bounds[1].min, [0; 14]);
    assert_eq!(bounds[1].max, [0; 14]);
    assert_eq!(bounds[5].min, index.blocks[2].min);
    assert_eq!(bounds[9].max, index.blocks[3].max);
    assert_eq!(bounds[PARTITION_COUNT - 1].min, [0; 14]);
}

#[test]
fn partition_bounds_ignore_offsets_past_the_partitions() {
    let (vectors, index) = sample();
    let mut offsets = index.partition_offsets.clone();
    offsets.push(1);
    offsets.push(0);
    let bounds = build_partition_bounds(&index.blocks, &offsets);
    assert_eq!(bounds.len(), PARTITION_COUNT);
    assert_eq!(bounds[0].min, block_of(&vectors, 0, 6).min);
}

#[test]
fn non_empty_partitions_listed_in_order() {
    assert_eq!(build_non_empty_partitions(&offsets_for(&[(0, 2), (5, 1)])), vec![0, 5]);
    assert_eq!(build_non_empty_partitions(&offsets_for(&[])), Vec::<usize>::new());
    let mut longer = offsets_for(&[(PARTITION_COUNT - 1, 3)]);
    longer.push(7);
    assert_eq!(build_non_empty_partitions(&longer), vec![PARTITION_COUNT - 1]);
    let (_, index) = sample();
    assert_eq!(index.non_empty_partitions, vec![0, 5, 9]);
}

#[test]
fn partition_bounds_buildable_check() {
    let offsets = offsets_for(&[(0, 1), (3, 3)]);
    assert!(partition_bounds_buildable(&offsets, 4));
    assert!(!partition_bounds_buildable(&offsets, 3));
    let mut unordered = offsets.clone();
    unordered[2] = 3;
    assert!(!partition_bounds_buildable(&unordered, 4));
    let mut flat_above = vec![9u32; PARTITION_COUNT + 1];
    flat_above[0] = 0;
    flat_above[1] = 0;
    assert!(!partition_bounds_buildable(&flat_above, 4));
    // Empty partitions may name offsets beyond the blocks.
    let all_above = vec![9u32; PARTITION_COUNT + 1];
    assert!(partition_bounds_buildable(&all_above, 4));
    // Offsets past the partitions are not read.
    let mut tail = offsets.clone();
    tail.push(0);
    assert!(partition_bounds_buildable(&tail, 4));
    assert!(!partition_bounds_buildable(&offsets[..PARTITION_COUNT], 4));
    assert!(!partition_bounds_buildable(&[], 4));
}

#[test]
fn fine_query_limits() {
    assert!(fine_query_fits(&[0; 14]));
    assert!(fine_query_fits(&[1 << 30; 14]));
    assert!(fine_query_fits(&[-(1 << 30); 14]));
    assert!(!fine_query_fits(&[i32::MAX; 14]));
    assert!(!fine_query_fits(&[i32::MIN; 14]));
    let mut mixed = [0i32; 14];
    mixed[0] = i32::MAX;
    mixed[1] = i32::MIN;
    assert!(fine_query_fits(&mixed));
}

#[test]
fn ties_keep_candidate_order() {
    // Two vectors at the same distance from the query: the earlier id comes
    // first, and neither is repeated.
    let vectors = [[1i16; 14], [-1i16; 14]];
    let flat: Vec<i16> = vectors.iter().flatten().copied().collect();
    let blocks = vec![block_of(&vectors, 0, 2)];
    let index =
        VectorIndex::new(flat, vec![128; 28], vec![1, 0], blocks, offsets_for(&[(0, 1)]), 2);
    let query = [0i16; 14];
    let exact = [0i32; 14];
    let mut scratch = SearchScratch::new();
    let found = nearest_5(&index, &query, &exact, &mut scratch);
    assert_eq!(found, [0, 1, 0, 0, 0]);
}

#[test]
fn nearest_5_matches_brute_force() {
    let (vectors, index) = sample();
    let mut scratch = SearchScratch::new();
    for i in 0..12i16 {
        let mut query = [0i16; 14];
        for d in 0..14 {
            query[d] = (i * 300 + 150 + d as i16 * 5) % 3600 - 40;
        }
        // Keep the coordinates that the bucket key reads in its lowest bins.
        for d in [0usize, 2, 3, 7, 8, 12] {
            query[d] = query[d] % 2000 - 1000;
        }
        query[5] = -1;
        assert!(bucket_key_from_quantized(&query) < PARTITION_COUNT);
        let exact: [i32; 14] = std::array::from_fn(|d| query[d] as i32 * 256);
        let found = nearest_5(&index, &query, &exact, &mut scratch);

        let mut order: Vec<usize> = (0..12).collect();
        order.sort_by_key(|&id| (distance(&vectors[id], &query), id));
        let mut expected: Vec<i64> = order[..5].iter().map(|&id| distance(&vectors[id], &query)).collect();
        let mut got: Vec<i64> = found.iter().map(|&id| distance(&vectors[id], &query)).collect();
        expected.sort();
        got.sort();
        assert_eq!(got, expected, "query {i}");
    }
}

#[test]
fn nearest_5_with_fewer_than_five_vectors() {
    let vectors = [[10i16; 14], [-10i16; 14]];
    let flat: Vec<i16> = vectors.iter().flatten().copied().collect();
    let blocks = vec![block_of(&vectors, 0, 2)];
    let index =
        VectorIndex::new(flat, vec![128; 28], vec![1, 0], blocks, offsets_for(&[(0, 1)]), 2);
    let mut query = [9i16; 14];
    query[5] = -1;
    let exact: [i32; 14] = std::array::from_fn(|d| query[d] as i32 * 256);
    let mut scratch = SearchScratch::new();
    let found = nearest_5(&index, &query, &exact, &mut scratch);
    assert_eq!(found, [0, 1, 0, 0, 0]);
    assert_eq!(count_labels(&index, &found), 4);
}

#[test]
fn residuals_refine_the_order() {
    // Two vectors at the same coarse position; their residuals decide.
    let vectors = [[0i16; 14], [0i16; 14]];
    let flat: Vec<i16> = vectors.iter().flatten().copied().collect();
    let mut residuals = vec![128u8; 28];
    for d in 0..14 {
        residuals[d] = 200;
        residuals[14 + d] = 130;
    }
    let blocks = vec![block_of(&vectors, 0, 2)];
    let index =
        VectorIndex::new(flat, residuals, vec![0, 1], blocks, offsets_for(&[(0, 1)]), 2);
    let mut query = [0i16; 14];
    query[5] = -1;
    let exact = [0i32; 14];
    let mut scratch = SearchScratch::new();
    let found = nearest_5(&index, &query, &exact, &mut scratch);
    assert_eq!(&found[..2], &[1, 0]);
}

#[test]
fn count_labels_counts_fraud() {
    let (_, index) = sample();
    assert_eq!(count_labels(&index, &[0, 3, 6, 9, 1]), 4);
    assert_eq!(count_labels(&index, &[1, 2, 4, 5, 7]), 0);
}

#[test]
fn blocks_visited_nearest_first() {
    // One partition with three blocks: six vectors far from the query, one
    // vector farther still, then the vector nearest to the query. Visiting
    // the blocks in stored order would stop at the second block.
    let mut vectors: Vec<[i16; 14]> = Vec::new();
    for i in 0..6i16 {
        vectors.push([1000 + i; 14]);
    }
    vectors.push([5000; 14]);
    vectors.push([1; 14]);
    let blocks = vec![block_of(&vectors, 0, 6), block_of(&vectors, 6, 7), block_of(&vectors, 7, 8)];
    let flat: Vec<i16> = vectors.iter().flatten().copied().collect();
    let index =
        VectorIndex::new(flat, vec![128; 8 * 14], vec![0; 8], blocks, offsets_for(&[(0, 3)]), 8);
    let mut query = [0i16; 14];
    query[5] = -1;
    let exact: [i32; 14] = std::array::from_fn(|d| query[d] as i32 * 256);
    let mut scratch = SearchScratch::new();
    let found = nearest_5(&index, &query, &exact, &mut scratch);
    assert_eq!(found, [7, 0, 1, 2, 3]);
}

#[test]
fn partitions_visited_nearest_first() {
    // Partition 0 holds the query's bucket; partitions 1 and 2 are visited
    // by box distance: partition 2 is nearer and must be searched.
    let mut vectors: Vec<[i16; 14]> = Vec::new();
    for i in 0..6i16 {
        vectors.push([3000 + i; 14]);
    }
    vectors.push([9000; 14]);
    vectors.push([-2; 14]);
    let blocks = vec![block_of(&vectors, 0, 6), block_of(&vectors, 6, 7), block_of(&vectors, 7, 8)];
    let flat: Vec<i16> = vectors.iter().flatten().copied().collect();
    let offsets = offsets_for(&[(0, 1), (1, 1), (2, 1)]);
    let index = VectorIndex::new(flat, vec![128; 8 * 14], vec![0; 8], blocks, offsets, 8);
    let mut query = [0i16; 14];
    query[5] = -1;
    let exact: [i32; 14] = std::array::from_fn(|d| query[d] as i32 * 256);
    let mut scratch = SearchScratch::new();
    let found = nearest_5(&index, &query, &exact, &mut scratch);
    assert_eq!(found, [7, 0, 1, 2, 3]);
}

#[test]
fn rerank_reads_only_which_slots_are_filled() {
    let vectors = [[4i16; 14], [1i16; 14], [2i16; 14], [9i16; 14]];
    let flat: Vec<i16> = vectors.iter().flatten().copied().collect();
    let blocks = vec![block_of(&vectors, 0, 4)];
    let index =
        VectorIndex::new(flat, vec![128; 56], vec![0; 4], blocks, offsets_for(&[(0, 1)]), 4);
    let exact = [0i32; 14];
    let ids = [0usize, 1, 2, 3, 0, 0];
    let first = [10u64, 20, 30, u64::MAX, u64::MAX, u64::MAX];
    let second = [7u64, 1, 500, u64::MAX, u64::MAX, u64::MAX];
    let a = rerank_candidates(&index, &exact, &ids, &first);
    let b = rerank_candidates(&index, &exact, &ids, &second);
    assert_eq!(a, [1, 2, 0, 0, 0]);
    assert_eq!(a, b);
}

#[test]
fn fine_distances_checked_against_the_vectors() {
    let vectors = [[0i16; 14], [100i16; 14]];
    let flat: Vec<i16> = vectors.iter().flatten().copied().collect();
    let blocks = vec![block_of(&vectors, 0, 2)];
    let index =
        VectorIndex::new(flat, vec![128; 28], vec![0, 1], blocks, offsets_for(&[(0, 1)]), 2);
    // Beyond the bound on the query alone, yet near enough to these vectors.
    let far = [1 << 30; 14];
    assert!(fine_query_fits(&far));
    let farther = [i32::MAX; 14];
    assert!(!fine_query_fits(&farther));
    assert!(!fine_distances_fit(&index, &farther));
    let mut mixed = [0i32; 14];
    for d in 0..4 {
        mixed[d] = i32::MAX;
    }
    assert!(!fine_query_fits(&mixed));
    assert!(fine_distances_fit(&index, &mixed));
}

#[test]
fn scanned_vectors_kept_beside_a_held_one() {
    // The incoming list already holds vector 0; the block holds vectors 0
    // and 1, both at distance 5. Both are offered, and vector 1 is kept.
    let mut z = [0i16; 14];
    z[0] = 2;
    z[1] = 1;
    let mut y = [0i16; 14];
    y[0] = 1;
    y[1] = 2;
    let vectors = [z, y];
    let flat: Vec<i16> = vectors.iter().flatten().copied().collect();
    let blocks = vec![block_of(&vectors, 0, 2)];
    let index =
        VectorIndex::new(flat, vec![128; 28], vec![0, 1], blocks, offsets_for(&[(0, 1)]), 2);
    let query = [0i16; 14];
    let mut ids = [0usize; 6];
    let mut distances = [5u64, u64::MAX, u64::MAX, u64::MAX, u64::MAX, u64::MAX];
    scan_block(&index, &query, &index.blocks[0], &mut ids, &mut distances);
    assert_eq!(ids, [0, 0, 1, 0, 0, 0]);
    assert_eq!(distances, [5, 5, 5, u64::MAX, u64::MAX, u64::MAX]);
}

#[test]
fn empty_block_range_changes_nothing() {
    let (_, index) = sample();
    let mut scratch = SearchScratch::new();
    scratch.blocks.push((1, 1));
    let mut ids = [3usize, 1, 0, 0, 0, 0];
    let mut distances = [2u64, 9, u64::MAX, u64::MAX, u64::MAX, u64::MAX];
    scan_block_range(&index, &[0; 14], 3, 3, &mut ids, &mut distances, &mut scratch);
    assert_eq!(ids, [3, 1, 0, 0, 0, 0]);
    assert_eq!(distances, [2, 9, u64::MAX, u64::MAX, u64::MAX, u64::MAX]);
    assert!(scratch.blocks.is_empty());
}
