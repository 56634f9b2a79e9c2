use vstd::prelude::*;

use crate::buckets::{BUCKET_COUNT, PARTITION_COUNT, VECTOR_BYTES, VECTOR_DIMS};
use crate::index::Block;
use crate::sorting::{SortKey, sort_by_key};
use vstd::slice::{slice_subrange, slice_to_vec};

verus! {

/// The little-endian `u32` stored at `b[i..i + 4]`.
pub open spec fn le_u32_at(b: Seq<u8>, i: int) -> int {
    b[i] + 256 * b[i + 1] + 65536 * b[i + 2] + 16777216 * b[i + 3]
}

/// The little-endian `i16` stored at `b[i..i + 2]`.
pub open spec fn le_i16_at(b: Seq<u8>, i: int) -> int {
    let u = b[i] + 256 * b[i + 1];
    if u >= 32768 {
        u - 65536
    } else {
        u
    }
}

/// The little-endian `u32` at `at`.
fn read_u32_le(bytes: &[u8], at: usize) -> (value: u32)
    requires
        at + 4 <= bytes@.len(),
    ensures
        value == le_u32_at(bytes@, at as int),
{
    bytes[at] as u32 + 256 * (bytes[at + 1] as u32) + 65536 * (bytes[at + 2] as u32) + 16777216 * (
    bytes[at + 3] as u32)
}

/// The little-endian `i16` at `at`.
fn read_i16_le(bytes: &[u8], at: usize) -> (value: i16)
    requires
        at + 2 <= bytes@.len(),
    ensures
        value == le_i16_at(bytes@, at as int),
{
    let u = bytes[at] as u32 + 256 * (bytes[at + 1] as u32);
    if u >= 32768 {
        (u as i32 - 65536) as i16
    } else {
        u as i16
    }
}

/// The fixed-size start of the vector file: the vector count, the bits of
/// the `f32` quantisation scale, and the block count.
pub struct CompactHeader {
    pub count: usize,
    pub scale_bits: u32,
    pub block_count: usize,
}

/// Number of bytes of the header.
pub const HEADER_BYTES: usize = 12;

/// The fields of the 12-byte header.
pub fn parse_header(header: &[u8]) -> (parsed: CompactHeader)
    requires
        header@.len() == HEADER_BYTES,
    ensures
        parsed.count == le_u32_at(header@, 0),
        parsed.scale_bits == le_u32_at(header@, 4),
        parsed.block_count == le_u32_at(header@, 8),
{
    CompactHeader {
        count: read_u32_le(header, 0) as usize,
        scale_bits: read_u32_le(header, 4),
        block_count: read_u32_le(header, 8) as usize,
    }
}

/// Bytes of one block record: start, end, and the 14 minima and maxima.
pub fn block_bytes() -> (n: usize)
    ensures
        n == 64,
{
    2 * 4 + 2 * VECTOR_DIMS * 2
}

/// Size of a vector file with `count` vectors and `block_count` blocks:
/// header, partition offsets, blocks, vectors, residuals and labels.
pub open spec fn compact_file_len(count: int, block_count: int) -> int {
    12 + (PARTITION_COUNT + 1) * 4 + block_count * 64 + count * VECTOR_BYTES + count * VECTOR_DIMS
        + count
}

/// The size a vector file must have, or `None` when it exceeds `usize`.
pub fn expected_file_len(count: usize, block_count: usize) -> (len: Option<usize>)
    ensures
        len == if compact_file_len(count as int, block_count as int) <= usize::MAX {
            Some(compact_file_len(count as int, block_count as int) as usize)
        } else {
            None::<usize>
        },
{
    let partition_offsets_len: usize = (PARTITION_COUNT + 1) * 4;
    let blocks_len = block_count.checked_mul(block_bytes())?;
    let vectors_len = count.checked_mul(VECTOR_BYTES)?;
    let residuals_len = count.checked_mul(VECTOR_DIMS)?;
    let len = 12usize.checked_add(partition_offsets_len)?;
    let len = len.checked_add(blocks_len)?;
    let len = len.checked_add(vectors_len)?;
    let len = len.checked_add(residuals_len)?;
    len.checked_add(count)
}

/// Why the header of a vector file is refused.
#[derive(Debug, PartialEq, Eq)]
pub enum HeaderError {
    /// The file holds no vectors.
    ZeroVectors,
    /// The quantisation scale is not a finite positive number.
    InvalidScale,
    /// The file size implied by the header exceeds `usize`.
    TooLarge,
}

/// Whether the bits of an `f32` encode a finite number above zero: sign bit
/// clear, exponent not all ones, and not zero. Positive subnormals count.
pub open spec fn scale_bits_valid(bits: u32) -> bool {
    0 < bits < 0x7f80_0000
}

/// What the header checks find: the error of the first check that fails,
/// else the size that the whole file must have.
pub open spec fn header_verdict(count: int, scale_bits: u32, block_count: int) -> Result<
    usize,
    HeaderError,
> {
    if count == 0 {
        Err(HeaderError::ZeroVectors)
    } else if !scale_bits_valid(scale_bits) {
        Err(HeaderError::InvalidScale)
    } else if compact_file_len(count, block_count) > usize::MAX {
        Err(HeaderError::TooLarge)
    } else {
        Ok(compact_file_len(count, block_count) as usize)
    }
}

/// Checks the header and gives the size that the whole file must have.
pub fn check_header(header: &CompactHeader) -> (expected: Result<usize, HeaderError>)
    ensures
        expected == header_verdict(header.count as int, header.scale_bits, header.block_count as int),
{
    if header.count == 0 {
        return Err(HeaderError::ZeroVectors);
    }
    if !(0 < header.scale_bits && header.scale_bits < 0x7f80_0000) {
        return Err(HeaderError::InvalidScale);
    }
    match expected_file_len(header.count, header.block_count) {
        Some(len) => Ok(len),
        None => Err(HeaderError::TooLarge),
    }
}

/// The little-endian `i16`s of `bytes`, a trailing odd byte ignored.
pub fn decode_vectors(bytes: &[u8]) -> (vectors: Vec<i16>)
    ensures
        vectors@.len() == bytes@.len() / 2,
        forall|i: int| 0 <= i < vectors@.len() ==> #[trigger] vectors@[i] == le_i16_at(bytes@, 2 * i),
{
    let n = bytes.len();
    let count = n / 2;
    let mut vectors: Vec<i16> = Vec::with_capacity(count);
    let mut i: usize = 0;
    while i < count
        invariant
            n == bytes@.len(),
            count == n / 2,
            i <= count,
            vectors@.len() == i,
            forall|k: int| 0 <= k < i ==> #[trigger] vectors@[k] == le_i16_at(bytes@, 2 * k),
        decreases count - i,
    {
        vectors.push(read_i16_le(bytes, 2 * i));
        i += 1;
    }
    vectors
}

/// The partition offsets stored as little-endian `u32`s in `bytes` (a
/// trailing partial word ignored), provided the first is 0 and the last is
/// `block_count`.
pub fn parse_partition_offsets(bytes: &[u8], block_count: usize) -> (offsets: Option<Vec<u32>>)
    ensures
        match offsets {
            Some(v) => {
                &&& v@.len() == bytes@.len() / 4
                &&& forall|i: int| 0 <= i < v@.len() ==> #[trigger] v@[i] == le_u32_at(bytes@, 4 * i)
                &&& v@.len() > 0
                &&& v@[0] == 0
                &&& v@.last() == block_count as u32
            },
            None => bytes@.len() / 4 == 0 || le_u32_at(bytes@, 0) != 0 || le_u32_at(
                bytes@,
                4 * (bytes@.len() / 4 - 1),
            ) != (block_count as u32),
        },
{
    let n = bytes.len();
    let count = n / 4;
    let mut offsets: Vec<u32> = Vec::with_capacity(count);
    let mut i: usize = 0;
    while i < count
        invariant
            n == bytes@.len(),
            count == n / 4,
            i <= count,
            offsets@.len() == i,
            forall|k: int| 0 <= k < i ==> #[trigger] offsets@[k] == le_u32_at(bytes@, 4 * k),
        decreases count - i,
    {
        offsets.push(read_u32_le(bytes, 4 * i));
        i += 1;
    }
    if count == 0 || offsets[0] != 0 || offsets[count - 1] != #[verifier::truncate] (block_count as u32) {
        return None;
    }
    Some(offsets)
}

/// The `k`-th block record of `bytes` names the vectors `start..end` with
/// `start < end <= vector_count`.
pub open spec fn block_record_valid(bytes: Seq<u8>, k: int, vector_count: int) -> bool {
    le_u32_at(bytes, 64 * k) < le_u32_at(bytes, 64 * k + 4) <= vector_count
}

/// `block` holds the `k`-th block record of `bytes`.
pub open spec fn block_decoded(bytes: Seq<u8>, k: int, block: Block) -> bool {
    &&& block.start == le_u32_at(bytes, 64 * k)
    &&& block.end == le_u32_at(bytes, 64 * k + 4)
    &&& forall|dim: int|
        0 <= dim < 14 ==> #[trigger] block.min@[dim] == le_i16_at(bytes, 64 * k + 8 + 2 * dim)
            && block.max@[dim] == le_i16_at(bytes, 64 * k + 36 + 2 * dim)
}

/// The block records of `bytes` (a trailing partial record ignored), or an
/// error at the first record whose range is empty or reaches past
/// `vector_count`.
pub fn parse_blocks(bytes: &[u8], vector_count: usize) -> (blocks: Result<Vec<Block>, String>)
    ensures
        match blocks {
            Ok(v) => {
                &&& v@.len() == bytes@.len() / 64
                &&& forall|k: int|
                    0 <= k < v@.len() ==> #[trigger] block_decoded(bytes@, k, v@[k])
                        && block_record_valid(bytes@, k, vector_count as int)
            },
            Err(e) => {
                &&& e@ == "vectors.bin has invalid block bounds"@
                &&& exists|k: int|
                    0 <= k < bytes@.len() / 64 && !#[trigger] block_record_valid(
                        bytes@,
                        k,
                        vector_count as int,
                    )
            },
        },
{
    let record = block_bytes();
    let n = bytes.len();
    let count = n / record;
    let mut blocks: Vec<Block> = Vec::with_capacity(count);
    let mut k: usize = 0;
    while k < count
        invariant
            record == 64,
            n == bytes@.len(),
            count == n / 64,
            k <= count,
            blocks@.len() == k,
            forall|j: int|
                0 <= j < k ==> #[trigger] block_decoded(bytes@, j, blocks@[j]) && block_record_valid(
                    bytes@,
                    j,
                    vector_count as int,
                ),
        decreases count - k,
    {
        assert(k * 64 + 64 <= n) by (nonlinear_arith)
            requires
                k < count,
                count == n / 64,
        ;
        let base = k * record;
        let start = read_u32_le(bytes, base);
        let end = read_u32_le(bytes, base + 4);
        if start >= end || end as usize > vector_count {
            proof {
                assert(!block_record_valid(bytes@, k as int, vector_count as int));
            }
            return Err("vectors.bin has invalid block bounds".to_string());
        }
        let mut min = [0i16; 14];
        let mut max = [0i16; 14];
        let mut offset = base + 8;
        let mut dim: usize = 0;
        while dim < VECTOR_DIMS
            invariant
                base + 64 <= n,
                n == bytes@.len(),
                dim <= 14,
                offset == base + 8 + 2 * dim,
                forall|d: int| 0 <= d < dim ==> #[trigger] min@[d] == le_i16_at(bytes@, base + 8 + 2 * d),
            decreases 14 - dim,
        {
            min[dim] = read_i16_le(bytes, offset);
            offset += 2;
            dim += 1;
        }
        let mut dim: usize = 0;
        while dim < VECTOR_DIMS
            invariant
                base + 64 <= n,
                n == bytes@.len(),
                dim <= 14,
                offset == base + 36 + 2 * dim,
                forall|d: int| 0 <= d < dim ==> #[trigger] max@[d] == le_i16_at(bytes@, base + 36 + 2 * d),
            decreases 14 - dim,
        {
            max[dim] = read_i16_le(bytes, offset);
            offset += 2;
            dim += 1;
        }
        blocks.push(Block { start, end, min, max });
        k += 1;
    }
    Ok(blocks)
}

/// How many of `keys` lie below `b`.
pub open spec fn keys_below(keys: Seq<u32>, b: int) -> nat
    decreases keys.len(),
{
    if keys.len() == 0 {
        0
    } else {
        keys_below(keys.drop_last(), b) + if (keys.last() as int) < b {
            1nat
        } else {
            0nat
        }
    }
}

/// How many of `keys` equal `b`.
pub open spec fn keys_equal(keys: Seq<u32>, b: int) -> nat
    decreases keys.len(),
{
    if keys.len() == 0 {
        0
    } else {
        keys_equal(keys.drop_last(), b) + if keys.last() as int == b {
            1nat
        } else {
            0nat
        }
    }
}

proof fn lemma_keys_below_step(keys: Seq<u32>, b: int)
    ensures
        keys_below(keys, b + 1) == keys_below(keys, b) + keys_equal(keys, b),
        keys_below(keys, 0) == 0,
        keys_below(keys, b) <= keys.len(),
    decreases keys.len(),
{
    if keys.len() > 0 {
        lemma_keys_below_step(keys.drop_last(), b);
    }
}

proof fn lemma_keys_equal_bound(keys: Seq<u32>, b: int)
    ensures
        keys_equal(keys, b) <= keys.len(),
    decreases keys.len(),
{
    if keys.len() > 0 {
        lemma_keys_equal_bound(keys.drop_last(), b);
    }
}

/// In keys sorted in non-decreasing order, the keys below `b` come first.
proof fn lemma_sorted_keys_below(keys: Seq<u32>, b: int)
    requires
        forall|i: int, j: int| 0 <= i <= j < keys.len() ==> keys[i] <= keys[j],
    ensures
        forall|i: int| 0 <= i < keys.len() ==> ((#[trigger] keys[i] as int) < b <==> i < keys_below(keys, b)),
    decreases keys.len(),
{
    if keys.len() > 0 {
        let init = keys.drop_last();
        lemma_sorted_keys_below(init, b);
        lemma_keys_below_step(init, b);
        assert forall|i: int| 0 <= i < keys.len() implies ((#[trigger] keys[i] as int) < b <==> i
            < keys_below(keys, b)) by {
            if i < keys.len() - 1 {
                assert(keys[i] == init[i]);
                if keys.last() < b {
                    assert(keys[i] <= keys.last());
                }
            }
        }
    }
}

/// When the keys are sorted, as the vector file's records are, the records
/// of bucket `b` are exactly those at positions `offsets[b]..offsets[b + 1]`.
pub proof fn lemma_bucket_ranges(keys: Seq<u32>, b: int, i: int)
    requires
        forall|i: int, j: int| 0 <= i <= j < keys.len() ==> keys[i] <= keys[j],
        0 <= i < keys.len(),
    ensures
        keys[i] == b <==> keys_below(keys, b) <= i < keys_below(keys, b + 1),
{
    lemma_sorted_keys_below(keys, b);
    lemma_sorted_keys_below(keys, b + 1);
}

/// The offset of each bucket in records sorted by bucket key: entry `b` is
/// the number of keys below `b`, so bucket `b` spans `offsets[b]..offsets[b
/// + 1]`.
pub fn bucket_offsets(keys: &[u32]) -> (offsets: Vec<u32>)
    requires
        keys@.len() <= u32::MAX,
        forall|i: int| 0 <= i < keys@.len() ==> #[trigger] keys@[i] < BUCKET_COUNT,
    ensures
        offsets@.len() == BUCKET_COUNT + 1,
        forall|b: int| 0 <= b <= BUCKET_COUNT ==> #[trigger] offsets@[b] == keys_below(keys@, b),
{
    let mut offsets = vec![0u32; BUCKET_COUNT + 1];
    let mut k: usize = 0;
    while k < keys.len()
        invariant
            keys@.len() <= u32::MAX,
            forall|i: int| 0 <= i < keys@.len() ==> #[trigger] keys@[i] < BUCKET_COUNT,
            k <= keys@.len(),
            offsets@.len() == BUCKET_COUNT + 1,
            offsets@[0] == 0,
            forall|b: int|
                1 <= b <= BUCKET_COUNT ==> #[trigger] offsets@[b] == keys_equal(
                    keys@.take(k as int),
                    b - 1,
                ),
        decreases keys@.len() - k,
    {
        let key = keys[k] as usize;
        proof {
            assert(keys@.take(k + 1).drop_last() =~= keys@.take(k as int));
            lemma_keys_equal_bound(keys@.take(k as int), key as int);
        }
        offsets[key + 1] = offsets[key + 1] + 1;
        k += 1;
    }
    assert(keys@.take(k as int) =~= keys@);
    proof {
        lemma_keys_below_step(keys@, 0);
    }
    let mut i: usize = 1;
    while i < offsets.len()
        invariant
            keys@.len() <= u32::MAX,
            1 <= i <= BUCKET_COUNT + 1,
            offsets@.len() == BUCKET_COUNT + 1,
            forall|b: int| 0 <= b < i ==> #[trigger] offsets@[b] == keys_below(keys@, b),
            forall|b: int|
                i <= b <= BUCKET_COUNT ==> #[trigger] offsets@[b] == keys_equal(keys@, b - 1),
        decreases BUCKET_COUNT + 1 - i,
    {
        proof {
            lemma_keys_below_step(keys@, i - 1);
            lemma_keys_below_step(keys@, i as int);
        }
        offsets[i] = offsets[i] + offsets[i - 1];
        i += 1;
    }
    offsets
}

/// A reference vector as the preprocessor writes it: its bucket key, its
/// label, and its 14 coordinates as little-endian bytes.
pub struct Record {
    pub key: u32,
    pub label: u8,
    pub vector: [u8; 28],
}

/// The keys of `records`, in order.
pub open spec fn record_keys(records: Seq<Record>) -> Seq<u32> {
    records.map_values(|r: Record| r.key)
}

pub open spec fn keys_sorted(records: Seq<Record>) -> bool {
    forall|i: int, j: int| 0 <= i <= j < records.len() ==> records[i].key <= records[j].key
}

/// A record is sorted by its bucket key.
impl SortKey for Record {
    open spec fn key_spec(&self) -> u64 {
        self.key as u64
    }

    fn sort_key(&self) -> (key: u64) {
        self.key as u64
    }
}

/// Sorts the records by bucket key and returns the offset of each bucket
/// in the sorted records.
pub fn bucket_records(records: &mut Vec<Record>) -> (offsets: Vec<u32>)
    requires
        old(records)@.len() <= u32::MAX,
        forall|i: int| 0 <= i < old(records)@.len() ==> #[trigger] old(records)@[i].key < BUCKET_COUNT,
    ensures
        final(records)@.to_multiset() == old(records)@.to_multiset(),
        keys_sorted(final(records)@),
        offsets@.len() == BUCKET_COUNT + 1,
        forall|b: int|
            0 <= b <= BUCKET_COUNT ==> #[trigger] offsets@[b] == keys_below(
                record_keys(final(records)@),
                b,
            ),
{
    let ghost before = records@;
    sort_by_key(records);
    proof {
        broadcast use vstd::seq_lib::group_to_multiset_ensures;

        assert(records@.to_multiset().len() == records@.len());
        assert(before.to_multiset().len() == before.len());
        assert forall|i: int| 0 <= i < records@.len() implies #[trigger] records@[i].key < BUCKET_COUNT by {
            assert(records@.contains(records@[i]));
            assert(records@.to_multiset().count(records@[i]) > 0);
            assert(before.contains(records@[i]));
            let j = choose|j: int| 0 <= j < before.len() && before[j] == records@[i];
            assert(before[j].key < BUCKET_COUNT);
        }
    }
    let mut keys: Vec<u32> = Vec::with_capacity(records.len());
    let mut i: usize = 0;
    while i < records.len()
        invariant
            i <= records@.len(),
            keys@ == record_keys(records@).take(i as int),
        decreases records@.len() - i,
    {
        keys.push(records[i].key);
        i += 1;
        assert(keys@ =~= record_keys(records@).take(i as int));
    }
    assert(keys@ =~= record_keys(records@));
    bucket_offsets(&keys)
}

/// The parts of a vector file.
pub struct VectorFile {
    pub vectors: Vec<i16>,
    pub residuals: Vec<u8>,
    pub labels: Vec<u8>,
    pub blocks: Vec<Block>,
    pub partition_offsets: Vec<u32>,
    pub count: usize,
    pub scale_bits: u32,
}

/// Why a vector file is refused.
#[derive(Debug, PartialEq, Eq)]
pub enum LoadError {
    /// The file is shorter than its header.
    ShortHeader,
    /// The header is refused.
    Header(HeaderError),
    /// The file does not have the size that its header implies.
    Length { actual: usize, expected: usize },
    /// The partition offsets do not start at 0 or do not end at the block
    /// count.
    Offsets,
    /// A block record names an empty range or one past the vectors.
    Blocks,
}

/// Where the block records of a file with `block_count` blocks start.
pub open spec fn blocks_at() -> int {
    12 + (PARTITION_COUNT + 1) * 4
}

/// Where the vectors start.
pub open spec fn vectors_at(block_count: int) -> int {
    blocks_at() + block_count * 64
}

/// Where the residuals start.
pub open spec fn residuals_at(count: int, block_count: int) -> int {
    vectors_at(block_count) + count * VECTOR_BYTES
}

/// Where the labels start.
pub open spec fn labels_at(count: int, block_count: int) -> int {
    residuals_at(count, block_count) + count * VECTOR_DIMS
}

/// `f` holds the parts of the file `b`, whose header gives `count` vectors
/// and `block_count` blocks.
pub open spec fn file_decoded(b: Seq<u8>, count: int, block_count: int, f: VectorFile) -> bool {
    let offsets = b.subrange(12, blocks_at());
    let blocks = b.subrange(blocks_at(), vectors_at(block_count));
    let vectors = b.subrange(vectors_at(block_count), residuals_at(count, block_count));
    &&& f.count == count
    &&& f.scale_bits == le_u32_at(b, 4)
    &&& f.partition_offsets@.len() == PARTITION_COUNT + 1
    &&& forall|i: int|
        0 <= i <= PARTITION_COUNT ==> #[trigger] f.partition_offsets@[i] == le_u32_at(offsets, 4 * i)
    &&& f.blocks@.len() == block_count
    &&& forall|k: int|
        0 <= k < block_count ==> #[trigger] block_decoded(blocks, k, f.blocks@[k])
            && block_record_valid(blocks, k, count)
    &&& f.vectors@.len() == count * VECTOR_DIMS
    &&& forall|i: int|
        0 <= i < count * VECTOR_DIMS ==> #[trigger] f.vectors@[i] == le_i16_at(vectors, 2 * i)
    &&& f.residuals@ == b.subrange(residuals_at(count, block_count), labels_at(count, block_count))
    &&& f.labels@ == b.subrange(labels_at(count, block_count), labels_at(count, block_count) + count)
}

/// What reading the file `b` gives: the first check that fails, in the
/// order header, size, partition offsets, block records; else its parts.
pub open spec fn load_verdict(b: Seq<u8>, loaded: Result<VectorFile, LoadError>) -> bool {
    if b.len() < HEADER_BYTES {
        loaded == Err::<VectorFile, LoadError>(LoadError::ShortHeader)
    } else {
        let count = le_u32_at(b, 0);
        let block_count = le_u32_at(b, 8);
        match header_verdict(count, le_u32_at(b, 4) as u32, block_count) {
            Err(e) => loaded == Err::<VectorFile, LoadError>(LoadError::Header(e)),
            Ok(len) => if b.len() != len {
                loaded == Err::<VectorFile, LoadError>(
                    LoadError::Length { actual: b.len() as usize, expected: len },
                )
            } else {
                let offsets = b.subrange(12, blocks_at());
                let blocks = b.subrange(blocks_at(), vectors_at(block_count));
                if le_u32_at(offsets, 0) != 0 || le_u32_at(offsets, 4 * PARTITION_COUNT) != block_count {
                    loaded == Err::<VectorFile, LoadError>(LoadError::Offsets)
                } else if exists|k: int|
                    0 <= k < block_count && !#[trigger] block_record_valid(blocks, k, count) {
                    loaded == Err::<VectorFile, LoadError>(LoadError::Blocks)
                } else {
                    loaded is Ok && file_decoded(b, count, block_count, loaded->Ok_0)
                }
            },
        }
    }
}

/// The 64 bytes of `b` at `at` hold `block`: its start and end as
/// little-endian `u32`s, then its 14 minima and its 14 maxima as
/// little-endian `i16`s.
pub open spec fn block_stored_at(b: Seq<u8>, at: int, block: Block) -> bool {
    &&& block.start == le_u32_at(b, at)
    &&& block.end == le_u32_at(b, at + 4)
    &&& forall|dim: int|
        0 <= dim < 14 ==> #[trigger] block.min@[dim] == le_i16_at(b, at + 8 + 2 * dim)
            && block.max@[dim] == le_i16_at(b, at + 36 + 2 * dim)
}

/// A block record read from the block section of `b` is stored in `b`
/// at the matching place.
proof fn lemma_block_in_file(b: Seq<u8>, s0: int, n: int, k: int, blk: Block)
    requires
        0 <= s0,
        0 <= k < n,
        s0 + 64 * n <= b.len(),
        block_decoded(b.subrange(s0, s0 + 64 * n), k, blk),
    ensures
        block_stored_at(b, s0 + 64 * k, blk),
{
    let bs = b.subrange(s0, s0 + 64 * n);
    let at = s0 + 64 * k;
    assert forall|dim: int| 0 <= dim < 14 implies #[trigger] blk.min@[dim] == le_i16_at(b, at + 8 + 2 * dim)
        && blk.max@[dim] == le_i16_at(b, at + 36 + 2 * dim) by {
        assert(blk.min@[dim] == le_i16_at(bs, 64 * k + 8 + 2 * dim));
        assert(blk.max@[dim] == le_i16_at(bs, 64 * k + 36 + 2 * dim));
        assert(bs[64 * k + 8 + 2 * dim] == b[at + 8 + 2 * dim]);
        assert(bs[64 * k + 9 + 2 * dim] == b[at + 9 + 2 * dim]);
        assert(bs[64 * k + 36 + 2 * dim] == b[at + 36 + 2 * dim]);
        assert(bs[64 * k + 37 + 2 * dim] == b[at + 37 + 2 * dim]);
    }
    assert(bs[64 * k] == b[at] && bs[64 * k + 1] == b[at + 1] && bs[64 * k + 2] == b[at + 2] && bs[64
        * k + 3] == b[at + 3]);
    assert(bs[64 * k + 4] == b[at + 4] && bs[64 * k + 5] == b[at + 5] && bs[64 * k + 6] == b[at + 6]
        && bs[64 * k + 7] == b[at + 7]);
}

/// A file that loads ends with its sections in order, counted back from its
/// end: the labels are its last `count` bytes, the residuals the
/// `count * 14` bytes before them, and the vectors the `count * 28` bytes
/// before those; the partition offsets follow the 12-byte header.
pub proof fn lemma_loaded_sections(b: Seq<u8>, f: VectorFile)
    requires
        load_verdict(b, Ok(f)),
    ensures
        f.count > 0,
        f.labels@.len() == f.count,
        f.labels@ == b.subrange(b.len() - f.count, b.len() as int),
        f.residuals@.len() == f.count * 14,
        f.residuals@ == b.subrange(b.len() - 15 * f.count, b.len() - f.count),
        f.vectors@.len() == f.count * 14,
        forall|i: int|
            0 <= i < f.count * 14 ==> #[trigger] f.vectors@[i] == le_i16_at(
                b,
                b.len() - 43 * f.count + 2 * i,
            ),
        forall|i: int| 0 <= i <= PARTITION_COUNT ==> #[trigger] f.partition_offsets@[i] == le_u32_at(b, 12 + 4 * i),
        f.count == le_u32_at(b, 0),
        f.scale_bits == le_u32_at(b, 4),
        b.len() == 12 + 4 * (PARTITION_COUNT + 1) + 64 * f.blocks@.len() + 43 * f.count,
        f.blocks@.len() == le_u32_at(b, 8),
        forall|k: int|
            #![trigger f.blocks@[k]]
            0 <= k < f.blocks@.len() ==> block_stored_at(
                b,
                b.len() - 43 * f.count - 64 * f.blocks@.len() + 64 * k,
                f.blocks@[k],
            ) && f.blocks@[k].start < f.blocks@[k].end <= f.count,
{
    let count = le_u32_at(b, 0);
    let block_count = le_u32_at(b, 8);
    assert(b.len() >= HEADER_BYTES);
    assert(header_verdict(count, le_u32_at(b, 4) as u32, block_count) is Ok);
    assert(compact_file_len(count, block_count) <= usize::MAX);
    assert(b.len() == compact_file_len(count, block_count));
    assert(file_decoded(b, count, block_count, f));
    let vs = b.subrange(vectors_at(block_count), residuals_at(count, block_count));
    assert(0 <= block_count && 0 <= count);
    assert(vectors_at(block_count) == b.len() - 43 * count);
    assert(residuals_at(count, block_count) == b.len() - 15 * count);
    assert(labels_at(count, block_count) == b.len() - count);
    assert(vs.len() == 28 * count);
    assert forall|i: int| 0 <= i < f.count * 14 implies #[trigger] f.vectors@[i] == le_i16_at(
        b,
        b.len() - 43 * f.count + 2 * i,
    ) by {
        assert(vs[2 * i] == b[vectors_at(block_count) + 2 * i]);
        assert(vs[2 * i + 1] == b[vectors_at(block_count) + 2 * i + 1]);
    }
    let bs = b.subrange(blocks_at(), vectors_at(block_count));
    assert forall|k: int| #![trigger f.blocks@[k]] 0 <= k < f.blocks@.len() implies block_stored_at(
        b,
        b.len() - 43 * f.count - 64 * f.blocks@.len() + 64 * k,
        f.blocks@[k],
    ) && f.blocks@[k].start < f.blocks@[k].end <= f.count by {
        assert(block_decoded(bs, k, f.blocks@[k]) && block_record_valid(bs, k, count));
        lemma_block_in_file(b, blocks_at(), block_count, k, f.blocks@[k]);
    }
    let os = b.subrange(12, blocks_at());
    assert forall|i: int| 0 <= i <= PARTITION_COUNT implies #[trigger] f.partition_offsets@[i] == le_u32_at(
        b,
        12 + 4 * i,
    ) by {
        assert(os[4 * i] == b[12 + 4 * i]);
        assert(os[4 * i + 1] == b[12 + 4 * i + 1]);
        assert(os[4 * i + 2] == b[12 + 4 * i + 2]);
        assert(os[4 * i + 3] == b[12 + 4 * i + 3]);
    }
}

/// Reads a whole vector file: checks its header, its size, its partition
/// offsets and its block records, in that order, and decodes its parts.
#[verifier::rlimit(40)]
pub fn load_vector_file(bytes: &[u8]) -> (loaded: Result<VectorFile, LoadError>)
    ensures
        load_verdict(bytes@, loaded),
{
    let ghost b = bytes@;
    if bytes.len() < HEADER_BYTES {
        return Err(LoadError::ShortHeader);
    }
    let header_bytes = slice_subrange(bytes, 0, HEADER_BYTES);
    let header = parse_header(header_bytes);
    assert(le_u32_at(header_bytes@, 0) == le_u32_at(b, 0));
    assert(le_u32_at(header_bytes@, 4) == le_u32_at(b, 4));
    assert(le_u32_at(header_bytes@, 8) == le_u32_at(b, 8));
    let expected = match check_header(&header) {
        Ok(len) => len,
        Err(e) => {
            return Err(LoadError::Header(e));
        },
    };
    if bytes.len() != expected {
        return Err(LoadError::Length { actual: bytes.len(), expected });
    }
    let count = header.count;
    let block_count = header.block_count;
    let blocks_start: usize = 12 + (PARTITION_COUNT + 1) * 4;
    let vectors_start = blocks_start + block_count * 64;
    let residuals_start = vectors_start + count * VECTOR_BYTES;
    let labels_start = residuals_start + count * VECTOR_DIMS;
    let offset_bytes = slice_subrange(bytes, 12, blocks_start);
    let partition_offsets = match parse_partition_offsets(offset_bytes, block_count) {
        Some(v) => v,
        None => {
            return Err(LoadError::Offsets);
        },
    };
    let block_bytes = slice_subrange(bytes, blocks_start, vectors_start);
    assert(offset_bytes@ == b.subrange(12, blocks_at()));
    assert(block_bytes@ == b.subrange(blocks_at(), vectors_at(block_count as int)));
    assert(block_bytes@.len() / 64 == block_count) by (nonlinear_arith)
        requires
            block_bytes@.len() == block_count * 64,
    ;
    let blocks = match parse_blocks(block_bytes, count) {
        Ok(v) => v,
        Err(_) => {
            return Err(LoadError::Blocks);
        },
    };
    let vector_bytes = slice_subrange(bytes, vectors_start, residuals_start);
    let vectors = decode_vectors(vector_bytes);
    let residuals = slice_to_vec(slice_subrange(bytes, residuals_start, labels_start));
    let labels = slice_to_vec(slice_subrange(bytes, labels_start, labels_start + count));
    let file = VectorFile {
        vectors,
        residuals,
        labels,
        blocks,
        partition_offsets,
        count,
        scale_bits: header.scale_bits,
    };
    proof {
        assert(le_u32_at(offset_bytes@, 0) == 0);
        assert(vector_bytes@ == b.subrange(vectors_at(block_count as int), residuals_at(count as int, block_count as int)));
        assert(vector_bytes@.len() / 2 == count * VECTOR_DIMS);
        assert(offset_bytes@.len() / 4 == PARTITION_COUNT + 1);
        assert(file_decoded(b, count as int, block_count as int, file));
        assert(file.partition_offsets@[PARTITION_COUNT as int] == le_u32_at(
            offset_bytes@,
            4 * PARTITION_COUNT,
        ));
        assert(le_u32_at(offset_bytes@, 4 * PARTITION_COUNT) == block_count);
        let blk = b.subrange(blocks_at(), vectors_at(block_count as int));
        assert forall|k: int| 0 <= k < block_count implies #[trigger] block_record_valid(blk, k, count as int) by {
            assert(block_decoded(block_bytes@, k, file.blocks@[k]));
        }
    }
    Ok(file)
}

/// A word read within a prefix reads the same in the whole.
proof fn lemma_le_u32_prefix(a: Seq<u8>, b: Seq<u8>, i: int)
    requires
        0 <= i,
        i + 4 <= a.len(),
        a.len() <= b.len(),
        b.subrange(0, a.len() as int) == a,
    ensures
        le_u32_at(b, i) == le_u32_at(a, i),
{
    assert(b[i] == a[i] && b[i + 1] == a[i + 1] && b[i + 2] == a[i + 2] && b[i + 3] == a[i + 3]) by {
        assert(b.subrange(0, a.len() as int)[i] == b[i]);
        assert(b.subrange(0, a.len() as int)[i + 1] == b[i + 1]);
        assert(b.subrange(0, a.len() as int)[i + 2] == b[i + 2]);
        assert(b.subrange(0, a.len() as int)[i + 3] == b[i + 3]);
    }
}

/// Appends the four little-endian bytes of `value`.
fn push_u32_le(out: &mut Vec<u8>, value: u32)
    ensures
        final(out)@.len() == old(out)@.len() + 4,
        final(out)@.subrange(0, old(out)@.len() as int) == old(out)@,
        le_u32_at(final(out)@, old(out)@.len() as int) == value,
{
    let b0 = (value & 0xff) as u8;
    let b1 = ((value >> 8) & 0xff) as u8;
    let b2 = ((value >> 16) & 0xff) as u8;
    let b3 = ((value >> 24) & 0xff) as u8;
    assert((value & 0xff) + 256 * ((value >> 8) & 0xff) + 65536 * ((value >> 16) & 0xff) + 16777216 * (
    (value >> 24) & 0xff) == value) by (bit_vector);
    assert((value & 0xff) < 256 && ((value >> 8) & 0xff) < 256 && ((value >> 16) & 0xff) < 256 && ((
    value >> 24) & 0xff) < 256) by (bit_vector);
    let ghost before = out@;
    out.push(b0);
    out.push(b1);
    out.push(b2);
    out.push(b3);
    assert(out@.subrange(0, before.len() as int) =~= before);
}

/// The bytes of the vector file that the preprocessor writes: the header
/// (record count, scale bits, `BUCKET_COUNT`), the offsets, the vector bytes
/// of each record, and the label of each record.
pub fn encode_vector_file(records: &[Record], offsets: &[u32], scale_bits: u32) -> (bytes: Vec<u8>)
    requires
        records@.len() <= u32::MAX,
    ensures
        bytes@.len() == 12 + 4 * offsets@.len() + 28 * records@.len() + records@.len(),
        le_u32_at(bytes@, 0) == records@.len(),
        le_u32_at(bytes@, 4) == scale_bits,
        le_u32_at(bytes@, 8) == BUCKET_COUNT,
        forall|i: int| 0 <= i < offsets@.len() ==> #[trigger] le_u32_at(bytes@, 12 + 4 * i) == offsets@[i],
        forall|r: int, k: int|
            0 <= r < records@.len() && 0 <= k < 28 ==> #[trigger] bytes@[12 + 4 * offsets@.len() + 28 * r + k]
                == records@[r].vector@[k],
        forall|r: int|
            0 <= r < records@.len() ==> #[trigger] bytes@[12 + 4 * offsets@.len() + 28 * records@.len() + r]
                == records@[r].label,
{
    let n = records.len();
    let mut out: Vec<u8> = Vec::new();
    push_u32_le(&mut out, n as u32);
    push_u32_le(&mut out, scale_bits);
    push_u32_le(&mut out, BUCKET_COUNT as u32);
    let ghost header = out@;
    assert(le_u32_at(out@, 0) == n) by {
        assert(out@.subrange(0, 4)[0] == out@[0]);
    }
    let mut i: usize = 0;
    while i < offsets.len()
        invariant
            i <= offsets@.len(),
            out@.len() == 12 + 4 * i,
            le_u32_at(out@, 0) == n,
            le_u32_at(out@, 4) == scale_bits,
            le_u32_at(out@, 8) == BUCKET_COUNT,
            forall|k: int| 0 <= k < i ==> #[trigger] le_u32_at(out@, 12 + 4 * k) == offsets@[k],
        decreases offsets@.len() - i,
    {
        let ghost before = out@;
        push_u32_le(&mut out, offsets[i]);
        proof {
            lemma_le_u32_prefix(before, out@, 0);
            lemma_le_u32_prefix(before, out@, 4);
            lemma_le_u32_prefix(before, out@, 8);
            assert forall|k: int| 0 <= k < i implies #[trigger] le_u32_at(out@, 12 + 4 * k) == offsets@[k] by {
                lemma_le_u32_prefix(before, out@, 12 + 4 * k);
            }
        }
        i += 1;
    }
    let base = out.len();
    let mut r: usize = 0;
    while r < n
        invariant
            r <= n,
            n == records@.len(),
            base == 12 + 4 * offsets@.len(),
            out@.len() == base + 28 * r,
            le_u32_at(out@, 0) == n,
            le_u32_at(out@, 4) == scale_bits,
            le_u32_at(out@, 8) == BUCKET_COUNT,
            forall|k: int| 0 <= k < offsets@.len() ==> #[trigger] le_u32_at(out@, 12 + 4 * k) == offsets@[k],
            forall|q: int, k: int|
                0 <= q < r && 0 <= k < 28 ==> #[trigger] out@[base + 28 * q + k] == records@[q].vector@[k],
        decreases n - r,
    {
        let mut k: usize = 0;
        while k < 28
            invariant
                k <= 28,
                r < n,
                n == records@.len(),
                base == 12 + 4 * offsets@.len(),
                out@.len() == base + 28 * r + k,
                le_u32_at(out@, 0) == n,
                le_u32_at(out@, 4) == scale_bits,
                le_u32_at(out@, 8) == BUCKET_COUNT,
                forall|j: int| 0 <= j < offsets@.len() ==> #[trigger] le_u32_at(out@, 12 + 4 * j) == offsets@[j],
                forall|q: int, j: int|
                    0 <= q < r && 0 <= j < 28 ==> #[trigger] out@[base + 28 * q + j] == records@[q].vector@[j],
                forall|j: int| 0 <= j < k ==> #[trigger] out@[base + 28 * r + j] == records@[r as int].vector@[j],
            decreases 28 - k,
        {
            let ghost before = out@;
            out.push(records[r].vector[k]);
            proof {
                assert(out@.subrange(0, before.len() as int) =~= before);
                lemma_le_u32_prefix(before, out@, 0);
                lemma_le_u32_prefix(before, out@, 4);
                lemma_le_u32_prefix(before, out@, 8);
                assert forall|j: int| 0 <= j < offsets@.len() implies #[trigger] le_u32_at(out@, 12 + 4 * j)
                    == offsets@[j] by {
                    lemma_le_u32_prefix(before, out@, 12 + 4 * j);
                }
            }
            k += 1;
        }
        r += 1;
    }
    let labels_base = out.len();
    let mut r: usize = 0;
    while r < n
        invariant
            r <= n,
            n == records@.len(),
            base == 12 + 4 * offsets@.len(),
            labels_base == base + 28 * n,
            out@.len() == labels_base + r,
            le_u32_at(out@, 0) == n,
            le_u32_at(out@, 4) == scale_bits,
            le_u32_at(out@, 8) == BUCKET_COUNT,
            forall|k: int| 0 <= k < offsets@.len() ==> #[trigger] le_u32_at(out@, 12 + 4 * k) == offsets@[k],
            forall|q: int, k: int|
                0 <= q < n && 0 <= k < 28 ==> #[trigger] out@[base + 28 * q + k] == records@[q].vector@[k],
            forall|q: int| 0 <= q < r ==> #[trigger] out@[labels_base + q] == records@[q].label,
        decreases n - r,
    {
        let ghost before = out@;
        out.push(records[r].label);
        proof {
            assert(out@.subrange(0, before.len() as int) =~= before);
            lemma_le_u32_prefix(before, out@, 0);
            lemma_le_u32_prefix(before, out@, 4);
            lemma_le_u32_prefix(before, out@, 8);
            assert forall|j: int| 0 <= j < offsets@.len() implies #[trigger] le_u32_at(out@, 12 + 4 * j)
                == offsets@[j] by {
                lemma_le_u32_prefix(before, out@, 12 + 4 * j);
            }
        }
        r += 1;
    }
    out
}

} // verus!
