use rbe26::buckets::{BUCKET_COUNT, PARTITION_COUNT};
use rbe26::compact::{
    HEADER_BYTES, HeaderError, LoadError, Record, block_bytes, bucket_offsets, bucket_records,
    check_header, decode_vectors, encode_vector_file, expected_file_len, load_vector_file,
    parse_blocks,
    parse_header, parse_partition_offsets,
};

fn block_record(start: u32, end: u32, min: [i16; 14], max: [i16; 14]) -> Vec<u8> {
    let mut bytes = Vec::new();
    bytes.extend_from_slice(&start.to_le_bytes());
    bytes.extend_from_slice(&end.to_le_bytes());
    for v in min {
        bytes.extend_from_slice(&v.to_le_bytes());
    }
    for v in max {
        bytes.extend_from_slice(&v.to_le_bytes());
    }
    bytes
}

#[test]
fn header_fields_are_little_endian() {
    let mut header = Vec::new();
    header.extend_from_slice(&1000u32.to_le_bytes());
    header.extend_from_slice(&32767.0f32.to_le_bytes());
    header.extend_from_slice(&77u32.to_le_bytes());
    assert_eq!(header.len(), HEADER_BYTES);
    let h = parse_header(&header);
    assert_eq!(h.count, 1000);
    assert_eq!(f32::from_bits(h.scale_bits), 32767.0);
    assert_eq!(h.block_count, 77);
}

#[test]
fn block_record_size() {
    assert_eq!(block_bytes(), 2 * std::mem::size_of::<u32>() + 2 * 14 * std::mem::size_of::<i16>());
}

#[test]
fn expected_file_len_adds_sections() {
    let count = 10usize;
    let blocks = 3usize;
    let expected = 12 + (PARTITION_COUNT + 1) * 4 + blocks * 64 + count * 28 + count * 14 + count;
    assert_eq!(expected_file_len(count, blocks), Some(expected));
    assert_eq!(expected_file_len(usize::MAX, 0), None);
    assert_eq!(expected_file_len(0, usize::MAX / 2), None);
}

#[test]
fn decode_vectors_reads_i16_pairs() {
    let mut bytes = Vec::new();
    for v in [0i16, 1, -1, i16::MAX, i16::MIN, 300] {
        bytes.extend_from_slice(&v.to_le_bytes());
    }
    bytes.push(9);
    assert_eq!(decode_vectors(&bytes), vec![0, 1, -1, i16::MAX, i16::MIN, 300]);
}

#[test]
fn partition_offsets_checked_at_both_ends() {
    let encode = |v: &[u32]| v.iter().flat_map(|x| x.to_le_bytes()).collect::<Vec<u8>>();
    assert_eq!(parse_partition_offsets(&encode(&[0, 2, 2, 5]), 5), Some(vec![0, 2, 2, 5]));
    assert_eq!(parse_partition_offsets(&encode(&[1, 2, 5]), 5), None);
    assert_eq!(parse_partition_offsets(&encode(&[0, 2, 4]), 5), None);
    assert_eq!(parse_partition_offsets(&[], 0), None);
}

#[test]
fn parse_blocks_decodes_records() {
    let mut min = [0i16; 14];
    let mut max = [0i16; 14];
    for d in 0..14 {
        min[d] = -(d as i16) * 100;
        max[d] = d as i16 * 100 + 7;
    }
    let mut bytes = block_record(0, 3, min, max);
    bytes.extend(block_record(3, 4, max, max));
    bytes.extend_from_slice(&[1, 2, 3]);
    let blocks = parse_blocks(&bytes, 4).unwrap();
    assert_eq!(blocks.len(), 2);
    assert_eq!((blocks[0].start, blocks[0].end), (0, 3));
    assert_eq!(blocks[0].min, min);
    assert_eq!(blocks[0].max, max);
    assert_eq!((blocks[1].start, blocks[1].end), (3, 4));
    assert_eq!(blocks[1].min, max);
}

#[test]
fn parse_blocks_rejects_bad_bounds() {
    let z = [0i16; 14];
    let message = "vectors.bin has invalid block bounds";
    assert_eq!(parse_blocks(&block_record(2, 2, z, z), 4).err().unwrap(), message);
    assert_eq!(parse_blocks(&block_record(3, 2, z, z), 4).err().unwrap(), message);
    assert_eq!(parse_blocks(&block_record(0, 5, z, z), 4).err().unwrap(), message);
    let mut bytes = block_record(0, 1, z, z);
    bytes.extend(block_record(1, 9, z, z));
    assert_eq!(parse_blocks(&bytes, 4).err().unwrap(), message);
}

#[test]
fn bucket_offsets_count_keys_below() {
    let keys = [3u32, 0, 3, 7, 3];
    let offsets = bucket_offsets(&keys);
    assert_eq!(offsets.len(), BUCKET_COUNT + 1);
    assert_eq!(&offsets[0..9], &[0, 1, 1, 1, 4, 4, 4, 4, 5]);
    assert_eq!(offsets[BUCKET_COUNT], 5);
}

fn header(count: u32, scale_bits: u32, block_count: u32) -> rbe26::compact::CompactHeader {
    let mut bytes = Vec::new();
    bytes.extend_from_slice(&count.to_le_bytes());
    bytes.extend_from_slice(&scale_bits.to_le_bytes());
    bytes.extend_from_slice(&block_count.to_le_bytes());
    parse_header(&bytes)
}

#[test]
fn check_header_errors() {
    let scale = 32767.0f32.to_bits();
    assert_eq!(check_header(&header(0, scale, 1)), Err(HeaderError::ZeroVectors));
    assert_eq!(check_header(&header(5, 0.0f32.to_bits(), 1)), Err(HeaderError::InvalidScale));
    assert_eq!(check_header(&header(5, (-0.0f32).to_bits(), 1)), Err(HeaderError::InvalidScale));
    assert_eq!(check_header(&header(5, (-1.0f32).to_bits(), 1)), Err(HeaderError::InvalidScale));
    assert_eq!(check_header(&header(5, f32::INFINITY.to_bits(), 1)), Err(HeaderError::InvalidScale));
    assert_eq!(check_header(&header(5, f32::NAN.to_bits(), 1)), Err(HeaderError::InvalidScale));
    assert_eq!(check_header(&header(5, scale, 2)), Ok(expected_file_len(5, 2).unwrap()));
    assert_eq!(check_header(&header(5, f32::MIN_POSITIVE.to_bits() - 1, 2)), Ok(expected_file_len(5, 2).unwrap()));
    assert_eq!(check_header(&header(5, f32::MAX.to_bits(), 2)), Ok(expected_file_len(5, 2).unwrap()));
}

#[test]
fn scale_bits_match_finite_positive_floats() {
    for bits in [0u32, 1, 0x0080_0000, 0x3f80_0000, 0x7f7f_ffff, 0x7f80_0000, 0x7fc0_0000, 0x8000_0000, 0xbf80_0000, 0xffff_ffff] {
        let scale = f32::from_bits(bits) as f64;
        let valid = scale.is_finite() && scale > 0.0;
        assert_eq!(check_header(&header(1, bits, 0)) != Err(HeaderError::InvalidScale), valid, "{bits:#x}");
    }
}

#[test]
fn sorted_records_of_a_bucket_lie_between_its_offsets() {
    let keys = [0u32, 2, 2, 2, 5, 9, 9];
    let offsets = bucket_offsets(&keys);
    for b in 0..12usize {
        let positions: Vec<usize> = (0..keys.len()).filter(|&i| keys[i] as usize == b).collect();
        let range: Vec<usize> = (offsets[b] as usize..offsets[b + 1] as usize).collect();
        assert_eq!(positions, range, "bucket {b}");
    }
}

#[test]
fn check_header_too_large() {
    let h = rbe26::compact::CompactHeader {
        count: usize::MAX / 2,
        scale_bits: 1.0f32.to_bits(),
        block_count: 1,
    };
    assert_eq!(check_header(&h), Err(HeaderError::TooLarge));
}

#[test]
fn records_sorted_into_buckets() {
    let record = |key: u32, label: u8| Record { key, label, vector: [key as u8; 28] };
    let mut records = vec![record(5, 1), record(1, 0), record(5, 1), record(0, 0)];
    let offsets = bucket_records(&mut records);
    let keys: Vec<u32> = records.iter().map(|r| r.key).collect();
    assert_eq!(keys, vec![0, 1, 5, 5]);
    assert!(records.iter().all(|r| r.vector == [r.key as u8; 28]));
    assert_eq!(records.iter().map(|r| r.label).collect::<Vec<_>>(), vec![0, 0, 1, 1]);
    assert_eq!(offsets.len(), BUCKET_COUNT + 1);
    assert_eq!(&offsets[..7], &[0, 1, 2, 2, 2, 2, 4]);
    assert_eq!(offsets[BUCKET_COUNT], 4);
}

/// A vector file with one vector in one block of partition 0.
fn one_vector_file() -> Vec<u8> {
    let mut bytes = Vec::new();
    bytes.extend_from_slice(&1u32.to_le_bytes());
    bytes.extend_from_slice(&1.0f32.to_bits().to_le_bytes());
    bytes.extend_from_slice(&1u32.to_le_bytes());
    bytes.extend_from_slice(&0u32.to_le_bytes());
    for _ in 0..PARTITION_COUNT {
        bytes.extend_from_slice(&1u32.to_le_bytes());
    }
    bytes.extend(block_record(0, 1, [-3; 14], [7; 14]));
    for d in 0..14i16 {
        bytes.extend_from_slice(&(d - 5).to_le_bytes());
    }
    bytes.extend_from_slice(&[9u8; 14]);
    bytes.push(1);
    bytes
}

#[test]
fn vector_file_loads_its_parts() {
    let bytes = one_vector_file();
    assert_eq!(bytes.len(), expected_file_len(1, 1).unwrap());
    let file = load_vector_file(&bytes).ok().unwrap();
    assert_eq!(file.count, 1);
    assert_eq!(file.scale_bits, 1.0f32.to_bits());
    assert_eq!(file.partition_offsets.len(), PARTITION_COUNT + 1);
    assert_eq!(file.partition_offsets[0], 0);
    assert_eq!(file.partition_offsets[PARTITION_COUNT], 1);
    assert_eq!(file.blocks.len(), 1);
    assert_eq!((file.blocks[0].start, file.blocks[0].end), (0, 1));
    assert_eq!(file.blocks[0].min, [-3; 14]);
    assert_eq!(file.vectors, (0..14).map(|d| d - 5).collect::<Vec<i16>>());
    assert_eq!(file.residuals, vec![9u8; 14]);
    assert_eq!(file.labels, vec![1u8]);
}

#[test]
fn vector_file_refusals_in_order() {
    assert_eq!(load_vector_file(&[0u8; 11]).err(), Some(LoadError::ShortHeader));
    let mut zero = one_vector_file();
    zero[0] = 0;
    assert_eq!(load_vector_file(&zero).err(), Some(LoadError::Header(HeaderError::ZeroVectors)));
    let mut short = one_vector_file();
    short.pop();
    let expected = expected_file_len(1, 1).unwrap();
    assert_eq!(
        load_vector_file(&short).err(),
        Some(LoadError::Length { actual: expected - 1, expected })
    );
    let mut offsets = one_vector_file();
    offsets[12] = 1;
    assert_eq!(load_vector_file(&offsets).err(), Some(LoadError::Offsets));
    let mut blocks = one_vector_file();
    let at = 12 + (PARTITION_COUNT + 1) * 4 + 4;
    blocks[at] = 2;
    assert_eq!(load_vector_file(&blocks).err(), Some(LoadError::Blocks));
}

#[test]
fn encoded_vector_file_reads_back() {
    let records = vec![
        Record { key: 0, label: 1, vector: [3; 28] },
        Record { key: 1, label: 0, vector: [250; 28] },
    ];
    let offsets = vec![0u32, 1, 2];
    let bytes = encode_vector_file(&records, &offsets, 0x4700_0000);
    assert_eq!(bytes.len(), 12 + 12 + 56 + 2);
    let header = parse_header(&bytes[..HEADER_BYTES]);
    assert_eq!((header.count, header.scale_bits, header.block_count), (2, 0x4700_0000, BUCKET_COUNT));
    assert_eq!(parse_partition_offsets(&bytes[12..24], 2), Some(vec![0, 1, 2]));
    let vectors = decode_vectors(&bytes[24..80]);
    assert_eq!(&vectors[..14], &[0x0303i16; 14]);
    assert_eq!(&vectors[14..], &[-1286i16; 14]);
    assert_eq!(&bytes[80..], &[1, 0]);
}
