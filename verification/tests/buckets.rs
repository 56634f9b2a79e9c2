use rbe26::buckets::{
    BUCKET_COUNT, PARTITION_COUNT, VECTOR_BYTES, VECTOR_DIMS, bin01, bin_bool, bucket_key,
    bucket_key_from_quantized, decode_bucket_key,
};

#[test]
fn constants_are_consistent() {
    assert_eq!(VECTOR_BYTES, VECTOR_DIMS * std::mem::size_of::<i16>());
    assert_eq!(BUCKET_COUNT, 16 * 16 * 8 * 16 * 8 * 4 * 2 * 2 * 2 * 2);
    assert_eq!(PARTITION_COUNT, BUCKET_COUNT);
}

#[test]
fn bucket_key_is_mixed_radix() {
    assert_eq!(bucket_key(0, 0, 0, 0, 0, 0, 0, 0, 0, 0), 0);
    assert_eq!(bucket_key(0, 0, 0, 0, 0, 0, 0, 0, 0, 1), 1);
    assert_eq!(bucket_key(0, 0, 0, 0, 0, 0, 1, 0, 0, 0), 8);
    assert_eq!(bucket_key(1, 0, 0, 0, 0, 0, 0, 0, 0, 0), 1_048_576);
    assert_eq!(bucket_key(15, 15, 7, 15, 7, 3, 1, 1, 1, 1), BUCKET_COUNT - 1);
    assert_eq!(bucket_key(3, 5, 2, 9, 4, 1, 1, 0, 1, 0), 3 * 1_048_576 + 5 * 65_536 + 2 * 8192 + 9 * 512 + 4 * 64 + 16 + 8 + 2);
}

#[test]
fn decode_inverts_encode() {
    let key = bucket_key(3, 5, 2, 9, 4, 1, 1, 0, 1, 0);
    assert_eq!(decode_bucket_key(key), [3, 5, 2, 9, 4, 1, 1, 0, 1, 0]);
    assert_eq!(decode_bucket_key(0), [0; 10]);
    assert_eq!(decode_bucket_key(BUCKET_COUNT - 1), [15, 15, 7, 15, 7, 3, 1, 1, 1, 1]);
}

#[test]
fn encode_inverts_decode() {
    for key in [0usize, 1, 7, 8, 12345, 999_999, BUCKET_COUNT - 1, BUCKET_COUNT, 40_000_000] {
        let c = decode_bucket_key(key);
        assert_eq!(bucket_key(c[0], c[1], c[2], c[3], c[4], c[5], c[6], c[7], c[8], c[9]), key);
    }
}

#[test]
fn quantized_key_bins() {
    let mut v = [0i16; 14];
    v[5] = -1;
    assert_eq!(bucket_key_from_quantized(&v), 0);
    v[5] = 0;
    assert_eq!(bucket_key_from_quantized(&v), 8);

    let top = [i16::MAX; 14];
    assert_eq!(bucket_key_from_quantized(&top), BUCKET_COUNT - 1);
    let bottom = [i16::MIN; 14];
    assert_eq!(bucket_key_from_quantized(&bottom), 0);

    // Half scale puts an 16-bin coordinate in bin 8; the bool bins need
    // more than half.
    let mut half = [0i16; 14];
    half[0] = 16384;
    half[5] = -1;
    half[9] = 16384;
    half[10] = 16385;
    assert_eq!(bucket_key_from_quantized(&half), bucket_key(8, 0, 0, 0, 0, 0, 0, 0, 1, 0));
}

#[test]
fn quantized_key_reads_each_coordinate() {
    let v: [i16; 14] = [4096, 100, 8192, 20000, 0, 5, 0, 30000, 32767, 20000, 0, 16385, 12000, 0];
    let expected = bucket_key(
        4096 * 16 / 32768,
        8192 * 16 / 32768,
        20000 * 8 / 32768,
        30000 * 16 / 32768,
        7,
        12000 * 4 / 32768,
        1,
        1,
        0,
        1,
    );
    assert_eq!(bucket_key_from_quantized(&v), expected);
}

#[test]
fn keys_follow_coordinate_order() {
    let low = bucket_key(0, 15, 7, 15, 7, 3, 1, 1, 1, 1);
    let high = bucket_key(1, 0, 0, 0, 0, 0, 0, 0, 0, 0);
    assert!(low < high);
    assert_eq!(low + 1, high);
    assert!(bucket_key(3, 2, 1, 0, 0, 0, 0, 0, 0, 0) < bucket_key(3, 2, 1, 0, 0, 0, 0, 0, 0, 1));
    assert!(bucket_key(3, 2, 1, 0, 0, 0, 0, 0, 1, 0) > bucket_key(3, 2, 0, 15, 7, 3, 1, 1, 1, 1));
}

#[test]
fn larger_amounts_never_fall_into_lower_bins() {
    let mut previous = 0;
    for value in [-5i16, 0, 1, 2047, 2048, 16383, 16384, 30000, 32767] {
        let mut vector = [0i16; 14];
        vector[0] = value;
        let key = bucket_key_from_quantized(&vector);
        assert!(key >= previous, "value {value}");
        previous = key;
    }
    let mut top = [0i16; 14];
    top[0] = i16::MAX;
    assert_eq!(bucket_key_from_quantized(&top), bucket_key(15, 0, 0, 0, 0, 0, 1, 0, 0, 0));
}

#[test]
fn bins_of_unit_values() {
    assert_eq!(bin01(16384, 4), 2);
    assert_eq!(bin01(-1, 16), 0);
    assert_eq!(bin01(32767, 8), 7);
    assert_eq!(bin01(2047, 16), 0);
    assert_eq!(bin01(2048, 16), 1);
    let mut previous = 0;
    for value in [i16::MIN, -1, 0, 100, 4095, 4096, 20000, i16::MAX] {
        let bin = bin01(value, 8);
        assert!(bin >= previous && bin < 8);
        previous = bin;
    }
    assert_eq!(bin_bool(16384), 0);
    assert_eq!(bin_bool(16385), 1);
}
