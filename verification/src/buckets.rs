use vstd::prelude::*;

verus! {

/// Number of dimensions of a reference vector.
pub const VECTOR_DIMS: usize = 14;

/// Number of bytes of a vector of little-endian `i16`s.
pub const VECTOR_BYTES: usize = VECTOR_DIMS * 2;

/// Bins of the amount coordinate (0).
pub const AMOUNT_BINS: usize = 16;

/// Bins of the amount-to-average ratio coordinate (2).
pub const RATIO_BINS: usize = 16;

/// Bins of the hour coordinate (3).
pub const HOUR_BINS: usize = 8;

/// Bins of the distance-from-home coordinate (7).
pub const HOME_BINS: usize = 16;

/// Bins of the transaction-count coordinate (8).
pub const TX_BINS: usize = 8;

/// Bins of the merchant-category risk coordinate (12).
pub const MCC_BINS: usize = 4;

/// Whether a previous transaction is known (coordinate 5 not negative).
const LAST_STATES: usize = 2;

/// A flag coordinate (9, 10, 11) above or below its middle.
const BOOL_STATES: usize = 2;

/// Number of distinct bucket keys: the product of all radices.
pub const BUCKET_COUNT: usize = AMOUNT_BINS * RATIO_BINS * HOUR_BINS * HOME_BINS * TX_BINS
    * MCC_BINS * 2 * 2 * 2 * 2;

/// The search index partitions the reference set by bucket key.
pub const PARTITION_COUNT: usize = BUCKET_COUNT;

/// The mixed-radix number whose digits, most significant first, are the ten
/// bucket coordinates.
pub open spec fn bucket_key_value(
    amount: int,
    ratio: int,
    hour: int,
    home: int,
    tx: int,
    mcc: int,
    last: int,
    online: int,
    card: int,
    unknown: int,
) -> int {
    ((((((((amount * 16 + ratio) * 8 + hour) * 16 + home) * 8 + tx) * 4 + mcc) * 2 + last) * 2
        + online) * 2 + card) * 2 + unknown
}

/// Whether every coordinate but the leading one is below its radix.
pub open spec fn lower_digits_in_range(
    ratio: int,
    hour: int,
    home: int,
    tx: int,
    mcc: int,
    last: int,
    online: int,
    card: int,
    unknown: int,
) -> bool {
    &&& 0 <= ratio < 16
    &&& 0 <= hour < 8
    &&& 0 <= home < 16
    &&& 0 <= tx < 8
    &&& 0 <= mcc < 4
    &&& 0 <= last < 2
    &&& 0 <= online < 2
    &&& 0 <= card < 2
    &&& 0 <= unknown < 2
}

/// The ten coordinates of a key, most significant first.
pub open spec fn decoded_key(key: int) -> Seq<int> {
    seq![
        key / 1048576,
        key / 65536 % 16,
        key / 8192 % 8,
        key / 512 % 16,
        key / 64 % 8,
        key / 16 % 4,
        key / 8 % 2,
        key / 4 % 2,
        key / 2 % 2,
        key % 2,
    ]
}

/// The key of the bucket with the given coordinates, as a mixed-radix
/// number.
pub fn bucket_key(
    amount: usize,
    ratio: usize,
    hour: usize,
    home: usize,
    tx: usize,
    mcc: usize,
    last: usize,
    online: usize,
    card: usize,
    unknown: usize,
) -> (key: usize)
    requires
        bucket_key_value(
            amount as int,
            ratio as int,
            hour as int,
            home as int,
            tx as int,
            mcc as int,
            last as int,
            online as int,
            card as int,
            unknown as int,
        ) <= usize::MAX,
    ensures
        key == bucket_key_value(
            amount as int,
            ratio as int,
            hour as int,
            home as int,
            tx as int,
            mcc as int,
            last as int,
            online as int,
            card as int,
            unknown as int,
        ),
{
    let mut key = amount;
    key = key * RATIO_BINS + ratio;
    key = key * HOUR_BINS + hour;
    key = key * HOME_BINS + home;
    key = key * TX_BINS + tx;
    key = key * MCC_BINS + mcc;
    key = key * LAST_STATES + last;
    key = key * BOOL_STATES + online;
    key = key * BOOL_STATES + card;
    key = key * BOOL_STATES + unknown;
    key
}

/// The ten bucket coordinates of `key`, most significant first; the leading
/// one takes whatever lies above the other radices.
pub fn decode_bucket_key(key: usize) -> (coords: [usize; 10])
    ensures
        forall|i: int| 0 <= i < 10 ==> #[trigger] coords@[i] == decoded_key(key as int)[i],
{
    let unknown = key % BOOL_STATES;
    let key1 = key / BOOL_STATES;
    let card = key1 % BOOL_STATES;
    let key2 = key1 / BOOL_STATES;
    let online = key2 % BOOL_STATES;
    let key3 = key2 / BOOL_STATES;
    let last = key3 % LAST_STATES;
    let key4 = key3 / LAST_STATES;
    let mcc = key4 % MCC_BINS;
    let key5 = key4 / MCC_BINS;
    let tx = key5 % TX_BINS;
    let key6 = key5 / TX_BINS;
    let home = key6 % HOME_BINS;
    let key7 = key6 / HOME_BINS;
    let hour = key7 % HOUR_BINS;
    let key8 = key7 / HOUR_BINS;
    let ratio = key8 % RATIO_BINS;
    let amount = key8 / RATIO_BINS;
    proof {
        lemma_nested_div(key as int);
    }
    [amount, ratio, hour, home, tx, mcc, last, online, card, unknown]
}

/// Successive divisions by the radices equal one division by their product.
proof fn lemma_nested_div(k: int)
    requires
        k >= 0,
    ensures
        k / 2 / 2 == k / 4,
        k / 2 / 2 / 2 == k / 8,
        k / 2 / 2 / 2 / 2 == k / 16,
        k / 2 / 2 / 2 / 2 / 4 == k / 64,
        k / 2 / 2 / 2 / 2 / 4 / 8 == k / 512,
        k / 2 / 2 / 2 / 2 / 4 / 8 / 16 == k / 8192,
        k / 2 / 2 / 2 / 2 / 4 / 8 / 16 / 8 == k / 65536,
        k / 2 / 2 / 2 / 2 / 4 / 8 / 16 / 8 / 16 == k / 1048576,
{
    vstd::arithmetic::div_mod::lemma_div_denominator(k, 2, 2);
    vstd::arithmetic::div_mod::lemma_div_denominator(k, 4, 2);
    vstd::arithmetic::div_mod::lemma_div_denominator(k, 8, 2);
    vstd::arithmetic::div_mod::lemma_div_denominator(k, 16, 4);
    vstd::arithmetic::div_mod::lemma_div_denominator(k, 64, 8);
    vstd::arithmetic::div_mod::lemma_div_denominator(k, 512, 16);
    vstd::arithmetic::div_mod::lemma_div_denominator(k, 8192, 8);
    vstd::arithmetic::div_mod::lemma_div_denominator(k, 65536, 16);
}

/// Decoding an encoded key gives back its coordinates, whenever every
/// coordinate but the leading one is below its radix.
pub proof fn lemma_decode_encode(
    amount: nat,
    ratio: nat,
    hour: nat,
    home: nat,
    tx: nat,
    mcc: nat,
    last: nat,
    online: nat,
    card: nat,
    unknown: nat,
)
    requires
        lower_digits_in_range(
            ratio as int,
            hour as int,
            home as int,
            tx as int,
            mcc as int,
            last as int,
            online as int,
            card as int,
            unknown as int,
        ),
    ensures
        decoded_key(
            bucket_key_value(
                amount as int,
                ratio as int,
                hour as int,
                home as int,
                tx as int,
                mcc as int,
                last as int,
                online as int,
                card as int,
                unknown as int,
            ),
        ) == seq![
            amount as int,
            ratio as int,
            hour as int,
            home as int,
            tx as int,
            mcc as int,
            last as int,
            online as int,
            card as int,
            unknown as int,
        ],
{
    let (a, ra, ho, hm, t, m, l, o, c, u) = (
        amount as int,
        ratio as int,
        hour as int,
        home as int,
        tx as int,
        mcc as int,
        last as int,
        online as int,
        card as int,
        unknown as int,
    );
    let k = bucket_key_value(a, ra, ho, hm, t, m, l, o, c, u);
    let d = decoded_key(k);
    let h0 = a * 16 + ra;
    let h1 = (h0 * 8 + ho) * 16 + hm;
    let h2 = h1 * 8 + t;
    let h3 = h2 * 4 + m;
    let h4 = h3 * 2 + l;
    let h5 = h4 * 2 + o;
    let h6 = h5 * 2 + c;
    lemma_div_mod_digit(k, 1048576, a, k - a * 1048576);
    lemma_div_mod_digit(k, 65536, h0, k - h0 * 65536);
    lemma_div_mod_digit(h0, 16, a, ra);
    lemma_div_mod_digit(k, 8192, h0 * 8 + ho, k - (h0 * 8 + ho) * 8192);
    lemma_div_mod_digit(h0 * 8 + ho, 8, h0, ho);
    lemma_div_mod_digit(k, 512, h1, k - h1 * 512);
    lemma_div_mod_digit(h1, 16, h0 * 8 + ho, hm);
    lemma_div_mod_digit(k, 64, h2, k - h2 * 64);
    lemma_div_mod_digit(h2, 8, h1, t);
    lemma_div_mod_digit(k, 16, h3, k - h3 * 16);
    lemma_div_mod_digit(h3, 4, h2, m);
    lemma_div_mod_digit(k, 8, h4, k - h4 * 8);
    lemma_div_mod_digit(h4, 2, h3, l);
    lemma_div_mod_digit(k, 4, h5, k - h5 * 4);
    lemma_div_mod_digit(h5, 2, h4, o);
    lemma_div_mod_digit(k, 2, h6, u);
    lemma_div_mod_digit(h6, 2, h5, c);
    assert(d =~= seq![
        amount as int,
        ratio as int,
        hour as int,
        home as int,
        tx as int,
        mcc as int,
        last as int,
        online as int,
        card as int,
        unknown as int,
    ]);
}

/// `x == q * d + r` with `0 <= r < d` gives the quotient and the remainder.
proof fn lemma_div_mod_digit(x: int, d: int, q: int, r: int)
    requires
        0 < d,
        0 <= r < d,
        x == q * d + r,
    ensures
        x / d == q,
        x % d == r,
{
    vstd::arithmetic::div_mod::lemma_fundamental_div_mod_converse(x, d, q, r);
}

/// Encoding the coordinates that a key decodes to gives back the key, and
/// those coordinates meet the radix bounds.
pub proof fn lemma_encode_decode(key: nat)
    ensures
        lower_digits_in_range(
            decoded_key(key as int)[1],
            decoded_key(key as int)[2],
            decoded_key(key as int)[3],
            decoded_key(key as int)[4],
            decoded_key(key as int)[5],
            decoded_key(key as int)[6],
            decoded_key(key as int)[7],
            decoded_key(key as int)[8],
            decoded_key(key as int)[9],
        ),
        bucket_key_value(
            decoded_key(key as int)[0],
            decoded_key(key as int)[1],
            decoded_key(key as int)[2],
            decoded_key(key as int)[3],
            decoded_key(key as int)[4],
            decoded_key(key as int)[5],
            decoded_key(key as int)[6],
            decoded_key(key as int)[7],
            decoded_key(key as int)[8],
            decoded_key(key as int)[9],
        ) == key,
{
    let k = key as int;
    vstd::arithmetic::div_mod::lemma_fundamental_div_mod(k, 2);
    vstd::arithmetic::div_mod::lemma_fundamental_div_mod(k / 2, 2);
    vstd::arithmetic::div_mod::lemma_fundamental_div_mod(k / 4, 2);
    vstd::arithmetic::div_mod::lemma_fundamental_div_mod(k / 8, 2);
    vstd::arithmetic::div_mod::lemma_fundamental_div_mod(k / 16, 4);
    vstd::arithmetic::div_mod::lemma_fundamental_div_mod(k / 64, 8);
    vstd::arithmetic::div_mod::lemma_fundamental_div_mod(k / 512, 16);
    vstd::arithmetic::div_mod::lemma_fundamental_div_mod(k / 8192, 8);
    vstd::arithmetic::div_mod::lemma_fundamental_div_mod(k / 65536, 16);
    assert(k / 2 / 2 == k / 4) by {
        vstd::arithmetic::div_mod::lemma_div_denominator(k, 2, 2);
    }
    assert(k / 4 / 2 == k / 8) by {
        vstd::arithmetic::div_mod::lemma_div_denominator(k, 4, 2);
    }
    assert(k / 8 / 2 == k / 16) by {
        vstd::arithmetic::div_mod::lemma_div_denominator(k, 8, 2);
    }
    assert(k / 16 / 4 == k / 64) by {
        vstd::arithmetic::div_mod::lemma_div_denominator(k, 16, 4);
    }
    assert(k / 64 / 8 == k / 512) by {
        vstd::arithmetic::div_mod::lemma_div_denominator(k, 64, 8);
    }
    assert(k / 512 / 16 == k / 8192) by {
        vstd::arithmetic::div_mod::lemma_div_denominator(k, 512, 16);
    }
    assert(k / 8192 / 8 == k / 65536) by {
        vstd::arithmetic::div_mod::lemma_div_denominator(k, 8192, 8);
    }
    assert(k / 65536 / 16 == k / 1048576) by {
        vstd::arithmetic::div_mod::lemma_div_denominator(k, 65536, 16);
    }
}

/// A key lies below `BUCKET_COUNT` exactly when its leading coordinate lies
/// below `AMOUNT_BINS`, the other coordinates being in range.
pub proof fn lemma_key_below_bucket_count(
    amount: nat,
    ratio: nat,
    hour: nat,
    home: nat,
    tx: nat,
    mcc: nat,
    last: nat,
    online: nat,
    card: nat,
    unknown: nat,
)
    requires
        lower_digits_in_range(
            ratio as int,
            hour as int,
            home as int,
            tx as int,
            mcc as int,
            last as int,
            online as int,
            card as int,
            unknown as int,
        ),
    ensures
        (bucket_key_value(
            amount as int,
            ratio as int,
            hour as int,
            home as int,
            tx as int,
            mcc as int,
            last as int,
            online as int,
            card as int,
            unknown as int,
        ) < BUCKET_COUNT) <==> amount < AMOUNT_BINS,
{
}

/// The key of ten coordinates given as a sequence, most significant first.
pub open spec fn key_of(c: Seq<int>) -> int {
    bucket_key_value(c[0], c[1], c[2], c[3], c[4], c[5], c[6], c[7], c[8], c[9])
}

/// Whether `a` comes before `b` in lexicographic order, comparing from
/// position `i` on.
pub open spec fn lex_less(a: Seq<int>, b: Seq<int>, i: int) -> bool
    decreases 10 - i,
{
    if i >= 10 {
        false
    } else if a[i] < b[i] {
        true
    } else if a[i] == b[i] {
        lex_less(a, b, i + 1)
    } else {
        false
    }
}

/// Coordinates that a key can hold: a non-negative leading one, the others
/// below their radices.
pub open spec fn coords_in_range(c: Seq<int>) -> bool {
    &&& c.len() == 10
    &&& 0 <= c[0]
    &&& lower_digits_in_range(c[1], c[2], c[3], c[4], c[5], c[6], c[7], c[8], c[9])
}

/// Keys are ordered as their coordinates are, lexicographically.
pub proof fn lemma_key_order(a: Seq<int>, b: Seq<int>)
    requires
        coords_in_range(a),
        coords_in_range(b),
    ensures
        key_of(a) < key_of(b) <==> lex_less(a, b, 0),
{
    reveal_with_fuel(lex_less, 11);
}

/// A larger value never falls into a lower bin.
pub proof fn lemma_bin01_monotone(low: int, high: int, bins: int)
    requires
        low <= high,
        0 < bins,
    ensures
        bin01_value(low, bins) <= bin01_value(high, bins),
{
    let a = clamped_unit(low);
    let b = clamped_unit(high);
    assert(a <= b);
    vstd::arithmetic::mul::lemma_mul_inequality(a, b, bins);
    vstd::arithmetic::div_mod::lemma_div_is_ordered(a * bins, b * bins, 32768);
}

/// `value` clamped to `0..=32767`.
pub open spec fn clamped_unit(value: int) -> int {
    if value < 0 {
        0
    } else if value > 32767 {
        32767
    } else {
        value
    }
}

/// Index of the bin, among `bins` equal bins over `0..32768`, that holds the
/// clamped value; the top value falls into the last bin.
pub open spec fn bin01_value(value: int, bins: int) -> int {
    let b = clamped_unit(value) * bins / 32768;
    if b < bins - 1 {
        b
    } else {
        bins - 1
    }
}

/// One when the value lies above the middle of the unit range.
pub open spec fn bin_bool_value(value: int) -> int {
    if value > 16384 {
        1
    } else {
        0
    }
}

/// The key of the bucket that a quantised vector falls into.
pub open spec fn quantized_key(v: Seq<i16>) -> int {
    bucket_key_value(
        bin01_value(v[0] as int, 16),
        bin01_value(v[2] as int, 16),
        bin01_value(v[3] as int, 8),
        bin01_value(v[7] as int, 16),
        bin01_value(v[8] as int, 8),
        bin01_value(v[12] as int, 4),
        if v[5] >= 0 { 1 } else { 0 },
        bin_bool_value(v[9] as int),
        bin_bool_value(v[10] as int),
        bin_bool_value(v[11] as int),
    )
}

/// A bin lies in `0..bins`: 0 for values at or below 0, the last bin for
/// the top value.
pub proof fn lemma_bin01_range(value: int, bins: int)
    requires
        0 < bins <= 16,
    ensures
        0 <= bin01_value(value, bins) < bins,
        value <= 0 ==> bin01_value(value, bins) == 0,
        value >= 32767 ==> bin01_value(value, bins) == bins - 1,
{
    let c = clamped_unit(value);
    assert(0 <= c * bins) by (nonlinear_arith)
        requires
            0 <= c,
            0 < bins,
    ;
    if value >= 32767 {
        assert(32767 * bins / 32768 >= bins - 1) by (nonlinear_arith)
            requires
                0 < bins <= 16,
        ;
    }
}

/// The bin of a unit value `x` is the number of whole bin widths
/// (`32768 / bins`) below it: `bin * 32768 <= x * bins < (bin + 1) * 32768`,
/// except that the top bin also takes the values past its end.
pub proof fn lemma_bin01_width(x: int, bins: int)
    requires
        0 <= x <= 32767,
        0 < bins <= 16,
    ensures
        bin01_value(x, bins) * 32768 <= x * bins,
        bin01_value(x, bins) < bins - 1 ==> x * bins < (bin01_value(x, bins) + 1) * 32768,
{
    let p = x * bins;
    assert(0 <= x * bins) by (nonlinear_arith)
        requires
            0 <= x,
            0 < bins,
    ;
    vstd::arithmetic::div_mod::lemma_fundamental_div_mod(p, 32768);
    let b = p / 32768;
    assert(b * 32768 <= p < (b + 1) * 32768);
    if b >= bins - 1 {
        assert((bins - 1) * 32768 <= b * 32768) by (nonlinear_arith)
            requires
                b >= bins - 1,
        ;
    }
}

/// A flag is set exactly above the middle of the unit range: it is 0 at
/// 16384 and 1 at 16385, and it never falls as the value grows.
pub proof fn lemma_bin_bool_threshold(low: int, high: int)
    requires
        low <= high,
    ensures
        0 <= bin_bool_value(low) <= bin_bool_value(high) <= 1,
        bin_bool_value(16384) == 0,
        bin_bool_value(16385) == 1,
{
}

/// Each digit of the key of a quantised vector is the bin of its own
/// coordinate: amount `v[0]`, amount ratio `v[2]`, hour `v[3]`, distance
/// from home `v[7]`, transaction count `v[8]`, merchant risk `v[12]`, the
/// sign of `v[5]`, and the flags `v[9]`, `v[10]`, `v[11]`; the key changes
/// with a coordinate only through that digit.
pub proof fn lemma_quantized_key_digits(v: Seq<i16>)
    requires
        v.len() == 14,
    ensures
        quantized_key(v) / 1048576 == bin01_value(v[0] as int, 16),
        quantized_key(v) / 65536 % 16 == bin01_value(v[2] as int, 16),
        quantized_key(v) / 8192 % 8 == bin01_value(v[3] as int, 8),
        quantized_key(v) / 512 % 16 == bin01_value(v[7] as int, 16),
        quantized_key(v) / 64 % 8 == bin01_value(v[8] as int, 8),
        quantized_key(v) / 16 % 4 == bin01_value(v[12] as int, 4),
        quantized_key(v) / 8 % 2 == if v[5] >= 0 { 1int } else { 0 },
        quantized_key(v) / 4 % 2 == bin_bool_value(v[9] as int),
        quantized_key(v) / 2 % 2 == bin_bool_value(v[10] as int),
        quantized_key(v) % 2 == bin_bool_value(v[11] as int),
{
    let amount = bin01_value(v[0] as int, 16);
    let ratio = bin01_value(v[2] as int, 16);
    let hour = bin01_value(v[3] as int, 8);
    let home = bin01_value(v[7] as int, 16);
    let tx = bin01_value(v[8] as int, 8);
    let mcc = bin01_value(v[12] as int, 4);
    let last: int = if v[5] >= 0 { 1 } else { 0 };
    let online = bin_bool_value(v[9] as int);
    let card = bin_bool_value(v[10] as int);
    let unknown = bin_bool_value(v[11] as int);
    lemma_bin01_range(v[0] as int, 16);
    lemma_bin01_range(v[2] as int, 16);
    lemma_bin01_range(v[3] as int, 8);
    lemma_bin01_range(v[7] as int, 16);
    lemma_bin01_range(v[8] as int, 8);
    lemma_bin01_range(v[12] as int, 4);
    lemma_decode_encode(
        amount as nat,
        ratio as nat,
        hour as nat,
        home as nat,
        tx as nat,
        mcc as nat,
        last as nat,
        online as nat,
        card as nat,
        unknown as nat,
    );
    let key = quantized_key(v);
    let d = decoded_key(key);
    assert(d[0] == key / 1048576);
    assert(d[4] == key / 64 % 8);
}

/// The key of the bucket that a quantised vector falls into.
pub fn bucket_key_from_quantized(vector: &[i16; 14]) -> (key: usize)
    ensures
        key == quantized_key(vector@),
        key < BUCKET_COUNT,
{
    let amount = bin01(vector[0], AMOUNT_BINS);
    let ratio = bin01(vector[2], RATIO_BINS);
    let hour = bin01(vector[3], HOUR_BINS);
    let home = bin01(vector[7], HOME_BINS);
    let tx = bin01(vector[8], TX_BINS);
    let mcc = bin01(vector[12], MCC_BINS);
    let last: usize = if vector[5] >= 0 { 1 } else { 0 };
    let online = bin_bool(vector[9]);
    let card = bin_bool(vector[10]);
    let unknown = bin_bool(vector[11]);
    proof {
        lemma_key_below_bucket_count(
            amount as nat,
            ratio as nat,
            hour as nat,
            home as nat,
            tx as nat,
            mcc as nat,
            last as nat,
            online as nat,
            card as nat,
            unknown as nat,
        );
    }
    bucket_key(amount, ratio, hour, home, tx, mcc, last, online, card, unknown)
}

/// The bin of a unit-range coordinate.
pub fn bin01(value: i16, bins: usize) -> (bin: usize)
    requires
        0 < bins,
        32767 * bins <= usize::MAX,
    ensures
        bin == bin01_value(value as int, bins as int),
        bin < bins,
{
    // An `i16` never exceeds 32767, so only the lower end needs clamping.
    let clamped: usize = if value < 0 {
        0
    } else {
        value as usize
    };
    proof {
        vstd::arithmetic::mul::lemma_mul_inequality(clamped as int, 32767, bins as int);
        vstd::arithmetic::div_mod::lemma_div_is_ordered(
            clamped * bins,
            32767 * bins,
            32768,
        );
    }
    let bin = (clamped * bins) / 32768;
    if bin < bins - 1 {
        bin
    } else {
        bins - 1
    }
}

/// The bin of a flag coordinate.
pub fn bin_bool(value: i16) -> (bit: usize)
    ensures
        bit == bin_bool_value(value as int),
{
    if value > 16384 {
        1
    } else {
        0
    }
}

} // verus!
