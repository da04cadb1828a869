use entropy_codec::golomb;

#[test]
fn golomb_round_trip_empty() {
    let encoded = golomb::encode(Vec::new());
    // The empty stream still carries the 3-bit exponent header.
    assert_eq!(encoded.len(), 3);
    assert_eq!(golomb::decode(&encoded), Ok(Vec::new()));
}

#[test]
fn golomb_round_trip_one_byte() {
    let input = vec![200_u8];
    let encoded = golomb::encode(input.clone());
    assert_eq!(golomb::decode(&encoded), Ok(input));
}

#[test]
fn golomb_round_trip_all_symbols() {
    let mut input: Vec<u8> = Vec::new();
    for v in 0..=255u8 {
        input.push(v);
    }
    let encoded = golomb::encode(input.clone());
    assert_eq!(golomb::decode(&encoded), Ok(input));
}

#[test]
fn golomb_round_trip_long_mixed() {
    // A deterministic pseudo-random stream.
    let mut input: Vec<u8> = Vec::new();
    let mut x: u32 = 1;
    for _ in 0..10000 {
        x = x.wrapping_mul(1103515245).wrapping_add(12345);
        input.push((x >> 16) as u8);
    }
    let encoded = golomb::encode(input.clone());
    assert_eq!(golomb::decode(&encoded), Ok(input));
}

#[test]
fn golomb_header_prefers_strict_minimum() {
    // For these bytes the trial with exponent 3 is strictly shortest: the
    // trial lengths by exponent are 65/40/30/27/28/30/35/40.
    let input = vec![16_u8, 16, 16, 8, 4];
    let encoded = golomb::encode(input.clone());
    // The 3-bit little-endian header holds the exponent 3.
    assert_eq!(&encoded[..3], &[true, true, false]);
    assert_eq!(golomb::decode(&encoded), Ok(input));
}

#[test]
fn golomb_zero_exponent_is_unary() {
    // One byte of value 0 for exponent 0 is a bare terminator.
    let encoded = golomb::encode(vec![0_u8]);
    assert_eq!(encoded, vec![false, false, false, false]);
    assert_eq!(golomb::decode(&encoded), Ok(vec![0_u8]));
}

#[test]
fn golomb_compress_codes_quotient_and_remainder() {
    // 13 against divisor 4: quotient 3, remainder 1.
    let bits = golomb::compress(2, &[13_u8]);
    assert_eq!(
        bits,
        vec![true, true, true, false, true, false]
    );
    assert_eq!(golomb::decompress(2, &bits), Ok(vec![13_u8]));
}

#[test]
fn golomb_truncated_remainder_fails() {
    // Exponent 3 in the header, then a terminator with only 2 remainder bits.
    let bits = vec![true, true, false, false, true, false];
    assert_eq!(golomb::decode(&bits), Err(()));
}

#[test]
fn golomb_overflowing_quotient_fails() {
    // Exponent 0, then 256 ones and a terminator: the value 256 is no byte.
    let mut bits = vec![false, false, false];
    bits.extend(std::iter::repeat(true).take(256));
    bits.push(false);
    assert_eq!(golomb::decode(&bits), Err(()));
}

#[test]
fn golomb_trailing_ones_are_ignored() {
    // A trailing run of ones without a terminator decodes to nothing more.
    let bits = vec![false, false, false, true, true, true];
    assert_eq!(golomb::decode(&bits), Ok(Vec::new()));
}

#[test]
fn golomb_reencode_decoded_container() {
    let input = vec![3_u8, 1, 4, 1, 5, 9, 2, 6];
    let container = golomb::encode(input.clone());
    let decoded = golomb::decode(&container).unwrap();
    let again = golomb::encode(decoded);
    assert_eq!(again, container);
    assert_eq!(golomb::decode(&again), Ok(input));
}
