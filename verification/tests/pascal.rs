use mam::pascal::decode;
use mam::pascal::decode_checked;
use mam::pascal::encode;
use mam::pascal::encoded_length;

fn test_encoding(i: isize) {
    let mut e: Vec<i8> = vec![0; encoded_length(i)];
    encode(i, &mut e);
    let d = decode(&e);
    assert_eq!(i, d.0, "Output should match for {}, {:?}", i, e);
    assert_eq!(e.len(), d.1, "Length should match for {}", e.len());
}

#[test]
fn pascal_encode_numbers() {
    for i in 0..1000 {
        test_encoding(-i);
    }
    for i in 0..1000 {
        test_encoding(i);
    }
    for i in 10000000..10000100 {
        test_encoding(i);
    }
    for i in 10000000..10000100 {
        test_encoding(-i);
    }
}

#[test]
fn encode_first_hundred_thousand() {
    for i in 0..100000 {
        let mut e: Vec<i8> = vec![0; encoded_length(i)];
        encode(i, &mut e);
        let d = decode(&e);
        assert_eq!(i, d.0, "Output should match for {}", i);
        assert_eq!(e.len(), d.1, "Length should match for {}", e.len());
    }
}

#[test]
fn zero_is_the_fixed_word() {
    assert_eq!(encoded_length(0), 4);
    let mut e = vec![7i8; 4];
    encode(0, &mut e);
    assert_eq!(e, vec![1, 0, 0, -1]);
    assert_eq!(decode(&e), (0, 4));
}

#[test]
fn twenty_seven_takes_two_trytes_and_two_encoder_trits() {
    assert_eq!(encoded_length(27), 8);
    let mut e = vec![7i8; 8];
    encode(27, &mut e);
    assert_eq!(e, vec![0, 0, 0, 1, 0, 0, 0, 0]);
    assert_eq!(decode(&e), (27, 8));
}

#[test]
fn small_numbers_have_exact_encodings() {
    let mut e = vec![0i8; encoded_length(1)];
    encode(1, &mut e);
    assert_eq!(e, vec![1, 0, 0, 0]);
    let mut e = vec![0i8; encoded_length(-1)];
    encode(-1, &mut e);
    assert_eq!(e, vec![1, 0, 0, 1]);
    // 14 = -13 + 27: the first tryte is negative and stays, the second is positive
    let mut e = vec![5i8; encoded_length(14)];
    encode(14, &mut e);
    assert_eq!(e, vec![-1, -1, -1, 1, 0, 0, 0, 0]);
    // 40 = 13 + 27: the first tryte is positive and is flipped, bit 0 of the encoder
    let mut e = vec![5i8; encoded_length(40)];
    encode(40, &mut e);
    assert_eq!(e, vec![-1, -1, -1, 1, 0, 0, 1, 0]);
    // -40 = -13 - 27: the last tryte is negative and is flipped, bit 1 of the encoder,
    // and 2 = -1 + 3
    let mut e = vec![5i8; encoded_length(-40)];
    encode(-40, &mut e);
    assert_eq!(e, vec![-1, -1, -1, 1, 0, 0, -1, 1]);
    assert_eq!(decode(&e), (-40, 8));
}

#[test]
fn lengths_follow_the_formula() {
    assert_eq!(encoded_length(13), 4);
    assert_eq!(encoded_length(-13), 4);
    assert_eq!(encoded_length(14), 8);
    assert_eq!(encoded_length(364), 8);
    assert_eq!(encoded_length(365), 12);
    assert_eq!(encoded_length(9841), 12);
    assert_eq!(encoded_length(9842), 16);
}

#[test]
fn extremes_round_trip() {
    for v in [isize::MAX, isize::MIN, isize::MAX - 1, isize::MIN + 1, 999_999_999_999, -999_999_999_999] {
        test_encoding(v);
        let mut e: Vec<i8> = vec![0; encoded_length(v)];
        encode(v, &mut e);
        assert_eq!(decode_checked(&e), Some((v, e.len())));
    }
}

#[test]
fn decoding_ignores_what_follows() {
    let mut e: Vec<i8> = vec![0; encoded_length(-123456)];
    encode(-123456, &mut e);
    let n = e.len();
    e.extend_from_slice(&[1, 1, -1, 0, 1, 1, 1]);
    assert_eq!(decode_checked(&e), Some((-123456, n)));
}

#[test]
fn decode_checked_rejects_what_is_no_encoding() {
    assert_eq!(decode_checked(&[]), None);
    assert_eq!(decode_checked(&[1, 0, 0]), None);
    // no tryte is positive
    assert_eq!(decode_checked(&[0, 0, 0, 0, 0, 0, -1, -1, -1]), None);
    // the encoder is cut off
    assert_eq!(decode_checked(&[0, 0, 0, 1, 0, 0, 1]), None);
    // something that is no trit
    assert_eq!(decode_checked(&[0, 2, 0, 1, 0, 0, 0, 0]), None);
    assert_eq!(decode_checked(&[0, 0, 0, 1, 0, 0, 0, 3]), None);
    // a positive tryte later than any number of this machine needs
    let mut long = vec![0i8; 3 * 14];
    long.extend_from_slice(&[1, 0, 0]);
    long.extend_from_slice(&[0; 12]);
    assert_eq!(decode_checked(&long), None);
}

#[test]
fn decode_checked_reads_a_negative_encoder_by_its_bits() {
    // encoder -1 over two trytes: both bits set, as in two's complement
    assert_eq!(decode_checked(&[0, -1, 0, 1, 0, 0, -1, 0]), Some((3 - 27, 8)));
}
