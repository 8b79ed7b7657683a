use number_encoding::sequences::decode;
use number_encoding::sequences::decode_len;
use number_encoding::sequences::encode;

fn decode_len_case(s: usize, n: usize) {
    assert_eq!(decode_len(s), n, "s={s}");
}

#[test]
fn decode_len_ok() {
    decode_len_case(0, 0);
    decode_len_case(1, 1);
    decode_len_case(2, 1);
    decode_len_case(3, 2);
    decode_len_case(6, 2);
    decode_len_case(7, 3);
    decode_len_case(14, 3);
}

fn decode_case(s: usize, xs: &[bool]) {
    assert_eq!(decode(s), xs, "s={s} xs={xs:?}");
}

#[test]
fn sequences_decode_ok() {
    decode_case(0, &[]);
    decode_case(1, &[false]);
    decode_case(2, &[true]);
    decode_case(3, &[false, false]);
    decode_case(4, &[false, true]);
    decode_case(5, &[true, false]);
    decode_case(6, &[true, true]);
    decode_case(7, &[false, false, false]);
    decode_case(8, &[false, false, true]);
    decode_case(9, &[false, true, false]);
    decode_case(10, &[false, true, true]);
    decode_case(11, &[true, false, false]);
    decode_case(12, &[true, false, true]);
    decode_case(13, &[true, true, false]);
    decode_case(14, &[true, true, true]);
}

fn encode_case(xs: Vec<bool>, s: usize) {
    assert_eq!(encode(&xs), s, "xs={xs:?}");
}

#[test]
fn sequences_encode_ok() {
    encode_case(vec![], 0);
    encode_case(vec![false], 1);
    encode_case(vec![true], 2);
    encode_case(vec![false, false], 3);
    encode_case(vec![false, true], 4);
    encode_case(vec![true, false], 5);
    encode_case(vec![true, true], 6);
    encode_case(vec![false, false, false], 7);
    encode_case(vec![false, false, true], 8);
    encode_case(vec![false, true, false], 9);
    encode_case(vec![false, true, true], 10);
    encode_case(vec![true, false, false], 11);
    encode_case(vec![true, false, true], 12);
    encode_case(vec![true, true, false], 13);
    encode_case(vec![true, true, true], 14);
}
