use number_encoding::combinadics::decode;
use number_encoding::combinadics::encode;
use number_encoding::combinadics::Iter;

fn decode_case(n: usize, k: usize, r: &[usize]) {
    assert_eq!(decode(n, k), r, "n={} k={}", n, k);
}

#[test]
fn combinadics_decode_ok() {
    decode_case(0, 0, &[]);
    decode_case(0, 1, &[0]);
    decode_case(1, 1, &[1]);
    decode_case(2, 1, &[2]);
    decode_case(0, 2, &[0, 1]);
    decode_case(1, 2, &[0, 2]);
    decode_case(2, 2, &[1, 2]);
    decode_case(3, 2, &[0, 3]);
    decode_case(0, 3, &[0, 1, 2]);
    decode_case(1, 3, &[0, 1, 3]);
    decode_case(2, 3, &[0, 2, 3]);
    decode_case(3, 3, &[1, 2, 3]);
    decode_case(4, 3, &[0, 1, 4]);
    decode_case(5, 3, &[0, 2, 4]);
    decode_case(6, 3, &[1, 2, 4]);
    decode_case(7, 3, &[0, 3, 4]);
    decode_case(8, 3, &[1, 3, 4]);
    decode_case(9, 3, &[2, 3, 4]);
    decode_case(10, 3, &[0, 1, 5]);
}

fn encode_case(xs: Vec<usize>, r: usize) {
    assert_eq!(encode(&xs), r, "xs={:?}", xs);
}

#[test]
fn combinadics_encode_ok() {
    encode_case(vec![], 0);
    encode_case(vec![0], 0);
    encode_case(vec![1], 1);
    encode_case(vec![0, 1], 0);
    encode_case(vec![0, 2], 1);
    encode_case(vec![1, 2], 2);
    encode_case(vec![0, 3], 3);
    encode_case(vec![0, 1, 2], 0);
    encode_case(vec![0, 1, 3], 1);
    encode_case(vec![0, 2, 3], 2);
    encode_case(vec![1, 2, 3], 3);
    encode_case(vec![0, 1, 4], 4);
    encode_case(vec![0, 2, 4], 5);
    encode_case(vec![1, 2, 4], 6);
    encode_case(vec![0, 3, 4], 7);
    encode_case(vec![1, 3, 4], 8);
    encode_case(vec![2, 3, 4], 9);
    encode_case(vec![0, 1, 5], 10);
}

fn iter_case(k: usize, r: &[&[usize]]) {
    let mut iter = Iter::new(k);
    for (i, &expected) in r.iter().enumerate() {
        assert_eq!(iter.get().as_slice(), expected);
        assert_eq!(encode(&expected.to_vec()), i);
        iter.advance();
    }
}

#[test]
fn combinadics_iter_ok() {
    iter_case(0, &[&[]]);
    iter_case(1, &[&[0], &[1], &[2]]);
    iter_case(2, &[&[0, 1], &[0, 2], &[1, 2], &[0, 3], &[1, 3], &[2, 3]]);
    iter_case(
        3,
        &[
            &[0, 1, 2],
            &[0, 1, 3],
            &[0, 2, 3],
            &[1, 2, 3],
            &[0, 1, 4],
            &[0, 2, 4],
            &[1, 2, 4],
            &[0, 3, 4],
            &[1, 3, 4],
            &[2, 3, 4],
            &[0, 1, 5],
            &[0, 2, 5],
            &[1, 2, 5],
        ],
    );
}

fn iter_new_from_case(xs: &[usize], r: &[&[usize]]) {
    let mut iter = Iter::new_from(xs.to_vec());
    let start = encode(&xs.to_vec());
    for (i, &expected) in r.iter().enumerate() {
        assert_eq!(iter.get().as_slice(), expected);
        assert_eq!(encode(&expected.to_vec()), start + i);
        iter.advance();
    }
}

#[test]
fn iter_new_from_ok() {
    iter_new_from_case(&[], &[&[]]);
    iter_new_from_case(&[2], &[&[2], &[3], &[4]]);
    iter_new_from_case(&[0, 3], &[&[0, 3], &[1, 3], &[2, 3]]);
    iter_new_from_case(
        &[0, 2, 4],
        &[
            &[0, 2, 4],
            &[1, 2, 4],
            &[0, 3, 4],
            &[1, 3, 4],
            &[2, 3, 4],
            &[0, 1, 5],
            &[0, 2, 5],
            &[1, 2, 5],
        ],
    );
}
