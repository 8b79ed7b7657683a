use number_encoding::multinadics::decode;
use number_encoding::multinadics::encode;
use number_encoding::multinadics::Iter;

fn decode_case(xs: &[usize], p: usize, e: &[usize]) {
    let r = decode(&xs.to_vec(), p);
    assert_eq!(r, e, "xs={xs:?} p={p}");
}

#[test]
fn multinadics_decode_ok() {
    decode_case(&[], 0, &[]);
    decode_case(&[0], 0, &[0]);
    decode_case(&[0, 1], 0, &[0, 1]);
    decode_case(&[0, 1], 1, &[1, 0]);
    decode_case(&[0, 0], 0, &[0, 0]);
    decode_case(&[0, 0, 1], 0, &[0, 0, 1]);
    decode_case(&[0, 0, 1], 1, &[0, 1, 0]);
    decode_case(&[0, 0, 1], 2, &[1, 0, 0]);
    decode_case(&[0, 0, 1, 1], 0, &[0, 0, 1, 1]);
    decode_case(&[0, 0, 1, 1], 1, &[0, 1, 0, 1]);
    decode_case(&[0, 0, 1, 1], 2, &[0, 1, 1, 0]);
    decode_case(&[0, 0, 1, 1], 3, &[1, 0, 0, 1]);
    decode_case(&[0, 0, 1, 1], 4, &[1, 0, 1, 0]);
    decode_case(&[0, 0, 1, 1], 5, &[1, 1, 0, 0]);
    decode_case(&[0, 0, 0, 1, 1, 2], 0, &[0, 0, 0, 1, 1, 2]);
    decode_case(&[0, 0, 0, 1, 1, 2], 1, &[0, 0, 0, 1, 2, 1]);
    decode_case(&[0, 0, 0, 1, 1, 2], 2, &[0, 0, 0, 2, 1, 1]);
    decode_case(&[0, 0, 0, 1, 1, 2], 3, &[0, 0, 1, 0, 1, 2]);
    decode_case(&[0, 0, 0, 1, 1, 2], 4, &[0, 0, 1, 0, 2, 1]);
    decode_case(&[0, 0, 0, 1, 1, 2], 5, &[0, 0, 1, 1, 0, 2]);
    decode_case(&[0, 0, 0, 1, 1, 2], 6, &[0, 0, 1, 1, 2, 0]);
    decode_case(&[0, 0, 0, 1, 1, 2], 7, &[0, 0, 1, 2, 0, 1]);
    decode_case(&[0, 0, 0, 1, 1, 2], 8, &[0, 0, 1, 2, 1, 0]);
    decode_case(&[0, 0, 0, 1, 1, 2], 9, &[0, 0, 2, 0, 1, 1]);
    decode_case(&[0, 0, 0, 1, 1, 2], 10, &[0, 0, 2, 1, 0, 1]);
}

fn encode_case(xs: Vec<usize>, p: usize) {
    assert_eq!(encode(&xs), p, "xs={xs:?}");
}

#[test]
fn multinadics_encode_ok() {
    encode_case(vec![], 0);
    encode_case(vec![0], 0);
    encode_case(vec![0, 1], 0);
    encode_case(vec![1, 0], 1);
    encode_case(vec![0, 0], 0);
    encode_case(vec![0, 0, 1], 0);
    encode_case(vec![0, 1, 0], 1);
    encode_case(vec![1, 0, 0], 2);
    encode_case(vec![0, 0, 1, 1], 0);
    encode_case(vec![0, 1, 0, 1], 1);
    encode_case(vec![0, 1, 1, 0], 2);
    encode_case(vec![1, 0, 0, 1], 3);
    encode_case(vec![1, 0, 1, 0], 4);
    encode_case(vec![1, 1, 0, 0], 5);
}

fn iter_case(r: &[&[usize]]) {
    let mut xs = r[0].to_vec();
    let mut iter = Iter::new(&xs);
    let mut i = 0;
    while iter.next(&mut xs) {
        assert_eq!(xs, r[i]);
        assert_eq!(encode(&xs), i);
        i += 1;
    }
    assert_eq!(r.len(), i);
    assert_eq!(xs, r[0]);
}

#[test]
fn multinadics_iter_ok() {
    iter_case(&[&[]]);
    iter_case(&[&[0]]);
    iter_case(&[&[0, 1], &[1, 0]]);
    iter_case(&[&[0, 0, 1], &[0, 1, 0], &[1, 0, 0]]);
    iter_case(&[&[0, 1, 2], &[0, 2, 1], &[1, 0, 2], &[1, 2, 0], &[2, 0, 1], &[2, 1, 0]]);
    iter_case(&[
        &[0, 0, 1, 1],
        &[0, 1, 0, 1],
        &[0, 1, 1, 0],
        &[1, 0, 0, 1],
        &[1, 0, 1, 0],
        &[1, 1, 0, 0],
    ]);
}
