use number_encoding::factoradics::decode;
use number_encoding::factoradics::decode_mut;
use number_encoding::factoradics::encode;
use number_encoding::factoradics::Iter;

fn decode_case(d: usize, p: usize, e: &[usize]) {
    let mut r = Vec::with_capacity(d);
    for i in 0..d {
        r.push(i);
    }
    decode_mut(&mut r, p);
    assert_eq!(r, e, "p={}", p);
}

#[test]
fn factoradics_decode_ok() {
    decode_case(0, 0, &[]);
    decode_case(1, 0, &[0]);
    decode_case(2, 0, &[0, 1]);
    decode_case(2, 1, &[1, 0]);
    decode_case(3, 0, &[0, 1, 2]);
    decode_case(3, 1, &[0, 2, 1]);
    decode_case(3, 2, &[1, 0, 2]);
    decode_case(3, 3, &[1, 2, 0]);
    decode_case(3, 4, &[2, 0, 1]);
    decode_case(3, 5, &[2, 1, 0]);
}

fn encode_case(xs: Vec<usize>, p: usize) {
    assert_eq!(encode(&xs), p, "xs={:?}", xs);
}

#[test]
fn factoradics_encode_ok() {
    encode_case(vec![], 0);
    encode_case(vec![0], 0);
    encode_case(vec![0, 1], 0);
    encode_case(vec![1, 0], 1);
    encode_case(vec![0, 1, 2], 0);
    encode_case(vec![0, 2, 1], 1);
    encode_case(vec![1, 0, 2], 2);
    encode_case(vec![1, 2, 0], 3);
    encode_case(vec![2, 0, 1], 4);
    encode_case(vec![2, 1, 0], 5);
}

#[test]
fn decode_encode_bij() {
    for p in 0..24 {
        assert_eq!(encode(&decode(&vec![0, 1, 2, 3], p)), p);
    }
}

fn iter_case(r: &[&[usize]]) {
    let mut xs = r[0].to_vec();
    let mut iter = Iter::new(&xs);
    let mut i = 0;
    while iter.next(&mut xs) {
        assert_eq!(xs, r[i]);
        assert_eq!(encode(&xs), i);
        i += 1;
    }
    assert_eq!(r.len(), i);
    assert_eq!(xs, r[0]);
}

#[test]
fn factoradics_iter_ok() {
    iter_case(&[&[]]);
    iter_case(&[&[0]]);
    iter_case(&[&[0, 1], &[1, 0]]);
    iter_case(&[&[0, 1, 2], &[0, 2, 1], &[1, 0, 2], &[1, 2, 0], &[2, 0, 1], &[2, 1, 0]]);
}
