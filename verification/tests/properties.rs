use number_encoding::combinadics;
use number_encoding::combination;
use number_encoding::factorial;
use number_encoding::greatest_common_divisor;
use number_encoding::multinadics;
use number_encoding::multinomial;
use number_encoding::sequences;

#[test]
fn combinadics_round_trip() {
    for k in 1..=4 {
        for n in 0..60 {
            let xs = combinadics::decode(n, k);
            assert_eq!(combinadics::encode(&xs), n, "n={n} k={k}");
            assert_eq!(combinadics::decode(combinadics::encode(&xs), k), xs);
        }
    }
}

#[test]
fn binomials_sum_to_powers_of_two() {
    for n in 0..=20 {
        let mut sum: usize = 0;
        for k in 0..=n {
            sum += combination(n, k);
        }
        assert_eq!(sum, 1usize << n, "n={n}");
    }
}

#[test]
fn sequences_round_trip() {
    for s in 0..=300 {
        let xs = sequences::decode(s);
        assert_eq!(sequences::decode_len(s), xs.len(), "s={s}");
        assert_eq!(sequences::encode(&xs), s, "s={s}");
    }
}

#[test]
fn sequences_boundary() {
    let s = sequences::MAX_SEQUENCE;
    let xs = sequences::decode(s);
    assert_eq!(xs.len(), sequences::MAX_LENGTH);
    assert_eq!(sequences::decode_len(s), sequences::MAX_LENGTH);
    assert_eq!(sequences::encode(&xs), s);
    assert!(xs.iter().all(|&b| b));
    assert_eq!(sequences::decode(0), Vec::<bool>::new());
    assert_eq!(sequences::encode(&Vec::new()), 0);
}

#[test]
fn combinadics_iter_matches_decode() {
    let k = 3;
    let r = 5;
    let mut iter = combinadics::Iter::new_from(combinadics::decode(r, k));
    for i in 0..12 {
        assert_eq!(iter.get(), &combinadics::decode(r + i, k), "i={i}");
        iter.advance();
    }
}

#[test]
fn factoradics_iter_visits_all() {
    let mut xs = vec![10, 20, 30, 40];
    let saved = xs.clone();
    let mut iter = number_encoding::factoradics::Iter::new(&xs);
    let mut count = 0;
    let mut previous: Option<Vec<usize>> = None;
    while iter.next(&mut xs) {
        if let Some(p) = previous {
            assert!(p < xs, "not increasing at step {count}");
        }
        previous = Some(xs.clone());
        count += 1;
    }
    assert_eq!(count, factorial(4));
    assert_eq!(xs, saved);
}

#[test]
fn multinadics_iter_visits_all() {
    let mut xs = vec![0, 0, 1, 2, 2];
    let saved = xs.clone();
    let m = multinomial(&xs);
    let mut iter = multinadics::Iter::new(&xs);
    let mut count = 0;
    let mut previous: Option<Vec<usize>> = None;
    while iter.next(&mut xs) {
        if let Some(p) = previous {
            assert!(p < xs, "not increasing at step {count}");
        }
        previous = Some(xs.clone());
        count += 1;
    }
    assert_eq!(count, m);
    assert_eq!(xs, saved);
}

#[test]
fn multinadics_agrees_with_factoradics_on_distinct() {
    let xs = vec![3, 5, 8, 13];
    for p in 0..factorial(4) {
        let a = number_encoding::factoradics::decode(&xs, p);
        let b = multinadics::decode(&xs, p);
        assert_eq!(a, b, "p={p}");
        assert_eq!(number_encoding::factoradics::encode(&a), multinadics::encode(&a));
    }
}

#[test]
fn boundary_cases() {
    assert_eq!(combination(4, 5), 0);
    assert_eq!(greatest_common_divisor(0, 5), 5);
    assert_eq!(greatest_common_divisor(5, 0), 5);
    assert_eq!(factorial(0), 1);
    // Empty objects all round-trip through rank zero.
    assert_eq!(combinadics::decode(0, 0), Vec::<usize>::new());
    assert_eq!(combinadics::encode(&Vec::new()), 0);
    let empty: Vec<usize> = Vec::new();
    assert_eq!(number_encoding::factoradics::decode(&empty, 0), empty);
    assert_eq!(number_encoding::factoradics::encode(&empty), 0);
    assert_eq!(multinadics::decode(&empty, 0), empty);
    assert_eq!(multinadics::encode(&empty), 0);
    assert_eq!(multinomial(&empty), 1);
}

#[test]
fn combinadics_large_values() {
    // Two-element combinations with ranks in the millions.
    for n in [1_000_000usize, 9_999_999, 10_000_000] {
        let xs = combinadics::decode(n, 2);
        assert!(xs[0] < xs[1]);
        assert_eq!(combinadics::encode(&xs), n);
    }
    // A single slot holds the rank itself.
    assert_eq!(combinadics::decode(987_654_321, 1), vec![987_654_321]);
}

#[test]
fn factoradics_large_values() {
    // The largest rank of a 20-element permutation reverses the template.
    let xs: Vec<usize> = (0..20).collect();
    let p = factorial(20) - 1;
    let ys = number_encoding::factoradics::decode(&xs, p);
    let reversed: Vec<usize> = (0..20).rev().collect();
    assert_eq!(ys, reversed);
    assert_eq!(number_encoding::factoradics::encode(&ys), p);
    assert_eq!(number_encoding::factoradics::encode(&xs), 0);
}

#[test]
fn multinadics_round_trip_with_repeats() {
    let xs = vec![0, 0, 1, 1, 2, 2];
    let m = multinomial(&xs);
    assert_eq!(m, 90);
    for p in 0..m {
        let ys = multinadics::decode(&xs, p);
        assert_eq!(multinadics::encode(&ys), p, "p={p}");
    }
}

#[test]
fn gcd_common_divisor_properties() {
    for a in 0..30 {
        for b in 0..30 {
            if a == 0 && b == 0 {
                continue;
            }
            let g = greatest_common_divisor(a, b);
            assert!(g > 0);
            assert_eq!(a % g, 0, "a={a} b={b}");
            assert_eq!(b % g, 0, "a={a} b={b}");
        }
    }
}
