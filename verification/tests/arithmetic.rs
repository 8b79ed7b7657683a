use number_encoding::combination;
use number_encoding::factorial;
use number_encoding::greatest_common_divisor;
use number_encoding::is_ordered_multiset;
use number_encoding::is_ordered_set;
use number_encoding::is_unordered_set;
use number_encoding::multinomial;

fn gcd_spec(a: usize, b: usize) -> usize {
    let mut r = 0;
    for i in 1..=std::cmp::max(a, b) {
        if a % i == 0 && b % i == 0 {
            r = std::cmp::max(r, i);
        }
    }
    r
}

#[test]
fn greatest_common_divisor_ok() {
    for a in 0..20 {
        for b in 0..20 {
            if a == 0 && b == 0 {
                continue;
            }
            assert_eq!(greatest_common_divisor(a, b), gcd_spec(a, b), "a={a} b={b}");
        }
    }
}

fn factorial_spec(n: usize) -> usize {
    if n == 0 {
        1
    } else {
        n * factorial_spec(n - 1)
    }
}

#[test]
fn factorial_ok() {
    for n in 0..10 {
        assert_eq!(factorial(n), factorial_spec(n), "n={n}");
    }
}

fn combination_spec(n: usize, k: usize) -> usize {
    if k > n {
        0
    } else {
        factorial(n) / (factorial(n - k) * factorial(k))
    }
}

#[test]
fn combination_ok() {
    for n in 0..5 {
        for k in 0..5 {
            assert_eq!(combination(n, k), combination_spec(n, k), "n={n} k={k}");
        }
    }
}

fn multinomial_case(xs: Vec<usize>, r: usize) {
    assert_eq!(multinomial(&xs), r, "xs={xs:?}");
}

#[test]
fn multinomial_ok() {
    multinomial_case(vec![], 1);
    multinomial_case(vec![0], 1);
    multinomial_case(vec![0, 0], 1);
    multinomial_case(vec![0, 1], 2);
    multinomial_case(vec![0, 1, 0], 3);
    multinomial_case(vec![0, 1, 0, 1], 6);
    multinomial_case(vec![0, 1, 1, 0, 2, 0], 60);
}

fn ordered_set_case(xs: Vec<usize>, r: bool) {
    assert_eq!(is_ordered_set(&xs), r, "xs={xs:?}");
}

#[test]
fn is_ordered_set_ok() {
    ordered_set_case(vec![0, 1], true);
    ordered_set_case(vec![0, 0], false);
    ordered_set_case(vec![1, 0], false);
}

fn ordered_multiset_case(xs: Vec<usize>, r: bool) {
    assert_eq!(is_ordered_multiset(&xs), r, "xs={xs:?}");
}

#[test]
fn is_ordered_multiset_ok() {
    ordered_multiset_case(vec![0, 1, 1], true);
    ordered_multiset_case(vec![0, 0, 1], true);
    ordered_multiset_case(vec![1, 0], false);
}

fn unordered_set_case(xs: Vec<usize>, r: bool) {
    assert_eq!(is_unordered_set(&xs), r, "xs={xs:?}");
}

#[test]
fn is_unordered_set_ok() {
    unordered_set_case(vec![0, 1], true);
    unordered_set_case(vec![0, 0], false);
    unordered_set_case(vec![1, 0], true);
}
