use mandelbrot::gcd::{gcd, gcd_of_all};

#[test]
fn gcd_of_small_numbers() {
    assert_eq!(gcd(15, 5), 5);
    assert_eq!(gcd(5, 15), 5);
    assert_eq!(gcd(14, 15), 1);
    assert_eq!(gcd(12, 18), 6);
    assert_eq!(gcd(1, 1), 1);
    assert_eq!(gcd(1, 987_654_321), 1);
}

#[test]
fn gcd_of_products_of_primes() {
    assert_eq!(gcd(2 * 3 * 5 * 11 * 17, 3 * 7 * 11 * 13 * 19), 3 * 11);
    assert_eq!(gcd(2 * 2 * 2 * 3, 2 * 2 * 3 * 3), 2 * 2 * 3);
}

#[test]
fn gcd_of_a_number_with_itself() {
    assert_eq!(gcd(7, 7), 7);
    assert_eq!(gcd(u64::MAX, u64::MAX), u64::MAX);
}

#[test]
fn gcd_at_the_top_of_the_range() {
    assert_eq!(gcd(u64::MAX, 1), 1);
    assert_eq!(gcd(u64::MAX, u64::MAX - 1), 1);
    assert_eq!(gcd(1 << 63, 1 << 40), 1 << 40);
}

#[test]
fn gcd_divides_both_and_is_greatest() {
    let n: u64 = 360;
    let m: u64 = 84;
    let g: u64 = gcd(n, m);
    assert_eq!(g, 12);
    assert_eq!(n % g, 0);
    assert_eq!(m % g, 0);
    let mut d: u64 = g + 1;
    while d <= m {
        assert!(n % d != 0 || m % d != 0);
        d += 1;
    }
}

#[test]
fn gcd_of_a_list() {
    assert_eq!(gcd_of_all(&[42]), 42);
    assert_eq!(gcd_of_all(&[42, 56]), 14);
    assert_eq!(gcd_of_all(&[42, 56, 35]), 7);
    assert_eq!(gcd_of_all(&[42, 56, 35, 9]), 1);
    assert_eq!(gcd_of_all(&[8, 8, 8]), 8);
}
