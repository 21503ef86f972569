use q_rs::number::{
    base_exp, continued_fraction, convergent, coprime, find_order, gcd, is_odd, is_prime,
    is_trivial, modexp, modexp2, to_fraction,
};

#[test]
fn test_is_prime() {
    assert!(is_prime(2));
    assert!(is_prime(3));
    assert!(is_prime(5));
    assert!(is_prime(7));
    assert!(is_prime(11));
    assert!(is_prime(13));
}

#[test]
fn test_is_prime_composites() {
    assert!(!is_prime(0));
    assert!(!is_prime(1));
    assert!(!is_prime(4));
    assert!(!is_prime(9));
    assert!(!is_prime(15));
    assert!(!is_prime(21));
    assert!(!is_prime(25));
}

#[test]
fn test_coprime() {
    assert!(gcd(15, coprime(15)) == 1);
    assert!(gcd(21, coprime(21)) == 1);
    assert!(gcd(35, coprime(35)) == 1);
    assert!(gcd(51, coprime(51)) == 1);
}

#[test]
fn test_coprime_repeated_draws() {
    for _ in 0..50 {
        let a = coprime(15);
        assert_eq!(gcd(15, a), 1);
        assert!(2 <= a && a <= 13);
    }
}

#[test]
fn test_gcd() {
    assert_eq!(gcd(15, 2), 1);
    assert_eq!(gcd(15, 3), 3);
    assert_eq!(gcd(15, 4), 1);
    assert_eq!(gcd(15, 5), 5);
    assert_eq!(gcd(15, 6), 3);
    assert_eq!(gcd(15, 7), 1);
    assert_eq!(gcd(15, 8), 1);
    assert_eq!(gcd(15, 9), 3);
    assert_eq!(gcd(15, 10), 5);
    assert_eq!(gcd(15, 11), 1);
    assert_eq!(gcd(15, 12), 3);
    assert_eq!(gcd(15, 13), 1);
    assert_eq!(gcd(15, 14), 1);
}

#[test]
fn test_base_exp() {
    assert_eq!(base_exp(25), (5, 2, true));
    assert_eq!(base_exp(27), (3, 3, true));
    assert_eq!(base_exp(36), (6, 2, true));
    assert_eq!(base_exp(49), (7, 2, true));
}

#[test]
fn test_base_exp_not_a_power() {
    assert_eq!(base_exp(15), (0, 0, false));
    assert_eq!(base_exp(21), (0, 0, false));
    assert_eq!(base_exp(2), (0, 0, false));
    assert_eq!(base_exp(16), (2, 4, true));
    assert_eq!(base_exp(64), (2, 6, true));
}

#[test]
fn test_modexp() {
    assert_eq!(modexp(7, 0, 15), 1);
    assert_eq!(modexp(7, 1, 15), 7);
    assert_eq!(modexp(7, 2, 15), 4);
    assert_eq!(modexp(7, 3, 15), 13);
    assert_eq!(modexp(7, 4, 15), 1);
    assert_eq!(modexp(0, 3, 15), 0);
}

#[test]
fn test_modexp2() {
    assert_eq!(modexp2(7, 0, 15), 7);
    assert_eq!(modexp2(7, 1, 15), 4);
    assert_eq!(modexp2(7, 2, 15), 1);
    assert_eq!(modexp2(7, 3, 15), 1);
    assert_eq!(modexp2(7, 4, 15), 1);
    assert_eq!(modexp2(7, 5, 15), 1);
    assert_eq!(modexp2(7, 6, 15), 1);
    assert_eq!(modexp2(7, 7, 15), 1);
    assert_eq!(modexp2(7, 8, 15), 1);
    assert_eq!(modexp2(7, 9, 15), 1);
    assert_eq!(modexp2(7, 10, 15), 1);
    assert_eq!(modexp2(7, 11, 15), 1);
    assert_eq!(modexp2(7, 12, 15), 1);
    assert_eq!(modexp2(7, 13, 15), 1);
    assert_eq!(modexp2(7, 14, 15), 1);
    assert_eq!(modexp2(0, 15, 15), 0);
}

#[test]
fn test_continued_fraction() {
    assert_eq!(continued_fraction(0, 1), [0]);
    assert_eq!(continued_fraction(1, 16), [0, 16]);
    assert_eq!(continued_fraction(4, 16), [0, 4]);
    assert_eq!(continued_fraction(7, 16), [0, 2, 3, 2]);
    assert_eq!(continued_fraction(13, 16), [0, 1, 4, 3]);
    assert_eq!(continued_fraction(42857, 100000), [0, 2, 2, 1]);
    assert_eq!(continued_fraction(10923, 65536), [0, 5, 1]);
}

#[test]
fn test_convergent() {
    assert_eq!(convergent(&continued_fraction(1, 16)), (1, 16));
    assert_eq!(convergent(&continued_fraction(4, 16)), (1, 4));
    assert_eq!(convergent(&continued_fraction(7, 16)), (7, 16));
    assert_eq!(convergent(&continued_fraction(13, 16)), (13, 16));
    assert_eq!(convergent(&continued_fraction(42857, 100000)), (3, 7));
    assert_eq!(convergent(&continued_fraction(10923, 65536)), (1, 6));
}

#[test]
fn test_convergent_literal_quotients() {
    assert_eq!(convergent(&[0, 16]), (1, 16));
    assert_eq!(convergent(&[0, 2, 3, 1, 1]), (7, 16));
    assert_eq!(convergent(&[3]), (3, 1));
}

#[test]
fn test_to_fraction() {
    assert_eq!(to_fraction(&['0', '1', '0']), (2, 8));
    assert_eq!(to_fraction(&['1', '0', '0']), (4, 8));
    assert_eq!(to_fraction(&[]), (0, 1));
    assert_eq!(to_fraction(&['1', '1', '1', '1']), (15, 16));
}

#[test]
fn test_find_order() {
    assert_eq!(find_order(7, 15, &['0', '1', '0']), (1, 4, true));
    assert_eq!(find_order(7, 15, &['1', '0', '0']), (1, 2, false));
    assert_eq!(find_order(7, 15, &['1', '1', '0']), (3, 4, true));
}

#[test]
fn test_find_order_empty() {
    assert_eq!(find_order(7, 15, &[]), (0, 1, false));
}

#[test]
fn test_is_trivial() {
    assert_eq!(is_trivial(15, &[3, 15]), false);
    assert_eq!(is_trivial(15, &[1, 15]), true);
    assert_eq!(is_trivial(15, &[]), true);
    assert_eq!(is_trivial(15, &[5]), false);
}

#[test]
fn test_is_odd() {
    assert!(is_odd(15));
    assert!(!is_odd(14));
    assert!(!is_odd(0));
    assert!(is_odd(1));
}
