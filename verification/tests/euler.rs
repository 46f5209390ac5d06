use algorithms_rust::double_based_palindrome::double_based_palindrome_sum_below_n;
use algorithms_rust::factorial_digit_sum::factorial_digit_sum;
use algorithms_rust::fibonacci_number_with_digits::fibonacci_number_with_specified_digits;
use algorithms_rust::get_nth_prime::{get_nth_prime, get_nth_prime_2, sieve};
use algorithms_rust::largest_palindrome_product::find_largest_palindrome_product;
use algorithms_rust::largest_prime_factor::{find_largest_prime_factor, is_prime};
use algorithms_rust::names_scores::{name_score, names_total_score};
use algorithms_rust::smallest_evenly_divisible::{
    find_smallest_evenly_divisible_number, find_smallest_evenly_divisible_number_2,
};

#[test]
fn test_double_based_palindrome_sum_below_n() {
    let result = double_based_palindrome_sum_below_n(1000);
    assert_eq!(result, 1772);

    let result = double_based_palindrome_sum_below_n(1000000);
    assert_eq!(result, 872187);
}

#[test]
fn test_factorial_digit_sum() {
    let result = factorial_digit_sum(100);
    assert_eq!(result, 648u64)
}

#[test]
fn test_fibonacci_number_with_digits() {
    assert_eq!(fibonacci_number_with_specified_digits(1000), 4782);
}

#[test]
fn test_get_nth_prime() {
    let result: i32 = get_nth_prime();
    assert_eq!(result, 104743);
}

#[test]
fn test_get_nth_prime_2() {
    let result = get_nth_prime_2();
    assert_eq!(result, 104743);
}

#[test]
fn test_find_largest_palindrome_product() {
    let result = find_largest_palindrome_product();
    assert_eq!(result, 906609);
}

#[test]
fn test_find_largest_prime_factor() {
    let factor = find_largest_prime_factor(600851475143) as i32;
    assert_eq!(factor, 6857);
}

#[test]
fn test_find_smallest_evenly_divisible_number() {
    let result = find_smallest_evenly_divisible_number(20);
    assert_eq!(result, 232792560u64);
}

#[test]
fn test_find_smallest_evenly_divisible_number_2() {
    let result = find_smallest_evenly_divisible_number_2(20);
    assert_eq!(result, 232792560u64);
}

// The sieve yields the primes in order; the 26th prime is 101.
#[test]
fn sieve_small_primes() {
    let primes = sieve(30);
    assert_eq!(primes, vec![2, 3, 5, 7, 11, 13, 17, 19, 23, 29]);

    let primes = sieve(102);
    assert_eq!(primes.len(), 26);
    assert_eq!(primes[25], 101);
}

// Trial division agrees with a few known primes and composites.
#[test]
fn is_prime_examples() {
    assert!(is_prime(2));
    assert!(is_prime(3));
    assert!(!is_prime(0));
    assert!(!is_prime(1));
    assert!(!is_prime(91)); // 7 * 13
    assert!(is_prime(104743));
}

// The worked example: COLIN is worth 53, and in 938th place scores 49714.
#[test]
fn name_score_example() {
    assert_eq!(name_score("COLIN"), 53);
    let names = vec![
        "ANN".to_string(),
        "BOB".to_string(),
        "COLIN".to_string(),
    ];
    // 1*(1+14+14) + 2*(2+15+2) + 3*53 = 29 + 38 + 159
    assert_eq!(names_total_score(&names), 29 + 38 + 159);
}

// A factorial digit sum fully worked: 10! = 3628800, digits sum to 27.
#[test]
fn factorial_digit_sum_small() {
    assert_eq!(factorial_digit_sum(10), 27);
    assert_eq!(factorial_digit_sum(0), 1);
}

// The first term with two digits is the seventh (13).
#[test]
fn fibonacci_digits_small() {
    assert_eq!(fibonacci_number_with_specified_digits(2), 7);
    assert_eq!(
        algorithms_rust::fibonacci_number_with_digits::fibonacci_number_with_specified_digits_2(2),
        7
    );
    assert_eq!(
        algorithms_rust::fibonacci_number_with_digits::fibonacci_number_with_specified_digits_2(
            1000
        ),
        4782
    );
}
