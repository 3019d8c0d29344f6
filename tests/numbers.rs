use exercises::armstrong_numbers::is_armstrong_number;
use exercises::grains::{square, total};
use exercises::leap::is_leap_year;
use exercises::nth_prime::{is_prime, nth};
use exercises::prime_factors::factors;
use exercises::raindrops::raindrops;
use exercises::sum_of_multiples::{sum_of_multiples, sum_of_multiples1};

#[test]
fn test_nth() {
    assert_eq!(nth(0), 2);
    assert_eq!(nth(10), 31);
    assert_eq!(nth(100), 547);
    assert_eq!(nth(1000), 7927);
}

#[test]
fn test_is_prime() {
    assert_eq!(is_prime(961), false);
    assert_eq!(is_prime(97), true);
}

#[test]
fn small_numbers_are_not_prime() {
    assert!(!is_prime(0));
    assert!(!is_prime(1));
    assert!(is_prime(2));
    assert!(!is_prime(4));
    assert!(is_prime(4294967291));
}

#[test]
fn leap_years() {
    assert!(is_leap_year(1996));
    assert!(!is_leap_year(1900));
    assert!(is_leap_year(2000));
    assert!(!is_leap_year(2015));
}

#[test]
fn grains_on_squares() {
    assert_eq!(square(1), 1);
    assert_eq!(square(2), 2);
    assert_eq!(square(16), 32768);
    assert_eq!(square(64), 9_223_372_036_854_775_808);
    assert_eq!(total(), 18_446_744_073_709_551_615);
}

#[test]
fn armstrong_numbers() {
    assert!(is_armstrong_number(0));
    assert!(is_armstrong_number(5));
    assert!(!is_armstrong_number(10));
    assert!(is_armstrong_number(153));
    assert!(!is_armstrong_number(100));
    assert!(is_armstrong_number(9_926_315));
    assert!(!is_armstrong_number(4_106_098_957));
}

#[test]
fn prime_factors_of_numbers() {
    assert_eq!(factors(1), Vec::<u64>::new());
    assert_eq!(factors(0), vec![0]);
    assert_eq!(factors(2), vec![2]);
    assert_eq!(factors(9), vec![3, 3]);
    assert_eq!(factors(8), vec![2, 2, 2]);
    assert_eq!(factors(901255), vec![5, 17, 23, 461]);
    assert_eq!(factors(93_819_012_551), vec![11, 9539, 894_119]);
}

#[test]
fn raindrop_sounds() {
    assert_eq!(raindrops(1), "1");
    assert_eq!(raindrops(3), "Pling");
    assert_eq!(raindrops(5), "Plang");
    assert_eq!(raindrops(7), "Plong");
    assert_eq!(raindrops(105), "PlingPlangPlong");
    assert_eq!(raindrops(52), "52");
    assert_eq!(raindrops(0), "PlingPlangPlong");
    assert_eq!(raindrops(3125), "Plang");
}

#[test]
fn sums_of_multiples() {
    assert_eq!(sum_of_multiples(1, &[3, 5]), 0);
    assert_eq!(sum_of_multiples(10, &[3, 5]), 23);
    assert_eq!(sum_of_multiples(20, &[3, 5]), 78);
    assert_eq!(sum_of_multiples(15, &[4, 6]), 30);
    assert_eq!(sum_of_multiples(10000, &[43, 47]), 2203160);
    assert_eq!(sum_of_multiples(10, &[0, 3]), 18);
    assert_eq!(sum_of_multiples(10, &[]), 0);
}

#[test]
fn sums_of_multiples_by_marking() {
    assert_eq!(sum_of_multiples1(1, &[3, 5]), 0);
    assert_eq!(sum_of_multiples1(10, &[3, 5]), 23);
    assert_eq!(sum_of_multiples1(15, &[4, 6]), 30);
    assert_eq!(sum_of_multiples1(10000, &[43, 47]), 2203160);
    assert_eq!(sum_of_multiples1(10, &[0, 3]), 18);
    assert_eq!(sum_of_multiples1(0, &[1]), 0);
}

#[test]
fn largest_number_is_not_armstrong() {
    assert!(!is_armstrong_number(u32::MAX));
    assert!(is_armstrong_number(4_210_818));
}
