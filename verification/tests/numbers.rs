use algorithms_rust::computing_nth_fibonacci_number::{
    compute_nth_fibonacci_number_from_bottom_up, compute_nth_fibonacci_number_from_bottom_up_2,
    compute_nth_fibonacci_number_from_top_down,
};
use algorithms_rust::multiples_3_5::{
    sum_multiples_3_5_below_1000, sum_multiples_3_5_below_1000_functional,
};
use algorithms_rust::single_number_iii::find_single_numbers;
use algorithms_rust::sum_square_difference::sum_square_difference;

#[test]
fn test_compute_nth_fibonacci_number() {
    let result = compute_nth_fibonacci_number_from_bottom_up(0);
    assert_eq!(result, 0);
    let result = compute_nth_fibonacci_number_from_bottom_up(1);
    assert_eq!(result, 1);
    let result = compute_nth_fibonacci_number_from_bottom_up(2);
    assert_eq!(result, 1);
    let result = compute_nth_fibonacci_number_from_bottom_up(3);
    assert_eq!(result, 2);
    let result = compute_nth_fibonacci_number_from_bottom_up(4);
    assert_eq!(result, 3);
    let result = compute_nth_fibonacci_number_from_bottom_up(5);
    assert_eq!(result, 5);
    let result = compute_nth_fibonacci_number_from_bottom_up(6);
    assert_eq!(result, 8);
    let result = compute_nth_fibonacci_number_from_bottom_up(7);
    assert_eq!(result, 13);
    let result = compute_nth_fibonacci_number_from_bottom_up(8);
    assert_eq!(result, 21);
    let result = compute_nth_fibonacci_number_from_bottom_up(9);
    assert_eq!(result, 34);
    let result = compute_nth_fibonacci_number_from_bottom_up(10);
    assert_eq!(result, 55);
    let result = compute_nth_fibonacci_number_from_bottom_up(11);
    assert_eq!(result, 89);
    let result = compute_nth_fibonacci_number_from_bottom_up(12);
    assert_eq!(result, 144);
    let result = compute_nth_fibonacci_number_from_bottom_up(13);
    assert_eq!(result, 233);
    let result = compute_nth_fibonacci_number_from_bottom_up(14);
    assert_eq!(result, 377);
    let result = compute_nth_fibonacci_number_from_bottom_up(15);
    assert_eq!(result, 610);
    let result = compute_nth_fibonacci_number_from_bottom_up(16);
    assert_eq!(result, 987);
    let result = compute_nth_fibonacci_number_from_bottom_up(17);
    assert_eq!(result, 1597);
    let result = compute_nth_fibonacci_number_from_bottom_up(18);
    assert_eq!(result, 2584);
    let result = compute_nth_fibonacci_number_from_bottom_up(19);
    assert_eq!(result, 4181);
    let result = compute_nth_fibonacci_number_from_bottom_up(20);
    assert_eq!(result, 6765);
}

#[test]
fn test_computing_fibonacci() {
    let result = compute_nth_fibonacci_number_from_bottom_up_2(0);
    assert_eq!(result, 0);
    let result = compute_nth_fibonacci_number_from_bottom_up_2(1);
    assert_eq!(result, 1);
    let result = compute_nth_fibonacci_number_from_bottom_up_2(2);
    assert_eq!(result, 1);
    let result = compute_nth_fibonacci_number_from_bottom_up_2(3);
    assert_eq!(result, 2);
    let result = compute_nth_fibonacci_number_from_bottom_up_2(4);
    assert_eq!(result, 3);
    let result = compute_nth_fibonacci_number_from_bottom_up_2(5);
    assert_eq!(result, 5);
    let result = compute_nth_fibonacci_number_from_bottom_up_2(6);
    assert_eq!(result, 8);
    let result = compute_nth_fibonacci_number_from_bottom_up_2(7);
    assert_eq!(result, 13);
    let result = compute_nth_fibonacci_number_from_bottom_up_2(8);
    assert_eq!(result, 21);
    let result = compute_nth_fibonacci_number_from_bottom_up_2(9);
    assert_eq!(result, 34);
    let result = compute_nth_fibonacci_number_from_bottom_up_2(10);
    assert_eq!(result, 55);
    let result = compute_nth_fibonacci_number_from_bottom_up_2(11);
    assert_eq!(result, 89);
    let result = compute_nth_fibonacci_number_from_bottom_up_2(12);
    assert_eq!(result, 144);
    let result = compute_nth_fibonacci_number_from_bottom_up_2(13);
    assert_eq!(result, 233);
    let result = compute_nth_fibonacci_number_from_bottom_up_2(14);
    assert_eq!(result, 377);
    let result = compute_nth_fibonacci_number_from_bottom_up_2(15);
    assert_eq!(result, 610);
    let result = compute_nth_fibonacci_number_from_bottom_up_2(16);
    assert_eq!(result, 987);
    let result = compute_nth_fibonacci_number_from_bottom_up_2(17);
    assert_eq!(result, 1597);
    let result = compute_nth_fibonacci_number_from_bottom_up_2(18);
    assert_eq!(result, 2584);
    let result = compute_nth_fibonacci_number_from_bottom_up_2(19);
    assert_eq!(result, 4181);
    let result = compute_nth_fibonacci_number_from_bottom_up_2(20);
    assert_eq!(result, 6765);
}

#[test]
fn test_compute_nth_fibonacci_number_from_top_down() {
    let result = compute_nth_fibonacci_number_from_top_down(0);
    assert_eq!(result, 0);
    let result = compute_nth_fibonacci_number_from_top_down(1);
    assert_eq!(result, 1);
    let result = compute_nth_fibonacci_number_from_top_down(2);
    assert_eq!(result, 1);
    let result = compute_nth_fibonacci_number_from_top_down(3);
    assert_eq!(result, 2);
    let result = compute_nth_fibonacci_number_from_top_down(4);
    assert_eq!(result, 3);
    let result = compute_nth_fibonacci_number_from_top_down(5);
    assert_eq!(result, 5);
    let result = compute_nth_fibonacci_number_from_top_down(6);
    assert_eq!(result, 8);
    let result = compute_nth_fibonacci_number_from_top_down(7);
    assert_eq!(result, 13);
    let result = compute_nth_fibonacci_number_from_top_down(8);
    assert_eq!(result, 21);
    let result = compute_nth_fibonacci_number_from_top_down(9);
    assert_eq!(result, 34);
    let result = compute_nth_fibonacci_number_from_top_down(10);
    assert_eq!(result, 55);
    let result = compute_nth_fibonacci_number_from_top_down(11);
    assert_eq!(result, 89);
    let result = compute_nth_fibonacci_number_from_top_down(12);
    assert_eq!(result, 144);
    let result = compute_nth_fibonacci_number_from_top_down(13);
    assert_eq!(result, 233);
    let result = compute_nth_fibonacci_number_from_top_down(14);
    assert_eq!(result, 377);
    let result = compute_nth_fibonacci_number_from_top_down(15);
    assert_eq!(result, 610);
    let result = compute_nth_fibonacci_number_from_top_down(16);
    assert_eq!(result, 987);
    let result = compute_nth_fibonacci_number_from_top_down(17);
    assert_eq!(result, 1597);
    let result = compute_nth_fibonacci_number_from_top_down(18);
    assert_eq!(result, 2584);
    let result = compute_nth_fibonacci_number_from_top_down(19);
    assert_eq!(result, 4181);
}

#[test]
fn test_sum_multiples_3_5_below_1000() {
    let result = sum_multiples_3_5_below_1000();
    assert_eq!(result, 233168);
}

#[test]
fn test_sum_multiples_3_5_below_1000_functional() {
    let result = sum_multiples_3_5_below_1000_functional();
    assert_eq!(result, 233168);
}

#[test]
fn test_sum_square_difference() {
    let result = sum_square_difference();
    assert_eq!(result, 25164150u64)
}

#[test]
fn test_single_number_iii() {
    let nums = vec![1, 2, 1, 3, 2, 5];
    let res = find_single_numbers(nums);
    assert_eq!(res, vec![3, 5]);
}
