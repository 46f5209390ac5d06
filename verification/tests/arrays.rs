use algorithms_rust::coin_change_making::{change_making_with_coins, change_making_with_coins_2};
use algorithms_rust::server_cluster::get_max_consecutive_on;
use algorithms_rust::two_number_sum::{two_num_sum1, two_num_sum2};

#[test]
fn test_two_num_sum1_1() {
    let nums = vec![2, 7, 11, 15];
    let target = 9;
    let result = two_num_sum1(&nums, target);
    assert_eq!(result, true);
}

#[test]
fn test_two_num_sum1_2() {
    let nums = vec![3, 5, -4, 8, 11, 1, -1, 6];
    let expected = true;
    let result = two_num_sum1(&nums, 10);
    assert_eq!(result, expected);
}

#[test]
fn test_two_num_sum2_1() {
    let nums = vec![2, 7, 11, 15];
    let target = 9;
    let result = two_num_sum2(&nums, target);
    assert_eq!(result, vec![0, 1]);
}

// No pair of distinct entries gives the target.
#[test]
fn two_num_sum_no_pair() {
    let nums = vec![1, 2, 3];
    assert_eq!(two_num_sum1(&nums, 100), false);
    assert_eq!(two_num_sum2(&nums, 100), Vec::<i32>::new());
}

#[test]
fn test_coin_change_with_coins() {
    assert_eq!(change_making_with_coins(11, vec![1, 3, 4]), vec![(4, 2), (3, 1)]);
    assert_eq!(change_making_with_coins(6, vec![1, 3, 4]), vec![(3, 2)]);
    assert_eq!(change_making_with_coins(8, vec![1, 3, 4]), vec![(4, 2)]);
    assert_eq!(change_making_with_coins(10, vec![1, 3, 4]), vec![(4, 1), (3, 2)]);
    assert_eq!(change_making_with_coins(0, vec![1, 3, 4]), vec![]);

    assert_eq!(
        change_making_with_coins(63, vec![1, 5, 10, 25]),
        vec![(25, 2), (10, 1), (1, 3)]
    );
    assert_eq!(change_making_with_coins(100, vec![1, 5, 10, 25]), vec![(25, 4)]);
    assert_eq!(change_making_with_coins(30, vec![1, 5, 10, 25]), vec![(25, 1), (5, 1)]);

    // Greedy algorithm will fail for this case.
    assert_eq!(change_making_with_coins(30, vec![1, 10, 25]), vec![(10, 3)]);
}

// The link-following variant decomposes the amount exactly.
#[test]
fn change_making_with_coins_2_decomposes() {
    for (amount, coins) in [
        (11usize, vec![1usize, 3, 4]),
        (63, vec![1, 5, 10, 25]),
        (30, vec![1, 10, 25]),
        (0, vec![1, 2]),
    ] {
        let pairs = change_making_with_coins_2(amount, coins.clone());
        let total: usize = pairs.iter().map(|&(c, k)| c * k).sum();
        assert_eq!(total, amount);
        for &(c, k) in &pairs {
            assert!(coins.contains(&c));
            assert!(k >= 1);
        }
        for w in pairs.windows(2) {
            assert!(w[0].0 > w[1].0);
        }
    }
}

#[test]
fn test_get_max_consecutive_on_1() {
    let server_states = "00010";
    let k = 1;
    let result = get_max_consecutive_on(server_states, k);
    assert_eq!(result, 4);
}

#[test]
fn test_get_max_consecutive_on_2() {
    let server_states = "111010101100110";
    let k = 2;
    let result = get_max_consecutive_on(server_states, k);
    assert_eq!(result, 8);
}

// The stated sample: one flip switches the whole cluster on.
#[test]
fn get_max_consecutive_on_whole_cluster() {
    assert_eq!(get_max_consecutive_on("1001", 2), 4);
    assert_eq!(get_max_consecutive_on("", 3), -1);
    assert_eq!(get_max_consecutive_on("101", 0), -1);
}
