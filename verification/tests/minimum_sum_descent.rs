use algorithms_rust::minimum_sum_descent::{
    calculate_minimum_sum_descent, calculate_minimum_sum_descent_2, calculate_minimum_sum_descent_3,
};

#[test]
fn minimum_sum_descent_test_calculate_minimum_sum_descent() {
    let result = calculate_minimum_sum_descent(vec![2, 5, 4, 1, 4, 7, 8, 6, 9, 6]);
    assert_eq!(vec![2, 5, 1, 6], result);

    let nums = vec![1, 2, 3, 4, 5, 6, 7, 8, 9, 10];
    assert_eq!(calculate_minimum_sum_descent(nums), vec![1, 2, 4, 7]);

    let nums = vec![1];
    assert_eq!(calculate_minimum_sum_descent(nums), vec![1]);

    let nums = vec![1, 1, 1, 1, 1, 1, 1, 1, 1, 1];
    assert_eq!(calculate_minimum_sum_descent(nums), vec![1, 1, 1, 1]);

    let nums = vec![7, 3, 8, 8, 1, 0, 2, 7, 4, 4, 4, 5, 2, 6, 5];
    assert_eq!(calculate_minimum_sum_descent(nums), vec![7, 3, 1, 4, 2]);
}

#[test]
fn minimum_sum_descent2_test_calculate_minimum_sum_descent() {
    let result = algorithms_rust::minimum_sum_descent2::calculate_minimum_sum_descent(vec![
        2, 5, 4, 1, 4, 7, 8, 6, 9, 6,
    ]);
    assert_eq!(vec![2, 5, 1, 6], result);

    let nums = vec![1, 2, 3, 4, 5, 6, 7, 8, 9, 10];
    assert_eq!(
        algorithms_rust::minimum_sum_descent2::calculate_minimum_sum_descent(nums),
        vec![1, 2, 4, 7]
    );

    let nums = vec![1];
    assert_eq!(
        algorithms_rust::minimum_sum_descent2::calculate_minimum_sum_descent(nums),
        vec![1]
    );

    let nums = vec![1, 1, 1, 1, 1, 1, 1, 1, 1, 1];
    assert_eq!(
        algorithms_rust::minimum_sum_descent2::calculate_minimum_sum_descent(nums),
        vec![1, 1, 1, 1]
    );

    let nums = vec![7, 3, 8, 8, 1, 0, 2, 7, 4, 4, 4, 5, 2, 6, 5];
    assert_eq!(
        algorithms_rust::minimum_sum_descent2::calculate_minimum_sum_descent(nums),
        vec![7, 3, 1, 4, 2]
    );
}

// The other two table variants find descents of the same minimal total.
#[test]
fn descent_variants_agree_on_total() {
    let cases = vec![
        vec![2, 5, 4, 1, 4, 7, 8, 6, 9, 6],
        vec![1, 2, 3, 4, 5, 6, 7, 8, 9, 10],
        vec![1],
        vec![3, 2, 4, 1, 9, 8, 7, 6, 5, 2],
    ];
    for nums in cases {
        let a: i32 = calculate_minimum_sum_descent(nums.clone()).iter().sum();
        let b: i32 = calculate_minimum_sum_descent_2(nums.clone()).iter().sum();
        let c: i32 = calculate_minimum_sum_descent_3(nums.clone()).iter().sum();
        let d: i32 = algorithms_rust::minimum_sum_descent2::calculate_minimum_sum_descent(nums)
            .iter()
            .sum();
        assert_eq!(a, b);
        assert_eq!(a, c);
        assert_eq!(a, d);
    }
}

// The returned entries really are a descent: each one sits in the next row,
// directly below or below-right of the one before it.
#[test]
fn descent_path_is_adjacent() {
    let nums = vec![2, 5, 4, 1, 4, 7, 8, 6, 9, 6];
    let path = calculate_minimum_sum_descent_3(nums.clone());
    assert_eq!(path.len(), 4);

    // rebuild the triangle and check each path entry appears at an adjacent
    // column
    let triangle = vec![
        vec![nums[0]],
        vec![nums[1], nums[2]],
        vec![nums[3], nums[4], nums[5]],
        vec![nums[6], nums[7], nums[8], nums[9]],
    ];
    let mut col = 0;
    assert_eq!(path[0], triangle[0][0]);
    for i in 1..4 {
        let stay = triangle[i][col] == path[i];
        let step = triangle[i][col + 1] == path[i];
        assert!(stay || step);
        if !stay {
            col += 1;
        }
    }
}
