use algorithms_rust::coin_change_making::change_making;
use algorithms_rust::coin_collecting::{coin_collecting, coin_collecting_with_inaccessible_cells};
use algorithms_rust::coin_row::coin_row;
use algorithms_rust::knapsack::{knapsack, knapsack_memoization, knapsack_memoization_2, Item};

#[test]
fn test_change_making() {
    assert_eq!(change_making(11, vec![1, 3, 4]), 3);
    assert_eq!(change_making(6, vec![1, 3, 4]), 2);
    assert_eq!(change_making(8, vec![1, 3, 4]), 2);
    assert_eq!(change_making(10, vec![1, 3, 4]), 3);
}

#[test]
fn test_coin_collecting() {
    let c = vec![vec![0, 0, 0], vec![0, 1, 0], vec![0, 0, 0]];
    assert_eq!(coin_collecting(c, 3, 3), 1);

    let c = vec![vec![0, 0, 0], vec![0, 1, 0], vec![0, 0, 1]];
    assert_eq!(coin_collecting(c, 3, 3), 2);

    let c = vec![vec![0, 0, 0], vec![0, 1, 0], vec![0, 0, 1], vec![1, 0, 0]];
    assert_eq!(coin_collecting(c, 4, 3), 2);

    let c = vec![
        vec![0, 0, 0, 0, 1, 0],
        vec![0, 1, 0, 1, 0, 0],
        vec![0, 0, 0, 1, 0, 1],
        vec![0, 0, 1, 0, 0, 1],
        vec![1, 0, 0, 0, 1, 0],
    ];
    assert_eq!(coin_collecting(c, 5, 6), 5);
}

#[test]
fn test_coin_collecting_with_inaccessible_cells() {
    let c = vec![vec![0, 0, 0], vec![0, 1, 0], vec![0, 0, 0]];
    assert_eq!(coin_collecting_with_inaccessible_cells(c, 3, 3), 1);

    let c = vec![vec![0, 0, 0], vec![0, 1, 0], vec![0, 0, 1]];
    assert_eq!(coin_collecting_with_inaccessible_cells(c, 3, 3), 2);

    let c = vec![vec![0, 0, 0], vec![0, 1, 0], vec![0, 0, 1], vec![1, 0, 0]];
    assert_eq!(coin_collecting_with_inaccessible_cells(c, 4, 3), 2);

    let c = vec![
        vec![0, 0, 0, 0, 1, 0],
        vec![0, 1, 0, 1, 0, 0],
        vec![0, 0, 0, 1, 0, 1],
        vec![0, 0, 1, 0, 0, 1],
        vec![1, 0, 0, 0, 1, 0],
    ];
    assert_eq!(coin_collecting_with_inaccessible_cells(c, 5, 6), 5);

    let c = vec![
        vec![0, -1, 0, 1, 0, 0],
        vec![1, 0, 0, -1, 1, 0],
        vec![0, 1, 0, -1, 1, 0],
        vec![0, 0, 0, 1, 0, 1],
        vec![-1, -1, -1, 0, 1, 0],
    ];
    assert_eq!(coin_collecting_with_inaccessible_cells(c, 5, 6), 4);
}

#[test]
fn test_coin_row() {
    let coins = vec![5, 1, 2, 10, 6, 2];
    assert_eq!(coin_row(coins), 17);

    let coins = vec![1, 2, 3, 4, 5, 1];
    assert_eq!(coin_row(coins), 9);

    let coins = vec![1, 20, 3];
    assert_eq!(coin_row(coins), 20);
}

#[test]
fn test_knapsack() {
    let mut items: Vec<Item> = Vec::new();

    let item = Item { weight: 2, value: 12 };
    items.push(item);

    let item = Item { weight: 1, value: 10 };
    items.push(item);

    let item = Item { weight: 3, value: 20 };
    items.push(item);

    let item = Item { weight: 2, value: 15 };
    items.push(item);

    let capacity = 5;

    let result = knapsack(&items, capacity);
    assert_eq!(result.0, 37);
    assert_eq!(result.1, [1, 2, 4]);

    let result = knapsack_memoization(&items, capacity);
    assert_eq!(result.0, 37);
    assert_eq!(result.1, [1, 2, 4]);
}

#[test]
fn test_knapsack_2() {
    let mut items: Vec<Item> = Vec::new();

    // Guitar
    let item = Item { weight: 1, value: 1500 };
    items.push(item);

    // Stereo
    let item = Item { weight: 4, value: 3000 };
    items.push(item);

    // Laptop
    let item = Item { weight: 3, value: 2000 };
    items.push(item);

    let capacity = 4;

    let result = knapsack(&items, capacity);
    assert_eq!(result.0, 3500);
    assert_eq!(result.1, [1, 3]);

    let result = knapsack_memoization(&items, capacity);
    assert_eq!(result.0, 3500);
    assert_eq!(result.1, [1, 3]);
}

#[test]
fn test_knapsack_3() {
    let mut items: Vec<Item> = Vec::new();

    // Guitar
    let item = Item { weight: 1, value: 1500 };
    items.push(item);

    // Stereo
    let item = Item { weight: 4, value: 3000 };
    items.push(item);

    // Laptop
    let item = Item { weight: 3, value: 2000 };
    items.push(item);

    // iPhone
    let item = Item { weight: 1, value: 2000 };
    items.push(item);

    let capacity = 4;

    let result = knapsack(&items, capacity);
    assert_eq!(result.0, 4000);
    assert_eq!(result.1, [3, 4]);

    let result = knapsack_memoization(&items, capacity);
    assert_eq!(result.0, 4000);
    assert_eq!(result.1, [3, 4]);
}

#[test]
fn test_knapsack_4() {
    let mut items: Vec<Item> = Vec::new();

    let item = Item { weight: 3, value: 25 };
    items.push(item);

    let item = Item { weight: 2, value: 20 };
    items.push(item);

    let item = Item { weight: 1, value: 15 };
    items.push(item);

    let item = Item { weight: 4, value: 40 };
    items.push(item);

    let item = Item { weight: 5, value: 50 };
    items.push(item);

    let capacity = 6;

    let result = knapsack(&items, capacity);
    assert_eq!(result.0, 65);
    assert_eq!(result.1, [3, 5]);

    let result = knapsack_memoization(&items, capacity);
    assert_eq!(result.0, 65);
    assert_eq!(result.1, [3, 5]);
}

// The two top-down solvers agree with the bottom-up one.
#[test]
fn knapsack_variants_agree() {
    let mut items: Vec<Item> = Vec::new();
    items.push(Item { weight: 2, value: 3 });
    items.push(Item { weight: 3, value: 4 });
    items.push(Item { weight: 4, value: 5 });
    items.push(Item { weight: 5, value: 6 });

    for capacity in 0..10 {
        let a = knapsack(&items, capacity);
        let b = knapsack_memoization(&items, capacity);
        let c = knapsack_memoization_2(&items, capacity);
        assert_eq!(a, b);
        assert_eq!(a, c);
    }
}

// One coin can be paid exactly with one coin of its own denomination.
#[test]
fn change_making_single_coin() {
    assert_eq!(change_making(25, vec![1, 5, 10, 25]), 1);
    assert_eq!(change_making(0, vec![1, 3, 4]), 0);
}
