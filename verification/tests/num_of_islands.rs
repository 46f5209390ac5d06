use algorithms_rust::num_of_islands::{num_islands, num_islands_1};

#[test]
fn test_num_islands() {
    let grid = vec![
        vec!['1', '1', '1', '1', '0'],
        vec!['1', '1', '0', '1', '0'],
        vec!['1', '1', '0', '0', '0'],
        vec!['0', '0', '0', '0', '0'],
    ];
    assert_eq!(num_islands(grid), 1);

    let grid = vec![
        vec!['1', '1', '0', '0', '0'],
        vec!['1', '1', '0', '0', '0'],
        vec!['0', '0', '1', '0', '0'],
        vec!['0', '0', '0', '1', '1'],
    ];
    assert_eq!(num_islands(grid), 3);

    // to skip moving left will have 2 islands, but it is wrong
    let grid = vec![
        vec!['1', '1', '1', '1', '0'],
        vec!['1', '1', '0', '1', '0'],
        vec!['1', '1', '0', '0', '0'],
        vec!['0', '1', '0', '0', '0'],
        vec!['1', '1', '0', '0', '0'],
    ];
    assert_eq!(num_islands(grid), 1);

    // to skip moving up will have 3 islands, but it is wrong.
    let grid = vec![
        vec!['1', '0', '1', '1', '0'],
        vec!['1', '1', '1', '0', '0'],
        vec!['1', '1', '0', '0', '0'],
        vec!['0', '1', '0', '0', '0'],
        vec!['1', '0', '0', '0', '0'],
    ];
    assert_eq!(num_islands(grid), 2);

    let grid = vec![
        vec!['1', '0', '0', '0', '0', '0', '0', '0', '1', '0'],
        vec!['0', '0', '0', '0', '0', '0', '0', '1', '0', '0'],
        vec!['0', '0', '1', '0', '0', '0', '0', '0', '0', '0'],
        vec!['0', '0', '0', '0', '1', '0', '0', '0', '0', '0'],
        vec!['0', '0', '0', '0', '0', '0', '0', '0', '1', '0'],
        vec!['0', '0', '0', '0', '0', '0', '0', '0', '0', '0'],
        vec!['1', '0', '0', '0', '0', '0', '0', '0', '0', '1'],
    ];
    assert_eq!(num_islands(grid), 8);

    let grid = vec![vec!['1'; 10]; 10];
    assert_eq!(num_islands(grid), 1);

    let grid = vec![
        vec!['1', '0', '1', '0', '0', '0', '1', '0', '1', '0'],
        vec!['0', '1', '0', '1', '0', '1', '0', '1', '0', '1'],
        vec!['1', '0', '1', '0', '1', '0', '1', '0', '1', '0'],
        vec!['0', '1', '0', '1', '0', '1', '0', '1', '0', '1'],
        vec!['1', '0', '1', '0', '1', '0', '1', '0', '1', '0'],
        vec!['0', '1', '0', '1', '0', '1', '0', '1', '0', '1'],
        vec!['1', '0', '1', '0', '1', '0', '1', '0', '1', '0'],
        vec!['0', '1', '0', '1', '0', '1', '0', '1', '0', '1'],
        vec!['1', '0', '1', '0', '1', '0', '1', '0', '1', '0'],
        vec!['0', '1', '0', '1', '0', '1', '0', '1', '0', '1'],
    ];
    assert_eq!(num_islands(grid), 49);

    // A 100x100 grid entirely filled with '1's (a single large island)
    let grid = vec![vec!['1'; 100]; 100];
    assert_eq!(num_islands(grid), 1);
}

#[test]
pub fn test_num_islands_1() {
    // A 300x300 grid entirely filled with '1's (a single large island)
    let grid = vec![vec!['1'; 300]; 300];
    assert_eq!(num_islands_1(grid), 1);
}

#[test]
pub fn test_num_islands_1_2() {
    let mut grid = vec![vec!['0'; 300]; 300];
    for i in 0..300 {
        for j in 0..300 {
            if (i + j) % 2 == 0 {
                grid[i][j] = '1';
            }
        }
    }
    assert_eq!(num_islands_1(grid), 45000);
}

#[test]
pub fn test_num_islands_1_3() {
    let mut grid = vec![vec!['0'; 300]; 300];
    for i in (0..300).step_by(2) {
        grid[i] = vec!['1'; 300];
    }
    assert_eq!(num_islands_1(grid), 150);
}
