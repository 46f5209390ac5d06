use algorithms_rust::binary_tree::BinaryTree;

#[test]
fn binary_tree_test_iter() {
    // Build a small tree.
    let mut tree = BinaryTree::Empty;
    tree.add("jaeger");
    tree.add("robot");
    tree.add("droid");
    tree.add("mecha");
    // Iterate over it.
    let mut v = Vec::new();
    let mut iter = tree.iter();
    while let Some(kind) = iter.next() {
        v.push(*kind);
    }
    assert_eq!(v, ["droid", "jaeger", "mecha", "robot"]);

    let mut decorated = Vec::new();
    let mut iter = tree.iter();
    while let Some(name) = iter.next() {
        decorated.push(format!("mega-{}", name));
    }
    assert_eq!(
        decorated,
        vec!["mega-droid", "mega-jaeger", "mega-mecha", "mega-robot"]
    );
}

// Consulting the in-order iterator after inserting out of order yields the
// elements in ascending order.
#[test]
fn in_order_is_sorted() {
    let mut tree = BinaryTree::Empty;
    tree.add(5i32);
    tree.add(1i32);
    tree.add(9i32);
    tree.add(3i32);
    tree.add(7i32);
    let mut v = Vec::new();
    let mut iter = tree.iter();
    while let Some(x) = iter.next() {
        v.push(*x);
    }
    assert_eq!(v, vec![1, 3, 5, 7, 9]);
}

// Inserting a duplicate keeps both copies, and the in-order walk visits them
// consecutively, the newer (left-placed) one first.
#[test]
fn duplicates_stay_and_sit_together() {
    let mut tree = BinaryTree::Empty;
    tree.add("robot");
    tree.add("droid");
    tree.add("robot");
    let mut v = Vec::new();
    let mut iter = tree.iter();
    while let Some(x) = iter.next() {
        v.push(*x);
    }
    assert_eq!(v, vec!["droid", "robot", "robot"]);
}

// A fresh iterator can be taken any number of times; each walks the whole
// tree from the start.
#[test]
fn iter_is_restartable_per_call() {
    let mut tree = BinaryTree::Empty;
    tree.add(2u64);
    tree.add(1u64);
    tree.add(3u64);
    for _ in 0..3 {
        let mut v = Vec::new();
        let mut iter = tree.iter();
        while let Some(x) = iter.next() {
            v.push(*x);
        }
        assert_eq!(v, vec![1, 2, 3]);
    }
}

// An iterator over the empty tree yields nothing, repeatedly.
#[test]
fn empty_tree_iter() {
    let tree: BinaryTree<i32> = BinaryTree::Empty;
    let mut iter = tree.iter();
    assert_eq!(iter.next(), None);
    assert_eq!(iter.next(), None);
}
