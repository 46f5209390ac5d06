use algorithms_rust::linked_list::{LinkedList, LinkedListIter};
use algorithms_rust::linked_list_node::Node;

#[test]
fn test_new() {
    let list = LinkedList::<i32>::new();
    assert_eq!(list.count(), 0);
    match list.head() {
        None => assert!(true),
        _ => assert!(false),
    }

    match list.tail() {
        None => assert!(true),
        _ => assert!(false),
    }
}

#[test]
fn test_from_node() {
    let node = Node::new(1, None);
    let list = LinkedList::from_node(node);
    assert_eq!(list.count(), 1);

    // check the head and tail are the same
    are_equal_head_tail(&mut LinkedList::from_node(node));
}

#[test]
fn test_from_value() {
    let list = LinkedList::from_value(1);
    assert_eq!(list.count(), 1);

    // check the head and tail are the same
    let mut list = list;
    are_equal_head_tail(&mut list);
}

#[test]
fn test_from() {
    let mut list = LinkedList::from(&vec![1, 2, 3, 4, 5]);
    assert_eq!(list.count(), 5);

    let head = list.peek_head().unwrap();
    assert_eq!(head.value, 1);
    let tail = list.peek_tail().unwrap();
    assert_eq!(tail.value, 5);
}

#[test]
fn test_push_front() {
    let mut list = LinkedList::new();
    list.push_front(1);
    assert_eq!(list.count(), 1);

    // check the head and tail are the same
    are_equal_head_tail(&mut list);
}

fn are_equal_head_tail(list: &mut LinkedList<i32>) {
    // the head and the tail are the same node of the one-element list
    assert_eq!(list.head(), list.tail());
    match list.peek_head() {
        Some(head) => {
            assert_eq!(*head.value(), 1);

            match list.peek_tail() {
                Some(tail) => {
                    assert_eq!(*head.value(), *tail.value());
                },
                None => assert!(false),
            }
        },
        None => assert!(false),
    }
}

#[test]
fn test_push_front_2() {
    let mut list = LinkedList::new();
    list.push_front(1);
    list.push_front(2);

    let head = list.peek_head().unwrap();
    assert_eq!(head.value, 2);
    let tail = list.peek_tail().unwrap();
    assert_eq!(tail.value, 1);

    assert_eq!(list.count(), 2);
}

#[test]
fn test_pop_front() {
    let mut list = LinkedList::new();
    list.push_front(1);
    list.push_front(2);
    list.push_front(3);

    let value = list.pop_front();
    assert_eq!(value, Some(3));
    let tail = list.peek_tail().unwrap();
    assert_eq!(tail.value, 1);

    let value = list.pop_front();
    assert_eq!(value, Some(2));
    let tail = list.peek_tail().unwrap();
    assert_eq!(tail.value, 1);

    let value = list.pop_front();
    assert_eq!(value, Some(1));
    assert_eq!(list.count(), 0);

    match list.peek_tail() {
        None => assert!(true),
        _ => assert!(false),
    }
}

#[test]
fn test_peek_head() {
    let mut list = LinkedList::new();
    let node = list.peek_head();
    match node {
        None => assert!(true),
        _ => assert!(false),
    }

    list.push_front(1);
    let node = list.peek_head().unwrap();
    assert_eq!(node.value, 1);

    list.push_front(2);
    let head = list.peek_head().unwrap();
    assert_eq!(head.value, 2);
}

#[test]
fn test_peek_tail() {
    let mut list = LinkedList::new();
    list.push_front(1);
    list.push_front(2);
    list.push_front(3);
    let value = list.peek_tail_value();
    assert_eq!(value, Some(1));
}

#[test]
fn test_traverse() {
    let mut list = LinkedList::new();
    list.push_front(1);
    list.push_front(2);
    list.push_front(3);
    let values = list.traverse();
    assert_eq!(values, vec![3, 2, 1]);
}

#[test]
fn test_pop_tail_1() {
    let mut list = LinkedList::new();
    list.push_front(1);
    list.push_front(2);
    list.push_front(3);

    let value = list.pop_tail();
    assert_eq!(value, Some(1));

    let value = list.pop_tail();
    assert_eq!(value, Some(2));

    let value = list.pop_tail();
    assert_eq!(value, Some(3));
    assert_eq!(list.count(), 0);
}

#[test]
fn test_pop_tail_2() {
    let mut list = LinkedList::new();
    list.push_back(1);
    list.push_back(2);
    list.push_back(3);

    let value = list.pop_tail();
    assert_eq!(value, Some(3));

    let value = list.pop_tail();
    assert_eq!(value, Some(2));

    let value = list.pop_tail();
    assert_eq!(value, Some(1));
    assert_eq!(list.count(), 0);
}

#[test]
fn test_pop_tail2_1() {
    let mut list = LinkedList::new();
    assert!(list.tail().is_none());
    assert!(list.head().is_none());

    list.push_back(1);
    assert!(list.head().is_some());
    assert!(list.tail().is_some());

    list.push_back(2);
    list.push_back(3);
    // check the head and tail are correct
    let head = list.peek_head().unwrap();
    assert_eq!(head.value, 1);
    let tail = list.peek_tail().unwrap();
    assert_eq!(tail.value, 3);

    let value = list.pop_tail_2();
    assert_eq!(value, Some(3));

    // check the head and tail are correct
    let head = list.peek_head().unwrap();
    assert_eq!(head.value, 1);
    let tail = list.peek_tail().unwrap();
    assert_eq!(tail.value, 2);

    let value = list.pop_tail_2();
    assert_eq!(value, Some(2));

    // check the head and tail are correct
    let head = list.peek_head().unwrap();
    assert_eq!(head.value, 1);
    let tail = list.peek_tail().unwrap();
    assert_eq!(tail.value, 1);

    let value = list.pop_tail_2();
    assert_eq!(value, Some(1));
    assert_eq!(list.count(), 0);
    assert!(list.tail().is_none());
    assert!(list.head().is_none());
}

#[test]
fn test_pop_tail2_2() {
    let mut list = LinkedList::new();
    list.push_back_2(1);
    list.push_back_2(2);
    list.push_back_2(3);

    let value = list.pop_tail_2();
    assert_eq!(value, Some(3));

    let value = list.pop_tail_2();
    assert_eq!(value, Some(2));

    let value = list.pop_tail_2();
    assert_eq!(value, Some(1));
    assert_eq!(list.count(), 0);
}

#[test]
fn test_iterator() {
    let list = LinkedList::from(&vec![1, 2, 3, 4, 5, 6, 7, 8, 9, 10]);

    let mut iter = LinkedListIter::new(&list, list.head());
    for i in 1..=10 {
        assert_eq!(iter.next(), Some(i));
    }

    assert_eq!(iter.next(), None);
}

#[test]
fn test_into_iter_empty_list() {
    let list: LinkedList<i32> = LinkedList::new();

    let mut iter = list.iter();
    assert_eq!(iter.next(), None);
}

#[test]
fn linked_list_test_iter() {
    let list = LinkedList::from(&vec![1, 2, 3, 4, 5, 6, 7, 8, 9, 10]);
    let mut i = 1;
    let mut iter = list.iter();
    while let Some(item) = iter.next() {
        assert_eq!(item, i);
        i += 1;
    }
}

// The number of elements after any run of pushes and pops is the number of
// successful pushes minus the number of successful pops; pops on an empty
// list do not count.
#[test]
fn count_tracks_pushes_and_pops() {
    let mut list = LinkedList::new();
    assert_eq!(list.pop_front(), None);
    assert_eq!(list.pop_back(), None);
    assert_eq!(list.count(), 0);

    list.push_front(1); // 1 push
    list.push_back(2); // 2 pushes
    list.push_front(3); // 3 pushes
    assert_eq!(list.count(), 3);

    assert!(list.pop_back().is_some()); // 1 pop
    assert_eq!(list.count(), 2);
    assert!(list.pop_front().is_some()); // 2 pops
    assert!(list.pop_front().is_some()); // 3 pops
    assert_eq!(list.count(), 0);

    // a failed pop changes nothing
    assert_eq!(list.pop_back(), None);
    assert_eq!(list.count(), 0);
}

// Three front insertions come back out front-first: [c, b, a].
#[test]
fn push_front_is_lifo() {
    let mut list = LinkedList::new();
    list.push_front(10); // a
    list.push_front(20); // b
    list.push_front(30); // c
    assert_eq!(list.traverse(), vec![30, 20, 10]);
}

// Three back insertions keep their order.
#[test]
fn push_back_keeps_order() {
    let mut list = LinkedList::new();
    list.push_back(1);
    list.push_back(2);
    list.push_back(3);
    assert_eq!(list.traverse(), vec![1, 2, 3]);
}

// Building from a sequence and traversing gives the sequence back.
#[test]
fn from_traverse_round_trip() {
    let values = vec![1, 2, 3, 4, 5];
    let list = LinkedList::from(&values);
    assert_eq!(list.traverse(), values);
}

// Peeking any number of times changes neither the count nor the contents.
#[test]
fn peek_is_idempotent() {
    let mut list = LinkedList::from(&vec![4, 5, 6]);
    for _ in 0..5 {
        assert_eq!(list.peek_head().unwrap().value, 4);
        assert_eq!(list.peek_tail().unwrap().value, 6);
        assert_eq!(list.peek_tail_value(), Some(6));
        assert_eq!(list.count(), 3);
        assert_eq!(list.traverse(), vec![4, 5, 6]);
    }
}

// popBack after pushBack(1), (2), (3) yields 3, 2, 1, then None, with the
// count reaching 0.
#[test]
fn pop_back_unwinds_push_back() {
    let mut list = LinkedList::new();
    list.push_back(1);
    list.push_back(2);
    list.push_back(3);

    assert_eq!(list.pop_back(), Some(3));
    assert_eq!(list.pop_back(), Some(2));
    assert_eq!(list.pop_back(), Some(1));
    assert_eq!(list.pop_back(), None);
    assert_eq!(list.count(), 0);
}

// Emptying a list by popping from the front and then pushing again must
// leave a fully working list: no stale tail after the list was drained.
#[test]
fn reuse_after_drain() {
    let mut list = LinkedList::new();
    list.push_back(7);
    list.push_back(8);
    while list.pop_front().is_some() {}
    assert_eq!(list.count(), 0);
    assert!(list.head().is_none());
    assert!(list.tail().is_none());

    list.push_front(9);
    assert_eq!(list.count(), 1);
    assert_eq!(list.peek_head().unwrap().value, 9);
    assert_eq!(list.peek_tail().unwrap().value, 9);
    assert_eq!(list.traverse(), vec![9]);

    list.push_back(10);
    assert_eq!(list.traverse(), vec![9, 10]);
}
