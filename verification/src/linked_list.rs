//! A singly linked list with O(1) front operations and a cached tail link for
//! O(1) back insertion.
//!
//! Nodes live in an arena (`Vec<Node<T>>`) owned by the list and refer to one
//! another by arena index, so the chain structure is plain data.  The
//! abstraction is the sequence of values read from the head to the tail; the
//! well-formedness invariant ties `head`, `tail`, `count` and every `next`
//! link to that sequence.

use vstd::prelude::*;

use crate::linked_list_node::Node;

verus! {

/// A singly linked list of `T`s.
///
/// `head` and `tail` are the arena indices of the first and last node of the
/// chain; `count` is the number of nodes in the chain.  Nodes that have been
/// popped stay in the arena but are no longer referenced by the chain.
#[derive(Clone)]
pub struct LinkedList<T> {
    arena: Vec<Node<T>>,
    head: Option<usize>,
    tail: Option<usize>,
    count: i32,
    /// The arena index of each chain node, from head to tail.
    order: Ghost<Seq<usize>>,
}

impl<T> View for LinkedList<T> {
    type V = Seq<T>;

    /// The values held by the list, from head to tail.
    closed spec fn view(&self) -> Seq<T> {
        Seq::new(self.order@.len(), |i: int| self.arena@[self.order@[i] as int].value)
    }
}

impl<T> LinkedList<T> {
    /// The arena positions of the chain nodes, from head to tail.
    pub(crate) closed spec fn ord(self) -> Seq<usize> {
        self.order@
    }

    /// The arena index of the head node, if any.
    pub closed spec fn head_link(self) -> Option<usize> {
        self.head
    }

    /// The arena index of the tail node, if any.
    pub closed spec fn tail_link(self) -> Option<usize> {
        self.tail
    }

    /// The structural invariant: `count` is the chain length, the chain nodes
    /// are distinct arena positions, `head` and `tail` frame the chain, and
    /// each node's `next` link points at the node after it (the tail's link
    /// is `None`).
    pub closed spec fn wf(self) -> bool {
        let ord = self.order@;
        let arena = self.arena@;
        &&& self.count as int == ord.len()
        &&& ord.len() <= i32::MAX as int
        &&& forall|i: int| 0 <= i < ord.len() ==> (#[trigger] ord[i]) < arena.len()
        &&& forall|i: int, j: int|
            0 <= i < ord.len() && 0 <= j < ord.len() && i != j ==> ord[i] != ord[j]
        &&& self.head == (if ord.len() == 0 {
            Option::<usize>::None
        } else {
            Some(ord[0])
        })
        &&& self.tail == (if ord.len() == 0 {
            Option::<usize>::None
        } else {
            Some(ord[ord.len() - 1])
        })
        &&& forall|i: int|
            0 <= i < ord.len() ==> (#[trigger] arena[ord[i] as int].next) == (if i == ord.len() - 1 {
                Option::<usize>::None
            } else {
                Some(ord[i + 1])
            })
    }
}

impl<T: Copy> LinkedList<T> {
    /// An empty list.
    pub fn new() -> (list: Self)
        ensures
            list.wf(),
            list@ == Seq::<T>::empty(),
    {
        let list = LinkedList {
            arena: Vec::new(),
            head: None,
            tail: None,
            count: 0,
            order: Ghost(Seq::empty()),
        };
        proof {
            assert(list@ =~= Seq::<T>::empty());
        }
        list
    }

    /// A list whose single node holds the given node's value.  The node
    /// becomes both head and tail, so its link is cleared.
    pub fn from_node(node: Node<T>) -> (list: Self)
        ensures
            list.wf(),
            list@ == seq![node.value],
    {
        let list = LinkedList {
            arena: vec![Node { value: node.value, next: None }],
            head: Some(0),
            tail: Some(0),
            count: 1,
            order: Ghost(Seq::<usize>::empty().push(0)),
        };
        proof {
            assert(list@ =~= seq![node.value]);
        }
        list
    }

    /// A list with a single node holding `value`.
    pub fn from_value(value: T) -> (list: Self)
        ensures
            list.wf(),
            list@ == seq![value],
    {
        let list = LinkedList {
            arena: vec![Node { value, next: None }],
            head: Some(0),
            tail: Some(0),
            count: 1,
            order: Ghost(Seq::<usize>::empty().push(0)),
        };
        proof {
            assert(list@ =~= seq![value]);
        }
        list
    }

    /// A list whose traversal order equals `values`: the values are inserted
    /// at the front in reverse order, so each earlier value ends up ahead.
    pub fn from(values: &Vec<T>) -> (list: Self)
        requires
            values@.len() <= i32::MAX as int,
        ensures
            list.wf(),
            list@ == values@,
    {
        let mut instance = LinkedList::new();

        let mut i: usize = values.len();
        while i > 0
            invariant
                i <= values@.len() <= i32::MAX as int,
                instance.wf(),
                instance@ == values@.skip(i as int),
            decreases i,
        {
            i = i - 1;
            instance.push_front(values[i]);
            proof {
                assert(instance@ =~= values@.skip(i as int));
            }
        }
        proof {
            assert(values@.skip(0) =~= values@);
        }
        instance
    }

    /// The arena index of the head node; `None` exactly when the list is
    /// empty.
    pub fn head(&self) -> (link: Option<usize>)
        requires
            self.wf(),
        ensures
            link == self.head_link(),
            link is Some <==> self@.len() > 0,
    {
        self.head
    }

    /// The arena index of the tail node; `None` exactly when the list is
    /// empty.
    pub fn tail(&self) -> (link: Option<usize>)
        requires
            self.wf(),
        ensures
            link == self.tail_link(),
            link is Some <==> self@.len() > 0,
    {
        self.tail
    }

    /// The number of nodes in the list.
    pub fn count(&self) -> (n: i32)
        requires
            self.wf(),
        ensures
            n as int == self@.len(),
    {
        self.count
    }

    /// Add `value` at the front: the new node's link is the current head, the
    /// new node becomes head, and also tail if the list was empty.
    pub fn push_front(&mut self, value: T)
        requires
            old(self).wf(),
            old(self)@.len() < i32::MAX as int,
        ensures
            final(self).wf(),
            final(self)@ == seq![value] + old(self)@,
    {
        let new_node = Node { value, next: self.head };
        self.arena.push(new_node);
        let idx = self.arena.len() - 1;

        if self.tail.is_none() {
            self.tail = Some(idx);
        }
        self.head = Some(idx);
        self.count = self.count + 1;
        proof {
            self.order@ = seq![idx] + self.order@;
            assert forall|i: int| 0 <= i < self.order@.len() implies (
                #[trigger] self.arena@[self.order@[i] as int].next) == (if i == self.order@.len() - 1 {
                Option::<usize>::None
            } else {
                Some(self.order@[i + 1])
            }) by {
                if i > 0 {
                    assert(self.order@[i] == old(self).order@[i - 1]);
                    assert(self.arena@[self.order@[i] as int] == old(self).arena@[old(self).order@[i - 1] as int]);
                }
            }
            assert(self@ =~= seq![value] + old(self)@);
        }
    }

    /// Read the value at the head without removing it; the returned node is
    /// detached (its link is cleared).  The list itself is unchanged.
    pub fn peek_head(&mut self) -> (result: Option<Node<T>>)
        requires
            old(self).wf(),
        ensures
            *final(self) == *old(self),
            match result {
                Some(node) => old(self)@.len() > 0 && node.value == old(self)@[0] && node.next
                    is None,
                None => old(self)@.len() == 0,
            },
    {
        match self.head {
            Some(h) => {
                proof {
                    assert(self.ord().len() > 0);
                    assert(h == self.ord()[0]);
                    assert(self@[0] == self.arena@[self.ord()[0] as int].value);
                }
                let node = &self.arena[h];
                Some(Node { value: node.value, next: None })
            },
            None => None,
        }
    }

    /// Remove the head node and yield its value; `None` on an empty list.
    /// When the last node is removed the tail link is cleared as well.
    pub fn pop_front(&mut self) -> (result: Option<T>)
        requires
            old(self).wf(),
        ensures
            final(self).wf(),
            match result {
                Some(v) => old(self)@.len() > 0 && v == old(self)@[0] && final(self)@ == old(self)@.drop_first(),
                None => old(self)@.len() == 0 && final(self)@ == old(self)@,
            },
    {
        match self.head {
            Some(h) => {
                proof {
                    assert(self.ord().len() > 0);
                    assert(h == self.ord()[0]);
                    assert(old(self)@[0] == self.arena@[self.ord()[0] as int].value);
                }
                let head_value = self.arena[h].value;
                self.head = self.arena[h].next;
                if self.head.is_none() {
                    self.tail = None;
                }
                self.count = self.count - 1;
                proof {
                    self.order@ = self.order@.drop_first();
                    let ord = self.order@;
                    let old_ord = old(self).ord();
                    assert(ord.len() == old_ord.len() - 1);
                    assert(forall|i: int| 0 <= i < ord.len() ==> ord[i] == old_ord[i + 1]);
                    assert forall|i: int| 0 <= i < ord.len() implies (
                        #[trigger] self.arena@[ord[i] as int].next) == (if i == ord.len() - 1 {
                        Option::<usize>::None
                    } else {
                        Some(ord[i + 1])
                    }) by {
                        assert(ord[i] == old_ord[i + 1]);
                        assert(self.arena@[old_ord[i + 1] as int].next == (if i + 1
                            == old_ord.len() - 1 {
                            Option::<usize>::None
                        } else {
                            Some(old_ord[i + 2])
                        }));
                    }
                    assert(self.wf());
                    assert(self@ =~= old(self)@.drop_first());
                }
                Some(head_value)
            },
            None => None,
        }
    }

    /// Collect the values from head to tail into a vector, without changing
    /// the list.
    pub fn traverse(&self) -> (values: Vec<T>)
        requires
            self.wf(),
        ensures
            values@ == self@,
    {
        let mut current_link = self.head;
        let mut values: Vec<T> = Vec::new();
        let ghost mut k: int = 0;

        while current_link.is_some()
            invariant
                self.wf(),
                0 <= k <= self@.len(),
                values@ == self@.take(k),
                current_link == (if k < self@.len() {
                    Some(self.ord()[k])
                } else {
                    Option::<usize>::None
                }),
            decreases self@.len() - k,
        {
            let c = current_link.unwrap();
            proof {
                assert(k < self@.len());
                assert(c == self.ord()[k]);
                assert(self@[k] == self.arena@[self.ord()[k] as int].value);
            }
            let node = &self.arena[c];
            values.push(node.value);
            current_link = node.next;
            proof {
                assert(self.arena@[self.ord()[k] as int].next == (if k == self.ord().len()
                    - 1 {
                    Option::<usize>::None
                } else {
                    Some(self.ord()[k + 1])
                }));
                k = k + 1;
                assert(values@ =~= self@.take(k));
            }
        }
        proof {
            assert(self@.take(k) =~= self@);
        }
        values
    }

    /// Add `value` at the end in O(1): the cached tail node is linked to the
    /// new node, which becomes the tail; on an empty list the new node
    /// becomes both head and tail.
    pub fn push_back(&mut self, value: T)
        requires
            old(self).wf(),
            old(self)@.len() < i32::MAX as int,
        ensures
            final(self).wf(),
            final(self)@ == old(self)@.push(value),
    {
        let new_node = Node { value, next: None };
        self.count = self.count + 1;

        match self.tail {
            Some(t) => {
                self.arena.push(new_node);
                let idx = self.arena.len() - 1;
                self.arena[t].next = Some(idx);
                self.tail = Some(idx);
                proof {
                    self.order@ = self.order@.push(idx);
                    self.lemma_wf_after_append(*old(self), idx, value);
                }
            },
            None => {
                self.arena.push(new_node);
                let idx = self.arena.len() - 1;
                self.head = Some(idx);
                self.tail = Some(idx);
                proof {
                    self.order@ = self.order@.push(idx);
                    assert(final(self)@ =~= old(self)@.push(value));
                }
            },
        }
    }

    /// Add `value` at the end by walking the chain to its last node (the
    /// O(n) variant); the observable result is the same as `push_back`.
    pub fn push_back_2(&mut self, value: T)
        requires
            old(self).wf(),
            old(self)@.len() < i32::MAX as int,
        ensures
            final(self).wf(),
            final(self)@ == old(self)@.push(value),
    {
        let new_node = Node { value, next: None };
        self.count = self.count + 1;
        self.arena.push(new_node);
        let idx = self.arena.len() - 1;
        self.tail = Some(idx);

        match self.head {
            Some(h) => {
                let mut current: usize = h;
                let ghost mut k: int = 0;
                while self.arena[current].next.is_some()
                    invariant
                        old(self).wf(),
                        old(self)@.len() > 0,
                        self.arena@ == old(self).arena@.push(Node { value, next: None }),
                        self.order@ == old(self).ord(),
                        idx as int == old(self).arena@.len(),
                        0 <= k < self.ord().len(),
                        current == self.ord()[k],
                    decreases self.ord().len() - k,
                {
                    current = self.arena[current].next.unwrap();
                    proof {
                        k = k + 1;
                    }
                }
                proof {
                    assert(k == self.ord().len() - 1);
                }
                self.arena[current].next = Some(idx);
                proof {
                    self.order@ = self.order@.push(idx);
                    self.lemma_wf_after_append(*old(self), idx, value);
                }
            },
            None => {
                self.head = Some(idx);
                proof {
                    self.order@ = self.order@.push(idx);
                    assert(final(self)@ =~= old(self)@.push(value));
                }
            },
        }
    }

    /// Common well-formedness argument for the two back-insertion variants:
    /// `prev` is the list before the insertion, and the current state has the
    /// new node appended to the arena at `idx`, the former tail relinked to
    /// it, and `idx` appended to the chain order.
    proof fn lemma_wf_after_append(&self, prev: Self, idx: usize, value: T)
        requires
            prev.wf(),
            prev@.len() > 0,
            prev@.len() < i32::MAX as int,
            idx as int == prev.arena@.len(),
            self.arena@ == prev.arena@.push(Node { value, next: None }).update(
                prev.ord()[prev.ord().len() - 1] as int,
                Node {
                    value: prev.arena@[prev.ord()[prev.ord().len() - 1] as int].value,
                    next: Some(idx),
                },
            ),
            self.order@ == prev.ord().push(idx),
            self.head == prev.head_link(),
            self.tail == Some(idx),
            self.count as int == prev@.len() + 1,
        ensures
            self.wf(),
            self@ == prev@.push(value),
    {
        let ord = self.order@;
        let t = prev.ord()[prev.ord().len() - 1];
        assert forall|i: int| 0 <= i < ord.len() implies (
        #[trigger] self.arena@[ord[i] as int].next) == (if i == ord.len() - 1 {
            Option::<usize>::None
        } else {
            Some(ord[i + 1])
        }) by {
            if i < ord.len() - 2 {
                assert(ord[i] == prev.ord()[i]);
                assert(ord[i] != t);
            }
        }
        assert forall|i: int| 0 <= i < ord.len() implies #[trigger] self.arena@[ord[i] as int].value
            == (if i < ord.len() - 1 {
            prev.arena@[prev.ord()[i] as int].value
        } else {
            value
        }) by {}
        assert(self@ =~= prev@.push(value));
    }

    /// Read the value at the tail without removing it; the returned node is
    /// detached (its link is cleared).  The list itself is unchanged.
    pub fn peek_tail(&mut self) -> (result: Option<Node<T>>)
        requires
            old(self).wf(),
        ensures
            *final(self) == *old(self),
            match result {
                Some(node) => old(self)@.len() > 0 && node.value == old(self)@[old(self)@.len()
                    - 1] && node.next is None,
                None => old(self)@.len() == 0,
            },
    {
        match self.tail {
            Some(t) => {
                proof {
                    assert(self.ord().len() > 0);
                    assert(t == self.ord()[self.ord().len() - 1]);
                    assert(self@[self@.len() - 1] == self.arena@[t as int].value);
                }
                let node = &self.arena[t];
                Some(Node { value: node.value, next: None })
            },
            None => None,
        }
    }

    /// Read the value at the tail by walking the chain from the head (the
    /// O(n) variant of `peek_tail`).
    pub fn peek_tail_value(&mut self) -> (result: Option<T>)
        requires
            old(self).wf(),
        ensures
            *final(self) == *old(self),
            match result {
                Some(v) => old(self)@.len() > 0 && v == old(self)@[old(self)@.len() - 1],
                None => old(self)@.len() == 0,
            },
    {
        let mut current_link = self.head;
        let ghost mut k: int = 0;
        while current_link.is_some()
            invariant
                *self == *old(self),
                self.wf(),
                0 <= k <= self@.len(),
                k < self@.len() || self@.len() == 0,
                current_link == (if k < self@.len() {
                    Some(self.ord()[k])
                } else {
                    Option::<usize>::None
                }),
            decreases self@.len() - k,
        {
            let c = current_link.unwrap();
            proof {
                assert(c == self.ord()[k]);
                assert(self@[k] == self.arena@[c as int].value);
            }
            let node = &self.arena[c];
            match node.next {
                None => {
                    proof {
                        assert(k == self@.len() - 1);
                    }
                    return Some(node.value);
                },
                Some(x) => {
                    current_link = Some(x);
                    proof {
                        k = k + 1;
                    }
                },
            }
        }
        None
    }

    /// Remove the tail node and yield its value; the same operation as
    /// `pop_tail_2`.
    pub fn pop_back(&mut self) -> (result: Option<T>)
        requires
            old(self).wf(),
        ensures
            final(self).wf(),
            match result {
                Some(v) => old(self)@.len() > 0 && v == old(self)@[old(self)@.len() - 1] && final(self)@ == old(self)@.drop_last(),
                None => old(self)@.len() == 0 && final(self)@ == old(self)@,
            },
    {
        self.pop_tail_2()
    }

    /// Remove the tail node and yield its value; `None` on an empty list.
    /// With more than one node this walks the chain to the second-to-last
    /// node, which becomes the new tail.
    pub fn pop_tail(&mut self) -> (result: Option<T>)
        requires
            old(self).wf(),
        ensures
            final(self).wf(),
            match result {
                Some(v) => old(self)@.len() > 0 && v == old(self)@[old(self)@.len() - 1] && final(self)@ == old(self)@.drop_last(),
                None => old(self)@.len() == 0 && final(self)@ == old(self)@,
            },
    {
        if self.head.is_none() {
            return None;
        }

        let h = self.head.unwrap();
        proof {
            assert(h == self.ord()[0]);
        }
        if self.arena[h].next.is_none() {
            // A single node: clear both ends.
            proof {
                assert(self.ord().len() == 1);
                assert(old(self)@[0] == self.arena@[h as int].value);
            }
            let value = self.arena[h].value;
            self.head = None;
            self.tail = None;
            self.count = self.count - 1;
            proof {
                self.order@ = Seq::empty();
                assert(self@ =~= old(self)@.drop_last());
            }
            return Some(value);
        }

        // At least two nodes: find the second-to-last one.
        let mut current: usize = h;
        let ghost mut k: int = 0;
        while self.arena[self.arena[current].next.unwrap()].next.is_some()
            invariant
                *self == *old(self),
                self.wf(),
                self@.len() >= 2,
                0 <= k < self.ord().len() - 1,
                current == self.ord()[k],
            decreases self.ord().len() - k,
        {
            let next = self.arena[current].next.unwrap();
            current = next;
            proof {
                k = k + 1;
            }
        }
        proof {
            assert(k == self.ord().len() - 2);
        }

        let tail_idx = self.arena[current].next.unwrap();
        proof {
            assert(tail_idx == self.ord()[self.ord().len() - 1]);
            assert(old(self)@[old(self)@.len() - 1] == self.arena@[tail_idx as int].value);
        }
        let tail_value = self.arena[tail_idx].value;
        self.arena[current].next = None;
        self.count = self.count - 1;
        self.tail = Some(current);
        proof {
            self.order@ = self.order@.drop_last();
            self.lemma_wf_after_unlink_last(*old(self));
        }
        Some(tail_value)
    }

    /// Remove the tail node and yield its value, walking the chain while
    /// keeping a link to the previous node (the alternative form of
    /// `pop_tail`).
    pub fn pop_tail_2(&mut self) -> (result: Option<T>)
        requires
            old(self).wf(),
        ensures
            final(self).wf(),
            match result {
                Some(v) => old(self)@.len() > 0 && v == old(self)@[old(self)@.len() - 1] && final(self)@ == old(self)@.drop_last(),
                None => old(self)@.len() == 0 && final(self)@ == old(self)@,
            },
    {
        let mut current_link = self.head;
        let mut previous_link: Option<usize> = None;
        let ghost mut k: int = 0;
        while current_link.is_some()
            invariant
                *self == *old(self),
                self.wf(),
                0 <= k <= self@.len(),
                k < self@.len() || self@.len() == 0,
                current_link == (if k < self@.len() {
                    Some(self.ord()[k])
                } else {
                    Option::<usize>::None
                }),
                previous_link == (if k == 0 {
                    Option::<usize>::None
                } else {
                    Some(self.ord()[k - 1])
                }),
            decreases self@.len() - k,
        {
            let c = current_link.unwrap();
            proof {
                assert(c == self.ord()[k]);
                assert(self@[k] == self.arena@[c as int].value);
            }
            if self.arena[c].next.is_none() {
                // The end of the chain: `c` is the tail node.
                proof {
                    assert(k == self.ord().len() - 1);
                }
                let value = self.arena[c].value;
                self.count = self.count - 1;
                if self.count == 0 {
                    // The list becomes empty.
                    self.head = None;
                    self.tail = None;
                } else {
                    // The previous node becomes the tail.
                    self.tail = previous_link;
                }
                match previous_link {
                    Some(p) => {
                        self.arena[p].next = None;
                    },
                    None => {},
                }
                proof {
                    self.order@ = self.order@.drop_last();
                    if old(self)@.len() == 1 {
                        assert(self@ =~= old(self)@.drop_last());
                    } else {
                        self.lemma_wf_after_unlink_last(*old(self));
                    }
                }
                return Some(value);
            } else {
                previous_link = Some(c);
                current_link = self.arena[c].next;
                proof {
                    k = k + 1;
                }
            }
        }
        None
    }

    /// Common well-formedness argument for the two tail-removal variants on a
    /// list of at least two nodes: `prev` is the list before the removal, and
    /// the current state has the second-to-last node's link cleared, the tail
    /// moved to it, and the last chain position dropped.
    proof fn lemma_wf_after_unlink_last(&self, prev: Self)
        requires
            prev.wf(),
            prev@.len() >= 2,
            self.arena@ == prev.arena@.update(
                prev.ord()[prev.ord().len() - 2] as int,
                Node {
                    value: prev.arena@[prev.ord()[prev.ord().len() - 2] as int].value,
                    next: None,
                },
            ),
            self.order@ == prev.ord().drop_last(),
            self.head == prev.head_link(),
            self.tail == Some(prev.ord()[prev.ord().len() - 2]),
            self.count as int == prev@.len() - 1,
        ensures
            self.wf(),
            self@ == prev@.drop_last(),
    {
        let ord = self.order@;
        let p = prev.ord()[prev.ord().len() - 2];
        assert forall|i: int| 0 <= i < ord.len() implies (
        #[trigger] self.arena@[ord[i] as int].next) == (if i == ord.len() - 1 {
            Option::<usize>::None
        } else {
            Some(ord[i + 1])
        }) by {
            assert(ord[i] == prev.ord()[i]);
            if i < ord.len() - 1 {
                assert(ord[i] != p);
            }
        }
        assert forall|i: int| 0 <= i < ord.len() implies #[trigger] self.arena@[ord[i] as int].value
            == prev.arena@[prev.ord()[i] as int].value by {}
        assert(self@ =~= prev@.drop_last());
    }

    /// A lazy forward iterator positioned at the head of the list.
    pub fn iter(&self) -> (it: LinkedListIter<T>)
        requires
            self.wf(),
        ensures
            it.wf(),
            it.remaining() == self@,
    {
        LinkedListIter { list: self, current: self.head, pos: Ghost(0) }
    }
}

/// A lazy, forward-only walk over a list.  It borrows the list, so the list
/// cannot be mutated while an iterator is alive.
pub struct LinkedListIter<'a, T> {
    list: &'a LinkedList<T>,
    current: Option<usize>,
    /// How many values have been yielded so far.
    pos: Ghost<int>,
}

impl<'a, T: Copy> LinkedListIter<'a, T> {
    /// The iterator points into a well-formed list, at the chain node of its
    /// current position.
    pub closed spec fn wf(self) -> bool {
        &&& self.list.wf()
        &&& 0 <= self.pos@ <= self.list@.len()
        &&& self.current == (if self.pos@ < self.list@.len() {
            Some(self.list.ord()[self.pos@])
        } else {
            Option::<usize>::None
        })
    }

    /// The values not yet yielded, in order.
    pub closed spec fn remaining(self) -> Seq<T> {
        self.list@.skip(self.pos@)
    }

    /// An iterator over `list` starting at `start_at`, which must be the
    /// list's head link.
    pub fn new(list: &'a LinkedList<T>, start_at: Option<usize>) -> (it: Self)
        requires
            list.wf(),
            start_at == list.head_link(),
        ensures
            it.wf(),
            it.remaining() == list@,
    {
        LinkedListIter { list, current: start_at, pos: Ghost(0) }
    }

    /// Yield the value under the cursor and advance, or report that the walk
    /// is over.
    pub fn next(&mut self) -> (result: Option<T>)
        requires
            old(self).wf(),
        ensures
            final(self).wf(),
            match result {
                Some(v) => old(self).remaining().len() > 0 && v == old(self).remaining()[0]
                    && final(self).remaining() == old(self).remaining().drop_first(),
                None => old(self).remaining().len() == 0 && final(self).remaining() == old(self).remaining(),
            },
    {
        match self.current {
            Some(c) => {
                proof {
                    assert(c == self.list.ord()[self.pos@]);
                    assert(self.list@[self.pos@] == self.list.arena@[c as int].value);
                }
                let node = &self.list.arena[c];
                let result = Some(node.value);
                self.current = node.next;
                proof {
                    self.pos@ = self.pos@ + 1;
                    assert(final(self).remaining() =~= old(self).remaining().drop_first());
                }
                result
            },
            None => None,
        }
    }
}


/// One insertion or removal at either end of a list, as `push_front`,
/// `push_back`, `pop_front` and `pop_back` perform them.
pub enum ListOp<T> {
    PushFront(T),
    PushBack(T),
    PopFront,
    PopBack,
}

/// What one operation leaves of the list's contents — exactly the effect the
/// contracts of `push_front`, `push_back`, `pop_front` and `pop_back` state.
pub open spec fn apply_op<T>(s: Seq<T>, op: ListOp<T>) -> Seq<T> {
    match op {
        ListOp::PushFront(v) => seq![v] + s,
        ListOp::PushBack(v) => s.push(v),
        ListOp::PopFront => if s.len() == 0 {
            s
        } else {
            s.drop_first()
        },
        ListOp::PopBack => if s.len() == 0 {
            s
        } else {
            s.drop_last()
        },
    }
}

/// The contents after a whole sequence of operations.
pub open spec fn apply_ops<T>(s: Seq<T>, ops: Seq<ListOp<T>>) -> Seq<T>
    decreases ops.len(),
{
    if ops.len() == 0 {
        s
    } else {
        apply_ops(apply_op(s, ops[0]), ops.drop_first())
    }
}

/// How many of the operations insert.
pub open spec fn count_pushes<T>(ops: Seq<ListOp<T>>) -> int
    decreases ops.len(),
{
    if ops.len() == 0 {
        0
    } else {
        (match ops[0] {
            ListOp::PushFront(_) => 1int,
            ListOp::PushBack(_) => 1int,
            _ => 0int,
        }) + count_pushes(ops.drop_first())
    }
}

/// How many of the operations remove something — a removal from an empty
/// list removes nothing.
pub open spec fn count_successful_pops<T>(s: Seq<T>, ops: Seq<ListOp<T>>) -> int
    decreases ops.len(),
{
    if ops.len() == 0 {
        0
    } else {
        (match ops[0] {
            ListOp::PopFront => if s.len() > 0 {
                1int
            } else {
                0int
            },
            ListOp::PopBack => if s.len() > 0 {
                1int
            } else {
                0int
            },
            _ => 0int,
        }) + count_successful_pops(apply_op(s, ops[0]), ops.drop_first())
    }
}

/// After any sequence of insertions and removals, the number of elements —
/// what `count()` returns — is the starting number plus the insertions minus
/// the removals that found something to remove.
pub proof fn lemma_count_after_ops<T>(s: Seq<T>, ops: Seq<ListOp<T>>)
    ensures
        apply_ops(s, ops).len() == s.len() + count_pushes(ops) - count_successful_pops(s, ops),
    decreases ops.len(),
{
    if ops.len() > 0 {
        lemma_count_after_ops(apply_op(s, ops[0]), ops.drop_first());
    }
}

} // verus!
