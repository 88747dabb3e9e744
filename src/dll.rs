//! A doubly linked list whose nodes live in an arena.
//!
//! Nodes are stored contiguously in a `Vec` and refer to their neighbours by
//! slot index, so no node owns another and no reference cycle can form.
//! Removing a node frees its slot at once: the node held in the last slot is
//! moved into it and its neighbours are pointed at its new place. Dropping the
//! list drops the arena, which releases the nodes one after another with
//! constant stack use, however long the list is.
use vstd::prelude::*;

verus! {

/// One element of the list together with the slots of its neighbours.
struct Node<T> {
    val: T,
    next: Option<usize>,
    prev: Option<usize>,
}

impl<T> Node<T> {
    /// A node holding `val`, linked to nothing yet.
    fn new(val: T) -> (n: Node<T>)
        ensures
            n.val == val,
            n.next is None,
            n.prev is None,
    {
        Node { val, next: None, prev: None }
    }
}

/// A sequence with constant-time insertion and removal at both ends.
pub struct DoublyLinkedList<T> {
    nodes: Vec<Node<T>>,
    head: Option<usize>,
    tail: Option<usize>,
    /// The occupied slots, from head to tail.
    order: Ghost<Seq<usize>>,
}

/// The slot after position `k` of `order`, if any.
spec fn succ(order: Seq<usize>, k: int) -> Option<usize> {
    if k + 1 < order.len() {
        Some(order[k + 1])
    } else {
        None
    }
}

/// The slot before position `k` of `order`, if any.
spec fn pred(order: Seq<usize>, k: int) -> Option<usize> {
    if k > 0 {
        Some(order[k - 1])
    } else {
        None
    }
}

spec fn first_slot(order: Seq<usize>) -> Option<usize> {
    if order.len() > 0 {
        Some(order[0])
    } else {
        None
    }
}

spec fn last_slot(order: Seq<usize>) -> Option<usize> {
    if order.len() > 0 {
        Some(order.last())
    } else {
        None
    }
}

/// `order` lists distinct slots of `nodes`, each linked forward and backward to
/// its neighbours in `order`, with `head` and `tail` at its two ends.
spec fn chain<T>(
    nodes: Seq<Node<T>>,
    order: Seq<usize>,
    head: Option<usize>,
    tail: Option<usize>,
) -> bool {
    &&& forall|k: int| 0 <= k < order.len() ==> (#[trigger] order[k] as int) < nodes.len()
    &&& forall|i: int, j: int|
        0 <= i < order.len() && 0 <= j < order.len() && i != j ==> #[trigger] order[i]
            != #[trigger] order[j]
    &&& forall|k: int|
        0 <= k < order.len() ==> (#[trigger] nodes[order[k] as int]).next == succ(order, k)
            && nodes[order[k] as int].prev == pred(order, k)
    &&& head == first_slot(order)
    &&& tail == last_slot(order)
}

impl<T> View for DoublyLinkedList<T> {
    type V = Seq<T>;

    /// The elements, from front to back.
    closed spec fn view(&self) -> Seq<T> {
        self.order@.map_values(|s: usize| self.nodes@[s as int].val)
    }
}

impl<T> DoublyLinkedList<T> {
    /// The links form one chain through every slot of the arena.
    pub closed spec fn wf(&self) -> bool {
        &&& chain(self.nodes@, self.order@, self.head, self.tail)
        &&& self.nodes@.len() == self.order@.len()
        &&& forall|s: usize| s < self.nodes@.len() ==> #[trigger] self.order@.contains(s)
    }

    /// Creates an empty list.
    pub fn new() -> (r: Self)
        ensures
            r.wf(),
            r@ == Seq::<T>::empty(),
    {
        let r = DoublyLinkedList {
            nodes: Vec::new(),
            head: None,
            tail: None,
            order: Ghost(Seq::empty()),
        };
        assert(r@ =~= Seq::<T>::empty());
        r
    }

    /// The number of elements.
    pub fn len(&self) -> (r: usize)
        requires
            self.wf(),
        ensures
            r == self@.len(),
    {
        self.nodes.len()
    }

    /// Whether the list holds no element.
    pub fn is_empty(&self) -> (r: bool)
        requires
            self.wf(),
        ensures
            r == (self@.len() == 0),
    {
        self.nodes.len() == 0
    }

    /// Adds `val` in front of the first element.
    pub fn push_front(&mut self, val: T)
        requires
            old(self).wf(),
        ensures
            final(self).wf(),
            final(self)@ == seq![val] + old(self)@,
    {
        let ghost o = self.order@;
        let n = self.nodes.len();
        let mut node = Node::new(val);
        node.next = self.head;
        match self.head {
            Some(h) => {
                self.nodes[h].prev = Some(n);
            },
            None => {
                self.tail = Some(n);
            },
        }
        self.nodes.push(node);
        self.head = Some(n);
        proof {
            let o2 = seq![n] + o;
            assert forall|k: int| 0 <= k < o.len() implies o[k] != n by {
                assert(o[k] < n);
            }
            assert forall|k: int| 0 <= k < o2.len() implies (#[trigger] self.nodes@[o2[k] as int]).next
                == succ(o2, k) && self.nodes@[o2[k] as int].prev == pred(o2, k) by {
                if k > 0 {
                    assert(o2[k] == o[k - 1]);
                }
            }
            assert forall|s: usize| s < self.nodes@.len() implies #[trigger] o2.contains(s) by {
                if s == n {
                    assert(o2[0] == s);
                } else {
                    assert(o.contains(s));
                    let k = choose|k: int| 0 <= k < o.len() && o[k] == s;
                    assert(o2[k + 1] == s);
                }
            }
            self.order = Ghost(o2);
        }
    }

    /// Adds `val` after the last element.
    pub fn push_back(&mut self, val: T)
        requires
            old(self).wf(),
        ensures
            final(self).wf(),
            final(self)@ == old(self)@.push(val),
    {
        let ghost o = self.order@;
        let n = self.nodes.len();
        let mut node = Node::new(val);
        node.prev = self.tail;
        match self.tail {
            Some(t) => {
                self.nodes[t].next = Some(n);
            },
            None => {
                self.head = Some(n);
            },
        }
        self.nodes.push(node);
        self.tail = Some(n);
        proof {
            let o2 = o.push(n);
            assert forall|k: int| 0 <= k < o.len() implies o[k] != n by {
                assert(o[k] < n);
            }
            assert forall|k: int| 0 <= k < o2.len() implies (#[trigger] self.nodes@[o2[k] as int]).next
                == succ(o2, k) && self.nodes@[o2[k] as int].prev == pred(o2, k) by {
                if k < o.len() {
                    assert(o2[k] == o[k]);
                }
            }
            assert forall|s: usize| s < self.nodes@.len() implies #[trigger] o2.contains(s) by {
                if s == n {
                    assert(o2[o.len() as int] == s);
                } else {
                    assert(o.contains(s));
                    let k = choose|k: int| 0 <= k < o.len() && o[k] == s;
                    assert(o2[k] == s);
                }
            }
            self.order = Ghost(o2);
            assert(self@ =~= old(self)@.push(val));
        }
    }

    /// Frees slot `h`, which the chain no longer passes through, and returns
    /// the element it held. The node in the last slot of the arena moves into
    /// `h`, and its neighbours (or the ends of the list) follow it there.
    fn release_slot(&mut self, h: usize) -> (val: T)
        requires
            chain(old(self).nodes@, old(self).order@, old(self).head, old(self).tail),
            h < old(self).nodes@.len(),
            old(self).nodes@.len() == old(self).order@.len() + 1,
            !old(self).order@.contains(h),
            forall|s: usize|
                s < old(self).nodes@.len() && s != h ==> #[trigger] old(self).order@.contains(s),
        ensures
            final(self).wf(),
            final(self)@ == old(self)@,
            val == old(self).nodes@[h as int].val,
    {
        let ghost o = self.order@;
        let ghost nodes0 = self.nodes@;
        let last = self.nodes.len() - 1;
        let node = self.nodes.swap_remove(h);
        if h < last {
            proof {
                assert(o.contains(last));
            }
            let ghost p0 = choose|k: int| 0 <= k < o.len() && o[k] == last;
            let prev = self.nodes[h].prev;
            let next = self.nodes[h].next;
            match prev {
                Some(p) => {
                    self.nodes[p].next = Some(h);
                },
                None => {
                    self.head = Some(h);
                },
            }
            match next {
                Some(q) => {
                    self.nodes[q].prev = Some(h);
                },
                None => {
                    self.tail = Some(h);
                },
            }
            proof {
                let o2 = o.map_values(|s: usize| if s == last { h } else { s });
                let nodes2 = self.nodes@;
                assert forall|k: int| 0 <= k < o.len() && k != p0 implies o[k] != last && o[k] != h
                    && #[trigger] o2[k] == o[k] && o[k] < last by {
                    assert(o[k] != o[p0]);
                }
                assert forall|k: int| 0 <= k < o2.len() implies (#[trigger] nodes2[o2[k] as int]).next
                    == succ(o2, k) && nodes2[o2[k] as int].prev == pred(o2, k) by {
                    if k + 1 < o.len() {
                        assert(o2[k + 1] == if k + 1 == p0 { h } else { o[k + 1] });
                    }
                    if k > 0 {
                        assert(o2[k - 1] == if k - 1 == p0 { h } else { o[k - 1] });
                    }
                    if k != p0 {
                        assert(o[k] != h);
                    }
                }
                assert forall|i: int, j: int|
                    0 <= i < o2.len() && 0 <= j < o2.len() && i != j implies #[trigger] o2[i]
                        != #[trigger] o2[j] by {
                    assert(o[i] != o[j]);
                    assert(o[i] != h);
                    assert(o[j] != h);
                }
                assert forall|s: usize| s < nodes2.len() implies #[trigger] o2.contains(s) by {
                    if s == h {
                        assert(o2[p0] == s);
                    } else {
                        assert(o.contains(s));
                        let k = choose|k: int| 0 <= k < o.len() && o[k] == s;
                        assert(o2[k] == s);
                    }
                }
                assert(o2.map_values(|s: usize| nodes2[s as int].val) =~= o.map_values(
                    |s: usize| nodes0[s as int].val,
                ));
                self.order = Ghost(o2);
            }
        } else {
            proof {
                assert forall|k: int| 0 <= k < o.len() implies #[trigger] o[k] < last by {
                    assert(o[k] != h);
                }
                assert forall|s: usize| s < self.nodes@.len() implies #[trigger] o.contains(s) by {
                    assert(s != h);
                }
                assert forall|k: int| 0 <= k < o.len() implies (#[trigger] self.nodes@[o[k] as int])
                    == nodes0[o[k] as int] by {
                    assert(o[k] < last);
                }
                assert(self@ =~= old(self)@);
            }
        }
        node.val
    }

    /// Removes the first element and returns it, or `None` when the list is empty.
    pub fn pop_front(&mut self) -> (r: Option<T>)
        requires
            old(self).wf(),
        ensures
            final(self).wf(),
            old(self)@.len() == 0 ==> r is None && final(self)@ == old(self)@,
            old(self)@.len() > 0 ==> r == Some(old(self)@[0]) && final(self)@
                == old(self)@.drop_first(),
    {
        match self.head {
            None => None,
            Some(h) => {
                let ghost o = self.order@;
                let next = self.nodes[h].next;
                match next {
                    Some(s) => {
                        self.nodes[s].prev = None;
                        self.head = Some(s);
                    },
                    None => {
                        self.head = None;
                        self.tail = None;
                    },
                }
                proof {
                    let o2 = o.drop_first();
                    assert forall|k: int| 0 <= k < o2.len() implies (#[trigger] self.nodes@[o2[k] as int]).next
                        == succ(o2, k) && self.nodes@[o2[k] as int].prev == pred(o2, k) by {
                        assert(o2[k] == o[k + 1]);
                        assert(o[k + 1] != o[0]);
                    }
                    assert forall|k: int| 0 <= k < o2.len() implies #[trigger] o2[k] != h by {
                        assert(o[k + 1] != o[0]);
                    }
                    assert forall|s: usize| s < self.nodes@.len() && s != h implies #[trigger] o2.contains(s) by {
                        assert(o.contains(s));
                        let k = choose|k: int| 0 <= k < o.len() && o[k] == s;
                        assert(o2[k - 1] == s);
                    }
                    self.order = Ghost(o2);
                    assert(self@ =~= old(self)@.drop_first());
                }
                Some(self.release_slot(h))
            },
        }
    }

    /// Removes the last element and returns it, or `None` when the list is empty.
    pub fn pop_back(&mut self) -> (r: Option<T>)
        requires
            old(self).wf(),
        ensures
            final(self).wf(),
            old(self)@.len() == 0 ==> r is None && final(self)@ == old(self)@,
            old(self)@.len() > 0 ==> r == Some(old(self)@.last()) && final(self)@
                == old(self)@.drop_last(),
    {
        match self.tail {
            None => None,
            Some(t) => {
                let ghost o = self.order@;
                let prev = self.nodes[t].prev;
                match prev {
                    Some(p) => {
                        self.nodes[p].next = None;
                        self.tail = Some(p);
                    },
                    None => {
                        self.head = None;
                        self.tail = None;
                    },
                }
                proof {
                    let o2 = o.drop_last();
                    let n = o.len() - 1;
                    assert forall|k: int| 0 <= k < o2.len() implies (#[trigger] self.nodes@[o2[k] as int]).next
                        == succ(o2, k) && self.nodes@[o2[k] as int].prev == pred(o2, k) by {
                        assert(o2[k] == o[k]);
                        assert(o[k] != o[n]);
                    }
                    assert forall|k: int| 0 <= k < o2.len() implies #[trigger] o2[k] != t by {
                        assert(o[k] != o[n]);
                    }
                    assert forall|s: usize| s < self.nodes@.len() && s != t implies #[trigger] o2.contains(s) by {
                        assert(o.contains(s));
                        let k = choose|k: int| 0 <= k < o.len() && o[k] == s;
                        assert(o2[k] == s);
                    }
                    self.order = Ghost(o2);
                    assert(self@ =~= old(self)@.drop_last());
                }
                Some(self.release_slot(t))
            },
        }
    }

    /// Removes every element, one at a time from the front.
    pub fn clear(&mut self)
        requires
            old(self).wf(),
        ensures
            final(self).wf(),
            final(self)@ == Seq::<T>::empty(),
    {
        while self.pop_front().is_some()
            invariant
                self.wf(),
            decreases self@.len(),
        {
        }
    }
}

} // verus!
