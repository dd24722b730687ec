//! Doubly linked sequence container with constant-time insertion and removal
//! at both ends, positional splice operations, bidirectional splitting and an
//! in-place merge sort.
//!
//! The nodes live in an arena: a vector of slots addressed by stable indexes,
//! with a free list of reclaimed slots. A node's `next` and `prev` fields are
//! slot indexes, so no slot is ever owned by two places at once, and dropping
//! the list drains the arena iteratively, never recursing along the links.
//! A ghost spine records the slot index of each logical position and ties the
//! link structure to the abstract sequence the contracts speak of.

use vstd::prelude::*;

use core::cmp::Ordering;
use vstd::laws_cmp::obeys_cmp;
use vstd::pervasive::cloned;
use vstd::std_specs::cmp::OrdSpec;
use vstd::std_specs::cmp::PartialEqSpec;
use vstd::std_specs::cmp::PartialOrdSpec;

use crate::order::le;
use crate::order::lemma_cmp_facts;

verus! {

/// Single storage unit: one value, one forward link, one backward link.
struct Node<T> {
    val: T,
    next: Option<usize>,
    prev: Option<usize>,
}

/// Doubly linked sequence container. The view of a list is the sequence of
/// its values in forward order.
pub struct LinkedList<T> {
    nodes: Vec<Option<Node<T>>>,
    free: Vec<usize>,
    head: Option<usize>,
    tail: Option<usize>,
    length: usize,
    spine: Ghost<Seq<usize>>,
}

impl<T> View for LinkedList<T> {
    type V = Seq<T>;

    closed spec fn view(&self) -> Seq<T> {
        Seq::new(self.spine@.len(), |i: int| self.node_at(i).val)
    }
}

/// `post` is `pre` with only the value at logical position `at` replaced:
/// the links, the spine and the bookkeeping all agree.
spec fn value_update<T>(pre: LinkedList<T>, post: LinkedList<T>, at: int) -> bool {
    &&& pre.well_formed()
    &&& 0 <= at < pre.spine@.len()
    &&& post.spine == pre.spine
    &&& post.free == pre.free
    &&& post.head == pre.head
    &&& post.tail == pre.tail
    &&& post.length == pre.length
    &&& post.nodes@ == pre.nodes@.update(
        pre.spine@[at] as int,
        Some(
            Node {
                val: post.node_at(at).val,
                next: pre.node_at(at).next,
                prev: pre.node_at(at).prev,
            },
        ),
    )
}

/// Replacing one stored value through the indexer leaves the list well
/// formed and updates exactly that position of the view.
proof fn lemma_value_update<T>(pre: LinkedList<T>, post: LinkedList<T>, at: int)
    requires
        value_update(pre, post, at),
    ensures
        post.well_formed(),
        post@ == pre@.update(at, post.node_at(at).val),
{
    let n = pre.spine@;
    let slot = n[at] as int;
    assert(pre.slot_ok(at));
    assert forall|i: int| 0 <= i < n.len() implies #[trigger] post.slot_ok(i) by {
        assert(pre.slot_ok(i));
    }
    assert forall|i: int| 0 <= i < n.len() implies (#[trigger] post.node_at(i)).prev
        == pre.node_at(i).prev && post.node_at(i).next == pre.node_at(i).next by {
        assert(pre.slot_ok(i));
        if i != at {
            assert(n[i] != n[at]);
        }
    }
    assert forall|k: int| 0 <= k < post.free@.len() implies #[trigger] post.free_slot_ok(k) by {
        assert(pre.free_slot_ok(k));
    }
    assert(post.well_formed());
    assert forall|i: int| 0 <= i < n.len() && i != at implies post@[i] == pre@[i] by {
        assert(pre.slot_ok(i));
        assert(n[i] != n[at]);
    }
    assert(post@ =~= pre@.update(at, post.node_at(at).val));
}

impl<T> LinkedList<T> {
    /// The node stored at logical position `i`.
    spec fn node_at(self, i: int) -> Node<T> {
        self.nodes@[self.spine@[i] as int].unwrap()
    }

    /// Logical position `i` refers to an occupied arena slot.
    spec fn slot_ok(self, i: int) -> bool {
        &&& self.spine@[i] < self.nodes@.len()
        &&& self.nodes@[self.spine@[i] as int] is Some
    }

    /// Entry `k` of the free list refers to a vacant arena slot.
    spec fn free_slot_ok(self, k: int) -> bool {
        &&& self.free@[k] < self.nodes@.len()
        &&& self.nodes@[self.free@[k] as int] is None
    }

    /// The free list is made of distinct vacant slots, and the arena has room
    /// for every occupied and every free slot.
    spec fn arena_ok(self) -> bool {
        &&& forall|k: int| 0 <= k < self.free@.len() ==> #[trigger] self.free_slot_ok(k)
        &&& forall|k: int, l: int|
            0 <= k < l < self.free@.len() ==> self.free@[k] != self.free@[l]
        &&& self.length + self.free@.len() <= self.nodes@.len()
    }

    /// The structural invariant: the ghost spine lists the distinct occupied
    /// slots in order, every node's links point at its spine neighbours,
    /// `head` and `tail` are the ends of the spine, and `length` counts it.
    pub closed spec fn well_formed(self) -> bool {
        let n = self.spine@;
        &&& n.len() == self.length
        &&& forall|i: int| 0 <= i < n.len() ==> #[trigger] self.slot_ok(i)
        &&& forall|i: int, j: int| 0 <= i < j < n.len() ==> n[i] != n[j]
        &&& forall|i: int|
            0 <= i < n.len() ==> (#[trigger] self.node_at(i)).prev == (if i == 0 {
                None::<usize>
            } else {
                Some(n[i - 1])
            })
        &&& forall|i: int|
            0 <= i < n.len() ==> (#[trigger] self.node_at(i)).next == (if i == n.len() - 1 {
                None::<usize>
            } else {
                Some(n[i + 1])
            })
        &&& self.head == (if n.len() == 0 {
            None::<usize>
        } else {
            Some(n[0])
        })
        &&& self.tail == (if n.len() == 0 {
            None::<usize>
        } else {
            Some(n[n.len() - 1])
        })
        &&& self.arena_ok()
    }

    pub fn new() -> (list: LinkedList<T>)
        ensures
            list@ == Seq::<T>::empty(),
            list.well_formed(),
    {
        let list = LinkedList {
            nodes: Vec::new(),
            free: Vec::new(),
            head: None,
            tail: None,
            length: 0,
            spine: Ghost(Seq::empty()),
        };
        proof {
            assert(list@ =~= Seq::<T>::empty());
        }
        list
    }

    pub fn len(&self) -> (n: usize)
        requires
            self.well_formed(),
        ensures
            n == self@.len(),
    {
        self.length
    }

    pub fn is_empty(&self) -> (r: bool)
        requires
            self.well_formed(),
        ensures
            r <==> self@.len() == 0,
    {
        self.length == 0
    }

    /// Resets the handle to the empty state; the arena is dropped, which
    /// frees the slots one by one without recursing along the links.
    pub fn clear(&mut self)
        ensures
            final(self)@ == Seq::<T>::empty(),
            final(self).well_formed(),
    {
        *self = Self::new();
    }

    /// Shared access to the node in occupied slot `p`.
    fn get_node(&self, p: usize) -> (node: &Node<T>)
        requires
            p < self.nodes@.len(),
            self.nodes@[p as int] is Some,
        ensures
            *node == self.nodes@[p as int].unwrap(),
    {
        match &self.nodes[p] {
            Some(node) => node,
            None => vstd::pervasive::unreached(),
        }
    }

    /// Redirect the forward link of the node in occupied slot `p`.
    fn set_next(&mut self, p: usize, nxt: Option<usize>)
        requires
            p < old(self).nodes@.len(),
            old(self).nodes@[p as int] is Some,
        ensures
            final(self).nodes@.len() == old(self).nodes@.len(),
            final(self).nodes@[p as int] matches Some(node) && node.val == old(self).nodes@[p as int].unwrap().val && node.prev == old(self).nodes@[p as int].unwrap().prev
                && node.next == nxt,
            forall|j: int|
                0 <= j < old(self).nodes@.len() && j != p ==> final(self).nodes@[j] == old(self).nodes@[j],
            final(self).free == old(self).free,
            final(self).head == old(self).head,
            final(self).tail == old(self).tail,
            final(self).length == old(self).length,
            final(self).spine == old(self).spine,
    {
        match &mut self.nodes[p] {
            Some(node) => {
                node.next = nxt;
            },
            None => {
                proof {
                    assert(false);
                }
            },
        }
    }

    /// Redirect the backward link of the node in occupied slot `p`.
    fn set_prev(&mut self, p: usize, prv: Option<usize>)
        requires
            p < old(self).nodes@.len(),
            old(self).nodes@[p as int] is Some,
        ensures
            final(self).nodes@.len() == old(self).nodes@.len(),
            final(self).nodes@[p as int] matches Some(node) && node.val == old(self).nodes@[p as int].unwrap().val && node.next == old(self).nodes@[p as int].unwrap().next
                && node.prev == prv,
            forall|j: int|
                0 <= j < old(self).nodes@.len() && j != p ==> final(self).nodes@[j] == old(self).nodes@[j],
            final(self).free == old(self).free,
            final(self).head == old(self).head,
            final(self).tail == old(self).tail,
            final(self).length == old(self).length,
            final(self).spine == old(self).spine,
    {
        match &mut self.nodes[p] {
            Some(node) => {
                node.prev = prv;
            },
            None => {
                proof {
                    assert(false);
                }
            },
        }
    }

    /// Store a node in a vacant slot, reusing the free list when possible.
    fn alloc_slot(&mut self, node: Node<T>) -> (idx: usize)
        requires
            old(self).arena_ok(),
        ensures
            final(self).head == old(self).head,
            final(self).tail == old(self).tail,
            final(self).length == old(self).length,
            final(self).spine == old(self).spine,
            idx < final(self).nodes@.len(),
            final(self).nodes@[idx as int] == Some(node),
            old(self).nodes@.len() <= final(self).nodes@.len(),
            (idx < old(self).nodes@.len() && old(self).nodes@[idx as int] is None) || idx == old(self).nodes@.len(),
            forall|j: int|
                0 <= j < old(self).nodes@.len() && j != idx ==> final(self).nodes@[j] == old(self).nodes@[j],
            forall|k: int| 0 <= k < final(self).free@.len() ==> #[trigger] final(self).free_slot_ok(k),
            forall|k: int, l: int|
                0 <= k < l < final(self).free@.len() ==> final(self).free@[k] != final(self).free@[l],
            final(self).length + final(self).free@.len() + 1 <= final(self).nodes@.len(),
    {
        match self.free.pop() {
            Some(idx) => {
                proof {
                    assert(old(self).free_slot_ok(old(self).free@.len() - 1));
                    assert forall|k: int| 0 <= k < self.free@.len() implies #[trigger] old(self).free_slot_ok(k) by {}
                }
                self.nodes[idx] = Some(node);
                proof {
                    assert forall|k: int| 0 <= k < self.free@.len() implies #[trigger] self
                        .free_slot_ok(k) by {
                        assert(old(self).free_slot_ok(k));
                        assert(self.free@[k] != idx);
                    }
                }
                idx
            },
            None => {
                let idx = self.nodes.len();
                self.nodes.push(Some(node));
                proof {
                    assert forall|k: int| 0 <= k < self.free@.len() implies #[trigger] self
                        .free_slot_ok(k) by {
                        assert(old(self).free_slot_ok(k));
                    }
                }
                idx
            },
        }
    }

    /// Empty the occupied slot `p`, handing its node back and adding the slot
    /// to the free list.
    fn take_slot(&mut self, p: usize) -> (node: Node<T>)
        requires
            p < old(self).nodes@.len(),
            old(self).nodes@[p as int] is Some,
            forall|k: int| 0 <= k < old(self).free@.len() ==> #[trigger] old(self).free_slot_ok(k),
            forall|k: int, l: int|
                0 <= k < l < old(self).free@.len() ==> old(self).free@[k] != old(self).free@[l],
        ensures
            node == old(self).nodes@[p as int].unwrap(),
            final(self).nodes@ == old(self).nodes@.update(p as int, None::<Node<T>>),
            final(self).free@ == old(self).free@.push(p),
            final(self).head == old(self).head,
            final(self).tail == old(self).tail,
            final(self).length == old(self).length,
            final(self).spine == old(self).spine,
            forall|k: int| 0 <= k < final(self).free@.len() ==> #[trigger] final(self).free_slot_ok(k),
            forall|k: int, l: int|
                0 <= k < l < final(self).free@.len() ==> final(self).free@[k] != final(self).free@[l],
    {
        let slot = &mut self.nodes[p];
        let taken = slot.take();
        self.free.push(p);
        proof {
            assert forall|k: int| 0 <= k < self.free@.len() implies #[trigger] self.free_slot_ok(
                k,
            ) by {
                if k < self.free@.len() - 1 {
                    assert(old(self).free_slot_ok(k));
                }
            }
            assert forall|k: int, l: int|
                0 <= k < l < self.free@.len() implies self.free@[k] != self.free@[l] by {
                if l < self.free@.len() - 1 {
                } else {
                    assert(old(self).free_slot_ok(k));
                }
            }
        }
        match taken {
            Some(node) => node,
            None => vstd::pervasive::unreached(),
        }
    }

    /// The distance-minimizing indexer: walks forward from `head` or
    /// backward from `tail`, whichever end is structurally closer to the
    /// logical position `at`, and returns the slot index found there.
    fn locate(&self, at: usize) -> (p: usize)
        requires
            self.well_formed(),
            at < self@.len(),
        ensures
            p == self.spine@[at as int],
    {
        let offset_from_end = self.length - at - 1;
        let mut cur: Option<usize>;
        if at <= offset_from_end {
            cur = self.head;
            let mut i: usize = 0;
            while i < at
                invariant
                    self.well_formed(),
                    at < self.spine@.len(),
                    i <= at,
                    cur == Some(self.spine@[i as int]),
                decreases at - i,
            {
                proof {
                    assert(self.slot_ok(i as int));
                    assert(self.node_at(i as int).next == Some(self.spine@[i as int + 1]));
                }
                let c = cur.unwrap();
                cur = self.get_node(c).next;
                i = i + 1;
            }
            cur.unwrap()
        } else {
            cur = self.tail;
            let mut i: usize = 0;
            while i < offset_from_end
                invariant
                    self.well_formed(),
                    at < self.spine@.len(),
                    offset_from_end == self.spine@.len() - 1 - at,
                    i <= offset_from_end,
                    cur == Some(self.spine@[self.spine@.len() - 1 - i]),
                decreases offset_from_end - i,
            {
                proof {
                    assert(self.slot_ok(self.spine@.len() - 1 - i));
                    assert(self.node_at(self.spine@.len() - 1 - i).prev == Some(
                        self.spine@[self.spine@.len() - 2 - i],
                    ));
                }
                let c = cur.unwrap();
                cur = self.get_node(c).prev;
                i = i + 1;
            }
            cur.unwrap()
        }
    }

    /// Reference to the value at logical position `at`; out-of-range
    /// positions are a caller error, ruled out by the precondition.
    pub fn get(&self, at: usize) -> (r: &T)
        requires
            self.well_formed(),
            at < self@.len(),
        ensures
            *r == self@[at as int],
    {
        let p = self.locate(at);
        proof {
            assert(self.slot_ok(at as int));
        }
        &self.get_node(p).val
    }

    /// Exclusive reference to the value stored in occupied slot `p`, known
    /// to sit at logical position `at`; whatever the caller writes through
    /// it becomes the value at that position.
    fn slot_val_mut(&mut self, p: usize, Ghost(at): Ghost<int>) -> (r: &mut T)
        requires
            old(self).well_formed(),
            0 <= at < old(self)@.len(),
            p == old(self).spine@[at],
        ensures
            *r == old(self)@[at],
            final(self).well_formed(),
            final(self)@ == old(self)@.update(at, *final(r)),
            final(self).spine == old(self).spine,
            final(self)@.len() == old(self)@.len(),
    {
        proof {
            assert(self.slot_ok(at));
            assert forall|post: LinkedList<T>| #![trigger post.well_formed()]
                value_update(*self, post, at) implies post.well_formed() && post@
                == self@.update(at, post.node_at(at).val) && post.spine == self.spine
                && post@.len() == self@.len() by {
                lemma_value_update(*self, post, at);
            }
        }
        match &mut self.nodes[p] {
            Some(node) => &mut node.val,
            None => vstd::pervasive::unreached(),
        }
    }

    /// Exclusive reference to the value at logical position `at`; whatever
    /// the caller writes through it becomes the value at that position.
    pub fn get_mut(&mut self, at: usize) -> (r: &mut T)
        requires
            old(self).well_formed(),
            at < old(self)@.len(),
        ensures
            *r == old(self)@[at as int],
            final(self).well_formed(),
            final(self)@ == old(self)@.update(at as int, *final(r)),
    {
        let p = self.locate(at);
        self.slot_val_mut(p, Ghost(at as int))
    }

    pub fn front(&self) -> (r: Option<&T>)
        requires
            self.well_formed(),
        ensures
            self@.len() == 0 ==> r is None,
            self@.len() > 0 ==> r is Some && *r.unwrap() == self@[0],
    {
        match self.head {
            None => None,
            Some(h) => {
                proof {
                    assert(self.slot_ok(0));
                }
                Some(&self.get_node(h).val)
            },
        }
    }

    pub fn back(&self) -> (r: Option<&T>)
        requires
            self.well_formed(),
        ensures
            self@.len() == 0 ==> r is None,
            self@.len() > 0 ==> r is Some && *r.unwrap() == self@.last(),
    {
        match self.tail {
            None => None,
            Some(t) => {
                proof {
                    assert(self.slot_ok(self.spine@.len() - 1));
                }
                Some(&self.get_node(t).val)
            },
        }
    }

    pub fn front_mut(&mut self) -> (r: Option<&mut T>)
        requires
            old(self).well_formed(),
        ensures
            old(self)@.len() == 0 ==> r is None && *final(self) == *old(self),
            old(self)@.len() > 0 ==> r is Some && *r.unwrap() == old(self)@[0] && final(self)@
                == old(self)@.update(0, *final(r.unwrap())) && final(self).well_formed(),
    {
        if self.length == 0 {
            None
        } else {
            Some(self.get_mut(0))
        }
    }

    pub fn back_mut(&mut self) -> (r: Option<&mut T>)
        requires
            old(self).well_formed(),
        ensures
            old(self)@.len() == 0 ==> r is None && *final(self) == *old(self),
            old(self)@.len() > 0 ==> r is Some && *r.unwrap() == old(self)@.last() && final(self)@
                == old(self)@.update(old(self)@.len() - 1, *final(r.unwrap())) && final(self).well_formed(),
    {
        if self.length == 0 {
            None
        } else {
            let at = self.length - 1;
            Some(self.get_mut(at))
        }
    }

    pub fn push_back(&mut self, val: T)
        requires
            old(self).well_formed(),
        ensures
            final(self).well_formed(),
            final(self)@ == old(self)@.push(val),
    {
        let ghost n0 = old(self).spine@;
        let ghost m = n0.len() as int;
        let node = Node { val, next: None, prev: self.tail };
        let idx = self.alloc_slot(node);
        let ghost s1 = *self;
        proof {
            vstd::std_specs::vec::axiom_spec_len(&self.nodes);
            assert forall|i: int| 0 <= i < m implies old(self).slot_ok(i) && n0[i] != idx by {
                assert(old(self).slot_ok(i));
            }
        }
        match self.tail {
            None => {
                self.head = Some(idx);
            },
            Some(t) => {
                self.set_next(t, Some(idx));
            },
        }
        proof {
            // Arena slots after allocation and tail relinking.
            assert(self.nodes@[idx as int] == Some(node));
            assert forall|j: int|
                0 <= j < old(self).nodes@.len() && j != idx && (m == 0 || j != n0[m - 1]) implies self.nodes@[j] == old(self).nodes@[j] by {}
            if m > 0 {
                let tn = self.nodes@[n0[m - 1] as int];
                assert(tn is Some);
                assert(tn.unwrap().val == old(self).node_at(m - 1).val);
                assert(tn.unwrap().prev == old(self).node_at(m - 1).prev);
                assert(tn.unwrap().next == Some(idx));
            }
        }
        self.tail = Some(idx);
        self.length = self.length + 1;
        proof {
            self.spine@ = n0.push(idx);
        }
        proof {
            let n = self.spine@;
            assert forall|i: int| 0 <= i < m + 1 implies #[trigger] self.slot_ok(i) by {
                if i < m {
                    assert(old(self).slot_ok(i));
                }
            }
            assert forall|i: int| 0 <= i < m + 1 implies (#[trigger] self.node_at(i)).prev == (
            if i == 0 {
                None::<usize>
            } else {
                Some(n[i - 1])
            }) && self.node_at(i).next == (if i == m {
                None::<usize>
            } else {
                Some(n[i + 1])
            }) by {
                if i < m {
                    assert(old(self).slot_ok(i));
                    assert(old(self).node_at(i).prev == (if i == 0 {
                        None::<usize>
                    } else {
                        Some(n0[i - 1])
                    }));
                    assert(old(self).node_at(i).next == (if i == m - 1 {
                        None::<usize>
                    } else {
                        Some(n0[i + 1])
                    }));
                }
            }
            assert forall|k: int| 0 <= k < self.free@.len() implies #[trigger] self.free_slot_ok(
                k,
            ) by {
                assert(s1.free_slot_ok(k));
                if m > 0 {
                    assert(old(self).slot_ok(m - 1));
                }
            }
            assert(self.well_formed());
            assert forall|i: int| 0 <= i < m implies self@[i] == old(self)@[i] by {
                assert(old(self).slot_ok(i));
            }
            assert(self@ =~= old(self)@.push(val));
        }
    }

    pub fn push_front(&mut self, val: T)
        requires
            old(self).well_formed(),
        ensures
            final(self).well_formed(),
            final(self)@ == old(self)@.insert(0, val),
    {
        let ghost n0 = old(self).spine@;
        let ghost m = n0.len() as int;
        let node = Node { val, next: self.head, prev: None };
        let idx = self.alloc_slot(node);
        let ghost s1 = *self;
        proof {
            vstd::std_specs::vec::axiom_spec_len(&self.nodes);
            assert forall|i: int| 0 <= i < m implies old(self).slot_ok(i) && n0[i] != idx by {
                assert(old(self).slot_ok(i));
            }
        }
        match self.head {
            None => {
                self.tail = Some(idx);
            },
            Some(h) => {
                self.set_prev(h, Some(idx));
            },
        }
        proof {
            assert(self.nodes@[idx as int] == Some(node));
            assert forall|j: int|
                0 <= j < old(self).nodes@.len() && j != idx && (m == 0 || j != n0[0]) implies self.nodes@[j] == old(self).nodes@[j] by {}
            if m > 0 {
                let hn = self.nodes@[n0[0] as int];
                assert(hn is Some);
                assert(hn.unwrap().val == old(self).node_at(0).val);
                assert(hn.unwrap().next == old(self).node_at(0).next);
                assert(hn.unwrap().prev == Some(idx));
            }
        }
        self.head = Some(idx);
        self.length = self.length + 1;
        proof {
            self.spine@ = n0.insert(0, idx);
        }
        proof {
            let n = self.spine@;
            assert(n.len() == m + 1);
            assert(n[0] == idx);
            assert forall|i: int| 1 <= i < m + 1 implies n[i] == n0[i - 1] by {}
            assert forall|i: int| 0 <= i < m + 1 implies #[trigger] self.slot_ok(i) by {
                if i > 0 {
                    assert(old(self).slot_ok(i - 1));
                }
            }
            assert forall|i: int| 0 <= i < m + 1 implies (#[trigger] self.node_at(i)).prev == (
            if i == 0 {
                None::<usize>
            } else {
                Some(n[i - 1])
            }) && self.node_at(i).next == (if i == m {
                None::<usize>
            } else {
                Some(n[i + 1])
            }) by {
                if i > 0 {
                    assert(old(self).slot_ok(i - 1));
                    assert(old(self).node_at(i - 1).prev == (if i - 1 == 0 {
                        None::<usize>
                    } else {
                        Some(n0[i - 2])
                    }));
                    assert(old(self).node_at(i - 1).next == (if i - 1 == m - 1 {
                        None::<usize>
                    } else {
                        Some(n0[i])
                    }));
                }
            }
            assert forall|k: int| 0 <= k < self.free@.len() implies #[trigger] self.free_slot_ok(
                k,
            ) by {
                assert(s1.free_slot_ok(k));
                if m > 0 {
                    assert(old(self).slot_ok(0));
                }
            }
            assert(self.well_formed());
            assert forall|i: int| 1 <= i < m + 1 implies self@[i] == old(self)@[i - 1] by {
                assert(old(self).slot_ok(i - 1));
            }
            assert(self@ =~= old(self)@.insert(0, val));
        }
    }

    /// Splice a new value in at logical position `at`: the ends delegate to
    /// the pushes, an interior position links a fresh node between the node
    /// before it and that node's successor.
    pub fn insert(&mut self, at: usize, data: T)
        requires
            old(self).well_formed(),
            at <= old(self)@.len(),
        ensures
            final(self).well_formed(),
            final(self)@ == old(self)@.insert(at as int, data),
    {
        if at == 0 {
            self.push_front(data);
            return ;
        } else if at == self.length {
            self.push_back(data);
            proof {
                assert(self@ =~= old(self)@.insert(at as int, data));
            }
            return ;
        }
        let ghost n0 = old(self).spine@;
        let ghost m = n0.len() as int;
        let ghost a = at as int;
        let p = self.locate(at - 1);
        proof {
            assert(old(self).slot_ok(a - 1));
            assert(old(self).node_at(a - 1).next == Some(n0[a]));
            assert(old(self).slot_ok(a));
        }
        let after = self.get_node(p).next;
        let node = Node { val: data, next: after, prev: Some(p) };
        let idx = self.alloc_slot(node);
        let ghost s1 = *self;
        proof {
            vstd::std_specs::vec::axiom_spec_len(&self.nodes);
            assert forall|i: int| 0 <= i < m implies old(self).slot_ok(i) && n0[i] != idx by {
                assert(old(self).slot_ok(i));
            }
        }
        self.set_next(p, Some(idx));
        let nx = after.unwrap();
        proof {
            assert(n0[a] != n0[a - 1]);
            assert(self.nodes@[nx as int] is Some);
        }
        self.set_prev(nx, Some(idx));
        self.length = self.length + 1;
        proof {
            self.spine@ = n0.insert(a, idx);
        }
        proof {
            let n = self.spine@;
            assert(n.len() == m + 1);
            assert forall|i: int| 0 <= i < m + 1 implies n[i] == (if i < a {
                n0[i]
            } else if i == a {
                idx
            } else {
                n0[i - 1]
            }) by {}
            // Arena contents after the three writes.
            assert(self.nodes@[idx as int] matches Some(nd) && nd.val == data && nd.next == Some(
                n0[a],
            ) && nd.prev == Some(n0[a - 1]));
            assert(self.nodes@[n0[a - 1] as int] matches Some(nd) && nd.val == old(self).node_at(
                a - 1,
            ).val && nd.prev == old(self).node_at(a - 1).prev && nd.next == Some(idx));
            assert(self.nodes@[n0[a] as int] matches Some(nd) && nd.val == old(self).node_at(
                a,
            ).val && nd.next == old(self).node_at(a).next && nd.prev == Some(idx));
            assert forall|j: int|
                0 <= j < old(self).nodes@.len() && j != idx && j != n0[a - 1] && j
                    != n0[a] implies self.nodes@[j] == old(self).nodes@[j] by {}
            assert forall|i: int| 0 <= i < m + 1 implies #[trigger] self.slot_ok(i) by {
                if i < a {
                    assert(old(self).slot_ok(i));
                } else if i > a {
                    assert(old(self).slot_ok(i - 1));
                }
            }
            assert forall|i: int| 0 <= i < m + 1 implies (#[trigger] self.node_at(i)).prev == (
            if i == 0 {
                None::<usize>
            } else {
                Some(n[i - 1])
            }) && self.node_at(i).next == (if i == m {
                None::<usize>
            } else {
                Some(n[i + 1])
            }) by {
                if i < a {
                    assert(old(self).slot_ok(i));
                    assert(old(self).node_at(i).prev == (if i == 0 {
                        None::<usize>
                    } else {
                        Some(n0[i - 1])
                    }));
                    assert(old(self).node_at(i).next == (if i == m - 1 {
                        None::<usize>
                    } else {
                        Some(n0[i + 1])
                    }));
                    if i < a - 1 {
                        assert(n0[i] != n0[a - 1] && n0[i] != n0[a]);
                    }
                } else if i > a {
                    assert(old(self).slot_ok(i - 1));
                    assert(old(self).node_at(i - 1).prev == (if i - 1 == 0 {
                        None::<usize>
                    } else {
                        Some(n0[i - 2])
                    }));
                    assert(old(self).node_at(i - 1).next == (if i - 1 == m - 1 {
                        None::<usize>
                    } else {
                        Some(n0[i])
                    }));
                    if i > a + 1 {
                        assert(n0[i - 1] != n0[a - 1] && n0[i - 1] != n0[a]);
                    }
                }
            }
            assert forall|k: int| 0 <= k < self.free@.len() implies #[trigger] self.free_slot_ok(
                k,
            ) by {
                assert(s1.free_slot_ok(k));
                assert(old(self).slot_ok(a - 1));
                assert(old(self).slot_ok(a));
            }
            assert(self.well_formed());
            assert forall|i: int| 0 <= i < m + 1 && i != a implies self@[i] == (if i < a {
                old(self)@[i]
            } else {
                old(self)@[i - 1]
            }) by {
                if i < a {
                    assert(old(self).slot_ok(i));
                } else {
                    assert(old(self).slot_ok(i - 1));
                }
            }
            assert(self@ =~= old(self)@.insert(a, data));
        }
    }

    /// Splice the value at logical position `at` out of the list and return
    /// it; the ends delegate to the pops.
    pub fn remove(&mut self, at: usize) -> (r: T)
        requires
            old(self).well_formed(),
            at < old(self)@.len(),
        ensures
            final(self).well_formed(),
            r == old(self)@[at as int],
            final(self)@ == old(self)@.remove(at as int),
    {
        if at == 0 {
            let r = self.pop_front().unwrap();
            proof {
                assert(self@ =~= old(self)@.remove(0));
            }
            return r;
        } else if at == self.length - 1 {
            let r = self.pop_back().unwrap();
            proof {
                assert(self@ =~= old(self)@.remove(at as int));
            }
            return r;
        }
        let ghost n0 = old(self).spine@;
        let ghost m = n0.len() as int;
        let ghost a = at as int;
        let p = self.locate(at);
        proof {
            assert(old(self).slot_ok(a));
            assert(old(self).node_at(a).prev == Some(n0[a - 1]));
            assert(old(self).node_at(a).next == Some(n0[a + 1]));
            assert(old(self).slot_ok(a - 1));
            assert(old(self).slot_ok(a + 1));
            assert forall|i: int| 0 <= i < m && i != a implies old(self).slot_ok(i) && n0[i]
                != p by {
                assert(old(self).slot_ok(i));
            }
        }
        let node = self.take_slot(p);
        let ghost s1 = *self;
        let pv = node.prev.unwrap();
        let nx = node.next.unwrap();
        self.set_next(pv, node.next);
        proof {
            assert(self.nodes@[nx as int] is Some);
        }
        self.set_prev(nx, node.prev);
        self.length = self.length - 1;
        proof {
            self.spine@ = n0.remove(a);
        }
        proof {
            let n = self.spine@;
            assert(n.len() == m - 1);
            assert forall|i: int| 0 <= i < m - 1 implies n[i] == (if i < a {
                n0[i]
            } else {
                n0[i + 1]
            }) by {}
            assert(self.nodes@[p as int] is None);
            assert(self.nodes@[n0[a - 1] as int] matches Some(nd) && nd.val == old(self).node_at(
                a - 1,
            ).val && nd.prev == old(self).node_at(a - 1).prev && nd.next == Some(n0[a + 1]));
            assert(self.nodes@[n0[a + 1] as int] matches Some(nd) && nd.val == old(self).node_at(
                a + 1,
            ).val && nd.next == old(self).node_at(a + 1).next && nd.prev == Some(n0[a - 1]));
            assert forall|j: int|
                0 <= j < old(self).nodes@.len() && j != p && j != n0[a - 1] && j != n0[a
                    + 1] implies self.nodes@[j] == old(self).nodes@[j] by {}
            assert forall|i: int| 0 <= i < m - 1 implies #[trigger] self.slot_ok(i) by {
                if i < a {
                    assert(old(self).slot_ok(i));
                } else {
                    assert(old(self).slot_ok(i + 1));
                }
            }
            assert forall|i: int| 0 <= i < m - 1 implies (#[trigger] self.node_at(i)).prev == (
            if i == 0 {
                None::<usize>
            } else {
                Some(n[i - 1])
            }) && self.node_at(i).next == (if i == m - 2 {
                None::<usize>
            } else {
                Some(n[i + 1])
            }) by {
                if i < a - 1 {
                    assert(old(self).slot_ok(i));
                    assert(n0[i] != n0[a - 1] && n0[i] != n0[a + 1]);
                    assert(old(self).node_at(i).prev == (if i == 0 {
                        None::<usize>
                    } else {
                        Some(n0[i - 1])
                    }));
                    assert(old(self).node_at(i).next == (if i == m - 1 {
                        None::<usize>
                    } else {
                        Some(n0[i + 1])
                    }));
                } else if i == a - 1 {
                    assert(old(self).node_at(a - 1).prev == (if a - 1 == 0 {
                        None::<usize>
                    } else {
                        Some(n0[a - 2])
                    }));
                } else if i == a {
                    assert(old(self).node_at(a + 1).next == (if a + 1 == m - 1 {
                        None::<usize>
                    } else {
                        Some(n0[a + 2])
                    }));
                } else {
                    assert(old(self).slot_ok(i + 1));
                    assert(n0[i + 1] != n0[a - 1] && n0[i + 1] != n0[a + 1]);
                    assert(old(self).node_at(i + 1).prev == (if i + 1 == 0 {
                        None::<usize>
                    } else {
                        Some(n0[i])
                    }));
                    assert(old(self).node_at(i + 1).next == (if i + 1 == m - 1 {
                        None::<usize>
                    } else {
                        Some(n0[i + 2])
                    }));
                }
            }
            assert forall|k: int| 0 <= k < self.free@.len() implies #[trigger] self.free_slot_ok(
                k,
            ) by {
                assert(s1.free_slot_ok(k));
                assert(old(self).slot_ok(a - 1));
                assert(old(self).slot_ok(a + 1));
            }
            assert(self.well_formed());
            assert forall|i: int| 0 <= i < m - 1 implies self@[i] == (if i < a {
                old(self)@[i]
            } else {
                old(self)@[i + 1]
            }) by {
                if i < a {
                    assert(old(self).slot_ok(i));
                    assert(n0[i] != n0[a - 1] || i == a - 1);
                } else {
                    assert(old(self).slot_ok(i + 1));
                }
            }
            assert(self@ =~= old(self)@.remove(a));
            assert(node.val == old(self)@[a]);
        }
        node.val
    }

    pub fn pop_back(&mut self) -> (r: Option<T>)
        requires
            old(self).well_formed(),
        ensures
            final(self).well_formed(),
            old(self)@.len() == 0 ==> r is None && final(self)@ == old(self)@,
            old(self)@.len() > 0 ==> r == Some(old(self)@.last()) && final(self)@ == old(self)@.drop_last(),
    {
        match self.tail {
            None => None,
            Some(t) => {
                let ghost n0 = old(self).spine@;
                let ghost m = n0.len() as int;
                proof {
                    assert(old(self).slot_ok(m - 1));
                    assert forall|i: int| 0 <= i < m - 1 implies old(self).slot_ok(i) && n0[i]
                        != t by {
                        assert(old(self).slot_ok(i));
                    }
                }
                let node = self.take_slot(t);
                let ghost s1 = *self;
                proof {
                    assert(node == old(self).node_at(m - 1));
                    if m >= 2 {
                        assert(node.prev == Some(n0[m - 2]));
                        assert(old(self).slot_ok(m - 2));
                    } else {
                        assert(node.prev == None::<usize>);
                    }
                }
                match node.prev {
                    None => {
                        self.head = None;
                    },
                    Some(pv) => {
                        self.set_next(pv, None);
                    },
                }
                proof {
                    assert(self.nodes@[t as int] is None);
                    assert forall|j: int|
                        0 <= j < old(self).nodes@.len() && j != t && (m < 2 || j != n0[m
                            - 2]) implies self.nodes@[j] == old(self).nodes@[j] by {}
                    if m >= 2 {
                        let pn = self.nodes@[n0[m - 2] as int];
                        assert(pn is Some);
                        assert(pn.unwrap().val == old(self).node_at(m - 2).val);
                        assert(pn.unwrap().prev == old(self).node_at(m - 2).prev);
                        assert(pn.unwrap().next == None::<usize>);
                    }
                }
                self.tail = node.prev;
                self.length = self.length - 1;
                proof {
                    self.spine@ = n0.drop_last();
                }
                proof {
                    let n = self.spine@;
                    assert forall|i: int| 0 <= i < m - 1 implies #[trigger] self.slot_ok(i) by {
                        assert(old(self).slot_ok(i));
                    }
                    assert forall|i: int| 0 <= i < m - 1 implies (#[trigger] self.node_at(
                        i,
                    )).prev == (if i == 0 {
                        None::<usize>
                    } else {
                        Some(n[i - 1])
                    }) && self.node_at(i).next == (if i == m - 2 {
                        None::<usize>
                    } else {
                        Some(n[i + 1])
                    }) by {
                        assert(old(self).slot_ok(i));
                        assert(old(self).node_at(i).prev == (if i == 0 {
                            None::<usize>
                        } else {
                            Some(n0[i - 1])
                        }));
                        assert(old(self).node_at(i).next == (if i == m - 1 {
                            None::<usize>
                        } else {
                            Some(n0[i + 1])
                        }));
                    }
                    assert forall|k: int|
                        0 <= k < self.free@.len() implies #[trigger] self.free_slot_ok(k) by {
                        assert(s1.free_slot_ok(k));
                        if m >= 2 {
                            assert(old(self).slot_ok(m - 2));
                        }
                    }
                    assert(self.well_formed());
                    assert forall|i: int| 0 <= i < m - 1 implies self@[i] == old(self)@[i] by {
                        assert(old(self).slot_ok(i));
                    }
                    assert(self@ =~= old(self)@.drop_last());
                    assert(node.val == old(self)@[m - 1]);
                }
                Some(node.val)
            },
        }
    }

    pub fn pop_front(&mut self) -> (r: Option<T>)
        requires
            old(self).well_formed(),
        ensures
            final(self).well_formed(),
            old(self)@.len() == 0 ==> r is None && final(self)@ == old(self)@,
            old(self)@.len() > 0 ==> r == Some(old(self)@.first()) && final(self)@ == old(self)@.drop_first(),
    {
        match self.head {
            None => None,
            Some(h) => {
                let ghost n0 = old(self).spine@;
                let ghost m = n0.len() as int;
                proof {
                    assert(old(self).slot_ok(0));
                    assert forall|i: int| 1 <= i < m implies old(self).slot_ok(i) && n0[i]
                        != h by {
                        assert(old(self).slot_ok(i));
                    }
                }
                let node = self.take_slot(h);
                let ghost s1 = *self;
                proof {
                    assert(node == old(self).node_at(0));
                    if m >= 2 {
                        assert(node.next == Some(n0[1]));
                        assert(old(self).slot_ok(1));
                    } else {
                        assert(node.next == None::<usize>);
                    }
                }
                match node.next {
                    None => {
                        self.tail = None;
                    },
                    Some(nx) => {
                        self.set_prev(nx, None);
                    },
                }
                proof {
                    assert(self.nodes@[h as int] is None);
                    assert forall|j: int|
                        0 <= j < old(self).nodes@.len() && j != h && (m < 2 || j
                            != n0[1]) implies self.nodes@[j] == old(self).nodes@[j] by {}
                    if m >= 2 {
                        let hn = self.nodes@[n0[1] as int];
                        assert(hn is Some);
                        assert(hn.unwrap().val == old(self).node_at(1).val);
                        assert(hn.unwrap().next == old(self).node_at(1).next);
                        assert(hn.unwrap().prev == None::<usize>);
                    }
                }
                self.head = node.next;
                self.length = self.length - 1;
                proof {
                    self.spine@ = n0.drop_first();
                }
                proof {
                    let n = self.spine@;
                    assert(n.len() == m - 1);
                    assert forall|i: int| 0 <= i < m - 1 implies n[i] == n0[i + 1] by {}
                    assert forall|i: int| 0 <= i < m - 1 implies #[trigger] self.slot_ok(i) by {
                        assert(old(self).slot_ok(i + 1));
                    }
                    assert forall|i: int| 0 <= i < m - 1 implies (#[trigger] self.node_at(
                        i,
                    )).prev == (if i == 0 {
                        None::<usize>
                    } else {
                        Some(n[i - 1])
                    }) && self.node_at(i).next == (if i == m - 2 {
                        None::<usize>
                    } else {
                        Some(n[i + 1])
                    }) by {
                        assert(old(self).slot_ok(i + 1));
                        assert(old(self).node_at(i + 1).prev == (if i + 1 == 0 {
                            None::<usize>
                        } else {
                            Some(n0[i])
                        }));
                        assert(old(self).node_at(i + 1).next == (if i + 1 == m - 1 {
                            None::<usize>
                        } else {
                            Some(n0[i + 2])
                        }));
                    }
                    assert forall|k: int|
                        0 <= k < self.free@.len() implies #[trigger] self.free_slot_ok(k) by {
                        assert(s1.free_slot_ok(k));
                        if m >= 2 {
                            assert(old(self).slot_ok(1));
                        }
                    }
                    assert(self.well_formed());
                    assert forall|i: int| 0 <= i < m - 1 implies self@[i] == old(self)@[i
                        + 1] by {
                        assert(old(self).slot_ok(i + 1));
                    }
                    assert(self@ =~= old(self)@.drop_first());
                    assert(node.val == old(self)@[0]);
                }
                Some(node.val)
            },
        }
    }

    /// Divide the list at logical position `at`: the first `at` values stay
    /// here, the rest move to the returned list. The shorter side is walked,
    /// one splice per value, so the work is proportional to the distance
    /// from the nearer end.
    pub fn split_off(&mut self, at: usize) -> (right: LinkedList<T>)
        requires
            old(self).well_formed(),
            at <= old(self)@.len(),
        ensures
            final(self).well_formed(),
            right.well_formed(),
            final(self)@ == old(self)@.subrange(0, at as int),
            right@ == old(self)@.subrange(at as int, old(self)@.len() as int),
            old(self)@ == final(self)@ + right@,
    {
        let ghost s0 = old(self)@;
        let ghost total_len = s0.len() as int;
        let mut right = LinkedList::new();
        let total = self.length;
        if at <= total - at {
            let mut moved: usize = 0;
            while moved < at
                invariant
                    self.well_formed(),
                    right.well_formed(),
                    moved <= at,
                    at <= s0.len(),
                    self@ == s0.subrange(moved as int, s0.len() as int),
                    right@ == s0.subrange(0, moved as int),
                decreases at - moved,
            {
                let v = self.pop_front().unwrap();
                right.push_back(v);
                moved = moved + 1;
                proof {
                    assert(self@ =~= s0.subrange(moved as int, s0.len() as int));
                    assert(right@ =~= s0.subrange(0, moved as int));
                }
            }
            core::mem::swap(self, &mut right);
            proof {
                assert(s0 =~= self@ + right@);
            }
            right
        } else {
            let n = total - at;
            let mut moved: usize = 0;
            while moved < n
                invariant
                    self.well_formed(),
                    right.well_formed(),
                    moved <= n,
                    n == s0.len() - at,
                    at <= s0.len(),
                    self@ == s0.subrange(0, s0.len() - moved),
                    right@ == s0.subrange(s0.len() - moved, s0.len() as int),
                decreases n - moved,
            {
                let v = self.pop_back().unwrap();
                right.push_front(v);
                moved = moved + 1;
                proof {
                    assert(self@ =~= s0.subrange(0, s0.len() - moved));
                    assert(right@ =~= s0.subrange(s0.len() - moved, s0.len() as int));
                }
            }
            proof {
                assert(s0 =~= self@ + right@);
            }
            right
        }
    }
}

impl<T: PartialEq> LinkedList<T> {
    /// Linear scan: true exactly when some stored value compares equal to
    /// `data` under the element type's equality.
    pub fn contains(&self, data: &T) -> (r: bool)
        requires
            self.well_formed(),
            T::obeys_eq_spec(),
        ensures
            r == exists|i: int| 0 <= i < self@.len() && (#[trigger] self@[i]).eq_spec(data),
    {
        let mut cur = self.head;
        let ghost mut pos: int = 0;
        loop
            invariant
                self.well_formed(),
                T::obeys_eq_spec(),
                0 <= pos <= self@.len(),
                cur == (if pos == self@.len() {
                    None::<usize>
                } else {
                    Some(self.spine@[pos])
                }),
                forall|j: int| 0 <= j < pos ==> !(#[trigger] self@[j]).eq_spec(data),
            decreases self@.len() - pos,
        {
            match cur {
                None => {
                    return false;
                },
                Some(c) => {
                    proof {
                        assert(self.slot_ok(pos));
                    }
                    if self.get_node(c).val.eq(data) {
                        proof {
                            assert(self@[pos].eq_spec(data));
                        }
                        return true;
                    }
                    proof {
                        assert(self.node_at(pos).next == (if pos == self@.len() - 1 {
                            None::<usize>
                        } else {
                            Some(self.spine@[pos + 1])
                        }));
                    }
                    cur = self.get_node(c).next;
                    proof {
                        pos = pos + 1;
                    }
                },
            }
        }
    }
}

/// Consuming iteration view: owns the list and yields its values from the
/// front. Dropping it partway drops the list, whose arena frees the
/// remaining nodes without recursion.
pub struct IntoIter<T> {
    list: LinkedList<T>,
}

impl<T> LinkedList<T> {
    pub fn into_iter(self) -> (it: IntoIter<T>)
        requires
            self.well_formed(),
        ensures
            it.iter_wf(),
            it.elems() == self@,
    {
        IntoIter { list: self }
    }
}

impl<T> IntoIter<T> {
    /// The iterator's list is still well formed.
    pub closed spec fn iter_wf(self) -> bool {
        self.list.well_formed()
    }

    /// The values not yet yielded, in the order they will come.
    pub closed spec fn elems(self) -> Seq<T> {
        self.list@
    }

    pub fn next(&mut self) -> (r: Option<T>)
        requires
            old(self).iter_wf(),
        ensures
            final(self).iter_wf(),
            old(self).elems().len() == 0 ==> r is None && final(self).elems() == old(self).elems(),
            old(self).elems().len() > 0 ==> r == Some(old(self).elems().first()) && final(self).elems() == old(self).elems().drop_first(),
    {
        self.list.pop_front()
    }
}

/// Read-only bidirectional iteration view: a forward cursor and a backward
/// cursor that walk toward each other; a shared remaining-count stops the
/// two ends from yielding the same element twice.
pub struct Iter<'a, T> {
    list: &'a LinkedList<T>,
    head: Option<usize>,
    tail: Option<usize>,
    length: usize,
    pos: Ghost<int>,
}

impl<T> LinkedList<T> {
    pub fn iter(&self) -> (it: Iter<'_, T>)
        requires
            self.well_formed(),
        ensures
            it.iter_wf(),
            it.elems() == self@,
    {
        Iter { list: self, head: self.head, tail: self.tail, length: self.length, pos: Ghost(0) }
    }
}

impl<'a, T> Iter<'a, T> {
    /// The cursors sit at the ends of a live window into a well-formed list.
    pub closed spec fn iter_wf(self) -> bool {
        &&& self.list.well_formed()
        &&& 0 <= self.pos@
        &&& self.pos@ + self.length <= self.list@.len()
        &&& self.length > 0 ==> self.head == Some(self.list.spine@[self.pos@]) && self.tail
            == Some(self.list.spine@[self.pos@ + self.length - 1])
    }

    /// The values not yet yielded, in forward order.
    pub closed spec fn elems(self) -> Seq<T> {
        self.list@.subrange(self.pos@, self.pos@ + self.length)
    }

    pub fn next(&mut self) -> (r: Option<&'a T>)
        requires
            old(self).iter_wf(),
        ensures
            final(self).iter_wf(),
            old(self).elems().len() == 0 ==> r is None && *final(self) == *old(self),
            old(self).elems().len() > 0 ==> r is Some && *r.unwrap() == old(self).elems().first() && final(self).elems() == old(self).elems().drop_first(),
    {
        if self.length == 0 {
            None
        } else {
            let c = self.head.unwrap();
            proof {
                assert(self.list.slot_ok(self.pos@));
                assert(self.list.node_at(self.pos@).next == (if self.pos@ == self.list@.len()
                    - 1 {
                    None::<usize>
                } else {
                    Some(self.list.spine@[self.pos@ + 1])
                }));
            }
            let node = self.list.get_node(c);
            self.head = node.next;
            self.length = self.length - 1;
            proof {
                self.pos@ = self.pos@ + 1;
                assert(final(self).elems() =~= old(self).elems().drop_first());
            }
            Some(&node.val)
        }
    }

    pub fn next_back(&mut self) -> (r: Option<&'a T>)
        requires
            old(self).iter_wf(),
        ensures
            final(self).iter_wf(),
            old(self).elems().len() == 0 ==> r is None && *final(self) == *old(self),
            old(self).elems().len() > 0 ==> r is Some && *r.unwrap() == old(self).elems().last()
                && final(self).elems() == old(self).elems().drop_last(),
    {
        if self.length == 0 {
            None
        } else {
            let c = self.tail.unwrap();
            proof {
                assert(self.list.slot_ok(self.pos@ + self.length - 1));
                assert(self.list.node_at(self.pos@ + self.length - 1).prev == (if self.pos@
                    + self.length - 1 == 0 {
                    None::<usize>
                } else {
                    Some(self.list.spine@[self.pos@ + self.length - 2])
                }));
            }
            let node = self.list.get_node(c);
            self.tail = node.prev;
            self.length = self.length - 1;
            proof {
                assert(final(self).elems() =~= old(self).elems().drop_last());
            }
            Some(&node.val)
        }
    }
}

/// Mutable bidirectional iteration view: the same converging cursors as the
/// read-only view, but each step hands out exclusive access to one element.
/// The borrow of the yielded reference ends before the next step, so no two
/// references to the same element are ever live at once.
/// The fields are public in name only: what they may hold is pinned by the
/// closed well-formedness predicate, and the contracts need to speak of the
/// borrowed list to tie the final value of the borrow to the mutations made
/// through the view.
pub struct IterMut<'a, T> {
    pub list: &'a mut LinkedList<T>,
    pub head: Option<usize>,
    pub tail: Option<usize>,
    pub length: usize,
    pub pos: Ghost<int>,
}

impl<T> LinkedList<T> {
    pub fn iter_mut(&mut self) -> (it: IterMut<'_, T>)
        requires
            old(self).well_formed(),
        ensures
            it.iter_wf(),
            it.elems() == old(self)@,
            *final(self) == *final(it.list),
    {
        IterMut {
            head: self.head,
            tail: self.tail,
            length: self.length,
            pos: Ghost(0),
            list: self,
        }
    }
}

impl<'a, T> IterMut<'a, T> {
    /// The cursors sit at the ends of a live window into a well-formed list.
    pub closed spec fn iter_wf(self) -> bool {
        &&& (*self.list).well_formed()
        &&& 0 <= self.pos@
        &&& self.pos@ + self.length <= (*self.list)@.len()
        &&& self.length > 0 ==> self.head == Some((*self.list).spine@[self.pos@]) && self.tail
            == Some((*self.list).spine@[self.pos@ + self.length - 1])
    }

    /// The values not yet yielded, in forward order, as the list currently
    /// holds them.
    pub closed spec fn elems(self) -> Seq<T> {
        (*self.list)@.subrange(self.pos@, self.pos@ + self.length)
    }

    /// The sequence the underlying list currently holds.
    pub closed spec fn list_view(self) -> Seq<T> {
        (*self.list)@
    }

    #[verifier::rlimit(100)]
    pub fn next(&mut self) -> (r: Option<&mut T>)
        requires
            old(self).iter_wf(),
        ensures
            final(self).iter_wf(),
            *final(old(self).list) == *final(final(self).list),
            old(self).elems().len() == 0 ==> r is None,
            old(self).elems().len() == 0 ==> final(self).elems() == old(self).elems(),
            old(self).elems().len() == 0 ==> final(self).list_view() == old(self).list_view(),
            old(self).elems().len() > 0 ==> r is Some,
            old(self).elems().len() > 0 ==> *r.unwrap() == old(self).elems().first(),
            old(self).elems().len() > 0 ==> final(self).list_view() == old(
                self,
            ).list_view().update(old(self).pos@, *final(r.unwrap())),
            old(self).elems().len() > 0 ==> final(self).elems() == old(self).elems().drop_first(),
    {
        if self.length == 0 {
            None
        } else {
            let c = self.head.unwrap();
            proof {
                assert((*self.list).slot_ok(self.pos@));
                assert((*self.list).node_at(self.pos@).next == (if self.pos@ == (
                *self.list)@.len() - 1 {
                    None::<usize>
                } else {
                    Some((*self.list).spine@[self.pos@ + 1])
                }));
            }
            let nxt = self.list.get_node(c).next;
            self.head = nxt;
            self.length = self.length - 1;
            let ghost at = self.pos@;
            let ghost window = old(self).length as int;
            proof {
                self.pos@ = self.pos@ + 1;
                let lst = *self.list;
                assert(lst == *old(self).list);
                assert(at + window <= lst@.len());
                assert forall|v: T| #![trigger lst@.update(at, v)] lst@.update(at, v).subrange(
                    at + 1,
                    at + window,
                ) == lst@.subrange(at + 1, at + window) by {
                    assert(lst@.update(at, v).subrange(at + 1, at + window) =~= lst@.subrange(
                        at + 1,
                        at + window,
                    ));
                }
                assert(old(self).elems().drop_first() =~= lst@.subrange(at + 1, at + window));
                assert(old(self).elems().first() == lst@[at]);
            }
            let r = self.list.slot_val_mut(c, Ghost(at));
            Some(r)
        }
    }

    #[verifier::rlimit(100)]
    pub fn next_back(&mut self) -> (r: Option<&mut T>)
        requires
            old(self).iter_wf(),
        ensures
            final(self).iter_wf(),
            *final(old(self).list) == *final(final(self).list),
            old(self).elems().len() == 0 ==> r is None,
            old(self).elems().len() == 0 ==> final(self).elems() == old(self).elems(),
            old(self).elems().len() == 0 ==> final(self).list_view() == old(self).list_view(),
            old(self).elems().len() > 0 ==> r is Some,
            old(self).elems().len() > 0 ==> *r.unwrap() == old(self).elems().last(),
            old(self).elems().len() > 0 ==> final(self).list_view() == old(
                self,
            ).list_view().update(
                old(self).pos@ + old(self).elems().len() - 1,
                *final(r.unwrap()),
            ),
            old(self).elems().len() > 0 ==> final(self).elems() == old(self).elems().drop_last(),
    {
        if self.length == 0 {
            None
        } else {
            let c = self.tail.unwrap();
            proof {
                assert((*self.list).slot_ok(self.pos@ + self.length - 1));
                assert((*self.list).node_at(self.pos@ + self.length - 1).prev == (if self.pos@
                    + self.length - 1 == 0 {
                    None::<usize>
                } else {
                    Some((*self.list).spine@[self.pos@ + self.length - 2])
                }));
            }
            let prv = self.list.get_node(c).prev;
            self.tail = prv;
            self.length = self.length - 1;
            let ghost at = self.pos@ + old(self).length - 1;
            let ghost window = old(self).length as int;
            proof {
                let lst = *self.list;
                assert(lst == *old(self).list);
                assert(at + 1 <= lst@.len());
                assert forall|v: T| #![trigger lst@.update(at, v)] lst@.update(at, v).subrange(
                    self.pos@,
                    at,
                ) == lst@.subrange(self.pos@, at) by {
                    assert(lst@.update(at, v).subrange(self.pos@, at) =~= lst@.subrange(
                        self.pos@,
                        at,
                    ));
                }
                assert(old(self).elems().drop_last() =~= lst@.subrange(self.pos@, at));
                assert(old(self).elems().last() == lst@[at]);
            }
            let r = self.list.slot_val_mut(c, Ghost(at));
            Some(r)
        }
    }
}

impl<T> LinkedList<T> {
    /// Scan forward for the first value the predicate accepts and hand out
    /// exclusive access to it.
    pub fn find_mut<P>(&mut self, predicate: P) -> (r: Option<&mut T>) where P: Fn(&T) -> bool
        requires
            old(self).well_formed(),
            forall|t: &T| #[trigger] predicate.requires((t,)),
        ensures
            r is None ==> final(self).well_formed() && final(self)@ == old(self)@ && forall|i: int|
                0 <= i < old(self)@.len() ==> call_ensures(predicate, (&old(self)@[i],), false),
            r is Some ==> exists|i: int|
                {
                    &&& 0 <= i < old(self)@.len()
                    &&& #[trigger] call_ensures(predicate, (&old(self)@[i],), true)
                    &&& forall|j: int|
                        0 <= j < i ==> call_ensures(predicate, (&old(self)@[j],), false)
                    &&& *r.unwrap() == old(self)@[i]
                    &&& final(self).well_formed()
                    &&& final(self)@ == old(self)@.update(i, *final(r.unwrap()))
                },
    {
        let mut cur = self.head;
        let ghost mut pos: int = 0;
        loop
            invariant
                self.well_formed(),
                self@ == old(self)@,
                self.spine == old(self).spine,
                *self == *old(self),
                forall|t: &T| #[trigger] predicate.requires((t,)),
                0 <= pos <= self@.len(),
                cur == (if pos == self@.len() {
                    None::<usize>
                } else {
                    Some(self.spine@[pos])
                }),
                forall|j: int|
                    0 <= j < pos ==> call_ensures(predicate, (&old(self)@[j],), false),
            decreases self@.len() - pos,
        {
            match cur {
                None => {
                    return None;
                },
                Some(c) => {
                    proof {
                        assert(self.slot_ok(pos));
                    }
                    let hit = predicate(&self.get_node(c).val);
                    if hit {
                        let r = self.slot_val_mut(c, Ghost(pos));
                        return Some(r);
                    }
                    proof {
                        assert(self.node_at(pos).next == (if pos == self@.len() - 1 {
                            None::<usize>
                        } else {
                            Some(self.spine@[pos + 1])
                        }));
                    }
                    cur = self.get_node(c).next;
                    proof {
                        pos = pos + 1;
                    }
                },
            }
        }
    }

}

/// A value pushed at an end is the first to leave from that same end: the
/// pop contracts return exactly it and restore the previous sequence.
/// Together with the pushes' and pops' length clauses, a run of pushes and
/// pops ends with length equal to pushes minus pops.
pub proof fn lemma_stack_discipline<T>(s: Seq<T>, v: T)
    ensures
        s.push(v).last() == v,
        s.push(v).drop_last() == s,
        s.insert(0, v).first() == v,
        s.insert(0, v).drop_first() == s,
{
    assert(s.push(v).drop_last() =~= s);
    assert(s.insert(0, v).drop_first() =~= s);
}

/// A value pushed at one end leaves at the opposite end only after every
/// value that was already in the list: first-in, first-out.
pub proof fn lemma_queue_discipline<T>(s: Seq<T>, v: T)
    requires
        s.len() > 0,
    ensures
        s.push(v).first() == s.first(),
        s.push(v).drop_first() == s.drop_first().push(v),
        s.insert(0, v).last() == s.last(),
        s.insert(0, v).drop_last() == s.drop_last().insert(0, v),
{
    assert(s.push(v).drop_first() =~= s.drop_first().push(v));
    assert(s.insert(0, v).last() == s.last());
    assert(s.insert(0, v).drop_last() =~= s.drop_last().insert(0, v));
}

/// Inserting `v` at `at` puts `v` exactly there and lengthens the sequence
/// by one; removing at the same position restores the sequence exactly.
pub proof fn lemma_insert_remove<T>(s: Seq<T>, at: int, v: T)
    requires
        0 <= at <= s.len(),
    ensures
        s.insert(at, v)[at] == v,
        s.insert(at, v).len() == s.len() + 1,
        s.insert(at, v).remove(at) == s,
{
    assert(s.insert(at, v).remove(at) =~= s);
}

impl<T> Default for LinkedList<T> {
    fn default() -> (list: Self)
        ensures
            list@ == Seq::<T>::empty(),
            list.well_formed(),
    {
        Self::new()
    }
}

impl<T: Clone> LinkedList<T> {
    /// Duplicate the list by walking it front to back and pushing a clone of
    /// each value.
    pub fn clone(&self) -> (r: Self)
        requires
            self.well_formed(),
        ensures
            r.well_formed(),
            r@.len() == self@.len(),
            forall|i: int| 0 <= i < self@.len() ==> cloned::<T>(self@[i], #[trigger] r@[i]),
    {
        let mut out = Self::new();
        let mut cur = self.head;
        let ghost mut pos: int = 0;
        loop
            invariant
                self.well_formed(),
                out.well_formed(),
                0 <= pos <= self@.len(),
                cur == (if pos == self@.len() {
                    None::<usize>
                } else {
                    Some(self.spine@[pos])
                }),
                out@.len() == pos,
                forall|i: int| 0 <= i < pos ==> cloned::<T>(self@[i], #[trigger] out@[i]),
            decreases self@.len() - pos,
        {
            match cur {
                None => {
                    return out;
                },
                Some(c) => {
                    proof {
                        assert(self.slot_ok(pos));
                        assert(self.node_at(pos).next == (if pos == self@.len() - 1 {
                            None::<usize>
                        } else {
                            Some(self.spine@[pos + 1])
                        }));
                    }
                    let v = self.get_node(c).val.clone();
                    out.push_back(v);
                    cur = self.get_node(c).next;
                    proof {
                        pos = pos + 1;
                    }
                },
            }
        }
    }
}

/// Every clone of a value of `T` equals the value it was cloned from. This
/// is the duplication obligation the sort places on the element type; all
/// primitive types satisfy it.
pub open spec fn clones_equal<T: Clone>() -> bool {
    forall|a: T, b: T| cloned::<T>(a, b) ==> b == a
}

/// Monotonically ordered under the element order.
pub open spec fn sorted_le<T: Ord>(s: Seq<T>) -> bool {
    forall|i: int, j: int| 0 <= i < j < s.len() ==> le(#[trigger] s[i], #[trigger] s[j])
}

/// The stable merge of two sequences: the next value always comes from
/// whichever sequence has the smaller front, the left one on ties.
pub open spec fn merge_seqs<T: Ord>(a: Seq<T>, b: Seq<T>) -> Seq<T>
    decreases a.len(), b.len(),
{
    if a.len() == 0 {
        b
    } else if b.len() == 0 {
        a
    } else if le(a.first(), b.first()) {
        seq![a.first()] + merge_seqs(a.drop_first(), b)
    } else {
        seq![b.first()] + merge_seqs(a, b.drop_first())
    }
}

/// The merge sort, as a function on sequences: split at the midpoint, sort
/// both halves, merge them stably.
pub open spec fn sort_spec<T: Ord>(s: Seq<T>) -> Seq<T>
    decreases s.len(),
{
    if s.len() < 2 {
        s
    } else {
        let mid = s.len() as int / 2;
        merge_seqs(sort_spec(s.subrange(0, mid)), sort_spec(s.subrange(mid, s.len() as int)))
    }
}

/// The values of the same equality class as `k`.
pub open spec fn same_key<T: Ord>(k: T) -> spec_fn(T) -> bool {
    |x: T| x.cmp_spec(&k) == Ordering::Equal
}

proof fn lemma_cons_sorted<T: Ord>(x: T, s: Seq<T>)
    requires
        obeys_cmp::<T>(),
        sorted_le(s),
        s.len() > 0 ==> le(x, s.first()),
    ensures
        sorted_le(seq![x] + s),
{
    lemma_cmp_facts::<T>();
    let t = seq![x] + s;
    assert forall|i: int, j: int| 0 <= i < j < t.len() implies le(#[trigger] t[i], #[trigger] t[j]) by {
        if i == 0 {
            assert(t[j] == s[j - 1]);
            if j > 1 {
                assert(le(s.first(), s[j - 1]));
            }
        } else {
            assert(t[i] == s[i - 1] && t[j] == s[j - 1]);
        }
    }
}

/// Merging two ordered sequences yields an ordered sequence holding exactly
/// the values of both.
pub proof fn lemma_merge_seqs_ensures<T: Ord>(a: Seq<T>, b: Seq<T>)
    requires
        obeys_cmp::<T>(),
        sorted_le(a),
        sorted_le(b),
    ensures
        merge_seqs(a, b).len() == a.len() + b.len(),
        sorted_le(merge_seqs(a, b)),
        merge_seqs(a, b).to_multiset() == (a + b).to_multiset(),
    decreases a.len(), b.len(),
{
    lemma_cmp_facts::<T>();
    broadcast use vstd::seq_lib::group_to_multiset_ensures;
    broadcast use vstd::multiset::group_multiset_axioms;

    if a.len() == 0 {
        assert(a + b =~= b);
    } else if b.len() == 0 {
        assert(a + b =~= a);
    } else if le(a.first(), b.first()) {
        let a2 = a.drop_first();
        assert(sorted_le(a2)) by {
            assert forall|i: int, j: int| 0 <= i < j < a2.len() implies le(
                #[trigger] a2[i],
                #[trigger] a2[j],
            ) by {
                assert(a2[i] == a[i + 1] && a2[j] == a[j + 1]);
                assert(le(a[i + 1], a[j + 1]));
            }
        }
        lemma_merge_seqs_ensures(a2, b);
        let rest = merge_seqs(a2, b);
        assert(rest.len() > 0 ==> le(a.first(), rest.first())) by {
            if a2.len() == 0 {
                assert(rest == b);
            } else if le(a2.first(), b.first()) {
                assert(rest == seq![a2.first()] + merge_seqs(a2.drop_first(), b));
                assert(rest.first() == a2.first());
                assert(le(a.first(), a[1]));
            } else {
                assert(rest == seq![b.first()] + merge_seqs(a2, b.drop_first()));
                assert(rest.first() == b.first());
            }
        }
        lemma_cons_sorted(a.first(), rest);
        assert(merge_seqs(a, b) == seq![a.first()] + rest);
        assert(merge_seqs(a, b).to_multiset() == (a + b).to_multiset()) by {
            vstd::seq_lib::lemma_multiset_commutative(seq![a.first()], rest);
            vstd::seq_lib::lemma_multiset_commutative(a2, b);
            vstd::seq_lib::lemma_multiset_commutative(a, b);
            assert(a =~= seq![a.first()] + a2);
            vstd::seq_lib::lemma_multiset_commutative(seq![a.first()], a2);
            assert((seq![a.first()] + rest).to_multiset() =~= (a + b).to_multiset());
        }
    } else {
        let b2 = b.drop_first();
        assert(sorted_le(b2)) by {
            assert forall|i: int, j: int| 0 <= i < j < b2.len() implies le(
                #[trigger] b2[i],
                #[trigger] b2[j],
            ) by {
                assert(b2[i] == b[i + 1] && b2[j] == b[j + 1]);
                assert(le(b[i + 1], b[j + 1]));
            }
        }
        lemma_merge_seqs_ensures(a, b2);
        let rest = merge_seqs(a, b2);
        assert(le(b.first(), a.first()));
        assert(rest.len() > 0 ==> le(b.first(), rest.first())) by {
            if a.len() == 0 {
                assert(rest == b2);
                if b2.len() > 0 {
                    assert(le(b[0], b[1]));
                }
            } else if b2.len() == 0 {
                assert(rest == a);
            } else if le(a.first(), b2.first()) {
                assert(rest == seq![a.first()] + merge_seqs(a.drop_first(), b2));
                assert(rest.first() == a.first());
            } else {
                assert(rest == seq![b2.first()] + merge_seqs(a, b2.drop_first()));
                assert(rest.first() == b2.first());
                assert(le(b[0], b[1]));
            }
        }
        lemma_cons_sorted(b.first(), rest);
        assert(merge_seqs(a, b) == seq![b.first()] + rest);
        assert(merge_seqs(a, b).to_multiset() == (a + b).to_multiset()) by {
            vstd::seq_lib::lemma_multiset_commutative(seq![b.first()], rest);
            vstd::seq_lib::lemma_multiset_commutative(a, b2);
            vstd::seq_lib::lemma_multiset_commutative(a, b);
            assert(b =~= seq![b.first()] + b2);
            vstd::seq_lib::lemma_multiset_commutative(seq![b.first()], b2);
            assert((seq![b.first()] + rest).to_multiset() =~= (a + b).to_multiset());
        }
    }
}

/// The sort of a sequence is ordered and holds exactly the same values:
/// every permutation of any input, duplicates included, comes out
/// monotonically ordered under the element order.
pub proof fn lemma_sort_spec_ensures<T: Ord>(s: Seq<T>)
    requires
        obeys_cmp::<T>(),
    ensures
        sort_spec(s).len() == s.len(),
        sorted_le(sort_spec(s)),
        sort_spec(s).to_multiset() == s.to_multiset(),
    decreases s.len(),
{
    broadcast use vstd::seq_lib::group_to_multiset_ensures;
    broadcast use vstd::multiset::group_multiset_axioms;

    if s.len() < 2 {
        lemma_cmp_facts::<T>();
    } else {
        let mid = s.len() as int / 2;
        let lo = s.subrange(0, mid);
        let hi = s.subrange(mid, s.len() as int);
        lemma_sort_spec_ensures(lo);
        lemma_sort_spec_ensures(hi);
        lemma_merge_seqs_ensures(sort_spec(lo), sort_spec(hi));
        assert(s =~= lo + hi);
        vstd::seq_lib::lemma_multiset_commutative(lo, hi);
        vstd::seq_lib::lemma_multiset_commutative(sort_spec(lo), sort_spec(hi));
        assert((sort_spec(lo) + sort_spec(hi)).to_multiset() =~= s.to_multiset());
    }
}

/// Stability of the merge: the values of one equality class come out as
/// those of the left sequence followed by those of the right one, each side
/// in its own original order.
#[verifier::rlimit(60)]
pub proof fn lemma_merge_seqs_stable<T: Ord>(a: Seq<T>, b: Seq<T>, k: T)
    requires
        obeys_cmp::<T>(),
        sorted_le(a),
        sorted_le(b),
    ensures
        merge_seqs(a, b).filter(same_key(k)) == a.filter(same_key(k)) + b.filter(same_key(k)),
    decreases a.len(), b.len(),
{
    lemma_cmp_facts::<T>();
    reveal_with_fuel(Seq::filter, 3);
    broadcast use vstd::prelude::Seq::filter_distributes_over_add;

    let p = same_key(k);
    if a.len() == 0 {
        assert(a.filter(p) + b.filter(p) =~= b.filter(p));
    } else if b.len() == 0 {
        assert(a.filter(p) + b.filter(p) =~= a.filter(p));
    } else if le(a.first(), b.first()) {
        let a2 = a.drop_first();
        assert(sorted_le(a2)) by {
            assert forall|i: int, j: int| 0 <= i < j < a2.len() implies le(
                #[trigger] a2[i],
                #[trigger] a2[j],
            ) by {
                assert(a2[i] == a[i + 1] && a2[j] == a[j + 1]);
                assert(le(a[i + 1], a[j + 1]));
            }
        }
        lemma_merge_seqs_stable(a2, b, k);
        assert(a =~= seq![a.first()] + a2);
        assert(merge_seqs(a, b).filter(p) =~= a.filter(p) + b.filter(p)) by {
            assert(merge_seqs(a, b) == seq![a.first()] + merge_seqs(a2, b));
            assert(a.filter(p) == seq![a.first()].filter(p) + a2.filter(p));
        }
    } else {
        let b2 = b.drop_first();
        assert(sorted_le(b2)) by {
            assert forall|i: int, j: int| 0 <= i < j < b2.len() implies le(
                #[trigger] b2[i],
                #[trigger] b2[j],
            ) by {
                assert(b2[i] == b[i + 1] && b2[j] == b[j + 1]);
                assert(le(b[i + 1], b[j + 1]));
            }
        }
        lemma_merge_seqs_stable(a, b2, k);
        assert(b =~= seq![b.first()] + b2);
        assert(merge_seqs(a, b) == seq![b.first()] + merge_seqs(a, b2));
        if p(b.first()) {
            // The right front belongs to the class, so nothing in the left
            // sequence does: everything there is strictly above the class.
            assert(a.filter(p) =~= Seq::<T>::empty()) by {
                assert forall|i: int| 0 <= i < a.len() implies !p(a[i]) by {
                    assert(b.first().cmp_spec(&k) == Ordering::Equal);
                    assert(a.first().cmp_spec(&b.first()) == Ordering::Greater);
                    if a[i].cmp_spec(&k) == Ordering::Equal {
                        // a[i] and b's front share the class, so a[i] is at
                        // most b's front; but the whole of `a` sits above it.
                        assert(k.cmp_spec(&b.first()) == Ordering::Equal);
                        assert(a[i].cmp_spec(&b.first()) == Ordering::Equal);
                        if i == 0 {
                            assert(false);
                        } else {
                            assert(le(a.first(), a[i]));
                            assert(le(a[i], b.first()));
                            assert(le(a.first(), b.first()));
                            assert(false);
                        }
                    }
                }
                lemma_filter_empty(a, p);
            }
            assert(merge_seqs(a, b).filter(p) =~= a.filter(p) + b.filter(p)) by {
                vstd::prelude::Seq::filter_distributes_over_add(
                    seq![b.first()],
                    merge_seqs(a, b2),
                    p,
                );
                vstd::prelude::Seq::filter_distributes_over_add(seq![b.first()], b2, p);
                assert(seq![b.first()].filter(p) =~= seq![b.first()]);
                assert(merge_seqs(a, b).filter(p) == seq![b.first()].filter(p) + merge_seqs(
                    a,
                    b2,
                ).filter(p));
                assert(b.filter(p) == seq![b.first()].filter(p) + b2.filter(p));
                assert(merge_seqs(a, b2).filter(p) == a.filter(p) + b2.filter(p));
                assert(a.filter(p).len() == 0);
            }
        } else {
            assert(merge_seqs(a, b).filter(p) =~= a.filter(p) + b.filter(p)) by {
                assert(merge_seqs(a, b).filter(p) == seq![b.first()].filter(p) + merge_seqs(
                    a,
                    b2,
                ).filter(p));
                assert(b.filter(p) == seq![b.first()].filter(p) + b2.filter(p));
            }
        }
    }
}

/// A sequence none of whose values matches the predicate filters to the
/// empty sequence.
proof fn lemma_filter_empty<T>(s: Seq<T>, p: spec_fn(T) -> bool)
    requires
        forall|i: int| 0 <= i < s.len() ==> !p(#[trigger] s[i]),
    ensures
        s.filter(p) == Seq::<T>::empty(),
    decreases s.len(),
{
    reveal(Seq::filter);
    if s.len() > 0 {
        lemma_filter_empty(s.drop_last(), p);
        assert(!p(s.last()));
    }
    assert(s.filter(p) =~= Seq::<T>::empty());
}

/// Stability of the sort: the values of any one equality class stand in the
/// sorted sequence in exactly their original relative order.
pub proof fn lemma_sort_spec_stable<T: Ord>(s: Seq<T>, k: T)
    requires
        obeys_cmp::<T>(),
    ensures
        sort_spec(s).filter(same_key(k)) == s.filter(same_key(k)),
    decreases s.len(),
{
    reveal(Seq::filter);
    broadcast use vstd::prelude::Seq::filter_distributes_over_add;

    let p = same_key(k);
    if s.len() >= 2 {
        let mid = s.len() as int / 2;
        let lo = s.subrange(0, mid);
        let hi = s.subrange(mid, s.len() as int);
        lemma_sort_spec_ensures(lo);
        lemma_sort_spec_ensures(hi);
        lemma_sort_spec_stable(lo, k);
        lemma_sort_spec_stable(hi, k);
        lemma_merge_seqs_stable(sort_spec(lo), sort_spec(hi), k);
        assert(s =~= lo + hi);
        assert(sort_spec(s).filter(p) =~= s.filter(p)) by {
            assert(sort_spec(s) == merge_seqs(sort_spec(lo), sort_spec(hi)));
            assert(s.filter(p) == lo.filter(p) + hi.filter(p));
        }
    }
}

impl<T> LinkedList<T> {
    /// Overwrite the value stored at logical position `at`, reached through
    /// arena slot `p`; the links and the spine stay as they are.
    fn set_val(&mut self, p: usize, Ghost(at): Ghost<int>, v: T)
        requires
            old(self).well_formed(),
            0 <= at < old(self)@.len(),
            p == old(self).spine@[at],
        ensures
            final(self).well_formed(),
            final(self)@ == old(self)@.update(at, v),
            final(self).spine == old(self).spine,
    {
        proof {
            assert(self.slot_ok(at));
        }
        match &mut self.nodes[p] {
            Some(node) => {
                node.val = v;
            },
            None => {
                proof {
                    assert(false);
                }
            },
        }
        proof {
            assert(value_update(*old(self), *self, at));
            lemma_value_update(*old(self), *self, at);
        }
    }
}

/// In-place merge sort over a positionally indexed collection: values are
/// rewritten through the indexer, the node structure is never relinked.
pub trait MergeSort: Sized {
    /// What sorting asks of the collection and its element type.
    spec fn sort_pre(&self) -> bool;

    /// What sorting a range additionally asks.
    spec fn range_pre(&self, lo: usize, hi: usize) -> bool;

    /// What merging two adjacent ordered runs asks.
    spec fn merge_pre(&self, low: usize, middle: usize, high: usize) -> bool;

    /// The whole collection is the sort of its old contents.
    spec fn sorted_full(pre: Self, post: Self) -> bool;

    /// The range `[lo, hi)` is the sort of its old contents; the rest is
    /// untouched.
    spec fn sorted_range(pre: Self, post: Self, lo: usize, hi: usize) -> bool;

    /// The range `[low, high)` is the stable merge of its two old runs; the
    /// rest is untouched.
    spec fn merged_range(pre: Self, post: Self, low: usize, middle: usize, high: usize) -> bool;

    /// Sort the whole collection in place.
    fn merge_sort(&mut self)
        requires
            old(self).sort_pre(),
        ensures
            Self::sorted_full(*old(self), *final(self)),
    ;

    /// Sort the range `[lo, hi)` in place: ranges shorter than two values
    /// stand sorted already, longer ones are split at the midpoint, sorted
    /// recursively and merged.
    fn merge_sorted(&mut self, lo: usize, hi: usize)
        requires
            old(self).range_pre(lo, hi),
        ensures
            Self::sorted_range(*old(self), *final(self), lo, hi),
    ;

    /// Merge the ordered runs `[low, middle)` and `[middle, high)` in one
    /// forward pass, writing values through the positional indexer.
    fn merge(&mut self, low: usize, middle: usize, high: usize)
        requires
            old(self).merge_pre(low, middle, high),
        ensures
            Self::merged_range(*old(self), *final(self), low, middle, high),
    ;
}

impl<T: Ord + Clone> MergeSort for LinkedList<T> {
    open spec fn sort_pre(&self) -> bool {
        &&& obeys_cmp::<T>()
        &&& clones_equal::<T>()
        &&& self.well_formed()
    }

    open spec fn range_pre(&self, lo: usize, hi: usize) -> bool {
        &&& self.sort_pre()
        &&& lo <= hi <= self@.len()
    }

    open spec fn merge_pre(&self, low: usize, middle: usize, high: usize) -> bool {
        &&& self.sort_pre()
        &&& low <= middle <= high <= self@.len()
        &&& sorted_le(self@.subrange(low as int, middle as int))
        &&& sorted_le(self@.subrange(middle as int, high as int))
    }

    open spec fn sorted_full(pre: Self, post: Self) -> bool {
        &&& post.well_formed()
        &&& post@ == sort_spec(pre@)
    }

    open spec fn sorted_range(pre: Self, post: Self, lo: usize, hi: usize) -> bool {
        &&& post.well_formed()
        &&& post@ == pre@.subrange(0, lo as int) + sort_spec(
            pre@.subrange(lo as int, hi as int),
        ) + pre@.subrange(hi as int, pre@.len() as int)
    }

    open spec fn merged_range(pre: Self, post: Self, low: usize, middle: usize, high: usize) -> bool {
        &&& post.well_formed()
        &&& post@ == pre@.subrange(0, low as int) + merge_seqs(
            pre@.subrange(low as int, middle as int),
            pre@.subrange(middle as int, high as int),
        ) + pre@.subrange(high as int, pre@.len() as int)
    }

    fn merge_sort(&mut self) {
        let len = self.length;
        self.merge_sorted(0, len);
        proof {
            assert(old(self)@.subrange(0, 0) =~= Seq::<T>::empty());
            assert(old(self)@.subrange(old(self)@.len() as int, old(self)@.len() as int)
                =~= Seq::<T>::empty());
            assert(old(self)@.subrange(0, old(self)@.len() as int) =~= old(self)@);
            assert(self@ =~= sort_spec(old(self)@));
        }
    }

    fn merge_sorted(&mut self, lo: usize, hi: usize)
        decreases hi - lo,
    {
        let ghost s0 = old(self)@;
        if hi - lo < 2 {
            proof {
                assert(sort_spec(s0.subrange(lo as int, hi as int)) == s0.subrange(
                    lo as int,
                    hi as int,
                ));
                assert(self@ =~= s0.subrange(0, lo as int) + s0.subrange(lo as int, hi as int)
                    + s0.subrange(hi as int, s0.len() as int));
            }
            return ;
        }
        let mi = lo + (hi - lo) / 2;
        self.merge_sorted(lo, mi);
        let ghost s1 = self@;
        proof {
            lemma_sort_spec_ensures(s0.subrange(lo as int, mi as int));
            assert(s1.len() == s0.len());
            assert(s1.subrange(mi as int, hi as int) =~= s0.subrange(mi as int, hi as int));
        }
        self.merge_sorted(mi, hi);
        let ghost s2 = self@;
        proof {
            lemma_sort_spec_ensures(s0.subrange(lo as int, mi as int));
            lemma_sort_spec_ensures(s0.subrange(mi as int, hi as int));
            assert(s2.len() == s1.len());
            assert(s2.subrange(0, lo as int) =~= s0.subrange(0, lo as int));
            assert(s2.subrange(hi as int, s2.len() as int) =~= s0.subrange(
                hi as int,
                s0.len() as int,
            ));
            assert(s2.subrange(lo as int, mi as int) =~= sort_spec(
                s0.subrange(lo as int, mi as int),
            ));
            assert(s2.subrange(mi as int, hi as int) =~= sort_spec(
                s0.subrange(mi as int, hi as int),
            ));
            assert(sorted_le(s2.subrange(lo as int, mi as int)));
            assert(sorted_le(s2.subrange(mi as int, hi as int)));
        }
        self.merge(lo, mi, hi);
        proof {
            lemma_sort_spec_ensures(s0.subrange(lo as int, mi as int));
            lemma_sort_spec_ensures(s0.subrange(mi as int, hi as int));
            let whole = s0.subrange(lo as int, hi as int);
            assert(whole.subrange(0, mi - lo) =~= s0.subrange(lo as int, mi as int));
            assert(whole.subrange(mi - lo, whole.len() as int) =~= s0.subrange(
                mi as int,
                hi as int,
            ));
            assert(mi - lo == whole.len() as int / 2);
            assert(sort_spec(whole) == merge_seqs(
                sort_spec(s0.subrange(lo as int, mi as int)),
                sort_spec(s0.subrange(mi as int, hi as int)),
            ));
            assert(self@ =~= s0.subrange(0, lo as int) + sort_spec(whole) + s0.subrange(
                hi as int,
                s0.len() as int,
            ));
        }
    }

    #[verifier::rlimit(80)]
    fn merge(&mut self, low: usize, middle: usize, high: usize) {
        proof {
            lemma_cmp_facts::<T>();
        }
        let ghost s0 = old(self)@;
        let ghost lseq = s0.subrange(low as int, middle as int);
        let ghost rseq = s0.subrange(middle as int, high as int);
        if middle == low || high == middle {
            proof {
                if middle == low {
                    assert(lseq.len() == 0);
                    assert(merge_seqs(lseq, rseq) == rseq);
                } else {
                    assert(rseq.len() == 0);
                    assert(merge_seqs(lseq, rseq) == lseq);
                }
                assert(self@ =~= s0.subrange(0, low as int) + merge_seqs(lseq, rseq)
                    + s0.subrange(high as int, s0.len() as int));
            }
            return ;
        }

        // Copy the left run into a temporary auxiliary list, preserving
        // order, by one forward walk.
        let mut b = LinkedList::new();
        let mut cur: Option<usize> = Some(self.locate(low));
        let mut cnt: usize = low;
        while cnt < middle
            invariant
                clones_equal::<T>(),
                self.well_formed(),
                b.well_formed(),
                low <= cnt <= middle,
                low < middle < high,
                high <= self@.len(),
                self@ == s0,
                lseq == s0.subrange(low as int, middle as int),
                b@ == s0.subrange(low as int, cnt as int),
                cnt < self@.len() ==> cur == Some(self.spine@[cnt as int]),
                cnt == self@.len() ==> cur is None,
            decreases middle - cnt,
        {
            let c = cur.unwrap();
            proof {
                assert(self.slot_ok(cnt as int));
                assert(self.node_at(cnt as int).next == (if cnt as int == self@.len() - 1 {
                    None::<usize>
                } else {
                    Some(self.spine@[cnt as int + 1])
                }));
            }
            let v = self.get_node(c).val.clone();
            proof {
                assert(cloned::<T>(self@[cnt as int], v));
                assert(v == self@[cnt as int]);
            }
            b.push_back(v);
            cur = self.get_node(c).next;
            cnt = cnt + 1;
            proof {
                assert(b@ =~= s0.subrange(low as int, cnt as int));
            }
        }

        let lb = middle - low;
        let lc = high - middle;
        let mut i: usize = 0;
        let mut j: usize = 0;
        let mut k: usize = 0;
        let mut b_j: Option<usize> = Some(b.locate(0));
        let mut a_middle_k: Option<usize> = Some(self.locate(middle));
        let mut a_low_i: Option<usize> = Some(self.locate(low));
        proof {
            assert(b@.subrange(0, lb as int) =~= lseq);
            assert(self@.subrange(middle as int, high as int) == rseq);
            assert(self@.subrange(low as int, low as int) + merge_seqs(lseq, rseq) =~= merge_seqs(
                lseq,
                rseq,
            ));
        }

        while j < lb && k < lc
            invariant
                obeys_cmp::<T>(),
                clones_equal::<T>(),
                self.well_formed(),
                b.well_formed(),
                low < middle < high,
                high <= self@.len(),
                self@.len() == s0.len(),
                lb == middle - low,
                lc == high - middle,
                i == j + k,
                j <= lb,
                k <= lc,
                lseq == s0.subrange(low as int, middle as int),
                rseq == s0.subrange(middle as int, high as int),
                b@ == lseq,
                self@.subrange(0, low as int) == s0.subrange(0, low as int),
                self@.subrange(high as int, self@.len() as int) == s0.subrange(
                    high as int,
                    s0.len() as int,
                ),
                self@.subrange(middle as int + k as int, high as int) == s0.subrange(
                    middle as int + k as int,
                    high as int,
                ),
                merge_seqs(lseq, rseq) == self@.subrange(low as int, low as int + i as int)
                    + merge_seqs(
                    b@.subrange(j as int, lb as int),
                    self@.subrange(middle as int + k as int, high as int),
                ),
                j < lb ==> b_j == Some(b.spine@[j as int]),
                k < lc ==> a_middle_k == Some(self.spine@[middle as int + k as int]),
                (low as int + i as int) < self@.len() ==> a_low_i == Some(
                    self.spine@[low as int + i as int],
                ),
                (low as int + i as int) >= self@.len() ==> a_low_i is None,
            decreases (lb - j) + (lc - k),
        {
            proof {
                lemma_cmp_facts::<T>();
            }
            let bs = b_j.unwrap();
            let ms = a_middle_k.unwrap();
            proof {
                assert(b.slot_ok(j as int));
                assert(self.slot_ok(middle as int + k as int));
                assert(self.slot_ok(low as int + i as int));
            }
            let take_left = b.get_node(bs).val.le(&self.get_node(ms).val);
            proof {
                assert(b@[j as int] == lseq[j as int]);
                assert(self@[middle as int + k as int] == rseq[k as int]) by {
                    assert(self@.subrange(middle as int + k as int, high as int)[0] == self@[middle
                        as int + k as int]);
                }
                assert(take_left <==> le(lseq[j as int], rseq[k as int]));
            }
            let ghost pre = *self;
            let ghost lrest = b@.subrange(j as int, lb as int);
            let ghost rrest = self@.subrange(middle as int + k as int, high as int);
            if take_left {
                proof {
                    assert(b.node_at(j as int).next == (if j as int == b@.len() - 1 {
                        None::<usize>
                    } else {
                        Some(b.spine@[j as int + 1])
                    }));
                }
                let v = b.get_node(bs).val.clone();
                let nxt = b.get_node(bs).next;
                proof {
                    assert(cloned::<T>(b@[j as int], v));
                    assert(v == lseq[j as int]);
                }
                let ls = a_low_i.unwrap();
                self.set_val(ls, Ghost(low as int + i as int), v);
                proof {
                    assert(self.slot_ok(low as int + i as int));
                    assert(self.node_at(low as int + i as int).next == (if low as int + i as int
                        == self@.len() - 1 {
                        None::<usize>
                    } else {
                        Some(self.spine@[low as int + i as int + 1])
                    }));
                }
                a_low_i = self.get_node(ls).next;
                b_j = nxt;
                j = j + 1;
                i = i + 1;
                proof {
                    assert(merge_seqs(lrest, rrest) == seq![lrest.first()] + merge_seqs(
                        lrest.drop_first(),
                        rrest,
                    ));
                    assert(lrest.first() == lseq[j as int - 1]);
                    assert(lrest.drop_first() =~= b@.subrange(j as int, lb as int));
                    assert(self@.subrange(0, low as int) =~= s0.subrange(0, low as int));
                    assert(self@.subrange(high as int, self@.len() as int) =~= s0.subrange(
                        high as int,
                        s0.len() as int,
                    ));
                    assert(self@.subrange(middle as int + k as int, high as int) =~= pre@.subrange(
                        middle as int + k as int,
                        high as int,
                    ));
                    assert(self@.subrange(low as int, low as int + i as int) =~= pre@.subrange(
                        low as int,
                        low as int + i as int - 1,
                    ).push(lseq[j as int - 1]));
                    assert(merge_seqs(lseq, rseq) == self@.subrange(
                        low as int,
                        low as int + i as int,
                    ) + merge_seqs(
                        b@.subrange(j as int, lb as int),
                        self@.subrange(middle as int + k as int, high as int),
                    ));
                }
            } else {
                proof {
                    assert(self.node_at(middle as int + k as int).next == (if middle as int
                        + k as int == self@.len() - 1 {
                        None::<usize>
                    } else {
                        Some(self.spine@[middle as int + k as int + 1])
                    }));
                }
                let v = self.get_node(ms).val.clone();
                let nxt = self.get_node(ms).next;
                proof {
                    assert(cloned::<T>(self@[middle as int + k as int], v));
                    assert(v == rseq[k as int]);
                }
                let ls = a_low_i.unwrap();
                self.set_val(ls, Ghost(low as int + i as int), v);
                proof {
                    assert(self.slot_ok(low as int + i as int));
                    assert(self.node_at(low as int + i as int).next == (if low as int + i as int
                        == self@.len() - 1 {
                        None::<usize>
                    } else {
                        Some(self.spine@[low as int + i as int + 1])
                    }));
                }
                a_low_i = self.get_node(ls).next;
                a_middle_k = nxt;
                k = k + 1;
                i = i + 1;
                proof {
                    assert(!le(lrest.first(), rrest.first()));
                    assert(merge_seqs(lrest, rrest) == seq![rrest.first()] + merge_seqs(
                        lrest,
                        rrest.drop_first(),
                    ));
                    assert(rrest.first() == rseq[k as int - 1]);
                    assert(self@.subrange(0, low as int) =~= s0.subrange(0, low as int));
                    assert(self@.subrange(high as int, self@.len() as int) =~= s0.subrange(
                        high as int,
                        s0.len() as int,
                    ));
                    assert(self@.subrange(middle as int + k as int, high as int) =~= rrest.drop_first());
                    assert(self@.subrange(middle as int + k as int, high as int) =~= s0.subrange(
                        middle as int + k as int,
                        high as int,
                    ));
                    assert(self@.subrange(low as int, low as int + i as int) =~= pre@.subrange(
                        low as int,
                        low as int + i as int - 1,
                    ).push(rseq[k as int - 1]));
                    assert(merge_seqs(lseq, rseq) == self@.subrange(
                        low as int,
                        low as int + i as int,
                    ) + merge_seqs(
                        b@.subrange(j as int, lb as int),
                        self@.subrange(middle as int + k as int, high as int),
                    ));
                }
            }
        }

        // The right run is exhausted: copy what is left of the auxiliary
        // list into the remaining positions.
        while j < lb
            invariant
                obeys_cmp::<T>(),
                clones_equal::<T>(),
                self.well_formed(),
                b.well_formed(),
                low < middle < high,
                high <= self@.len(),
                self@.len() == s0.len(),
                lb == middle - low,
                lc == high - middle,
                i == j + k,
                j <= lb,
                k <= lc,
                j < lb ==> k == lc,
                lseq == s0.subrange(low as int, middle as int),
                rseq == s0.subrange(middle as int, high as int),
                b@ == lseq,
                self@.subrange(0, low as int) == s0.subrange(0, low as int),
                self@.subrange(high as int, self@.len() as int) == s0.subrange(
                    high as int,
                    s0.len() as int,
                ),
                self@.subrange(middle as int + k as int, high as int) == s0.subrange(
                    middle as int + k as int,
                    high as int,
                ),
                merge_seqs(lseq, rseq) == self@.subrange(low as int, low as int + i as int)
                    + merge_seqs(
                    b@.subrange(j as int, lb as int),
                    self@.subrange(middle as int + k as int, high as int),
                ),
                j < lb ==> b_j == Some(b.spine@[j as int]),
                (low as int + i as int) < self@.len() ==> a_low_i == Some(
                    self.spine@[low as int + i as int],
                ),
                (low as int + i as int) >= self@.len() ==> a_low_i is None,
            decreases lb - j,
        {
            proof {
                lemma_cmp_facts::<T>();
                assert(b.slot_ok(j as int));
                assert(self.slot_ok(low as int + i as int));
                assert(b.node_at(j as int).next == (if j as int == b@.len() - 1 {
                    None::<usize>
                } else {
                    Some(b.spine@[j as int + 1])
                }));
            }
            let ghost pre = *self;
            let ghost lrest = b@.subrange(j as int, lb as int);
            let ghost rrest = self@.subrange(middle as int + k as int, high as int);
            let bs = b_j.unwrap();
            let v = b.get_node(bs).val.clone();
            let nxt = b.get_node(bs).next;
            proof {
                assert(cloned::<T>(b@[j as int], v));
                assert(v == lseq[j as int]);
            }
            let ls = a_low_i.unwrap();
            self.set_val(ls, Ghost(low as int + i as int), v);
            proof {
                assert(self.slot_ok(low as int + i as int));
                assert(self.node_at(low as int + i as int).next == (if low as int + i as int
                    == self@.len() - 1 {
                    None::<usize>
                } else {
                    Some(self.spine@[low as int + i as int + 1])
                }));
            }
            a_low_i = self.get_node(ls).next;
            b_j = nxt;
            j = j + 1;
            i = i + 1;
            proof {
                assert(rrest.len() == 0);
                assert(merge_seqs(lrest, rrest) == lrest);
                assert(lrest =~= seq![lrest.first()] + b@.subrange(j as int, lb as int));
                assert(merge_seqs(b@.subrange(j as int, lb as int), rrest) == b@.subrange(
                    j as int,
                    lb as int,
                ));
                assert(lrest.first() == lseq[j as int - 1]);
                assert(self@.subrange(0, low as int) =~= s0.subrange(0, low as int));
                assert(self@.subrange(high as int, self@.len() as int) =~= s0.subrange(
                    high as int,
                    s0.len() as int,
                ));
                assert(self@.subrange(middle as int + k as int, high as int) =~= pre@.subrange(
                    middle as int + k as int,
                    high as int,
                ));
                assert(self@.subrange(low as int, low as int + i as int) =~= pre@.subrange(
                    low as int,
                    low as int + i as int - 1,
                ).push(lseq[j as int - 1]));
                assert(merge_seqs(lseq, rseq) == self@.subrange(low as int, low as int + i as int)
                    + merge_seqs(
                    b@.subrange(j as int, lb as int),
                    self@.subrange(middle as int + k as int, high as int),
                ));
            }
        }

        proof {
            assert(j == lb);
            assert(b@.subrange(lb as int, lb as int) =~= Seq::<T>::empty());
            assert(merge_seqs(
                Seq::<T>::empty(),
                self@.subrange(middle as int + k as int, high as int),
            ) == self@.subrange(middle as int + k as int, high as int));
            assert(low as int + i as int == middle as int + k as int);
            assert(self@.subrange(low as int, high as int) =~= self@.subrange(
                low as int,
                low as int + i as int,
            ) + self@.subrange(middle as int + k as int, high as int));
            assert(self@.subrange(low as int, high as int) == merge_seqs(lseq, rseq));
            assert(self@ =~= self@.subrange(0, low as int) + self@.subrange(
                low as int,
                high as int,
            ) + self@.subrange(high as int, self@.len() as int));
            assert(self@ == s0.subrange(0, low as int) + merge_seqs(lseq, rseq) + s0.subrange(
                high as int,
                s0.len() as int,
            ));
        }
    }
}

} // verus!
