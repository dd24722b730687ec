//! Array-backed binary-heap priority queue: a complete binary tree stored in a
//! vector, ordered so that every parent is at least as large as its children.
//! `push` restores the order by sifting the new element up; `pop` swaps the
//! root with the last element and sifts the new root down.

use vstd::prelude::*;

use core::cmp::Ordering;
use vstd::laws_cmp::obeys_cmp;
use vstd::std_specs::cmp::OrdSpec;

use crate::order::ge;
use crate::order::lemma_cmp_facts;

verus! {

/// Relies on `<[T]>::swap`: exchanges the elements at the two indexes and
/// panics when either index is out of bounds.
pub assume_specification<A>[ <[A]>::swap ](s: &mut [A], a: usize, b: usize)
    requires
        a < old(s)@.len(),
        b < old(s)@.len(),
    ensures
        final(s)@ == old(s)@.update(a as int, old(s)@[b as int]).update(
            b as int,
            old(s)@[a as int],
        ),
;

/// Index of the parent of heap slot `i`.
pub open spec fn parent_of(i: int) -> int {
    (i - 1) / 2
}

/// Whether heap slot `i` lies in the subtree rooted at slot `r`.
pub open spec fn in_subtree(r: int, i: int) -> bool
    decreases i,
{
    if i <= r {
        i == r
    } else if i < 1 {
        false
    } else {
        in_subtree(r, parent_of(i))
    }
}

/// Every parent dominates its children: the max-heap shape of a sequence.
pub open spec fn heap_ordered<T: Ord>(s: Seq<T>) -> bool {
    forall|i: int| 1 <= i < s.len() ==> ge(s[parent_of(i)], #[trigger] s[i])
}

/// The heap shape restricted to the subtree rooted at `r`.
pub open spec fn subtree_ordered<T: Ord>(s: Seq<T>, r: int) -> bool {
    forall|i: int|
        1 <= i < s.len() && #[trigger] in_subtree(r, i) && i != r ==> ge(s[parent_of(i)], s[i])
}

pub proof fn lemma_subtree_member_bounds(r: int, i: int)
    requires
        in_subtree(r, i),
    ensures
        r <= i,
        i != r ==> 2 * r + 1 <= i,
    decreases i,
{
    if i > r && i >= 1 {
        lemma_subtree_member_bounds(r, parent_of(i));
    }
}

pub proof fn lemma_in_subtree_root(i: int)
    requires
        0 <= i,
    ensures
        in_subtree(0, i),
    decreases i,
{
    if i > 0 {
        lemma_in_subtree_root(parent_of(i));
    }
}

pub proof fn lemma_in_subtree_trans(a: int, b: int, c: int)
    requires
        in_subtree(a, b),
        in_subtree(b, c),
    ensures
        in_subtree(a, c),
    decreases c,
{
    if c > b && c >= 1 {
        lemma_in_subtree_trans(a, b, parent_of(c));
    }
}

pub proof fn lemma_ancestors_comparable(a: int, b: int, j: int)
    requires
        in_subtree(a, j),
        in_subtree(b, j),
    ensures
        in_subtree(a, b) || in_subtree(b, a),
    decreases j,
{
    if j > a && j > b && j >= 1 {
        lemma_ancestors_comparable(a, b, parent_of(j));
    }
}

/// The heap order below a root holds below any node of that root's subtree.
pub proof fn lemma_subtree_ordered_sub<T: Ord>(s: Seq<T>, a: int, b: int)
    requires
        subtree_ordered(s, a),
        in_subtree(a, b),
    ensures
        subtree_ordered(s, b),
{
    assert forall|j: int| 1 <= j < s.len() && #[trigger] in_subtree(b, j) && j != b implies ge(
        s[parent_of(j)],
        s[j],
    ) by {
        lemma_in_subtree_trans(a, b, j);
        lemma_subtree_member_bounds(a, b);
        lemma_subtree_member_bounds(b, j);
        if j == a {
            lemma_subtree_member_bounds(a, j);
            assert(a == b);
        }
    }
}

/// A full heap is exactly the subtree rooted at slot zero.
pub proof fn lemma_heap_is_root_subtree<T: Ord>(s: Seq<T>)
    ensures
        heap_ordered(s) <==> subtree_ordered(s, 0),
{
    if heap_ordered(s) {
        assert forall|i: int|
            1 <= i < s.len() && #[trigger] in_subtree(0, i) && i != 0 implies ge(
            s[parent_of(i)],
            s[i],
        ) by {
            assert(ge(s[parent_of(i)], s[i]));
        }
    }
    if subtree_ordered(s, 0) {
        assert forall|i: int| 1 <= i < s.len() implies ge(s[parent_of(i)], #[trigger] s[i]) by {
            lemma_in_subtree_root(i);
        }
    }
}

/// In a heap, the root dominates every element: each slot is reachable from
/// the root along parent links, and domination is transitive.
pub proof fn lemma_root_dominates<T: Ord>(s: Seq<T>, i: int)
    requires
        obeys_cmp::<T>(),
        heap_ordered(s),
        0 <= i < s.len(),
    ensures
        ge(s[0], s[i]),
    decreases i,
{
    lemma_cmp_facts::<T>();
    if i > 0 {
        lemma_root_dominates(s, parent_of(i));
    }
}

/// Array-backed binary max-heap priority queue over a totally ordered
/// element type.
pub struct PqCompleteHeap<T: Ord> {
    elem: Vec<T>,
}

impl<T: Ord> View for PqCompleteHeap<T> {
    type V = Seq<T>;

    closed spec fn view(&self) -> Seq<T> {
        self.elem@
    }
}

impl<T: Ord> PqCompleteHeap<T> {
    /// The heap order holds of the stored vector.
    pub open spec fn well_formed(self) -> bool {
        heap_ordered(self@)
    }

    pub fn new() -> (pq: Self)
        ensures
            pq@ == Seq::<T>::empty(),
            pq.well_formed(),
    {
        PqCompleteHeap { elem: Vec::new() }
    }

    /// Builds a heap from an arbitrary vector by sifting every internal node
    /// down, deepest first.
    pub fn new_with_vec(elem: Vec<T>) -> (pq: Self)
        requires
            obeys_cmp::<T>(),
        ensures
            pq.well_formed(),
            pq@.to_multiset() == elem@.to_multiset(),
            pq@.len() == elem@.len(),
    {
        let mut pq = Self { elem };
        pq.heapify();
        pq
    }

    pub fn push(&mut self, e: T)
        requires
            obeys_cmp::<T>(),
            old(self).well_formed(),
        ensures
            final(self).well_formed(),
            final(self)@.to_multiset() == old(self)@.to_multiset().insert(e),
            final(self)@.len() == old(self)@.len() + 1,
    {
        proof {
            broadcast use vstd::seq_lib::to_multiset_build;

        }
        self.elem.push(e);
        let i = self.elem.len() - 1;
        proof {
            let s = self.elem@;
            assert forall|j: int| 1 <= j < s.len() && j != i implies ge(
                s[parent_of(j)],
                #[trigger] s[j],
            ) by {
                assert(forall|j: int|
                    1 <= j < s.len() - 1 ==> ge(old(self)@[parent_of(j)], #[trigger] old(
                        self,
                    )@[j]));
            }
        }
        self.percolate_up(i);
    }

    pub fn peek_mut(&mut self) -> (r: Option<&mut T>)
        requires
            old(self).well_formed(),
        ensures
            old(self)@.len() == 0 ==> r is None && final(self)@ == old(self)@,
            old(self)@.len() > 0 ==> r is Some && *r.unwrap() == old(self)@[0] && final(self)@
                == old(self)@.update(0, *final(r.unwrap())),
            obeys_cmp::<T>() ==> forall|i: int|
                0 <= i < old(self)@.len() ==> ge(old(self)@[0], #[trigger] old(self)@[i]),
    {
        proof {
            if obeys_cmp::<T>() {
                assert forall|i: int| 0 <= i < old(self)@.len() implies ge(
                    old(self)@[0],
                    #[trigger] old(self)@[i],
                ) by {
                    lemma_root_dominates(old(self)@, i);
                }
            }
        }
        self.elem.as_mut_slice().first_mut()
    }

    pub fn peek(&self) -> (r: Option<&T>)
        requires
            self.well_formed(),
        ensures
            self@.len() == 0 ==> r is None,
            self@.len() > 0 ==> r is Some && *r.unwrap() == self@[0],
            obeys_cmp::<T>() ==> forall|i: int|
                0 <= i < self@.len() ==> ge(self@[0], #[trigger] self@[i]),
    {
        proof {
            if obeys_cmp::<T>() {
                assert forall|i: int| 0 <= i < self@.len() implies ge(
                    self@[0],
                    #[trigger] self@[i],
                ) by {
                    lemma_root_dominates(self@, i);
                }
            }
        }
        self.elem.first()
    }

    /// Removes and returns the maximum: the root is swapped with the last
    /// element, the vector shrinks by one, and the new root sifts down.
    pub fn pop(&mut self) -> (r: Option<T>)
        requires
            obeys_cmp::<T>(),
            old(self).well_formed(),
        ensures
            final(self).well_formed(),
            old(self)@.len() == 0 ==> r is None && final(self)@ == old(self)@,
            old(self)@.len() > 0 ==> {
                &&& r == Some(old(self)@[0])
                &&& final(self)@.to_multiset() == old(self)@.to_multiset().remove(old(self)@[0])
                &&& final(self)@.len() == old(self)@.len() - 1
                &&& forall|i: int|
                    0 <= i < old(self)@.len() ==> ge(old(self)@[0], #[trigger] old(self)@[i])
            },
    {
        if !self.elem.is_empty() {
            proof {
                lemma_cmp_facts::<T>();
                assert forall|i: int| 0 <= i < old(self)@.len() implies ge(
                    old(self)@[0],
                    #[trigger] old(self)@[i],
                ) by {
                    lemma_root_dominates(old(self)@, i);
                }
            }
            let size = self.elem.len();
            self.elem.as_mut_slice().swap(0, size - 1);
            let e = self.elem.pop();
            proof {
                broadcast use vstd::seq_lib::group_to_multiset_ensures;

                let s0 = old(self)@;
                let n = s0.len() as int;
                let t = s0.update(0, s0[n - 1]).update(n - 1, s0[0]);
                lemma_swap_multiset(s0, 0, n - 1);
                assert(self.elem@ =~= t.remove(n - 1));
                assert(self.elem@.to_multiset() == s0.to_multiset().remove(s0[0]));
            }
            if !self.elem.is_empty() {
                proof {
                    let s = self.elem@;
                    assert forall|j: int|
                        1 <= j < s.len() && #[trigger] in_subtree(0, j) && j != 0 && parent_of(j)
                            != 0 implies ge(s[parent_of(j)], s[j]) by {
                        assert(s[j] == old(self)@[j]);
                        assert(s[parent_of(j)] == old(self)@[parent_of(j)]);
                    }
                }
                self.percolate_down(0);
                proof {
                    lemma_heap_is_root_subtree::<T>(self.elem@);
                }
            }
            e
        } else {
            None
        }
    }

    pub fn len(&self) -> (n: usize)
        ensures
            n == self@.len(),
    {
        self.elem.len()
    }
}

impl<T: Ord> PqCompleteHeap<T> {
    /// Sift the element at `i` up toward the root until its parent dominates
    /// it. On entry the heap order may fail only on the edge from `i`'s
    /// parent to `i`, and `i`'s children (if any) are already dominated by
    /// `i`'s parent.
    fn percolate_up(&mut self, i: usize)
        requires
            obeys_cmp::<T>(),
            i < old(self).elem@.len(),
            forall|j: int|
                1 <= j < old(self).elem@.len() && j != i ==> ge(
                    old(self).elem@[parent_of(j)],
                    #[trigger] old(self).elem@[j],
                ),
            forall|j: int|
                1 <= j < old(self).elem@.len() && parent_of(j) == i && i >= 1 ==> ge(
                    old(self).elem@[parent_of(i as int)],
                    #[trigger] old(self).elem@[j],
                ),
        ensures
            final(self).well_formed(),
            final(self).elem@.to_multiset() == old(self).elem@.to_multiset(),
            final(self).elem@.len() == old(self).elem@.len(),
            final(self)@.to_multiset() == old(self)@.to_multiset(),
            final(self)@.len() == old(self)@.len(),
    {
        proof {
            lemma_cmp_facts::<T>();
        }
        let mut i = i;
        while i > 0
            invariant_except_break
                obeys_cmp::<T>(),
                i < self.elem@.len(),
                forall|j: int|
                    1 <= j < self.elem@.len() && j != i ==> ge(
                        self.elem@[parent_of(j)],
                        #[trigger] self.elem@[j],
                    ),
                forall|j: int|
                    1 <= j < self.elem@.len() && parent_of(j) == i && i >= 1 ==> ge(
                        self.elem@[parent_of(i as int)],
                        #[trigger] self.elem@[j],
                    ),
                self.elem@.to_multiset() == old(self).elem@.to_multiset(),
                self.elem@.len() == old(self).elem@.len(),
            ensures
                heap_ordered(self.elem@),
                self.elem@.to_multiset() == old(self).elem@.to_multiset(),
                self.elem@.len() == old(self).elem@.len(),
            decreases i,
        {
            proof {
                lemma_cmp_facts::<T>();
            }
            let j = (i - 1) / 2;
            let parent_behind = match self.elem[j].cmp(&self.elem[i]) {
                Ordering::Less => true,
                _ => false,
            };
            if !parent_behind {
                proof {
                    assert(ge(self.elem@[j as int], self.elem@[i as int]));
                }
                break ;
            }
            let ghost s = self.elem@;
            self.elem.as_mut_slice().swap(i, j);
            proof {
                broadcast use vstd::seq_lib::group_to_multiset_ensures;

                let s2 = self.elem@;
                assert(s2 =~= s.update(i as int, s[j as int]).update(j as int, s[i as int]));
                lemma_swap_multiset(s, i as int, j as int);
                let jj = j as int;
                let ii = i as int;
                assert forall|k: int| 1 <= k < s2.len() && k != jj implies ge(
                    s2[parent_of(k)],
                    #[trigger] s2[k],
                ) by {
                    if k == ii {
                        // The old parent value moved down to `i`; its new
                        // parent holds the old child value, which dominates
                        // it by the comparison just made.
                        assert(s2[k] == s[jj]);
                        assert(s2[parent_of(k)] == s[ii]);
                        assert(ge(s[ii], s[jj]));
                    } else if parent_of(k) == ii {
                        // Children of `i`: their new parent value is the old
                        // parent's, and the hole premise says it dominates
                        // them.
                        assert(s2[k] == s[k]);
                        assert(parent_of(ii) == jj);
                        assert(s2[parent_of(k)] == s[jj]);
                        assert(ge(s[parent_of(ii)], s[k]));
                        assert(ge(s[jj], s[k]));
                    } else if parent_of(k) == jj {
                        // Siblings' edges from the swapped parent: the new
                        // value there grew, so domination is preserved by
                        // transitivity.
                        assert(s2[k] == s[k]);
                        assert(s2[parent_of(k)] == s[ii]);
                        assert(ge(s[ii], s[jj]));
                        if k != ii {
                            assert(ge(s[jj], s[k]));
                            assert(ge(s[ii], s[k]));
                        }
                    } else {
                        assert(s2[k] == s[k]);
                        assert(s2[parent_of(k)] == s[parent_of(k)]);
                        assert(ge(s[parent_of(k)], s[k]));
                    }
                }
                // Hole condition for the next round: children of `j` are
                // dominated by `j`'s parent.
                assert forall|k: int|
                    1 <= k < s2.len() && parent_of(k) == jj && jj >= 1 implies ge(
                    s2[parent_of(jj)],
                    #[trigger] s2[k],
                ) by {
                    assert(s2[parent_of(jj)] == s[parent_of(jj)]);
                    if k == ii {
                        assert(s2[k] == s[jj]);
                        assert(ge(s[parent_of(jj)], s[jj]));
                    } else {
                        assert(s2[k] == s[k]);
                        assert(ge(s[parent_of(jj)], s[jj]));
                        assert(ge(s[jj], s[k]));
                    }
                }
            }
            i = j;
        }
    }

    /// Sift the element at `i` down within its subtree until it dominates
    /// its children. Slots outside the subtree rooted at `i` are untouched.
    fn percolate_down(&mut self, i: usize)
        requires
            obeys_cmp::<T>(),
            i < old(self).elem@.len(),
            forall|j: int|
                1 <= j < old(self).elem@.len() && #[trigger] in_subtree(i as int, j) && j != i
                    && parent_of(j) != i ==> ge(old(self).elem@[parent_of(j)], old(self).elem@[j]),
        ensures
            final(self).elem@.len() == old(self).elem@.len(),
            final(self).elem@.to_multiset() == old(self).elem@.to_multiset(),
            forall|j: int|
                0 <= j < old(self).elem@.len() && !in_subtree(i as int, j)
                    ==> final(self).elem@[j] == old(self).elem@[j],
            subtree_ordered(final(self).elem@, i as int),
    {
        proof {
            lemma_cmp_facts::<T>();
        }
        let ghost r = i as int;
        let mut i = i;
        loop
            invariant_except_break
                obeys_cmp::<T>(),
                i < self.elem@.len(),
                in_subtree(r, i as int),
                0 <= r < self.elem@.len(),
                forall|j: int|
                    1 <= j < self.elem@.len() && #[trigger] in_subtree(r, j) && j != r
                        && parent_of(j) != i ==> ge(self.elem@[parent_of(j)], self.elem@[j]),
                forall|j: int|
                    1 <= j < self.elem@.len() && parent_of(j) == i && i as int != r ==> ge(
                        self.elem@[parent_of(i as int)],
                        #[trigger] self.elem@[j],
                    ),
                self.elem@.to_multiset() == old(self).elem@.to_multiset(),
                self.elem@.len() == old(self).elem@.len(),
                forall|j: int|
                    0 <= j < old(self).elem@.len() && !in_subtree(r, j) ==> self.elem@[j] == old(
                        self,
                    ).elem@[j],
            ensures
                self.elem@.to_multiset() == old(self).elem@.to_multiset(),
                self.elem@.len() == old(self).elem@.len(),
                forall|j: int|
                    0 <= j < old(self).elem@.len() && !in_subtree(r, j) ==> self.elem@[j] == old(
                        self,
                    ).elem@[j],
                subtree_ordered(self.elem@, r),
            decreases self.elem@.len() - i,
        {
            proof {
                lemma_cmp_facts::<T>();
                lemma_subtree_member_bounds(r, i as int);
            }
            let mut largest = i;
            let size = self.elem.len();
            let left_child = if i < size / 2 {
                i * 2 + 1
            } else {
                size
            };
            let right_child = if left_child < size && left_child + 1 < size {
                left_child + 1
            } else {
                size
            };

            if left_child < size {
                let left_ahead = match self.elem[left_child].cmp(&self.elem[largest]) {
                    Ordering::Less => false,
                    _ => true,
                };
                if left_ahead {
                    largest = left_child;
                }
            }
            let ghost mid = largest as int;
            if right_child < size {
                let right_ahead = match self.elem[right_child].cmp(&self.elem[largest]) {
                    Ordering::Less => false,
                    _ => true,
                };
                if right_ahead {
                    largest = right_child;
                }
            }

            proof {
                let s = self.elem@;
                let ii = i as int;
                let ll = largest as int;
                let l = left_child as int;
                let rc = right_child as int;
                // The selected slot dominates the current slot and both
                // children that exist.
                if ll != ii {
                    if ll == rc {
                        assert(ge(s[rc], s[mid]));
                        if mid == l {
                            assert(ge(s[l], s[ii]));
                            assert(ge(s[rc], s[ii]));
                        } else {
                            assert(mid == ii);
                            if l < s.len() {
                                assert(s[l].cmp_spec(&s[ii]) == Ordering::Less);
                                assert(ge(s[ii], s[l]));
                                assert(ge(s[rc], s[l]));
                            }
                        }
                    } else {
                        assert(ll == l && mid == l);
                        assert(ge(s[l], s[ii]));
                        if rc < s.len() {
                            assert(s[rc].cmp_spec(&s[l]) == Ordering::Less);
                            assert(ge(s[l], s[rc]));
                        }
                    }
                    assert(ge(s[ll], s[ii]));
                    assert(l < s.len() && l != ll ==> ge(s[ll], s[l]));
                    assert(rc < s.len() && rc != ll ==> ge(s[ll], s[rc]));
                } else {
                    if l < s.len() {
                        assert(s[l].cmp_spec(&s[mid]) == Ordering::Less);
                        assert(ge(s[ii], s[l]));
                    }
                    if rc < s.len() {
                        assert(s[rc].cmp_spec(&s[ii]) == Ordering::Less);
                        assert(ge(s[ii], s[rc]));
                    }
                }
            }

            if largest != i {
                let ghost s = self.elem@;
                let ghost ii = i as int;
                let ghost ll = largest as int;
                self.elem.as_mut_slice().swap(i, largest);
                proof {
                    let s2 = self.elem@;
                    assert(s2 =~= s.update(ii, s[ll]).update(ll, s[ii]));
                    lemma_swap_multiset(s, ii, ll);
                    assert(parent_of(ll) == ii);
                    assert(in_subtree(r, ll)) by {
                        assert(in_subtree(r, parent_of(ll)));
                    }
                    // The chosen child dominates the current element and the
                    // other child.
                    assert(ge(s[ll], s[ii]));
                    assert forall|k: int|
                        1 <= k < s2.len() && #[trigger] in_subtree(r, k) && k != r && parent_of(k)
                            != ll implies ge(s2[parent_of(k)], s2[k]) by {
                        let p = parent_of(k);
                        if k == ii {
                            assert(s2[k] == s[ll]);
                            assert(s2[p] == s[p]);
                            assert(ge(s[p], s[ll]));
                        } else if k == ll {
                            assert(s2[k] == s[ii]);
                            assert(s2[p] == s[ll]);
                            assert(ge(s[ll], s[ii]));
                        } else if p == ii {
                            // The sibling of the chosen child.
                            assert(s2[k] == s[k]);
                            assert(s2[p] == s[ll]);
                            assert(k != ll);
                            if k == left_child as int || k == right_child as int {
                                assert(ge(s[ll], s[k]));
                            } else {
                                assert(2 * ii + 1 <= k <= 2 * ii + 2);
                                assert(false);
                            }
                        } else {
                            assert(s2[k] == s[k]);
                            assert(s2[p] == s[p]);
                            assert(ge(s[p], s[k]));
                        }
                    }
                    assert forall|k: int|
                        1 <= k < s2.len() && parent_of(k) == ll && ll != r implies ge(
                        s2[parent_of(ll)],
                        #[trigger] s2[k],
                    ) by {
                        assert(parent_of(ll) == ii);
                        assert(s2[parent_of(ll)] == s[ll]);
                        if k == ii {
                            assert(false);
                        } else {
                            assert(s2[k] == s[k]);
                            assert(in_subtree(r, k)) by {
                                assert(in_subtree(r, parent_of(k)));
                            }
                            assert(ge(s[ll], s[k]));
                        }
                    }
                    assert forall|j: int|
                        0 <= j < old(self).elem@.len() && !in_subtree(r, j) implies s2[j] == old(
                        self,
                    ).elem@[j] by {
                        assert(j != ii && j != ll);
                        assert(s2[j] == s[j]);
                    }
                }
                i = largest;
            } else {
                proof {
                    let s = self.elem@;
                    let ii = i as int;
                    assert forall|k: int|
                        1 <= k < s.len() && #[trigger] in_subtree(r, k) && k != r implies ge(
                        s[parent_of(k)],
                        s[k],
                    ) by {
                        if parent_of(k) == ii {
                            assert(2 * ii + 1 <= k <= 2 * ii + 2);
                            if k == 2 * ii + 1 {
                                assert(left_child as int == k);
                            } else {
                                assert(left_child as int == 2 * ii + 1);
                                assert(right_child as int == k);
                            }
                            assert(ge(s[ii], s[k]));
                        }
                    }
                }
                break ;
            }
        }
    }

    /// Establishes the heap order over an arbitrary vector by sifting every
    /// internal node down, starting from the last internal node.
    fn heapify(&mut self)
        requires
            obeys_cmp::<T>(),
        ensures
            final(self).well_formed(),
            final(self).elem@.to_multiset() == old(self).elem@.to_multiset(),
            final(self).elem@.len() == old(self).elem@.len(),
    {
        proof {
            lemma_cmp_facts::<T>();
        }
        let size = self.elem.len();
        if size < 2 {
            proof {
                assert(heap_ordered(self.elem@));
            }
            return ;
        }
        let mut i = size >> 1;
        proof {
            assert(size >> 1 == size / 2) by (bit_vector);
            assert forall|k: int| i <= k < size implies subtree_ordered(self.elem@, k) by {
                assert forall|j: int|
                    1 <= j < self.elem@.len() && #[trigger] in_subtree(k, j) && j != k implies ge(
                    self.elem@[parent_of(j)],
                    self.elem@[j],
                ) by {
                    lemma_subtree_member_bounds(k, j);
                }
            }
        }
        while i > 0
            invariant
                obeys_cmp::<T>(),
                i <= size / 2,
                size == self.elem@.len(),
                self.elem@.to_multiset() == old(self).elem@.to_multiset(),
                forall|k: int| i <= k < size ==> subtree_ordered(self.elem@, k),
            decreases i,
        {
            i = i - 1;
            let ghost snap = self.elem@;
            proof {
                assert forall|j: int|
                    1 <= j < snap.len() && #[trigger] in_subtree(i as int, j) && j != i
                        && parent_of(j) != i implies ge(snap[parent_of(j)], snap[j]) by {
                    let p = parent_of(j);
                    lemma_subtree_member_bounds(i as int, j);
                    assert(in_subtree(i as int, p));
                    lemma_subtree_member_bounds(i as int, p);
                    assert(p > i as int);
                    assert(subtree_ordered(snap, p));
                    assert(in_subtree(p, j)) by {
                        assert(in_subtree(p, parent_of(j)));
                    }
                }
            }
            self.percolate_down(i);
            proof {
                let s = self.elem@;
                assert forall|k: int| i <= k < size implies subtree_ordered(s, k) by {
                    if k == i {
                    } else if in_subtree(i as int, k) {
                        lemma_subtree_ordered_sub(s, i as int, k);
                    } else {
                        // Disjoint subtrees: every slot under `k` kept its
                        // value, so the order below `k` is untouched.
                        assert forall|j: int|
                            1 <= j < s.len() && #[trigger] in_subtree(k, j) && j != k implies ge(
                            s[parent_of(j)],
                            s[j],
                        ) by {
                            assert(!in_subtree(i as int, j)) by {
                                if in_subtree(i as int, j) {
                                    lemma_ancestors_comparable(i as int, k, j);
                                    lemma_subtree_member_bounds(i as int, k);
                                    lemma_subtree_member_bounds(k, i as int);
                                }
                            }
                            assert(!in_subtree(i as int, parent_of(j))) by {
                                if in_subtree(i as int, parent_of(j)) {
                                    assert(in_subtree(i as int, j)) by {
                                        assert(j >= 1);
                                    }
                                }
                            }
                            assert(s[j] == snap[j]);
                            assert(s[parent_of(j)] == snap[parent_of(j)]);
                            assert(in_subtree(k, parent_of(j)));
                            assert(subtree_ordered(snap, k));
                        }
                    }
                }
            }
        }
        proof {
            lemma_heap_is_root_subtree::<T>(self.elem@);
            assert(subtree_ordered(self.elem@, 0));
        }
    }
}

/// Swapping two slots of a sequence preserves its multiset of values.
pub proof fn lemma_swap_multiset<T>(s: Seq<T>, i: int, j: int)
    requires
        0 <= i < s.len(),
        0 <= j < s.len(),
    ensures
        s.update(i, s[j]).update(j, s[i]).to_multiset() == s.to_multiset(),
{
    broadcast use vstd::seq_lib::group_to_multiset_ensures;
    broadcast use vstd::multiset::group_multiset_axioms;

    let u = s.update(i, s[j]);
    let t = u.update(j, s[i]);
    if i == j {
        assert(t =~= s);
    } else {
        assert(u[j] == s[j]);
        assert(t.to_multiset() =~= s.to_multiset());
    }
}

} // verus!
