use std::cmp::Ordering;

use linked_collections::double_linked::LinkedList;
use linked_collections::double_linked::MergeSort;

fn collect<T: Clone>(list: &LinkedList<T>) -> Vec<T> {
    let mut out = Vec::new();
    let mut it = list.iter();
    while let Some(v) = it.next() {
        out.push(v.clone());
    }
    out
}

#[test]
fn push_remove_split_scenario() {
    let mut list = LinkedList::new();
    list.push_back(1);
    list.push_back(2);
    list.push_front(0);
    assert_eq!(collect(&list), vec![0, 1, 2]);
    assert_eq!(list.remove(1), 1);
    assert_eq!(collect(&list), vec![0, 2]);
    let right = list.split_off(1);
    assert_eq!(collect(&list), vec![0]);
    assert_eq!(collect(&right), vec![2]);
}

#[test]
fn merge_sort_scenario() {
    let mut list = LinkedList::new();
    for v in [4, 2, 3, 5, 1] {
        list.push_back(v);
    }
    list.merge_sort();
    assert_eq!(collect(&list), vec![1, 2, 3, 4, 5]);
}

#[test]
fn merge_sort_edge_cases() {
    let mut empty: LinkedList<i32> = LinkedList::new();
    empty.merge_sort();
    assert_eq!(empty.len(), 0);

    let mut single = LinkedList::new();
    single.push_back(9);
    single.merge_sort();
    assert_eq!(collect(&single), vec![9]);

    let mut sorted = LinkedList::new();
    for v in 1..=6 {
        sorted.push_back(v);
    }
    sorted.merge_sort();
    assert_eq!(collect(&sorted), vec![1, 2, 3, 4, 5, 6]);

    let mut reversed = LinkedList::new();
    for v in (1..=6).rev() {
        reversed.push_back(v);
    }
    reversed.merge_sort();
    assert_eq!(collect(&reversed), vec![1, 2, 3, 4, 5, 6]);

    let mut dupes = LinkedList::new();
    for v in [3, 1, 3, 1, 2, 2, 3, 1] {
        dupes.push_back(v);
    }
    dupes.merge_sort();
    assert_eq!(collect(&dupes), vec![1, 1, 1, 2, 2, 3, 3, 3]);
}

#[derive(Clone, Debug, PartialEq, Eq)]
struct Rec {
    key: i32,
    tag: i32,
}

impl PartialOrd for Rec {
    fn partial_cmp(&self, other: &Rec) -> Option<Ordering> {
        Some(self.cmp(other))
    }
}

impl Ord for Rec {
    fn cmp(&self, other: &Rec) -> Ordering {
        self.key.cmp(&other.key)
    }
}

#[test]
fn merge_sort_is_stable() {
    let mut list = LinkedList::new();
    for (key, tag) in [(2, 0), (1, 1), (2, 2), (1, 3), (2, 4)] {
        list.push_back(Rec { key, tag });
    }
    list.merge_sort();
    let tags: Vec<i32> = collect(&list).into_iter().map(|r| r.tag).collect();
    assert_eq!(tags, vec![1, 3, 0, 2, 4]);
}

#[test]
fn stack_discipline_same_end() {
    let mut list = LinkedList::new();
    list.push_back(1);
    list.push_back(2);
    list.push_back(3);
    assert_eq!(list.pop_back(), Some(3));
    assert_eq!(list.pop_back(), Some(2));
    assert_eq!(list.pop_back(), Some(1));
    assert_eq!(list.pop_back(), None);

    list.push_front(1);
    list.push_front(2);
    assert_eq!(list.pop_front(), Some(2));
    assert_eq!(list.pop_front(), Some(1));
    assert_eq!(list.pop_front(), None);
    assert_eq!(list.len(), 0);
}

#[test]
fn queue_discipline_opposite_ends() {
    let mut list = LinkedList::new();
    list.push_back(1);
    list.push_back(2);
    list.push_back(3);
    assert_eq!(list.pop_front(), Some(1));
    assert_eq!(list.pop_front(), Some(2));
    assert_eq!(list.pop_front(), Some(3));
    assert_eq!(list.pop_front(), None);
    assert_eq!(list.len(), 0);
}

#[test]
fn get_returns_ith_element() {
    let mut list = LinkedList::new();
    for v in 10..20 {
        list.push_back(v);
    }
    for i in 0..10 {
        assert_eq!(*list.get(i), 10 + i as i32);
    }
}

#[test]
fn insert_then_get_then_remove() {
    let mut list = LinkedList::new();
    for v in [10, 20, 30] {
        list.push_back(v);
    }
    list.insert(2, 25);
    assert_eq!(*list.get(2), 25);
    assert_eq!(list.len(), 4);
    assert_eq!(list.remove(2), 25);
    assert_eq!(list.len(), 3);
    assert_eq!(collect(&list), vec![10, 20, 30]);

    list.insert(0, 5);
    assert_eq!(collect(&list), vec![5, 10, 20, 30]);
    list.insert(4, 40);
    assert_eq!(collect(&list), vec![5, 10, 20, 30, 40]);
    assert_eq!(list.remove(0), 5);
    assert_eq!(list.remove(3), 40);
    assert_eq!(collect(&list), vec![10, 20, 30]);
}

#[test]
fn split_off_concatenation() {
    let mut list = LinkedList::new();
    for v in 0..7 {
        list.push_back(v);
    }
    let right = list.split_off(3);
    assert_eq!(list.len(), 3);
    assert_eq!(right.len(), 4);
    let mut joined = collect(&list);
    joined.extend(collect(&right));
    assert_eq!(joined, vec![0, 1, 2, 3, 4, 5, 6]);
}

#[test]
fn split_off_at_the_ends() {
    let mut list = LinkedList::new();
    for v in 0..4 {
        list.push_back(v);
    }
    let all = list.split_off(0);
    assert_eq!(list.len(), 0);
    assert_eq!(collect(&all), vec![0, 1, 2, 3]);

    let mut list = all;
    let none = list.split_off(4);
    assert_eq!(none.len(), 0);
    assert_eq!(collect(&list), vec![0, 1, 2, 3]);
}

#[test]
fn empty_state_signals() {
    let mut list: LinkedList<u8> = LinkedList::new();
    assert!(list.is_empty());
    assert_eq!(list.pop_front(), None);
    assert_eq!(list.pop_back(), None);
    assert!(list.front().is_none());
    assert!(list.back().is_none());
    assert!(list.front_mut().is_none());
    assert!(list.back_mut().is_none());
    list.push_back(1);
    assert!(!list.is_empty());
    assert_eq!(list.front(), Some(&1));
    assert_eq!(list.back(), Some(&1));
}

#[test]
fn contains_scans_equality() {
    let mut list = LinkedList::new();
    for v in [1, 3, 5] {
        list.push_back(v);
    }
    assert!(list.contains(&3));
    assert!(list.contains(&5));
    assert!(!list.contains(&2));
    let empty: LinkedList<i32> = LinkedList::new();
    assert!(!empty.contains(&1));
}

#[test]
fn mutation_through_references() {
    let mut list = LinkedList::new();
    for v in [1, 2, 3] {
        list.push_back(v);
    }
    *list.get_mut(1) = 20;
    assert_eq!(collect(&list), vec![1, 20, 3]);
    if let Some(front) = list.front_mut() {
        *front = 10;
    }
    if let Some(back) = list.back_mut() {
        *back = 30;
    }
    assert_eq!(collect(&list), vec![10, 20, 30]);
}

#[test]
fn bidirectional_iteration_converges() {
    let mut list = LinkedList::new();
    for v in [1, 2, 3, 4, 5] {
        list.push_back(v);
    }
    let mut it = list.iter();
    assert_eq!(it.next(), Some(&1));
    assert_eq!(it.next_back(), Some(&5));
    assert_eq!(it.next(), Some(&2));
    assert_eq!(it.next_back(), Some(&4));
    assert_eq!(it.next(), Some(&3));
    // Both cursors together produced all five values: the middle element is
    // not yielded a second time.
    assert_eq!(it.next_back(), None);
    assert_eq!(it.next(), None);
}

#[test]
fn consuming_iteration() {
    let mut list = LinkedList::new();
    for v in [7, 8, 9] {
        list.push_back(v);
    }
    let mut it = list.into_iter();
    assert_eq!(it.next(), Some(7));
    assert_eq!(it.next(), Some(8));
    assert_eq!(it.next(), Some(9));
    assert_eq!(it.next(), None);
}

#[test]
fn consuming_iteration_abandoned_early() {
    let mut list = LinkedList::new();
    for v in 0..1000 {
        list.push_back(v);
    }
    let mut it = list.into_iter();
    assert_eq!(it.next(), Some(0));
    assert_eq!(it.next(), Some(1));
    // Dropping the half-consumed view must free the remaining nodes.
    drop(it);
}

#[test]
fn clone_and_default() {
    let mut list = LinkedList::new();
    for v in [1, 2, 3] {
        list.push_back(v);
    }
    let copy = list.clone();
    list.clear();
    assert_eq!(list.len(), 0);
    assert_eq!(collect(&copy), vec![1, 2, 3]);
    let d: LinkedList<i32> = LinkedList::default();
    assert_eq!(d.len(), 0);
}

#[test]
fn mutable_iteration_bidirectional() {
    let mut list = LinkedList::new();
    for v in [1, 2, 3, 4] {
        list.push_back(v);
    }
    let mut it = list.iter_mut();
    if let Some(v) = it.next() {
        *v += 10;
    }
    if let Some(v) = it.next_back() {
        *v += 40;
    }
    if let Some(v) = it.next() {
        *v += 20;
    }
    if let Some(v) = it.next_back() {
        *v += 30;
    }
    assert!(it.next().is_none());
    assert!(it.next_back().is_none());
    drop(it);
    assert_eq!(collect(&list), vec![11, 22, 33, 44]);
}

#[test]
fn find_mut_first_match() {
    let mut list = LinkedList::new();
    for v in [1, 4, 2, 4] {
        list.push_back(v);
    }
    if let Some(v) = list.find_mut(|x| *x == 4) {
        *v = 40;
    }
    assert_eq!(collect(&list), vec![1, 40, 2, 4]);
    assert!(list.find_mut(|x| *x == 9).is_none());
}

fn require_send<T: Send>() {}
fn require_sync<T: Sync>() {}

#[test]
fn transfer_and_sharing_follow_the_element_type() {
    require_send::<LinkedList<i32>>();
    require_sync::<LinkedList<i32>>();
    require_send::<linked_collections::pq_complete_heap::PqCompleteHeap<i32>>();
    require_sync::<linked_collections::pq_complete_heap::PqCompleteHeap<i32>>();
}

#[test]
fn long_list_drop_does_not_recurse() {
    let n: usize = 100_000;
    let mut list = LinkedList::new();
    for v in 0..n {
        list.push_back(v);
    }
    assert_eq!(list.len(), n);
    assert_eq!(*list.get(n - 1), n - 1);
    drop(list);

    let mut again = LinkedList::new();
    for v in 0..n {
        again.push_back(v);
    }
    again.clear();
    assert_eq!(again.len(), 0);
}
