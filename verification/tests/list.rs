use lruk::list::{is_valid, Links, List, INVALID};

#[test]
fn push_and_pop_front() {
    let mut list = List::<3>::new();

    list.push_front(0);
    list.push_front(1);
    list.push_front(2);

    assert_eq!(list.pop_front(), Some(2));
    assert_eq!(list.pop_front(), Some(1));
    assert_eq!(list.pop_front(), Some(0));
    assert_eq!(list.pop_front(), None);
    assert!(list.is_empty());
}

#[test]
fn push_and_pop_back() {
    let mut list = List::<2>::new();

    list.push_front(0);
    list.push_front(1);

    assert_eq!(list.pop_back(), Some(0));
    assert_eq!(list.pop_back(), Some(1));
    assert_eq!(list.pop_back(), None);
    assert!(list.is_empty());
}

#[test]
fn remove_middle() {
    let mut list = List::<3>::new();

    list.push_front(0);
    list.push_front(1);
    list.push_front(2); // List: 2 -> 1 -> 0

    list.remove(1); // Remove middle

    assert_eq!(list.pop_front(), Some(2));
    assert_eq!(list.pop_front(), Some(0));
    assert_eq!(list.pop_front(), None);
    assert!(list.is_empty());
}

#[test]
fn empty_list_has_no_ends() {
    let mut list = List::<4>::new();
    assert!(list.is_empty());
    assert_eq!(list.head(), None);
    assert_eq!(list.tail(), None);
    assert_eq!(list.pop_front(), None);
    assert_eq!(list.pop_back(), None);
    assert!(list.is_empty());
}

#[test]
fn head_and_tail_follow_pushes() {
    let mut list = List::<4>::new();
    list.push_front(3);
    assert_eq!(list.head(), Some(3));
    assert_eq!(list.tail(), Some(3));
    list.push_front(1);
    assert_eq!(list.head(), Some(1));
    assert_eq!(list.tail(), Some(3));
    assert!(!list.is_empty());
}

#[test]
fn links_name_both_neighbours() {
    let mut list = List::<4>::new();
    list.push_front(0);
    list.push_front(1);
    list.push_front(2); // 2 -> 1 -> 0

    let middle = list.links(1);
    assert_eq!(middle.prev, Some(2));
    assert_eq!(middle.next, Some(0));
    let first = list.links(2);
    assert_eq!(first.prev, None);
    assert_eq!(first.next, Some(1));
    let last = list.links(0);
    assert_eq!(last.prev, Some(1));
    assert_eq!(last.next, None);
    // not linked, and out of range
    let none = list.links(3);
    assert_eq!((none.prev, none.next), (None, None));
    let outside = list.links(9);
    assert_eq!((outside.prev, outside.next), (None, None));
}

#[test]
fn forward_and_backward_traversals_mirror() {
    let mut list = List::<5>::new();
    for id in [4, 0, 3, 1] {
        list.push_front(id);
    }
    list.remove(0);

    let mut forward = Vec::new();
    let mut at = list.head();
    while let Some(id) = at {
        forward.push(id);
        at = list.links(id).next;
    }
    let mut backward = Vec::new();
    let mut at = list.tail();
    while let Some(id) = at {
        backward.push(id);
        at = list.links(id).prev;
    }
    assert_eq!(forward, vec![1, 3, 4]);
    backward.reverse();
    assert_eq!(forward, backward);
}

#[test]
fn remove_clears_own_links() {
    let mut list = List::<3>::new();
    list.push_front(0);
    list.push_front(1);
    list.push_front(2);
    list.remove(1);

    let gone = list.links(1);
    assert_eq!((gone.prev, gone.next), (None, None));
    assert!(!list.contains(1));
    assert_eq!(list.links(2).next, Some(0));
    assert_eq!(list.links(0).prev, Some(2));
}

#[test]
fn remove_only_element_empties_list() {
    let mut list = List::<2>::new();
    list.push_front(1);
    list.remove(1);
    assert!(list.is_empty());
    assert_eq!(list.head(), None);
    assert_eq!(list.tail(), None);
}

#[test]
fn remove_head_and_tail() {
    let mut list = List::<3>::new();
    list.push_front(0);
    list.push_front(1);
    list.push_front(2);
    list.remove(2);
    assert_eq!(list.head(), Some(1));
    list.remove(0);
    assert_eq!(list.tail(), Some(1));
    assert_eq!(list.pop_back(), Some(1));
    assert!(list.is_empty());
}

#[test]
fn remove_out_of_range_is_ignored() {
    let mut list = List::<2>::new();
    list.push_front(0);
    list.push_front(1);
    list.remove(2);
    list.remove(u32::MAX);
    assert_eq!(list.pop_front(), Some(1));
    assert_eq!(list.pop_front(), Some(0));
    assert_eq!(list.pop_front(), None);
}

#[test]
fn remove_unlinked_is_ignored() {
    let mut list = List::<3>::new();
    list.push_front(0);
    list.push_front(2);
    list.remove(1);
    list.remove(1);
    assert_eq!(list.head(), Some(2));
    assert_eq!(list.tail(), Some(0));
    assert_eq!(list.pop_front(), Some(2));
    assert_eq!(list.pop_front(), Some(0));
    assert!(list.is_empty());
}

#[test]
fn removed_id_can_be_pushed_again() {
    let mut list = List::<2>::new();
    list.push_front(0);
    list.push_front(1);
    list.remove(0);
    list.push_front(0);
    assert_eq!(list.pop_back(), Some(1));
    assert_eq!(list.pop_back(), Some(0));
}

#[test]
fn insert_after_links_behind_anchor() {
    let mut list = List::<4>::new();
    list.push_front(0);
    list.push_front(1); // 1 -> 0
    list.insert_after(1, 2); // 1 -> 2 -> 0
    list.insert_after(0, 3); // 1 -> 2 -> 0 -> 3
    assert_eq!(list.tail(), Some(3));
    assert_eq!(list.pop_front(), Some(1));
    assert_eq!(list.pop_front(), Some(2));
    assert_eq!(list.pop_front(), Some(0));
    assert_eq!(list.pop_front(), Some(3));
    assert_eq!(list.pop_front(), None);
}

#[test]
fn contains_tells_linked_ids() {
    let mut list = List::<3>::new();
    assert!(!list.contains(0));
    list.push_front(0);
    assert!(list.contains(0));
    assert!(!list.contains(1));
    assert!(!list.contains(7));
    list.push_front(1);
    assert!(list.contains(0));
    assert!(list.contains(1));
}

#[test]
fn list_fills_to_capacity() {
    let mut list = List::<4>::new();
    for id in 0..4 {
        list.push_front(id);
    }
    let mut seen = 0;
    while list.pop_back().is_some() {
        seen += 1;
    }
    assert_eq!(seen, 4);
}

#[test]
fn sentinel_is_not_a_valid_id() {
    assert!(!is_valid(INVALID));
    assert!(!is_valid(u32::MAX));
    assert!(is_valid(0));
    assert!(is_valid(u32::MAX - 1));
}

#[test]
fn fresh_links_are_unlinked() {
    let links = Links::new();
    assert_eq!(links.next, None);
    assert_eq!(links.prev, None);
}
