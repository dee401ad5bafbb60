use fast_list::LinkedList;

#[test]
fn empty_iff_no_head_iff_no_tail() {
    let mut list = LinkedList::new();
    assert_eq!(list.len(), 0);
    assert!(list.head.is_none());
    assert!(list.tail.is_none());
    assert!(list.head().is_none());
    assert!(list.tail().is_none());

    let a = list.push_back(1);
    assert_eq!(list.len(), 1);
    assert!(list.head.is_some());
    assert!(list.tail.is_some());

    list.remove(a);
    assert_eq!(list.len(), 0);
    assert!(list.head.is_none());
    assert!(list.tail.is_none());
}

#[test]
fn neighbour_links_are_mutually_consistent() {
    let mut list = LinkedList::new();
    let handles = list.extend((0..5).collect());
    for (i, &h) in handles.iter().enumerate() {
        if let Some(next) = list.next_of(h) {
            assert_eq!(list.prev_of(next.index).unwrap().index, h);
            assert_eq!(next.index, handles[i + 1]);
        } else {
            assert_eq!(i, handles.len() - 1);
        }
        if let Some(prev) = list.prev_of(h) {
            assert_eq!(list.next_of(prev.index).unwrap().index, h);
            assert_eq!(prev.index, handles[i - 1]);
        } else {
            assert_eq!(i, 0);
        }
    }
}

#[test]
fn push_back_pop_back_round_trip() {
    let mut list = LinkedList::new();
    list.extend((0..4).collect());
    let before = list.len();

    list.push_back(42);
    assert_eq!(list.pop_back(), Some(42));
    assert_eq!(list.len(), before);
    assert_eq!(list.tail().unwrap().value, 3);
}

#[test]
fn stale_handle_stays_dead() {
    let mut list = LinkedList::new();
    let a = list.push_back(1);
    list.push_back(2);

    let removed = list.remove(a);
    assert_eq!(removed.unwrap().value, 1);
    assert!(list.remove(a).is_none());
    assert!(list.get(a).is_none());

    // Even after the slot is reused by a new insertion, the old handle
    // must not resolve to the new occupant.
    let b = list.push_back(3);
    assert!(list.get(a).is_none());
    assert!(list.remove(a).is_none());
    assert_eq!(list.get(b).unwrap().value, 3);
    assert_ne!(a, b);
}

#[test]
fn extend_then_iter_is_ordered() {
    let n = 50;
    let mut list = LinkedList::new();
    list.extend((0..n).collect());

    let forward: Vec<i32> = list.iter().iter().map(|item| item.value).collect();
    let expected: Vec<i32> = (0..n).collect();
    assert_eq!(forward, expected);

    let backward: Vec<i32> = list
        .iter_prev(list.tail.unwrap())
        .iter()
        .map(|item| item.value)
        .collect();
    let mut reversed: Vec<i32> = (0..n).collect();
    reversed.reverse();
    assert_eq!(backward, reversed);
}

#[test]
fn split_off_keeps_prefix_and_moves_suffix() {
    // Head-to-tail [3, 2, 1] after three push_front calls.
    let mut d = LinkedList::new();
    d.push_front(1);
    d.push_front(2);
    d.push_front(3);
    let old_tail_value = d.tail().unwrap().value;

    let mut split = d.split_off(d.nth(2).unwrap());

    assert_eq!(d.len(), 2);
    assert_eq!(split.len(), 1);
    assert_eq!(split.pop_front(), Some(old_tail_value));
}

#[test]
fn split_off_moves_everything_from_the_anchor_onward() {
    let mut list = LinkedList::new();
    list.extend((1..=5).collect());

    let anchor = list.nth(2).unwrap();
    let split = list.split_off(anchor);

    let kept: Vec<i32> = list.iter().iter().map(|item| item.value).collect();
    let moved: Vec<i32> = split.iter().iter().map(|item| item.value).collect();
    assert_eq!(kept, vec![1, 2]);
    assert_eq!(moved, vec![3, 4, 5]);

    // The moved nodes' old handles are permanently dead in the original
    // list (the new list mints handles of its own).
    assert!(list.get(anchor).is_none());
    assert!(list.remove(anchor).is_none());
}

#[test]
fn split_off_at_head_empties_the_list() {
    let mut list = LinkedList::new();
    list.extend((0..3).collect());
    let head = list.head.unwrap();

    let split = list.split_off(head);
    assert_eq!(list.len(), 0);
    assert!(list.head.is_none());
    assert!(list.tail.is_none());
    assert_eq!(split.len(), 3);
    let moved: Vec<i32> = split.iter().iter().map(|item| item.value).collect();
    assert_eq!(moved, vec![0, 1, 2]);
}

#[test]
fn split_off_stale_handle_moves_nothing() {
    let mut list = LinkedList::new();
    let a = list.push_back(1);
    list.push_back(2);
    list.remove(a);

    let split = list.split_off(a);
    assert_eq!(split.len(), 0);
    assert_eq!(list.len(), 1);
    assert_eq!(list.head().unwrap().value, 2);
}

#[test]
fn nth_boundaries() {
    let mut list = LinkedList::new();
    let handles = list.extend((0..7).collect());

    assert_eq!(list.nth(0), Some(list.head.unwrap()));
    for (i, &h) in handles.iter().enumerate() {
        assert_eq!(list.nth(i), Some(h));
    }
    assert_eq!(list.nth(7), None);
    assert_eq!(list.nth(8), None);
    assert_eq!(list.nth(usize::MAX), None);

    let empty: LinkedList<i32> = LinkedList::new();
    assert_eq!(empty.nth(0), None);
}

#[test]
fn redundant_removal_succeeds_exactly_once() {
    let mut list = LinkedList::new();
    list.push_back(0);
    let target = list.push_back(1);
    list.push_back(2);
    let before = list.len();

    let mut successes = 0;
    for _ in 0..8 {
        if list.remove(target).is_some() {
            successes += 1;
        }
    }
    assert_eq!(successes, 1);
    assert_eq!(list.len(), before - 1);
}

#[test]
fn pop_front_and_pop_back_on_empty() {
    let mut list: LinkedList<u8> = LinkedList::new();
    assert_eq!(list.pop_front(), None);
    assert_eq!(list.pop_back(), None);
}

#[test]
fn pop_front_returns_head_values_in_order() {
    let mut list = LinkedList::new();
    list.extend((0..4).collect());
    assert_eq!(list.pop_front(), Some(0));
    assert_eq!(list.pop_front(), Some(1));
    assert_eq!(list.pop_front(), Some(2));
    assert_eq!(list.pop_front(), Some(3));
    assert_eq!(list.pop_front(), None);
    assert_eq!(list.len(), 0);
}

#[test]
fn extend_front_reverses_the_block() {
    let mut list = LinkedList::new();
    list.push_back(9);
    list.extend_front(vec![0, 1, 2]);
    let values: Vec<i32> = list.iter().iter().map(|item| item.value).collect();
    assert_eq!(values, vec![2, 1, 0, 9]);
}

#[test]
fn insert_before_splices_at_the_front() {
    let mut list = LinkedList::new();
    let a = list.push_back(1);
    list.push_back(2);
    let d = list.insert_before(a, 0);
    assert_eq!(list.head.unwrap(), d);
    let values: Vec<i32> = list.iter().iter().map(|item| item.value).collect();
    assert_eq!(values, vec![0, 1, 2]);
    assert!(list.prev_of(a).is_some());
    assert_eq!(list.prev_of(a).unwrap().value, 0);
}

#[test]
fn cursor_follows_links_in_both_directions() {
    let mut list = LinkedList::new();
    let handles = list.extend((0..4).collect());

    assert_eq!(list.cursor_next(handles[1]), Some(handles[2]));
    assert_eq!(list.cursor_prev(handles[1]), Some(handles[0]));
    assert_eq!(list.cursor_next(handles[3]), None);
    assert_eq!(list.cursor_prev(handles[0]), None);

    let cursor = list.cursor_iter_next(handles[1]);
    assert_eq!(cursor, handles[1..].to_vec());
    let cursor_back = list.cursor_iter_prev(handles[2]);
    let mut expected = handles[..3].to_vec();
    expected.reverse();
    assert_eq!(cursor_back, expected);

    // A stale start yields nothing.
    list.remove(handles[1]);
    assert!(list.cursor_iter_next(handles[1]).is_empty());
    assert!(list.cursor_iter_prev(handles[1]).is_empty());
}

#[test]
fn iter_unordered_visits_every_live_node_once() {
    let mut list = LinkedList::new();
    let handles = list.extend((0..6).collect());
    list.remove(handles[2]);

    let mut values: Vec<i32> = list.iter_unordered().iter().map(|item| item.value).collect();
    values.sort();
    assert_eq!(values, vec![0, 1, 3, 4, 5]);
}

#[test]
fn retain_mut_keeps_matching_values_in_order() {
    let mut list = LinkedList::new();
    let handles = list.extend((0..10).collect());

    list.retain_mut(|v| v % 2 == 0);

    let values: Vec<i32> = list.iter().iter().map(|item| item.value).collect();
    assert_eq!(values, vec![0, 2, 4, 6, 8]);
    // Survivors keep their handles; removed ones are dead.
    assert_eq!(list.get(handles[4]).unwrap().value, 4);
    assert!(list.get(handles[5]).is_none());
}

#[test]
fn retain_returns_a_filtered_copy() {
    let mut list = LinkedList::new();
    list.extend((0..6).collect());

    let filtered = list.retain(|v| *v >= 3);

    let original: Vec<i32> = list.iter().iter().map(|item| item.value).collect();
    let values: Vec<i32> = filtered.iter().iter().map(|item| item.value).collect();
    assert_eq!(original, vec![0, 1, 2, 3, 4, 5]);
    assert_eq!(values, vec![3, 4, 5]);
}

#[test]
fn get_mut_changes_only_the_value() {
    let mut list = LinkedList::new();
    let a = list.push_back(1);
    let b = list.push_back(2);

    list.get_mut(b).unwrap().value = 20;
    assert_eq!(list.get(b).unwrap().value, 20);
    assert_eq!(list.get(a).unwrap().value, 1);
    assert!(list.get_mut(a).is_some());

    list.remove(b);
    assert!(list.get_mut(b).is_none());
}

#[test]
fn head_mut_and_tail_mut_touch_the_endpoints() {
    let mut list = LinkedList::new();
    list.extend((0..3).collect());

    list.head_mut().unwrap().value = 100;
    list.tail_mut().unwrap().value = 200;
    let values: Vec<i32> = list.iter().iter().map(|item| item.value).collect();
    assert_eq!(values, vec![100, 1, 200]);

    let mut empty: LinkedList<i32> = LinkedList::new();
    assert!(empty.head_mut().is_none());
    assert!(empty.tail_mut().is_none());
}

#[test]
fn next_of_mut_follows_next_and_prev_of_mut_follows_prev() {
    let mut list = LinkedList::new();
    list.push_back(0);
    let b = list.push_back(1);
    list.push_back(2);

    list.next_of_mut(b).unwrap().value = 22;
    list.prev_of_mut(b).unwrap().value = 11;
    let values: Vec<i32> = list.iter().iter().map(|item| item.value).collect();
    assert_eq!(values, vec![11, 1, 22]);

    assert!(list.next_of_mut(list.tail.unwrap()).is_none());
    assert!(list.prev_of_mut(list.head.unwrap()).is_none());
}

#[test]
fn secondary_map_detects_stale_keys() {
    let mut list = LinkedList::new();
    let a = list.push_back(1);
    let mut data = list.new_data();
    data.insert(a, "first");
    assert_eq!(data.get(a), Some(&"first"));

    // Remove the node and reuse its slot: the old key must find nothing,
    // and inserting under the new key evicts the stale entry.
    list.remove(a);
    let b = list.push_back(2);
    assert_eq!(data.get(a), Some(&"first"));
    let old = data.insert(b, "second");
    assert_eq!(old, None);
    assert_eq!(data.get(b), Some(&"second"));
    assert_eq!(data.get(a), None);

    let replaced = data.insert(b, "third");
    assert_eq!(replaced, Some("second"));
}

#[test]
fn sparse_secondary_map_detects_stale_keys() {
    let mut list = LinkedList::new();
    let a = list.push_back(1);
    let mut data = list.new_data_sparse();
    assert_eq!(data.insert(a, 10u32), None);
    assert_eq!(data.get(a), Some(&10));

    list.remove(a);
    let b = list.push_back(2);
    let evicted = data.insert(b, 20);
    assert_eq!(evicted, None);
    assert_eq!(data.get(a), None);
    assert_eq!(data.get(b), Some(&20));
    assert_eq!(data.insert(b, 30), Some(20));
}

#[test]
fn contains_key_tracks_liveness() {
    let mut list = LinkedList::new();
    let a = list.push_back(1);
    assert!(list.contains_key(a));
    list.remove(a);
    assert!(!list.contains_key(a));
}
