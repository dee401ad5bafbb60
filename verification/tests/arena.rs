use fast_list::{Arena, LinkedList, LinkedListWalker};

#[test]
fn arena_insert_get_remove_len() {
    let mut arena: Arena<&str> = Arena::new();
    assert_eq!(arena.len(), 0);

    let a = arena.insert("a");
    let b = arena.insert("b");
    assert_eq!(arena.len(), 2);
    assert!(arena.contains(a));
    assert_eq!(arena.get(a), Some(&"a"));
    assert_eq!(arena.get(b), Some(&"b"));

    assert_eq!(arena.remove(a), Some("a"));
    assert_eq!(arena.len(), 1);
    assert!(!arena.contains(a));
    assert_eq!(arena.get(a), None);
    assert_eq!(arena.remove(a), None);
}

#[test]
fn arena_reuses_slots_with_fresh_generations() {
    let mut arena: Arena<u32> = Arena::new();
    let a = arena.insert(1);
    arena.remove(a);

    // The freed slot is reused, but under a handle that never equals the
    // retired one, so the stale handle keeps reporting absence.
    let b = arena.insert(2);
    assert_ne!(a, b);
    assert_eq!(arena.get(a), None);
    assert_eq!(arena.get(b), Some(&2));
    assert_eq!(arena.len(), 1);
}

#[test]
fn arena_next_handle_predicts_insert() {
    let mut arena: Arena<u32> = Arena::new();
    let predicted = arena.next_handle();
    let actual = arena.insert(7);
    assert_eq!(predicted, actual);

    arena.remove(actual);
    let predicted = arena.next_handle();
    let actual = arena.insert(8);
    assert_eq!(predicted, actual);
}

#[test]
fn arena_get_mut_updates_in_place() {
    let mut arena: Arena<u32> = Arena::new();
    let a = arena.insert(1);
    *arena.get_mut(a).unwrap() = 10;
    assert_eq!(arena.get(a), Some(&10));

    arena.remove(a);
    assert!(arena.get_mut(a).is_none());
}

#[test]
fn arena_entries_lists_every_live_value_once() {
    let mut arena: Arena<u32> = Arena::new();
    let a = arena.insert(1);
    let b = arena.insert(2);
    let c = arena.insert(3);
    arena.remove(b);

    let entries = arena.entries();
    assert_eq!(entries.len(), 2);
    let keys: Vec<_> = entries.iter().map(|entry| entry.0).collect();
    assert!(keys.contains(&a));
    assert!(keys.contains(&c));
    let mut values: Vec<u32> = entries.iter().map(|entry| *entry.1).collect();
    values.sort();
    assert_eq!(values, vec![1, 3]);
}

#[test]
fn advance_steps_and_stops_like_the_trait_method() {
    let mut list = LinkedList::new();
    let handles = list.extend((0..3).collect());

    let mut walker = LinkedListWalker::new(&list, handles[0], false);
    assert_eq!(walker.advance(&list), Some(handles[1]));
    assert_eq!(walker.advance(&list), Some(handles[2]));
    assert_eq!(walker.advance(&list), None);
    assert_eq!(walker.advance(&list), None);

    let mut back = LinkedListWalker::new(&list, handles[2], true);
    assert_eq!(back.advance(&list), Some(handles[1]));
    assert_eq!(back.advance(&list), Some(handles[0]));
    assert_eq!(back.advance(&list), None);

    // A stale current handle stops the walk without moving.
    let mut stale = LinkedListWalker::new(&list, handles[1], false);
    list.remove(handles[1]);
    assert_eq!(stale.advance(&list), None);
    assert_eq!(stale.current, Some(handles[1]));
}
