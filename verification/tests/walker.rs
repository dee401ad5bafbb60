use fast_list::{LinkedList, LinkedListWalker, Walker};

#[test]
fn test_list_walker() {
    let mut list = LinkedList::new();
    list.extend((0..=100).collect());
    let mut count = 0;
    let mut walker = LinkedListWalker::new(&list, list.tail.unwrap(), true);

    assert_eq!(list.get(list.head.unwrap()).unwrap().value, 0);
    assert_eq!(list.get(list.tail.unwrap()).unwrap().value, 100);

    list.tail_mut().unwrap().value = 0;
    while let Some(index) = walker.walk_next(&list) {
        count += 1;
        list.get_mut(index).unwrap().value = count;
    }

    assert_eq!(count, 100);
    assert_eq!(list.get(list.head.unwrap()).unwrap().value, 100);
    assert_eq!(list.get(list.tail.unwrap()).unwrap().value, 0);
}

#[test]
fn walker_forward_yields_all_handles_after_start() {
    let mut list = LinkedList::new();
    let handles = list.extend((10..15).collect());
    let mut walker = LinkedListWalker::new(&list, list.head.unwrap(), false);

    let mut seen = Vec::new();
    while let Some(index) = walker.walk_next(&list) {
        seen.push(index);
    }
    // The starting handle itself is not yielded.
    assert_eq!(seen, handles[1..].to_vec());
}

#[test]
fn walker_allows_removal_between_steps() {
    let mut list = LinkedList::new();
    list.extend((0..6).collect());
    let mut walker = LinkedListWalker::new(&list, list.head.unwrap(), false);

    // Remove each node once the walker has stepped past it; no borrow is
    // held between steps, so this is allowed, and the walk still visits
    // every node exactly once.
    let mut last = list.head.unwrap();
    let mut visited = vec![list.get(last).unwrap().value];
    while let Some(index) = walker.walk_next(&list) {
        list.remove(last).unwrap();
        visited.push(list.get(index).unwrap().value);
        last = index;
    }
    assert_eq!(visited, vec![0, 1, 2, 3, 4, 5]);
    assert_eq!(list.len(), 1);
    assert_eq!(list.head().unwrap().value, 5);
}

#[test]
fn walker_stale_start_yields_nothing() {
    let mut list = LinkedList::new();
    let a = list.push_back(1);
    list.push_back(2);
    let mut walker = LinkedListWalker::new(&list, a, false);
    list.remove(a);
    assert_eq!(walker.walk_next(&list), None);
}

#[test]
fn walker_iter_steps_like_the_walker() {
    let mut list = LinkedList::new();
    let handles = list.extend((0..4).collect());
    let walker = LinkedListWalker::new(&list, list.head.unwrap(), false);
    let mut it = walker.iter(&list);

    assert_eq!(it.next(), Some(handles[1]));
    assert_eq!(it.next(), Some(handles[2]));
    assert_eq!(it.inner_ref().current, Some(handles[2]));
    it.inner_mut().reverse = true;
    assert_eq!(it.next(), Some(handles[1]));
    let ctx = it.context();
    assert_eq!(ctx.len(), 4);
}
