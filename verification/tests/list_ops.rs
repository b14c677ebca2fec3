use linked_list::LinkedList;

#[test]
fn test_push_pop_front() {
    let mut list = LinkedList::new();
    list.push_front(1);
    list.push_front(2);
    list.push_front(3);
    assert_eq!(list.pop_front(), Some(3));
    assert_eq!(list.pop_front(), Some(2));
    assert_eq!(list.pop_front(), Some(1));
    assert_eq!(list.pop_front(), None);
}

#[test]
fn test_push_pop_back() {
    let mut list = LinkedList::new();
    list.push_back(1);
    list.push_back(2);
    list.push_back(3);
    assert_eq!(list.pop_back(), Some(3));
    assert_eq!(list.pop_back(), Some(2));
    assert_eq!(list.pop_back(), Some(1));
    assert_eq!(list.pop_back(), None);
}

#[test]
fn test_cursor_basic() {
    let mut list = LinkedList::new();
    list.push_back(1);
    list.push_back(2);
    list.push_back(3);
    let mut cursor = list.cursor_front();
    assert_eq!(list.len(), 3);
    assert_eq!(cursor.current(), Some(&1));
    cursor.move_next();
    assert_eq!(cursor.current(), Some(&2));
    cursor.move_next();
    assert_eq!(cursor.current(), Some(&3));
    cursor.move_next();
    assert_eq!(cursor.current(), None);
    cursor.move_next();
    assert_eq!(cursor.current(), None);
    cursor.move_prev();
    assert_eq!(cursor.current(), Some(&3));
}

#[test]
fn test_iterator() {
    let mut list = LinkedList::new();
    list.push_back(1);
    list.push_back(2);
    list.push_back(3);
    let mut iter = list.iter();
    assert_eq!(iter.next(), Some(&1));
    assert_eq!(iter.next(), Some(&2));
    assert_eq!(iter.next(), Some(&3));
    assert_eq!(iter.next(), None);
    assert_eq!(iter.next(), None);
}

#[test]
fn test_cursor_insert_after() {
    let mut list = LinkedList::new();
    list.push_back(1);
    list.push_back(2);
    list.push_back(3);
    let mut cursor = list.cursor_front_mut();
    assert_eq!(cursor.len(), 3);
    cursor.move_next();
    cursor.insert_after(4);
    assert_eq!(cursor.len(), 4);
    cursor.move_prev();
    assert_eq!(cursor.current(), Some(&mut 1));
    cursor.move_next();
    assert_eq!(cursor.current(), Some(&mut 2));
    cursor.move_next();
    assert_eq!(cursor.current(), Some(&mut 4));
    cursor.move_next();
    assert_eq!(cursor.current(), Some(&mut 3));
    cursor.move_next();
    assert_eq!(cursor.current(), None);
}

#[test]
fn test_new_list_is_empty() {
    let mut list: LinkedList<u32> = LinkedList::new();
    assert_eq!(list.len(), 0);
    assert_eq!(list.pop_front(), None);
    assert_eq!(list.pop_back(), None);
    assert_eq!(list.iter().next(), None);
}

#[test]
fn test_mixed_ends() {
    let mut list = LinkedList::new();
    list.push_front(2);
    list.push_back(3);
    list.push_front(1);
    list.push_back(4);
    assert_eq!(list.len(), 4);
    assert_eq!(list.pop_front(), Some(1));
    assert_eq!(list.pop_back(), Some(4));
    assert_eq!(list.pop_front(), Some(2));
    assert_eq!(list.pop_back(), Some(3));
    assert_eq!(list.len(), 0);
}

#[test]
fn test_boundaries_absorb() {
    let mut list = LinkedList::new();
    list.push_back(1);
    let mut cursor = list.iter();
    assert_eq!(cursor.current(), None);
    cursor.move_prev();
    assert_eq!(cursor.current(), None);
    cursor.move_prev();
    assert_eq!(cursor.current(), None);
    cursor.move_next();
    assert_eq!(cursor.current(), Some(&1));
    cursor.move_next();
    assert_eq!(cursor.current(), None);
    cursor.move_next();
    cursor.move_next();
    assert_eq!(cursor.current(), None);
}

#[test]
fn test_next_then_prev_returns() {
    let mut list = LinkedList::new();
    list.push_back(1);
    list.push_back(2);
    list.push_back(3);
    let mut cursor = list.cursor_front();
    cursor.move_next();
    cursor.move_prev();
    assert_eq!(cursor.current(), Some(&1));
    let mut back = list.cursor_back();
    back.move_next();
    back.move_prev();
    assert_eq!(back.current(), Some(&3));
}

#[test]
fn test_insert_after_at_boundaries() {
    let mut list = LinkedList::new();
    let mut cursor = list.cursor_front_mut();
    cursor.insert_after(1);
    assert_eq!(cursor.len(), 1);
    let mut back = list.cursor_back_mut();
    back.move_next();
    back.insert_after(2);
    assert_eq!(back.len(), 2);

    let mut other = LinkedList::new();
    other.push_front(1);
    other.push_back(2);

    assert_eq!(list.pop_front(), other.pop_front());
    assert_eq!(list.pop_front(), other.pop_front());
    assert_eq!(list.pop_front(), None);
    assert_eq!(other.pop_front(), None);
}

#[test]
fn test_remove_middle() {
    let mut list = LinkedList::new();
    list.push_back(1);
    list.push_back(2);
    list.push_back(3);
    let mut cursor = list.cursor_front_mut();
    cursor.move_next();
    assert_eq!(cursor.remove(), Some(2));
    assert_eq!(cursor.current(), Some(&mut 3));
    assert_eq!(cursor.len(), 2);
    assert_eq!(list.pop_front(), Some(1));
    assert_eq!(list.pop_front(), Some(3));
    assert_eq!(list.pop_front(), None);
}

#[test]
fn test_remove_first() {
    let mut list = LinkedList::new();
    list.push_back(1);
    list.push_back(2);
    let mut cursor = list.cursor_front_mut();
    assert_eq!(cursor.remove(), Some(1));
    assert_eq!(cursor.current(), Some(&mut 2));
    assert_eq!(list.pop_front(), Some(2));
    assert_eq!(list.pop_front(), None);
}

#[test]
fn test_remove_last() {
    let mut list = LinkedList::new();
    list.push_back(1);
    list.push_back(2);
    let mut cursor = list.cursor_back_mut();
    assert_eq!(cursor.remove(), Some(2));
    assert_eq!(cursor.current(), None);
    assert_eq!(list.pop_back(), Some(1));
    assert_eq!(list.pop_back(), None);
}

#[test]
fn test_remove_sole_node() {
    let mut list = LinkedList::new();
    list.push_back(7);
    let mut cursor = list.cursor_front_mut();
    assert_eq!(cursor.remove(), Some(7));
    assert_eq!(cursor.current(), None);
    assert_eq!(cursor.remove(), None);
    assert_eq!(cursor.len(), 0);
    assert_eq!(list.pop_front(), None);
}

#[test]
fn test_remove_at_sentinel_is_noop() {
    let mut list: LinkedList<u8> = LinkedList::new();
    let mut cursor = list.cursor_front_mut();
    assert_eq!(cursor.remove(), None);
    assert_eq!(cursor.len(), 0);
}

#[test]
fn test_write_through_cursor() {
    let mut list = LinkedList::new();
    list.push_back(1);
    list.push_back(2);
    let mut cursor = list.cursor_front_mut();
    if let Some(v) = cursor.current() {
        *v = 10;
    }
    cursor.move_next();
    if let Some(v) = cursor.current() {
        *v = 20;
    }
    assert_eq!(list.pop_front(), Some(10));
    assert_eq!(list.pop_front(), Some(20));
}

#[test]
fn test_len_tracks_traversal() {
    let mut list = LinkedList::new();
    list.push_back(1);
    list.push_front(0);
    list.push_back(2);
    let mut cursor = list.cursor_front_mut();
    cursor.insert_after(9);
    assert_eq!(cursor.remove(), Some(0));
    assert_eq!(list.len(), 3);
    let mut forward = 0;
    let mut iter = list.iter();
    while iter.next().is_some() {
        forward += 1;
    }
    assert_eq!(forward, 3);
    let mut backward = 0;
    let mut cursor = list.cursor_back();
    while cursor.current().is_some() {
        backward += 1;
        cursor.move_prev();
    }
    assert_eq!(backward, 3);
}

#[test]
fn test_forward_and_backward_agree() {
    let mut list = LinkedList::new();
    list.push_back(1);
    list.push_back(2);
    list.push_back(3);
    let mut forward = Vec::new();
    let mut iter = list.iter();
    while let Some(v) = iter.next() {
        forward.push(*v);
    }
    let mut backward = Vec::new();
    let mut cursor = list.cursor_back();
    while let Some(v) = cursor.current() {
        backward.push(*v);
        cursor.move_prev();
    }
    backward.reverse();
    assert_eq!(forward, vec![1, 2, 3]);
    assert_eq!(forward, backward);
}

#[test]
fn test_slot_reuse_keeps_order() {
    let mut list = LinkedList::new();
    list.push_back(1);
    list.push_back(2);
    list.push_back(3);
    assert_eq!(list.pop_front(), Some(1));
    list.push_back(4);
    list.push_front(0);
    assert_eq!(list.pop_front(), Some(0));
    assert_eq!(list.pop_front(), Some(2));
    assert_eq!(list.pop_front(), Some(3));
    assert_eq!(list.pop_front(), Some(4));
    assert_eq!(list.pop_front(), None);
}
