use double_linked_list::{Node, DLL};

#[test]
fn it_works() {
    let mut list = DLL::new();

    list.push(3);
    list.push(4);

    assert_eq!(list.shift(), Some(3));
    assert_eq!(list.len(), 1);

    list.unshift(5);
    assert_eq!(list.pop(), Some(4));
    assert_eq!(list.pop(), Some(5));
    assert_eq!(list.pop(), None);
    assert_eq!(list.pop(), None);
    assert_eq!(list.len(), 0);
}

#[test]
fn can_push() {
    let mut list = DLL::new();

    list.push(3);
    list.push(4);

    assert_eq!(list.len(), 2);
    assert_eq!(list.pop(), Some(4));
    assert_eq!(list.len(), 1);

    list.push(5);
    list.push(6);
    list.push(7);

    assert_eq!(list.len(), 4);
}

#[test]
fn can_iterate_forward() {
    let mut list = DLL::new();
    for i in 0..10 {
        list.push(i);
    }

    let mut it = list.into_iter();
    for expected in (0..10).rev() {
        assert_eq!(it.next(), Some(expected));
    }
    assert_eq!(it.next(), None);
}

#[test]
fn can_iterate_back() {
    let mut list = DLL::new();
    for i in 0..10 {
        list.push(i);
    }

    let mut it = list.into_iter();
    for expected in 0..10 {
        assert_eq!(it.next_back(), Some(expected));
    }
    assert_eq!(it.next_back(), None);
}

#[test]
fn new_list_is_empty() {
    let list: DLL<i32> = DLL::new();
    assert!(list.is_empty());
    assert_eq!(list.len(), 0);
}

#[test]
fn removals_on_empty_list_keep_it_empty() {
    let mut list: DLL<i32> = DLL::new();
    for _ in 0..5 {
        assert_eq!(list.pop(), None);
        assert_eq!(list.len(), 0);
        assert_eq!(list.shift(), None);
        assert_eq!(list.len(), 0);
        assert!(list.is_empty());
    }
}

#[test]
fn pops_reverse_insertion_order() {
    let mut list = DLL::new();
    for v in [10, 20, 30, 40] {
        list.push(v);
    }
    assert_eq!(list.pop(), Some(40));
    assert_eq!(list.pop(), Some(30));
    assert_eq!(list.pop(), Some(20));
    assert_eq!(list.pop(), Some(10));
    assert_eq!(list.len(), 0);
    assert_eq!(list.pop(), None);
}

#[test]
fn len_counts_pushes() {
    let mut list = DLL::new();
    assert!(list.is_empty());
    for i in 0..7 {
        list.push(i);
        assert_eq!(list.len(), (i + 1) as usize);
        assert!(!list.is_empty());
    }
}

#[test]
fn shifts_keep_insertion_order() {
    let mut list = DLL::new();
    for v in [7, 8, 9] {
        list.push(v);
    }
    assert_eq!(list.shift(), Some(7));
    assert_eq!(list.shift(), Some(8));
    assert_eq!(list.shift(), Some(9));
    assert_eq!(list.shift(), None);
}

#[test]
fn unshift_prepends() {
    let mut list = DLL::new();
    list.unshift(1);
    list.unshift(2);
    list.unshift(3);
    assert_eq!(list.len(), 3);
    assert_eq!(list.shift(), Some(3));
    assert_eq!(list.shift(), Some(2));
    assert_eq!(list.shift(), Some(1));
    assert_eq!(list.shift(), None);
}

#[test]
fn single_node_clears_both_ends() {
    let mut list = DLL::new();
    list.push(42);
    assert_eq!(list.pop(), Some(42));
    assert_eq!(list.shift(), None);
    assert_eq!(list.pop(), None);

    list.unshift(43);
    assert_eq!(list.shift(), Some(43));
    assert_eq!(list.pop(), None);
    assert_eq!(list.shift(), None);
}

#[test]
fn mixed_end_operations() {
    let mut list = DLL::new();
    list.push(2);
    list.unshift(1);
    list.push(3);
    list.unshift(0);
    assert_eq!(list.len(), 4);
    assert_eq!(list.shift(), Some(0));
    assert_eq!(list.pop(), Some(3));
    assert_eq!(list.shift(), Some(1));
    assert_eq!(list.pop(), Some(2));
    assert!(list.is_empty());
}

#[test]
fn freed_slots_are_reused() {
    let mut list = DLL::new();
    for round in 0..3 {
        for i in 0..4 {
            list.push(round * 10 + i);
        }
        assert_eq!(list.shift(), Some(round * 10));
        assert_eq!(list.pop(), Some(round * 10 + 3));
        assert_eq!(list.pop(), Some(round * 10 + 2));
        assert_eq!(list.shift(), Some(round * 10 + 1));
        assert!(list.is_empty());
    }
}

#[test]
fn drain_forward_reverses() {
    let mut list = DLL::new();
    for i in 0..10 {
        list.push(i);
    }
    let vals = list.into_iter().drain_forward();
    assert_eq!(vals, vec![9, 8, 7, 6, 5, 4, 3, 2, 1, 0]);
}

#[test]
fn drain_backward_keeps_order() {
    let mut list = DLL::new();
    for i in 0..10 {
        list.push(i);
    }
    let vals = list.into_iter().drain_backward();
    assert_eq!(vals, vec![0, 1, 2, 3, 4, 5, 6, 7, 8, 9]);
}

#[test]
fn iterator_ends_meet() {
    let mut list = DLL::new();
    for i in 0..4 {
        list.push(i);
    }
    let mut it = list.into_iter();
    assert_eq!(it.next(), Some(3));
    assert_eq!(it.next_back(), Some(0));
    assert_eq!(it.next(), Some(2));
    assert_eq!(it.next_back(), Some(1));
    assert_eq!(it.next(), None);
    assert_eq!(it.next_back(), None);
}

#[test]
fn node_new_keeps_its_fields() {
    let node = Node::new(5, None, Some(2));
    assert_eq!(node.value, 5);
    assert_eq!(node.prev, None);
    assert_eq!(node.next, Some(2));
}
