use cursor_list::{Index, ListContainer};

fn forward(list: &ListContainer<i32>, from: Index) -> Vec<i32> {
    list.iterate_forward(from).into_iter().cloned().collect::<Vec<_>>()
}

fn backward(list: &ListContainer<i32>, from: Index) -> Vec<i32> {
    list.iterate_backward(from).into_iter().cloned().collect::<Vec<_>>()
}

#[test]
fn test_insert_after() {
    let mut list = ListContainer::<i32>::default();
    let head = list.add_list(0);
    let next0 = list.insert_after(head, 1);
    let next1 = list.insert_after(next0, 2);

    assert_eq!(*list.get(head), 0);
    assert_eq!(*list.get(next0), 1);
    assert_eq!(*list.get(next1), 2);

    let forward_values = list.iterate_forward(head).into_iter().cloned().collect::<Vec<_>>();
    assert_eq!(forward_values, [0, 1, 2], "{:?} {:?}, {:?}", head, next0, next1);

    let _ = list.insert_before(next1, 7);
    let forward_values = list.iterate_forward(head).into_iter().cloned().collect::<Vec<_>>();
    assert_eq!(forward_values, [0, 1, 7, 2], "{:?} {:?}, {:?}", head, next0, next1);

    list.remove(head);
    let forward_values = list.iterate_forward(head).into_iter().cloned().collect::<Vec<_>>();
    assert_eq!(forward_values, [0], "{:?} {:?}, {:?}", head, next0, next1);
    let forward_values = list.iterate_forward(next0).into_iter().cloned().collect::<Vec<_>>();
    assert_eq!(forward_values, [1, 7, 2], "{:?} {:?}, {:?}", head, next0, next1);
    let forward_values = list.iterate_backward(next0).into_iter().cloned().collect::<Vec<_>>();
    assert_eq!(forward_values, [1], "{:?} {:?}, {:?}", head, next0, next1);
    let _ = list.insert_after(next0, 4);
    let forward_values = list.iterate_forward(next0).into_iter().cloned().collect::<Vec<_>>();
    assert_eq!(forward_values, [1, 4, 7, 2], "{:?} {:?}, {:?}", head, next0, next1);
}

#[test]
fn scenario_chain_of_three_and_back() {
    let mut list = ListContainer::<i32>::default();
    let h0 = list.add_list(0);
    let h1 = list.insert_after(h0, 1);
    let h2 = list.insert_after(h1, 2);
    assert_eq!(forward(&list, h0), vec![0, 1, 2]);
    assert_eq!(backward(&list, h2), vec![2, 1, 0]);
    let h7 = list.insert_before(h2, 7);
    assert_eq!(forward(&list, h0), vec![0, 1, 7, 2]);
    assert_eq!(backward(&list, h2), vec![2, 7, 1, 0]);
    list.remove(h0);
    assert_eq!(forward(&list, h1), vec![1, 7, 2]);
    assert_eq!(backward(&list, h1), vec![1]);
    assert_eq!(list.prev(h1), None);
    let h4 = list.insert_after(h1, 4);
    assert_eq!(forward(&list, h1), vec![1, 4, 7, 2]);
    assert_eq!(list.next(h4), Some(h7));
}

#[test]
fn two_interleaved_lists_stay_apart() {
    let mut list = ListContainer::<i32>::with_capacity(16);
    let a = list.add_list(0);
    let b = list.add_list(1000);
    let mut a_tail = a;
    let mut b_tail = b;
    for i in 1..500 {
        a_tail = list.insert_after(a_tail, i);
        b_tail = list.insert_after(b_tail, 1000 + i);
    }
    let want_a: Vec<i32> = (0..500).collect();
    let want_b: Vec<i32> = (1000..1500).collect();
    assert_eq!(forward(&list, a), want_a);
    assert_eq!(forward(&list, b), want_b);
    let mut rev_a = want_a.clone();
    rev_a.reverse();
    assert_eq!(backward(&list, a_tail), rev_a);
    assert_eq!(list.next(a_tail), None);
    assert_eq!(list.next(b_tail), None);
}

#[test]
fn appending_after_the_tail_keeps_insertion_order() {
    let mut list = ListContainer::<i32>::default();
    let head = list.add_list(5);
    let mut tail = head;
    for v in [3, 9, -2, 7] {
        tail = list.insert_after(tail, v);
    }
    assert_eq!(forward(&list, head), vec![5, 3, 9, -2, 7]);
}

#[test]
fn inserting_after_the_head_each_time_reverses() {
    let mut list = ListContainer::<i32>::default();
    let head = list.add_list(0);
    for v in 1..4 {
        let _ = list.insert_after(head, v);
    }
    assert_eq!(forward(&list, head), vec![0, 3, 2, 1]);
}

#[test]
fn links_are_symmetric_after_each_operation() {
    let mut list = ListContainer::<i32>::default();
    let head = list.add_list(0);
    let mut handles = vec![head];
    let mut at = head;
    for v in 1..6 {
        at = list.insert_after(at, v);
        handles.push(at);
    }
    let extra = list.insert_before(handles[3], 30);
    handles.push(extra);
    list.remove(handles[1]);
    let live: Vec<Index> = handles.iter().cloned().filter(|h| *h != handles[1]).collect();
    for &a in &live {
        if let Some(b) = list.next(a) {
            assert_eq!(list.prev(b), Some(a));
        }
        if let Some(b) = list.prev(a) {
            assert_eq!(list.next(b), Some(a));
        }
    }
    assert_eq!(forward(&list, head), vec![0, 2, 30, 3, 4, 5]);
}

#[test]
fn freed_slots_are_reused_last_in_first_out() {
    let mut list = ListContainer::<i32>::default();
    let a = list.add_list(1);
    let b = list.insert_after(a, 2);
    let c = list.insert_after(b, 3);
    list.remove(a);
    list.remove(c);
    let first = list.insert_after(b, 30);
    assert_eq!(first, c);
    let second = list.add_list(10);
    assert_eq!(second, a);
    let third = list.add_list(99);
    assert!(third != a && third != b && third != c);
    assert_eq!(forward(&list, b), vec![2, 30]);
    assert_eq!(forward(&list, second), vec![10]);
}

#[test]
fn removal_from_one_list_leaves_another_alone() {
    let mut list = ListContainer::<i32>::default();
    let a = list.add_list(1);
    let a2 = list.insert_after(a, 2);
    let b = list.add_list(10);
    let b2 = list.insert_after(b, 20);
    let _ = list.insert_before(b, 5);
    list.remove(a2);
    let _ = list.insert_after(a, 3);
    assert_eq!(forward(&list, a), vec![1, 3]);
    assert_eq!(backward(&list, b2), vec![20, 10, 5]);
}

#[test]
fn removing_an_interior_node_links_its_neighbours() {
    let mut list = ListContainer::<i32>::default();
    let a = list.add_list(1);
    let b = list.insert_after(a, 2);
    let c = list.insert_after(b, 3);
    list.remove(b);
    assert_eq!(list.next(a), Some(c));
    assert_eq!(list.prev(c), Some(a));
    assert_eq!(list.next(b), None);
    assert_eq!(list.prev(b), None);
    assert_eq!(forward(&list, a), vec![1, 3]);
}

#[test]
fn removing_an_end_keeps_the_far_end() {
    let mut list = ListContainer::<i32>::default();
    let a = list.add_list(1);
    let b = list.insert_after(a, 2);
    let c = list.insert_after(b, 3);
    list.remove(c);
    assert_eq!(list.next(b), None);
    assert_eq!(list.prev(a), None);
    assert_eq!(backward(&list, b), vec![2, 1]);
    list.remove(a);
    assert_eq!(list.prev(b), None);
    assert_eq!(list.next(b), None);
    assert_eq!(forward(&list, b), vec![2]);
}

#[test]
fn removing_the_only_node_empties_the_chain() {
    let mut list = ListContainer::<i32>::default();
    let a = list.add_list(4);
    list.remove(a);
    assert_eq!(list.next(a), None);
    assert_eq!(list.prev(a), None);
    let again = list.new_index(8);
    assert_eq!(again, a);
    assert_eq!(forward(&list, again), vec![8]);
}

#[test]
fn prev_raw_reads_the_stored_link() {
    let mut list = ListContainer::<i32>::default();
    let a = list.add_list(1);
    let b = list.insert_after(a, 2);
    assert_eq!(list.prev_raw(b), a);
    assert!(list.prev_raw(a) != a && list.prev_raw(a) != b);
}

#[test]
fn capacity_hint_changes_nothing() {
    let mut x = ListContainer::<i32>::with_capacity(100);
    let mut y = ListContainer::<i32>::default();
    let hx = x.add_list(1);
    let hy = y.add_list(1);
    assert_eq!(hx, hy);
    let nx = x.insert_before(hx, 0);
    let ny = y.insert_before(hy, 0);
    assert_eq!(nx, ny);
    assert_eq!(forward(&x, nx), forward(&y, ny));
}
