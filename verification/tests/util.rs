use std::collections::VecDeque;
use voice_analyzer::util::iter::last_two;
use voice_analyzer::util::vec_or_deque::{Inner, VecOrDeque};

#[test]
fn last_two_of_short_sequences() {
    assert_eq!(last_two(Vec::<i32>::new()), (None, None));
    assert_eq!(last_two(vec![4]), (None, Some(4)));
    assert_eq!(last_two(vec![4, 5]), (Some(4), Some(5)));
}

#[test]
fn last_two_of_a_longer_sequence() {
    assert_eq!(last_two(vec!["a", "b", "c", "d"]), (Some("c"), Some("d")));
}

#[test]
fn a_new_buffer_is_empty() {
    let mut buffer: VecOrDeque<u8> = VecOrDeque::new();
    assert!(buffer.to_vec_mut().is_empty());
    assert!(buffer.to_deque_mut().is_empty());
}

#[test]
fn the_buffer_keeps_its_items_in_order_across_forms() {
    let mut buffer: VecOrDeque<i32> = VecOrDeque::new();
    buffer.to_vec_mut().extend_from_slice(&[1, 2, 3]);
    assert_eq!(buffer.to_deque_mut().pop_front(), Some(1));
    buffer.to_deque_mut().push_back(4);
    buffer.to_deque_mut().push_front(0);
    assert_eq!(buffer.to_vec_mut(), &vec![0, 2, 3, 4]);
    buffer.to_vec_mut().push(5);
    assert_eq!(buffer.to_deque_mut(), &VecDeque::from(vec![0, 2, 3, 4, 5]));
}

#[test]
fn the_buffer_reorders_a_wrapped_queue() {
    let mut buffer: VecOrDeque<i32> = VecOrDeque::new();
    {
        let deque = buffer.to_deque_mut();
        deque.push_back(2);
        deque.push_back(3);
        deque.push_front(1);
    }
    assert_eq!(buffer.to_vec_mut(), &vec![1, 2, 3]);
}

#[test]
fn inner_converts_in_place() {
    let mut inner = Inner::Vec(vec![1, 2]);
    inner.to_deque_mut().push_back(3);
    assert!(matches!(inner, Inner::VecDeque(_)));
    assert_eq!(inner.to_vec_mut(), &vec![1, 2, 3]);
    assert!(matches!(inner, Inner::Vec(_)));
    assert_eq!(inner.to_vec_mut().len(), 3);
}

#[test]
fn a_default_buffer_is_empty() {
    let mut buffer: VecOrDeque<u8> = VecOrDeque::default();
    assert!(buffer.to_deque_mut().is_empty());
}

#[test]
fn a_buffer_from_a_vector_holds_its_items() {
    let mut buffer = VecOrDeque::from(vec![3, 1, 2]);
    assert_eq!(buffer.to_deque_mut(), &VecDeque::from(vec![3, 1, 2]));
    assert_eq!(buffer.to_vec_mut(), &vec![3, 1, 2]);
}

#[test]
fn a_buffer_from_a_queue_holds_its_items() {
    let mut queue = VecDeque::new();
    queue.push_back(2);
    queue.push_front(1);
    queue.push_back(3);
    let mut buffer = VecOrDeque::from(queue);
    assert_eq!(buffer.to_vec_mut(), &vec![1, 2, 3]);
    assert_eq!(buffer.to_deque_mut().pop_front(), Some(1));
}
