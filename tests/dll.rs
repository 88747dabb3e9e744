use doubly_linked_list::dll::DoublyLinkedList;
use std::collections::VecDeque;

#[test]
fn test_new_list_is_empty() {
    let list: DoublyLinkedList<i32> = DoublyLinkedList::new();
    assert_eq!(list.len(), 0);
    assert!(list.is_empty());
}

#[test]
fn test_push_and_pop_front() {
    let mut list = DoublyLinkedList::new();
    list.push_front(1);
    list.push_front(2);
    list.push_front(3);

    assert_eq!(list.len(), 3);
    assert_eq!(list.pop_front(), Some(3));
    assert_eq!(list.pop_front(), Some(2));
    assert_eq!(list.pop_front(), Some(1));
    assert_eq!(list.pop_front(), None);
    assert_eq!(list.len(), 0);
}

#[test]
fn test_push_and_pop_back() {
    let mut list = DoublyLinkedList::new();
    list.push_back(1);
    list.push_back(2);
    list.push_back(3);

    assert_eq!(list.len(), 3);
    assert_eq!(list.pop_back(), Some(3));
    assert_eq!(list.pop_back(), Some(2));
    assert_eq!(list.pop_back(), Some(1));
    assert_eq!(list.pop_back(), None);
    assert_eq!(list.len(), 0);
}

#[test]
fn test_mixed_push_pop() {
    let mut list = DoublyLinkedList::new();
    list.push_front(2);
    list.push_back(3);
    list.push_front(1);

    assert_eq!(list.len(), 3);
    assert_eq!(list.pop_front(), Some(1));
    assert_eq!(list.pop_back(), Some(3));
    assert_eq!(list.len(), 1);
    assert_eq!(list.pop_front(), Some(2));
    assert!(list.is_empty());
}

#[test]
fn mixed_ends_lengths_after_each_pop() {
    let mut list = DoublyLinkedList::new();
    list.push_front(2);
    list.push_back(3);
    list.push_front(1);
    assert_eq!(list.pop_front(), Some(1));
    assert_eq!(list.len(), 2);
    assert_eq!(list.pop_back(), Some(3));
    assert_eq!(list.len(), 1);
    assert_eq!(list.pop_front(), Some(2));
    assert_eq!(list.len(), 0);
    assert!(list.is_empty());
}

#[test]
fn pop_on_empty_list_returns_none_and_keeps_length() {
    let mut list: DoublyLinkedList<u8> = DoublyLinkedList::new();
    assert_eq!(list.pop_front(), None);
    assert_eq!(list.pop_back(), None);
    assert_eq!(list.len(), 0);
    assert!(list.is_empty());
    list.push_back(9);
    assert_eq!(list.pop_back(), Some(9));
    assert_eq!(list.pop_front(), None);
    assert_eq!(list.len(), 0);
}

#[test]
fn length_counts_pushes_minus_successful_pops() {
    let mut list = DoublyLinkedList::new();
    let mut pushes: usize = 0;
    let mut pops: usize = 0;
    for i in 0..40u32 {
        match i % 7 {
            0 | 2 | 3 => {
                list.push_front(i);
                pushes += 1;
            }
            1 | 4 => {
                list.push_back(i);
                pushes += 1;
            }
            5 => {
                if list.pop_front().is_some() {
                    pops += 1;
                }
            }
            _ => {
                if list.pop_back().is_some() {
                    pops += 1;
                }
            }
        }
        assert_eq!(list.len(), pushes - pops);
    }
    while list.pop_back().is_some() {
        pops += 1;
    }
    assert_eq!(pushes, pops);
    assert_eq!(list.len(), 0);
}

#[test]
fn push_front_then_pop_back_keeps_insertion_order() {
    let mut list = DoublyLinkedList::new();
    for v in [5, 8, 13, 21, 34] {
        list.push_front(v);
    }
    let mut out = Vec::new();
    while let Some(v) = list.pop_back() {
        out.push(v);
    }
    assert_eq!(out, vec![5, 8, 13, 21, 34]);
}

#[test]
fn push_back_then_pop_front_keeps_insertion_order() {
    let mut list = DoublyLinkedList::new();
    for v in ["a", "b", "c", "d"] {
        list.push_back(v.to_string());
    }
    let mut out = Vec::new();
    while let Some(v) = list.pop_front() {
        out.push(v);
    }
    assert_eq!(out, vec!["a", "b", "c", "d"]);
}

#[test]
fn single_element_round_trip_front() {
    let mut list = DoublyLinkedList::new();
    list.push_back(42);
    assert_eq!(list.pop_front(), Some(42));
    assert!(list.is_empty());
    assert_eq!(list.pop_front(), None);
}

#[test]
fn single_element_round_trip_back() {
    let mut list = DoublyLinkedList::new();
    list.push_front(String::from("only"));
    assert_eq!(list.pop_back(), Some(String::from("only")));
    assert!(list.is_empty());
    assert_eq!(list.pop_back(), None);
}

#[test]
fn million_elements_drop_without_overflow() {
    let mut list = DoublyLinkedList::new();
    for i in 0..1_000_000u32 {
        list.push_back(i);
    }
    assert_eq!(list.len(), 1_000_000);
    drop(list);
}

#[test]
fn million_elements_clear_without_overflow() {
    let mut list = DoublyLinkedList::new();
    for i in 0..1_000_000u64 {
        list.push_back(i);
    }
    list.clear();
    assert!(list.is_empty());
    assert_eq!(list.pop_front(), None);
}

#[test]
fn clear_empties_and_list_is_reusable() {
    let mut list = DoublyLinkedList::new();
    list.push_front(1);
    list.push_back(2);
    list.push_front(0);
    list.clear();
    assert_eq!(list.len(), 0);
    list.push_back(7);
    list.push_front(6);
    assert_eq!(list.pop_back(), Some(7));
    assert_eq!(list.pop_back(), Some(6));
    assert_eq!(list.pop_back(), None);
}

#[test]
fn interleaved_calls_match_a_deque() {
    let mut list = DoublyLinkedList::new();
    let mut model: VecDeque<u64> = VecDeque::new();
    let mut x: u64 = 12345;
    for i in 0..2000u64 {
        x = x.wrapping_mul(6364136223846793005).wrapping_add(1442695040888963407);
        match (x >> 33) % 5 {
            0 => {
                list.push_front(i);
                model.push_front(i);
            }
            1 | 2 => {
                list.push_back(i);
                model.push_back(i);
            }
            3 => assert_eq!(list.pop_front(), model.pop_front()),
            _ => assert_eq!(list.pop_back(), model.pop_back()),
        }
        assert_eq!(list.len(), model.len());
        assert_eq!(list.is_empty(), model.is_empty());
    }
    while let Some(v) = model.pop_front() {
        assert_eq!(list.pop_front(), Some(v));
    }
    assert_eq!(list.pop_back(), None);
}
