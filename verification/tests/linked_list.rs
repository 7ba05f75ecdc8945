use order_book::linked_list::SlabLinkedList;

#[test]
fn test_is_empty() {
    let mut list = SlabLinkedList::new();
    assert!(list.is_empty());
    list.push_front(1);
    assert!(!list.is_empty());
}

#[test]
fn test_front_and_back() {
    let mut list = SlabLinkedList::new();
    assert_eq!(list.front(), None);
    assert_eq!(list.back(), None);

    list.push_front(1);
    assert_eq!(list.front(), Some(&1));
    assert_eq!(list.back(), Some(&1));

    list.push_back(2);
    assert_eq!(list.front(), Some(&1));
    assert_eq!(list.back(), Some(&2));
}

#[test]
fn test_pop_front_and_pop_back() {
    let mut list = SlabLinkedList::new();
    assert_eq!(list.pop_front(), None);
    assert_eq!(list.pop_back(), None);

    list.push_front(1);
    list.push_back(2);
    assert_eq!(list.pop_front(), Some(1));
    assert_eq!(list.pop_back(), Some(2));
    assert!(list.is_empty());
}

#[test]
fn test_push_front_and_push_back() {
    let mut list = SlabLinkedList::new();
    let id1 = list.push_front(1);
    let id2 = list.push_back(2);
    assert_eq!(list.front(), Some(&1));
    assert_eq!(list.back(), Some(&2));
    assert_eq!(list.remove(id1), Some(1));
    assert_eq!(list.remove(id2), Some(2));
    assert!(list.is_empty());
}

#[test]
fn test_remove_node_id() {
    let mut list = SlabLinkedList::new();
    let id1 = list.push_front(1);
    let id2 = list.push_back(2);
    assert_eq!(list.remove(id1), Some(1));
    assert_eq!(list.remove(id2), Some(2));
    assert!(list.is_empty());

    // Removing a non-existent node_id should return None
    assert_eq!(list.remove(id1), None);
}

#[test]
fn test_multiple_insertions_and_removals() {
    let mut list = SlabLinkedList::new();
    let mut ids = Vec::new();

    // Insert 100 elements at the front
    for i in 0..100 {
        ids.push(list.push_front(i));
    }
    assert_eq!(list.len(), 100);

    // Remove elements from the front
    for i in (0..100).rev() {
        assert_eq!(list.pop_front(), Some(i));
    }

    assert!(list.is_empty());

    // Insert 100 elements at the back
    for i in 0..100 {
        ids.push(list.push_back(i));
    }
    assert_eq!(list.len(), 100);

    // Remove elements from the back
    for i in (0..100).rev() {
        assert_eq!(list.pop_back(), Some(i));
    }
    assert!(list.is_empty());
}

#[test]
fn test_random_insertions_and_removals() {
    let mut list = SlabLinkedList::new();
    let mut ids = Vec::new();

    // Insert elements randomly
    for i in 0..100 {
        if i % 2 == 0 {
            ids.push(list.push_front(i));
        } else {
            ids.push(list.push_back(i));
        }
    }
    assert_eq!(list.len(), 100);

    // Remove elements in reverse order of insertion
    for i in (0..100).rev() {
        assert_eq!(list.remove(ids[i]), Some(i));
    }
    assert!(list.is_empty());
}

#[test]
fn test_list_near_capacity() {
    let mut list = SlabLinkedList::new();
    for i in 0..999 {
        list.push_back(i);
    }
    assert_eq!(list.len(), 999);
    // Attempting to add one more element should not panic or cause undefined behavior
    list.push_back(999);
    assert_eq!(list.len(), 1000);

    // Removing elements should not cause issues
    for _ in 0..1000 {
        list.pop_front();
    }
    assert!(list.is_empty());
}

#[test]
fn test_remove_non_existent_node_id() {
    let mut list = SlabLinkedList::new();
    let id1 = list.push_front(1);
    let id2 = list.push_back(2);
    // Removing a non-existent node_id should return None
    assert_eq!(list.remove(id1 + 1000), None);
    assert_eq!(list.remove(id2 + 1000), None);
}

#[test]
fn test_remove_all_elements() {
    let mut list = SlabLinkedList::new();
    for i in 0..100 {
        list.push_back(i);
    }
    assert_eq!(list.len(), 100);

    // Remove all elements
    for _ in 0..100 {
        list.pop_front();
    }
    assert!(list.is_empty());
}

#[test]
fn test_forward_iterator() {
    let mut list = SlabLinkedList::new();

    let mut id_vec = Vec::new();
    // Insert elements into the list
    id_vec.push(list.push_back(1));
    id_vec.push(list.push_back(2));
    id_vec.push(list.push_back(3));

    // Use the forward cursor to traverse the list
    let mut iter = list.iter();
    let expected_values = vec![1, 2, 3];

    // Iterate over the list and check if the values are as expected
    for (expected_value, &expected_id) in expected_values.iter().zip(id_vec.iter()) {
        match iter.next() {
            Some(value) => assert_eq!(value, (expected_id, expected_value), "Value mismatch"),
            None => panic!("Iterator returned None unexpectedly"),
        }
    }

    // Check if the iterator is exhausted
    assert_eq!(iter.next(), None, "Iterator should be exhausted");
    assert_eq!(
        list.len(),
        expected_values.len(),
        "List should have the same number of elements before iter"
    );
}

#[test]
fn test_rev_iterator() {
    let mut list = SlabLinkedList::new();

    let mut id_vec = Vec::new();
    // Insert elements into the list
    id_vec.push(list.push_back(1));
    id_vec.push(list.push_back(2));
    id_vec.push(list.push_back(3));

    // Walk the list from the back to the front
    let mut iter_rev = list.iter();
    let expected_values = vec![1, 2, 3];

    // Iterate over the list in reverse and check if the values are as expected
    for (expected_value, &expected_id) in expected_values.iter().rev().zip(id_vec.iter().rev()) {
        match iter_rev.next_back() {
            Some(value) => assert_eq!(value, (expected_id, expected_value), "Value mismatch"),
            None => panic!("Iterator returned None unexpectedly"),
        }
    }

    // Check if the iterator is exhausted
    assert_eq!(iter_rev.next_back(), None, "Iterator should be exhausted");
    assert_eq!(
        list.len(),
        expected_values.len(),
        "List should have the same number of elements before iter"
    );
}

#[test]
fn test_iteration_both_directions() {
    let mut list = SlabLinkedList::new();

    let mut id_vec = Vec::new();
    // Insert elements into the list
    id_vec.push(list.push_back(1));
    id_vec.push(list.push_back(2));
    id_vec.push(list.push_back(3));

    let mut iter = list.iter();

    assert_eq!(iter.next(), Some((id_vec[0], &1)), "First value mismatch");
    assert_eq!(iter.next_back(), Some((id_vec[2], &3)), "Last value mismatch");
    assert_eq!(iter.next_back(), Some((id_vec[1], &2)), "Middle value mismatch");
    assert_eq!(iter.next(), None, "Iter should be exhausted");
    assert_eq!(iter.next_back(), None, "Iter should be exhausted");
}
