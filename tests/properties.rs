use order_statistic_tree::{Container, OrderStatisticTree};

fn contents<T: order_statistic_tree::TotalOrder>(c: &OrderStatisticTree<T>) -> Vec<T> {
    let mut out = Vec::new();
    for i in 0..c.size() as u64 {
        out.push(c.get(i).unwrap());
    }
    out
}

#[test]
fn size_counts_inserts_and_removals() {
    let mut c = OrderStatisticTree::new();
    for (n, v) in [4u32, 9, 1, 4, 7, 0, 9].into_iter().enumerate() {
        c.insert(v);
        assert_eq!(c.size(), n + 1);
    }
    assert!(c.remove(2));
    assert_eq!(c.size(), 6);
    assert!(!c.remove(6));
    assert_eq!(c.size(), 6);
}

#[test]
fn neighbours_by_rank_are_ordered() {
    let mut c = OrderStatisticTree::new();
    for v in [50i64, -3, 17, 17, 99, -40, 0, 17, 8, 63, -3] {
        c.insert(v);
    }
    for i in 0..(c.size() as u64 - 1) {
        assert!(c.get(i).unwrap() <= c.get(i + 1).unwrap());
    }
}

#[test]
fn ranks_give_inserted_values_sorted() {
    let values = [12u64, 3, 3, 40, 7, 0, 12, 25, 1, 3];
    let mut c = OrderStatisticTree::new();
    for v in values {
        c.insert(v);
    }
    let mut expected = values.to_vec();
    expected.sort();
    assert_eq!(contents(&c), expected);
}

#[test]
fn remove_past_the_end_changes_nothing() {
    let mut c = OrderStatisticTree::new();
    for v in [3u8, 1, 2] {
        c.insert(v);
    }
    assert!(!c.remove(3));
    assert!(!c.remove(u64::MAX));
    assert_eq!(contents(&c), vec![1, 2, 3]);
}

#[test]
fn get_past_the_end_is_none() {
    let mut c = OrderStatisticTree::new();
    assert_eq!(c.get(0), None);
    c.insert('x');
    assert_eq!(c.get(1), None);
    assert_eq!(c.get(u64::MAX), None);
}

#[test]
fn equal_values_drain_from_the_back() {
    let mut c = OrderStatisticTree::new();
    for _ in 0..10 {
        c.insert(0u8);
    }
    assert_eq!(c.size(), 10);
    for i in (0..10u64).rev() {
        assert!(c.remove(i));
    }
    assert_eq!(c.size(), 0);
    assert!(!c.remove(0));
}

#[test]
fn remove_middle_of_three() {
    let mut c = OrderStatisticTree::new();
    for v in [0u64, 1, 2] {
        c.insert(v);
    }
    assert!(c.remove(1));
    assert_eq!(c.get(0), Some(0));
    assert_eq!(c.get(1), Some(2));
    assert_eq!(c.size(), 2);
}

#[test]
fn remove_node_with_two_children() {
    let mut c = OrderStatisticTree::new();
    for v in [5u64, 3, 8, 1, 4, 7, 9, 6] {
        c.insert(v);
    }
    assert!(c.remove(4));
    assert_eq!(contents(&c), vec![1, 3, 4, 5, 7, 8, 9]);
    assert!(c.remove(3));
    assert_eq!(contents(&c), vec![1, 3, 4, 7, 8, 9]);
    assert!(c.remove(0));
    assert_eq!(contents(&c), vec![3, 4, 7, 8, 9]);
}

#[test]
fn strings_order_by_bytes() {
    let mut c = OrderStatisticTree::new();
    for s in ["b", "ab", "B", "a", "", "ä", "abc"] {
        c.insert(s);
    }
    assert_eq!(contents(&c), vec!["", "B", "a", "ab", "abc", "b", "ä"]);
}

#[test]
fn owned_strings_order_by_bytes() {
    let mut c = OrderStatisticTree::new();
    for s in ["pear", "apple", "Zebra", "app"] {
        c.insert(String::from(s));
    }
    assert_eq!(c.get(0), Some(String::from("Zebra")));
    assert_eq!(c.get(1), Some(String::from("app")));
    assert_eq!(c.get(3), Some(String::from("pear")));
}

#[test]
fn byte_slices_order_lexicographically() {
    let words: [&[u8]; 5] = [b"\xff", b"ab", b"a", b"\x00z", b"abc"];
    let mut c = OrderStatisticTree::new();
    for w in words {
        c.insert(w);
    }
    let expected: Vec<&[u8]> = vec![b"\x00z", b"a", b"ab", b"abc", b"\xff"];
    assert_eq!(contents(&c), expected);
}

#[test]
fn interleaved_inserts_and_removals() {
    let mut c = OrderStatisticTree::new();
    for v in [10u16, 20, 30, 40, 50] {
        c.insert(v);
    }
    assert!(c.remove(0));
    c.insert(25);
    assert!(c.remove(4));
    c.insert(5);
    assert_eq!(contents(&c), vec![5, 20, 25, 30, 40]);
}
