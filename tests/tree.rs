use order_statistic_tree::{Container, OrderStatisticTree};

#[test]
fn zero_size() {
    let c = OrderStatisticTree::<u8>::new();
    assert_eq!(c.size(), 0usize);
}

#[test]
fn one_size_add_one() {
    let mut c = OrderStatisticTree::new();
    c.insert(0u8);
    assert_eq!(c.size(), 1usize);
}

#[test]
fn zero_size_add_remove_one() {
    let mut c = OrderStatisticTree::new();
    c.insert(0u8);
    c.remove(0);
    assert_eq!(
        c.size(),
        0usize,
        "test inserting and removing from container"
    );
}

#[test]
fn add_multiple_data_items() {
    let mut c = OrderStatisticTree::new();
    for _ in 0..10 {
        c.insert(0u8);
    }
    assert_eq!(
        c.size(),
        10usize,
        "test multiple inserting to the container"
    );
}

#[test]
fn add_multiple_data_items_remove_all_from_back() {
    let mut c = OrderStatisticTree::new();
    for _ in 0..10 {
        c.insert(0u8);
    }
    for i in (0..10).into_iter().rev() {
        c.remove(i);
    }
    assert_eq!(
        c.size(),
        0usize,
        "test multiple removing from the container from back"
    );
}

#[test]
fn add_multiple_data_items_remove_all_from_front() {
    let mut c = OrderStatisticTree::new();
    for _ in 0..10 {
        c.insert(0u8);
    }
    for _ in 0..10 {
        c.remove(0);
    }
    assert_eq!(
        c.size(),
        0usize,
        "test multiple removing from the container from front"
    );
}

#[test]
fn add_multiple_data_items_in_direct_get_test_indices() {
    let mut c = OrderStatisticTree::new();
    for i in 0..10 {
        c.insert(i);
    }

    for i in 0..10 {
        assert_eq!(c.get(i), Some(i));
    }
}

#[test]
fn add_multiple_data_items_in_reverse_get_test_indices() {
    let mut c = OrderStatisticTree::new();
    for i in (0..10).into_iter().rev() {
        c.insert(i);
    }

    for i in 0..10 {
        assert_eq!(c.get(i), Some(i));
    }
}

#[test]
fn add_multiple_data_items_in_zig_zag_get_test_indices() {
    let mut c = OrderStatisticTree::new();
    for i in (0..5).chain((5..10).into_iter().rev()) {
        c.insert(i);
    }

    for i in 0..10 {
        assert_eq!(c.get(i), Some(i));
    }
}

#[test]
fn add_multiple_data_items_in_btree_mode_get_test_indices() {
    let mut c = OrderStatisticTree::new();
    for i in [5, 3, 7, 1, 4, 6, 8, 0, 2, 9] {
        c.insert(i);
    }

    for i in 0..10 {
        assert_eq!(c.get(i), Some(i));
    }
}

#[test]
fn add_multiple_chars_in_btree_mode_get_test_indices() {
    let mut c = OrderStatisticTree::new();
    for i in ['e', 'c', 'i', 'b', 'd', 'f', 'j', 'a', 'g'] {
        c.insert(i);
    }

    for (ch, i) in ['a', 'b', 'c', 'd', 'e', 'f', 'g', 'i', 'j']
        .into_iter()
        .zip((0..10).into_iter())
    {
        assert_eq!(c.get(i), Some(ch));
    }
}

#[test]
fn add_multiple_string_in_btree_mode_get_test_indices() {
    let mut c = OrderStatisticTree::new();
    for i in ["e", "c", "i", "b", "d", "f", "j", "a", "g"] {
        c.insert(i);
    }

    for (ch, i) in ["a", "b", "c", "d", "e", "f", "g", "i", "j"]
        .into_iter()
        .zip((0..10).into_iter())
    {
        assert_eq!(c.get(i), Some(ch));
    }
}

#[test]
fn add_multiple_cyrillic_string_in_btree_mode_get_test_indices() {
    let mut c = OrderStatisticTree::new();
    for i in ["д", "в", "и", "б", "г", "е", "к", "а", "ж"] {
        c.insert(i);
    }

    for (ch, i) in ["а", "б", "в", "г", "д", "е", "ж", "и", "к"]
        .into_iter()
        .zip((0..10).into_iter())
    {
        assert_eq!(c.get(i), Some(ch));
    }
}
