use listpack::Listpack;

/// Tests removal of a middle element and integrity of remaining data.
#[test]
fn test_remove_middle() {
    let mut lp = Listpack::new();
    lp.push_back(b"a");
    lp.push_back(b"b");
    lp.push_back(b"c");

    assert_eq!(lp.remove(1), true);
    assert_eq!(lp.len(), 2);
    assert_eq!(lp.get(0), Some(&b"a"[..]));
    assert_eq!(lp.get(1), Some(&b"c"[..]));
}

/// Tests removal of the first element updates head correctly.
#[test]
fn test_remove_first() {
    let mut lp = Listpack::new();
    lp.push_back(b"x");
    lp.push_back(b"y");

    assert_eq!(lp.remove(0), true);
    assert_eq!(lp.get(0), Some(&b"y"[..]));
}

/// Ensures remove returns 0 when index is out of bounds.
#[test]
fn test_remove_out_of_bounds() {
    let mut lp = Listpack::new();
    lp.push_back(b"a");

    assert_eq!(lp.remove(5), false);
    assert_eq!(lp.len(), 1);
}

/// Tests removing the last element and reinserting.
#[test]
fn test_remove_last_and_reinsert() {
    let mut lp = Listpack::new();

    lp.push_back(b"end");

    assert_eq!(lp.remove(0), true);
    assert!(lp.is_empty());

    lp.push_front(b"new");

    assert_eq!(lp.get(0), Some(&b"new"[..]));
}

/// Tests pop operations from both ends of the list.
#[test]
fn test_pop_front_and_pop_back() {
    let mut lp = Listpack::new();

    lp.push_back(b"a");
    lp.push_back(b"b");
    lp.push_back(b"c");

    assert_eq!(lp.pop_front(), Some(b"a".to_vec()));
    assert_eq!(lp.len(), 2);
    assert_eq!(lp.pop_back(), Some(b"c".to_vec()));
    assert_eq!(lp.len(), 1);
    assert_eq!(lp.pop_front(), Some(b"b".to_vec()));
    assert!(lp.is_empty());
    assert_eq!(lp.pop_back(), None);
}

/// A removal drops exactly one element and keeps the others in order.
#[test]
fn test_remove_keeps_relative_order() {
    let mut lp = Listpack::new();
    lp.push_back(b"one");
    lp.push_back(b"two");
    lp.push_back(b"three");
    lp.push_back(b"four");
    lp.push_back(b"five");

    assert_eq!(lp.remove(2), true);
    assert_eq!(lp.len(), 4);
    assert_eq!(lp.get(0), Some(&b"one"[..]));
    assert_eq!(lp.get(1), Some(&b"two"[..]));
    assert_eq!(lp.get(2), Some(&b"four"[..]));
    assert_eq!(lp.get(3), Some(&b"five"[..]));

    assert_eq!(lp.remove(4), false);
    assert_eq!(lp.len(), 4);
}
