use listpack::Listpack;

/// Verifies that a newly created Listpack is empty.
#[test]
fn test_new_is_empty() {
    let lp = Listpack::new();

    assert!(lp.is_empty());
    assert_eq!(lp.len(), 0);
}

/// Tests push_back and get for correct ordering and retrieval.
#[test]
fn test_push_back_and_get() {
    let mut lp = Listpack::new();
    lp.push_back(b"foo");
    lp.push_back(b"bar");

    assert!(!lp.is_empty());
    assert_eq!(lp.len(), 2);
    assert_eq!(lp.get(0), Some(&b"foo"[..]));
    assert_eq!(lp.get(1), Some(&b"bar"[..]));
    assert_eq!(lp.get(2), None);
}

/// Tests push_front to ensure elements are prepended correctly.
#[test]
fn test_push_front_and_order() {
    let mut lp = Listpack::new();
    lp.push_front(b"foo");
    lp.push_front(b"bar");

    assert_eq!(lp.len(), 2);
    assert_eq!(lp.get(0), Some(&b"bar"[..]));
    assert_eq!(lp.get(1), Some(&b"foo"[..]));
}

/// Tests iterator over multiple elements in correct order.
#[test]
fn test_iterates_correctly() {
    let mut lp = Listpack::new();
    for &v in &[&b"x"[..], &b"y"[..], &b"z"[..]] {
        lp.push_back(v);
    }
    let mut collected: Vec<&[u8]> = Vec::new();
    let mut it = lp.iter();
    while let Some(v) = it.next() {
        collected.push(v);
    }
    assert_eq!(collected, vec![&b"x"[..], &b"y"[..], &b"z"[..]]);
}

/// Tests behavior on empty list for get and remove.
#[test]
fn test_empty_get_and_remove() {
    let lp = Listpack::new();
    assert_eq!(lp.get(0), None);

    let mut lp2 = Listpack::new();
    assert_eq!(lp2.remove(0), false);
}

/// Tests zero-length entries (empty byte slices).
#[test]
fn test_zero_length_entries() {
    let mut lp = Listpack::new();
    lp.push_back(b"");
    lp.push_front(b"");

    assert_eq!(lp.len(), 2);
    assert_eq!(lp.get(0), Some(&b""[..]));
    assert_eq!(lp.get(1), Some(&b""[..]));
}

/// Tests the Default trait implementation.
#[test]
fn test_default_trait() {
    let lp: Listpack = Default::default();

    assert!(lp.is_empty());
}

/// Tests front and back against the first and last entries.
#[test]
fn test_front_and_back() {
    let mut lp = Listpack::new();
    assert_eq!(lp.front(), None);
    assert_eq!(lp.back(), None);

    lp.push_back(b"first");
    lp.push_back(b"middle");
    lp.push_back(b"last");

    assert_eq!(lp.front(), Some(&b"first"[..]));
    assert_eq!(lp.back(), Some(&b"last"[..]));
}

/// A cleared list behaves like a freshly constructed one.
#[test]
fn test_clear_then_push_like_new() {
    let mut cleared = Listpack::new();
    cleared.push_back(b"old");
    cleared.push_back(b"data");
    cleared.clear();

    assert!(cleared.is_empty());
    assert_eq!(cleared.len(), 0);
    assert_eq!(cleared.get(0), None);

    let mut fresh = Listpack::new();
    cleared.push_back(b"x");
    fresh.push_back(b"x");
    cleared.push_front(b"y");
    fresh.push_front(b"y");

    assert_eq!(cleared.len(), fresh.len());
    assert_eq!(cleared.get(0), fresh.get(0));
    assert_eq!(cleared.get(1), fresh.get(1));
    assert_eq!(cleared.get(0), Some(&b"y"[..]));
    assert_eq!(cleared.get(1), Some(&b"x"[..]));
}

/// Traversal from the back yields the entries in reverse order, and the
/// two ends of one iterator never overlap.
#[test]
fn test_iter_from_both_ends() {
    let mut lp = Listpack::new();
    lp.push_back(b"a");
    lp.push_back(b"b");
    lp.push_back(b"c");

    let mut it = lp.iter();
    assert_eq!(it.next_back(), Some(&b"c"[..]));
    assert_eq!(it.next(), Some(&b"a"[..]));
    assert_eq!(it.next_back(), Some(&b"b"[..]));
    assert_eq!(it.next(), None);
    assert_eq!(it.next_back(), None);
}
