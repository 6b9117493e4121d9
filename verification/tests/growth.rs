use listpack::Listpack;

/// Tests large number of push_back operations and iteration.
#[test]
fn test_large_push_and_iter() {
    let mut lp = Listpack::new();
    for i in 0..1000 {
        lp.push_back(format!("val{i}").as_bytes());
    }

    assert_eq!(lp.len(), 1000);
    assert_eq!(lp.get(0), Some(&b"val0"[..]));
    assert_eq!(lp.get(999), Some(&format!("val999").as_bytes()[..]));

    let mut values: Vec<&[u8]> = Vec::new();
    let mut it = lp.iter();
    for _ in 0..3 {
        values.push(it.next().unwrap());
    }

    assert_eq!(values, vec![b"val0", b"val1", b"val2"]);
}

/// Tests boundary lengths for varint encoding (1-, 2- and 3-byte varints).
#[test]
fn test_varint_boundary_lengths() {
    let mut lp = Listpack::new();
    let lengths = [127, 128, 128 * 2 + 5];
    for &len in &lengths {
        let data = vec![b'a'; len];
        lp.push_back(&data);

        assert_eq!(lp.get(lp.len() - 1).unwrap(), data.as_slice());
    }
}

/// Tests multiple buffer grows with many push_back calls.
#[test]
fn test_buffer_grow_multiple() {
    let mut lp = Listpack::new();
    for i in 0..2000 {
        lp.push_back(format!("v{}", i).as_bytes());
    }

    assert_eq!(lp.len(), 2000);
    assert_eq!(lp.get(1000).unwrap(), format!("v{}", 1000).as_bytes());
}

/// Tests a single very large entry (1 million bytes).
#[test]
fn test_large_single_entry() {
    let mut lp = Listpack::new();
    let big = vec![0u8; 1_000_000];

    lp.push_back(&big);

    assert_eq!(lp.len(), 1);
    assert_eq!(lp.get(0).unwrap().len(), big.len());
}

/// Test asymmetric buffer growth: many push_front in a row.
#[test]
fn test_asymetric_push_front_growth() {
    let mut lp = Listpack::new();
    // Insert 10_000 elements only in front
    for i in 0..10_000 {
        let s = format!("item{}", i);
        lp.push_front(s.as_bytes());
    }

    assert_eq!(lp.len(), 10_000);
    // The last inserted (i = 9_999) is now at position 0
    assert_eq!(lp.get(0), Some(format!("item{}", 9_999).as_bytes()));
    // And the first (i = 0) is at position 9_999
    assert_eq!(lp.get(9_999), Some(format!("item{}", 0).as_bytes()));
}

/// Test sequence integrity after multiple growth-and-center operations.
#[test]
fn test_sequence_after_multiple_growths() {
    let mut lp = Listpack::new();
    // Alternate push_back and push_front to constantly touch both ends
    for i in 0..5000 {
        let fb = format!("B{}", i);
        lp.push_back(fb.as_bytes());
        let ff = format!("F{}", i);
        lp.push_front(ff.as_bytes());
    }

    assert_eq!(lp.len(), 10_000);
    // Check a couple of positions.
    assert_eq!(lp.get(0), Some(format!("F4999").as_bytes()));
    assert_eq!(lp.get(1), Some(format!("F4998").as_bytes()));
    assert_eq!(lp.get(5000), Some(format!("B0").as_bytes()));
    assert_eq!(lp.get(9_999), Some(format!("B4999").as_bytes()));
}

/// Payload lengths whose varint header contains a byte equal to the
/// terminator value still round trip by index.
#[test]
fn test_length_with_terminator_byte_in_header() {
    let mut lp = Listpack::new();
    // 255 and 383 encode as [0xFF, 0x01] and [0xFF, 0x02]
    for &len in &[255usize, 383] {
        let data = vec![b'q'; len];
        lp.push_back(&data);
        assert_eq!(lp.get(lp.len() - 1).unwrap(), data.as_slice());
    }
    assert_eq!(lp.len(), 2);
    assert_eq!(lp.get(0).unwrap().len(), 255);
    assert_eq!(lp.get(1).unwrap().len(), 383);
    assert_eq!(lp.pop_back().unwrap().len(), 383);
    assert_eq!(lp.pop_back().unwrap().len(), 255);
}
