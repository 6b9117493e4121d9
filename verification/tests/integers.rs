use listpack::Listpack;

#[test]
fn test_push_and_decode_integer() {
    let mut lp = Listpack::new();

    // values spanning every payload width
    let values = [
        0i64,
        1i64,
        -1i64,
        127i64,
        -128i64,
        32767i64,
        -32768i64,
        8388607i64,
        -8388608i64,
        2147483647i64,
        -2147483648i64,
        i64::MAX,
        i64::MIN,
    ];

    for &v in &values {
        assert!(lp.push_integer(v), "failed to push {}", v);
    }

    for (i, &expected) in values.iter().enumerate() {
        let data = lp.get(i).unwrap();
        let decoded = lp.decode_integer(data).unwrap();
        assert_eq!(decoded, expected, "failed at idx {}", i);
    }
}

#[test]
fn test_integer_edge_cases() {
    let mut lp = Listpack::new();

    // boundary values of each encoding width
    let edge_cases = [
        i8::MIN as i64,
        i8::MAX as i64,
        i16::MIN as i64,
        i16::MAX as i64,
        -(1 << 23),
        (1 << 23) - 1,
        i32::MIN as i64,
        i32::MAX as i64,
        i64::MIN,
        i64::MAX,
    ];

    for &v in &edge_cases {
        assert!(lp.push_integer(v), "failed to push {}", v);
    }

    for (i, &expected) in edge_cases.iter().enumerate() {
        let data = lp.get(i).unwrap();
        let decoded = lp.decode_integer(data).unwrap();
        assert_eq!(decoded, expected, "failed for value {}", expected);
    }
}

#[test]
fn test_mixed_push_and_pop_integer_and_string() {
    let mut lp = Listpack::new();

    assert!(lp.push_integer(42));
    assert!(lp.push_back(b"hello"));
    assert!(lp.push_integer(-123));
    assert!(lp.push_back(b"world"));

    assert_eq!(lp.decode_integer(lp.get(0).unwrap()).unwrap(), 42);
    assert_eq!(lp.get(1).unwrap(), b"hello");
    assert_eq!(lp.decode_integer(lp.get(2).unwrap()).unwrap(), -123);
    assert_eq!(lp.get(3).unwrap(), b"world");

    let last = lp.pop_back().unwrap();
    assert_eq!(last, b"world");

    let third = lp.pop_back().unwrap();
    assert_eq!(lp.decode_integer(&third).unwrap(), -123);

    let second = lp.pop_back().unwrap();
    assert_eq!(second, b"hello");

    let first = lp.pop_back().unwrap();
    assert_eq!(lp.decode_integer(&first).unwrap(), 42);
}

/// A small negative value is stored with the 8-bit tag.
#[test]
fn test_minus_one_uses_int8_tag() {
    let mut lp = Listpack::new();
    assert!(lp.push_integer(-1));

    let data = lp.get(0).unwrap();
    assert_eq!(data, &[0x01, 0xFF][..]);
    assert_eq!(lp.decode_integer(data), Some(-1));
}

/// Exact encoded bytes for one value of each width.
#[test]
fn test_integer_exact_bytes() {
    let mut lp = Listpack::new();
    lp.push_integer(5);
    lp.push_integer(300);
    lp.push_integer(-8388608);
    lp.push_integer(65536 * 1024);
    lp.push_integer(i64::MIN);

    assert_eq!(lp.get(0).unwrap(), &[0x01, 0x05][..]);
    assert_eq!(lp.get(1).unwrap(), &[0x02, 0x2C, 0x01][..]);
    assert_eq!(lp.get(2).unwrap(), &[0x03, 0x00, 0x00, 0x80][..]);
    assert_eq!(lp.get(3).unwrap(), &[0x04, 0x00, 0x00, 0x00, 0x04][..]);
    assert_eq!(
        lp.get(4).unwrap(),
        &[0x05, 0x00, 0x00, 0x00, 0x00, 0x00, 0x00, 0x00, 0x80][..]
    );
}

/// Truncated, unknown-tagged, and empty payloads decode to nothing.
#[test]
fn test_decode_integer_malformed() {
    let lp = Listpack::new();

    assert_eq!(lp.decode_integer(&[]), None);
    assert_eq!(lp.decode_integer(&[0x01]), None);
    assert_eq!(lp.decode_integer(&[0x02, 0x01]), None);
    assert_eq!(lp.decode_integer(&[0x03, 0x01, 0x02]), None);
    assert_eq!(lp.decode_integer(&[0x04, 0x01, 0x02, 0x03]), None);
    assert_eq!(
        lp.decode_integer(&[0x05, 0x01, 0x02, 0x03, 0x04, 0x05, 0x06, 0x07]),
        None
    );
    assert_eq!(lp.decode_integer(&[0x00, 0x01]), None);
    assert_eq!(lp.decode_integer(&[0x06, 0x01, 0x02]), None);
    assert_eq!(lp.decode_integer(&[0xFF]), None);
}
