use listpack::Listpack;

/// Verifies varint encoding and decoding for various values.
#[test]
fn test_varint_encoding_decoding() {
    let values = [0, 1, 127, 128, 255, 16384, usize::MAX >> 1];
    for &v in &values {
        let encoded = Listpack::encode_varint(v);
        let (decoded, consumed) = Listpack::decode_varint(&encoded).unwrap();

        assert_eq!(decoded, v);
        assert_eq!(consumed, encoded.len());
    }
}

/// Test decoding of incomplete varint sequences should return None.
#[test]
fn test_decode_incomplete_varint() {
    // 0x80 means: continuation bit = 1, but there is no next byte.
    assert!(Listpack::decode_varint(&[0x80]).is_none());
    // Two bytes, but the second one also has a continuation
    assert!(Listpack::decode_varint(&[0x81, 0x80]).is_none());
}

/// Exact bytes of a two-byte varint, and the empty-input case.
#[test]
fn test_varint_exact_bytes() {
    assert_eq!(Listpack::encode_varint(0), vec![0x00]);
    assert_eq!(Listpack::encode_varint(127), vec![0x7F]);
    assert_eq!(Listpack::encode_varint(128), vec![0x80, 0x01]);
    assert_eq!(Listpack::encode_varint(300), vec![0xAC, 0x02]);
    assert_eq!(Listpack::decode_varint(&[]), None);
    assert_eq!(Listpack::decode_varint(&[0xAC, 0x02]), Some((300, 2)));
}

/// Decoding at the edge of the value range and the byte budget.
#[test]
fn test_decode_varint_limits() {
    // ten bytes carrying exactly 2^63
    let highest = [0x80, 0x80, 0x80, 0x80, 0x80, 0x80, 0x80, 0x80, 0x80, 0x01];
    assert_eq!(
        Listpack::decode_varint(&highest),
        Some((0x8000_0000_0000_0000usize, 10))
    );
    // ten bytes carrying 2^64, which no usize holds
    let too_big = [0x80, 0x80, 0x80, 0x80, 0x80, 0x80, 0x80, 0x80, 0x80, 0x02];
    assert_eq!(Listpack::decode_varint(&too_big), None);
    // an eleventh byte is never read, even for a small value
    let too_long = [
        0x80, 0x80, 0x80, 0x80, 0x80, 0x80, 0x80, 0x80, 0x80, 0x80, 0x00,
    ];
    assert_eq!(Listpack::decode_varint(&too_long), None);
    // trailing bytes beyond the first clear continuation bit are ignored
    assert_eq!(Listpack::decode_varint(&[0x05, 0xAA, 0xBB]), Some((5, 1)));
}
