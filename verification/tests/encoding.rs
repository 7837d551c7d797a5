use secret_chat::service::message::Message;
use secret_chat::utility::bytes::{compare_bytes, u128_from_be, u128_to_be, u64_from_le, u64_to_le, ByteOrder};
use secret_chat::utility::decimal::{decimal_of, parse_u128, u128_to_string, zero_padded_of};

fn message(send: &str, recv: &str, content: &str) -> Message {
    Message { send: send.to_string(), recv: recv.to_string(), content: content.to_string() }
}

#[test]
fn message_bytes_are_bincode_layout() {
    let m = message("user0", "user1", "hello");
    let expected = bincode::serialize(&(
        "user0".to_string(),
        "user1".to_string(),
        "hello".to_string(),
    ))
    .unwrap();
    assert_eq!(m.to_bytes(), expected);
}

#[test]
fn message_bytes_exact_value() {
    let m = message("a", "", "é");
    assert_eq!(
        m.to_bytes(),
        vec![1, 0, 0, 0, 0, 0, 0, 0, b'a', 0, 0, 0, 0, 0, 0, 0, 0, 2, 0, 0, 0, 0, 0, 0, 0, 0xc3, 0xa9]
    );
}

#[test]
fn message_round_trip() {
    let m = message("user1", "user0", "world ✓");
    let back = Message::from_bytes(m.to_bytes());
    assert_eq!(back, m);
}

#[test]
fn message_decode_reads_bincode_output() {
    let bytes = bincode::serialize(&("x".to_string(), "y".to_string(), "z".to_string())).unwrap();
    assert_eq!(Message::decode(&bytes), Some(message("x", "y", "z")));
}

#[test]
fn message_decode_ignores_trailing_bytes() {
    let mut bytes = message("s", "r", "c").to_bytes();
    bytes.push(7);
    assert_eq!(Message::decode(&bytes), Some(message("s", "r", "c")));
}

#[test]
fn message_decode_refuses_short_or_bad_input() {
    let bytes = message("s", "r", "c").to_bytes();
    assert_eq!(Message::decode(&bytes[..bytes.len() - 1]), None);
    assert_eq!(Message::decode(&[]), None);
    let mut bad = message("s", "r", "c").to_bytes();
    bad[8] = 0xff;
    assert_eq!(Message::decode(&bad), None);
    let huge = vec![0xff; 8];
    assert_eq!(Message::decode(&huge), None);
}

#[test]
fn decimal_text() {
    assert_eq!(decimal_of(0), b"0".to_vec());
    assert_eq!(decimal_of(1234), b"1234".to_vec());
    assert_eq!(u128_to_string(4), "4");
    assert_eq!(u128_to_string(u128::MAX), u128::MAX.to_string());
}

#[test]
fn zero_padded_matches_format() {
    for n in [0u128, 7, 42, 999_999, 1_000_000, 123_456_789] {
        assert_eq!(zero_padded_of(n, 6), format!("{:06}", n).into_bytes());
    }
    assert_eq!(zero_padded_of(5, 6), b"000005".to_vec());
}

#[test]
fn parse_matches_std() {
    for text in ["0", "1", "+5", "007", "340282366920938463463374607431768211455",
        "340282366920938463463374607431768211456", "", "+", "-1", "1a", " 1", "99999999999999999999999999999999999999999"] {
        assert_eq!(parse_u128(text.as_bytes()), text.parse::<u128>().ok(), "{}", text);
    }
}

#[test]
fn next_since_parses_back() {
    for n in [0u128, 9, 10, 5_000, u128::MAX] {
        let text = u128_to_string(n);
        assert_eq!(parse_u128(text.as_bytes()), Some(n));
    }
}

#[test]
fn counters_big_endian() {
    assert_eq!(u128_to_be(1), 1u128.to_be_bytes().to_vec());
    assert_eq!(u128_to_be(0x0102), {
        let mut v = vec![0u8; 14];
        v.push(1);
        v.push(2);
        v
    });
    for n in [0u128, 1, 255, 256, u128::MAX] {
        assert_eq!(u128_from_be(&u128_to_be(n)), n);
        assert_eq!(u128_from_be(&n.to_be_bytes()), n);
    }
}

#[test]
fn lengths_little_endian() {
    assert_eq!(u64_to_le(0x0102), vec![2, 1, 0, 0, 0, 0, 0, 0]);
    let bytes = [9u8, 5, 0, 0, 0, 0, 0, 0, 0, 1];
    assert_eq!(u64_from_le(&bytes, 1), 5);
    assert_eq!(u64_from_le(&u64_to_le(u64::MAX), 0), u64::MAX);
}

#[test]
fn byte_order() {
    assert!(matches!(compare_bytes(b"a", b"b"), ByteOrder::Less));
    assert!(matches!(compare_bytes(b"ab", b"a"), ByteOrder::Greater));
    assert!(matches!(compare_bytes(b"", b""), ByteOrder::Equal));
    assert!(matches!(compare_bytes(b"000009", b"000010"), ByteOrder::Less));
    assert!(matches!(compare_bytes(b"1000000", b"999999"), ByteOrder::Less));
}
