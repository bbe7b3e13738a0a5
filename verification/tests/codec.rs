use bebop::SubRecord;
use redis_game::message::{DecodeError, GameMessage, KeyValue};

fn kv(key: &str, value: i64) -> KeyValue {
    KeyValue { key: key.to_string(), value }
}

/// The bytes of a list as the `bebop` runtime writes its parts.
fn runtime_list(tag: u8, pairs: &[(&str, i64)]) -> Vec<u8> {
    let mut out = vec![tag];
    bebop::write_len(&mut out, pairs.len()).unwrap();
    for (key, value) in pairs {
        key._serialize_chained(&mut out).unwrap();
        value._serialize_chained(&mut out).unwrap();
    }
    out
}

fn framed(body: Vec<u8>) -> Vec<u8> {
    let mut out = Vec::new();
    bebop::write_len(&mut out, body.len()).unwrap();
    out.extend(body);
    out
}

#[test]
fn empty_message_is_a_length_and_a_closing_byte() {
    let bytes = GameMessage::default().encode().unwrap();
    assert_eq!(bytes, vec![1, 0, 0, 0, 0]);
    assert_eq!(GameMessage::decode(&bytes), Ok(GameMessage::default()));
}

#[test]
fn snapshot_bytes_are_exact() {
    let message =
        GameMessage { updates: Some(vec![kv("Al", 10_000)]), clicks: None, clear: Some(true) };
    let bytes = message.encode().unwrap();
    let expected: Vec<u8> = vec![
        22, 0, 0, 0, // body length
        1, // updates
        1, 0, 0, 0, // one pair
        2, 0, 0, 0, b'A', b'l', // key
        0x10, 0x27, 0, 0, 0, 0, 0, 0, // 10000
        3, 1, // clear = true
        0,
    ];
    assert_eq!(bytes, expected);
    assert_eq!(GameMessage::decode(&bytes), Ok(message));
}

#[test]
fn negative_values_are_twos_complement() {
    let message = GameMessage { updates: None, clicks: Some(vec![kv("A", -10_000)]), clear: None };
    let bytes = message.encode().unwrap();
    let expected: Vec<u8> = vec![
        19, 0, 0, 0, 2, 1, 0, 0, 0, 1, 0, 0, 0, b'A', 0xf0, 0xd8, 0xff, 0xff, 0xff, 0xff, 0xff,
        0xff, 0,
    ];
    assert_eq!(bytes, expected);
    assert_eq!(GameMessage::decode(&bytes), Ok(message));
}

#[test]
fn encoding_matches_the_runtime_primitives() {
    let message = GameMessage {
        updates: Some(vec![kv("Alice", 3), kv("Zoë", i64::MIN)]),
        clicks: Some(vec![kv("", i64::MAX)]),
        clear: Some(false),
    };
    let mut body = runtime_list(1, &[("Alice", 3), ("Zoë", i64::MIN)]);
    body.extend(runtime_list(2, &[("", i64::MAX)]));
    body.extend([3, 0, 0]);
    assert_eq!(message.encode().unwrap(), framed(body));
}

#[test]
fn decoding_undoes_encoding() {
    let messages = vec![
        GameMessage::default(),
        GameMessage { updates: Some(vec![]), clicks: None, clear: None },
        GameMessage { updates: None, clicks: Some(vec![]), clear: None },
        GameMessage { updates: None, clicks: None, clear: Some(false) },
        GameMessage {
            updates: Some(vec![kv("Bob", -1), kv("Bob", 2), kv("日本語", 0)]),
            clicks: Some(vec![kv("Alice", -10_000)]),
            clear: Some(true),
        },
    ];
    for message in messages {
        let mut bytes = message.encode().unwrap();
        assert_eq!(GameMessage::decode(&bytes), Ok(message.clone()));
        bytes.extend([9, 9, 9]);
        assert_eq!(GameMessage::decode(&bytes), Ok(message));
    }
}

#[test]
fn absent_fields_stay_absent() {
    let bytes = GameMessage::default().encode().unwrap();
    let back = GameMessage::decode(&bytes).unwrap();
    assert_eq!(back.updates, None);
    assert_eq!(back.clicks, None);
    assert_eq!(back.clear, None);
    let present = GameMessage { updates: Some(vec![]), clicks: Some(vec![]), clear: Some(false) };
    let back = GameMessage::decode(&present.encode().unwrap()).unwrap();
    assert_eq!(back.updates, Some(vec![]));
    assert_eq!(back.clicks, Some(vec![]));
    assert_eq!(back.clear, Some(false));
}

#[test]
fn truncated_bytes_are_rejected() {
    assert_eq!(GameMessage::decode(&[]), Err(DecodeError::Truncated));
    assert_eq!(GameMessage::decode(&[1, 0, 0]), Err(DecodeError::Truncated));
    // the body is announced longer than it is
    assert_eq!(GameMessage::decode(&[5, 0, 0, 0, 0]), Err(DecodeError::Truncated));
    // a list that announces a pair it does not hold
    assert_eq!(GameMessage::decode(&framed(vec![1, 1, 0, 0, 0])), Err(DecodeError::Truncated));
    // a key longer than the body
    assert_eq!(
        GameMessage::decode(&framed(vec![2, 1, 0, 0, 0, 200, 0, 0, 0, b'A'])),
        Err(DecodeError::Truncated)
    );
    // a key without its value
    assert_eq!(
        GameMessage::decode(&framed(vec![2, 1, 0, 0, 0, 1, 0, 0, 0, b'A', 1, 2, 3])),
        Err(DecodeError::Truncated)
    );
    // the clear tag without its byte
    assert_eq!(GameMessage::decode(&framed(vec![3])), Err(DecodeError::Truncated));
    // a huge count must fail, not allocate
    assert_eq!(
        GameMessage::decode(&framed(vec![1, 0xff, 0xff, 0xff, 0xff, 0])),
        Err(DecodeError::Truncated)
    );
}

#[test]
fn bytes_after_the_closing_byte_are_corrupt() {
    assert_eq!(GameMessage::decode(&framed(vec![0, 0])), Err(DecodeError::Corrupt));
    assert_eq!(GameMessage::decode(&framed(vec![3, 1, 0, 3, 1])), Err(DecodeError::Corrupt));
}

#[test]
fn fields_out_of_order_are_corrupt() {
    let mut body = runtime_list(2, &[("A", 1)]);
    body.extend(runtime_list(1, &[("A", 1)]));
    body.push(0);
    assert_eq!(GameMessage::decode(&framed(body)), Err(DecodeError::Corrupt));
    let mut body = vec![3, 1];
    body.extend(runtime_list(2, &[]));
    body.push(0);
    assert_eq!(GameMessage::decode(&framed(body)), Err(DecodeError::Corrupt));
}

#[test]
fn a_field_twice_is_rejected() {
    let mut body = runtime_list(1, &[("A", 1)]);
    body.extend(runtime_list(1, &[("B", 2)]));
    body.push(0);
    assert_eq!(GameMessage::decode(&framed(body)), Err(DecodeError::DuplicateField));
    let mut body = runtime_list(2, &[]);
    body.extend(runtime_list(2, &[]));
    assert_eq!(GameMessage::decode(&framed(body)), Err(DecodeError::DuplicateField));
    assert_eq!(GameMessage::decode(&framed(vec![3, 0, 3, 1, 0])), Err(DecodeError::DuplicateField));
}

#[test]
fn a_key_that_is_not_utf8_is_rejected() {
    let body = vec![2, 1, 0, 0, 0, 2, 0, 0, 0, 0xff, 0xfe, 0, 0, 0, 0, 0, 0, 0, 0, 0];
    assert_eq!(GameMessage::decode(&framed(body)), Err(DecodeError::InvalidUtf8));
}

#[test]
fn an_unknown_tag_skips_the_rest_of_the_body() {
    let mut body = runtime_list(2, &[("A", 7)]);
    body.extend([9, 1, 2, 3, 4]);
    let decoded = GameMessage::decode(&framed(body)).unwrap();
    assert_eq!(decoded, GameMessage { updates: None, clicks: Some(vec![kv("A", 7)]), clear: None });
}

#[test]
fn a_body_may_end_without_the_closing_byte() {
    let decoded = GameMessage::decode(&framed(vec![3, 2])).unwrap();
    assert_eq!(decoded.clear, Some(true));
}

#[test]
fn any_nonzero_byte_is_a_set_flag() {
    assert_eq!(GameMessage::decode(&framed(vec![3, 0, 0])).unwrap().clear, Some(false));
    assert_eq!(GameMessage::decode(&framed(vec![3, 255, 0])).unwrap().clear, Some(true));
}
