use mesos_client::codec::{decode_all, decode_one, encode_frame, CodecError, Decoded, FrameDecoder};

#[test]
fn round_trip_nonempty() {
    let payload: Vec<u8> = vec![1, 2, 3];
    let encoded = encode_frame(&payload);
    assert_eq!(encoded, b"3\n\x01\x02\x03".to_vec());
    let (decoded, next) = decode_one(&encoded, 0, true);
    match decoded {
        Decoded::Frame(p) => assert_eq!(p, payload),
        other => panic!("expected a frame, got {:?}", other),
    }
    assert_eq!(next, encoded.len());
    let (tail, _) = decode_one(&encoded, next, true);
    assert!(matches!(tail, Decoded::End));
}

#[test]
fn round_trip_empty_payload() {
    let payload: Vec<u8> = Vec::new();
    let encoded = encode_frame(&payload);
    assert_eq!(encoded, b"0\n".to_vec());
    let (decoded, next) = decode_one(&encoded, 0, true);
    match decoded {
        Decoded::Frame(p) => assert!(p.is_empty()),
        other => panic!("expected a frame, got {:?}", other),
    }
    assert_eq!(next, 2);
}

#[test]
fn round_trip_larger_payload() {
    let payload: Vec<u8> = (0..250u8).collect();
    let encoded = encode_frame(&payload);
    assert_eq!(&encoded[..4], b"250\n");
    let (decoded, next) = decode_one(&encoded, 0, true);
    match decoded {
        Decoded::Frame(p) => assert_eq!(p, payload),
        other => panic!("expected a frame, got {:?}", other),
    }
    assert_eq!(next, encoded.len());
}

#[test]
fn truncated_input_fails() {
    let input = b"5\nab".to_vec();
    let (decoded, next) = decode_one(&input, 0, true);
    assert!(matches!(decoded, Decoded::Fail(CodecError::Truncated)));
    assert_eq!(next, input.len());
}

#[test]
fn short_input_waits_before_eof() {
    let input = b"5\nab".to_vec();
    let (decoded, next) = decode_one(&input, 0, false);
    assert!(matches!(decoded, Decoded::NeedMore));
    assert_eq!(next, 0);
}

#[test]
fn non_decimal_length_line_fails() {
    let input = b"abc\n2\nhi".to_vec();
    let (decoded, next) = decode_one(&input, 0, true);
    assert!(matches!(decoded, Decoded::Fail(CodecError::Framing)));
    // exactly the bad line is consumed; the next frame still decodes
    assert_eq!(next, 4);
    let (decoded, next) = decode_one(&input, next, true);
    match decoded {
        Decoded::Frame(p) => assert_eq!(p, b"hi".to_vec()),
        other => panic!("expected a frame, got {:?}", other),
    }
    assert_eq!(next, input.len());
}

#[test]
fn empty_length_line_fails() {
    let input = b"\nx".to_vec();
    let (decoded, next) = decode_one(&input, 0, true);
    assert!(matches!(decoded, Decoded::Fail(CodecError::Framing)));
    assert_eq!(next, 1);
}

#[test]
fn missing_length_line_fails() {
    let input = b"123".to_vec();
    let (decoded, next) = decode_one(&input, 0, true);
    assert!(matches!(decoded, Decoded::Fail(CodecError::Framing)));
    assert_eq!(next, 3);
}

#[test]
fn oversized_length_line_fails() {
    let input = b"99999999999999999999999\nx".to_vec();
    let (decoded, next) = decode_one(&input, 0, true);
    assert!(matches!(decoded, Decoded::Fail(CodecError::Framing)));
    assert_eq!(next, 24);
}

#[test]
fn carriage_return_before_line_feed_is_accepted() {
    let input = b"2\r\nhi".to_vec();
    let (decoded, next) = decode_one(&input, 0, true);
    match decoded {
        Decoded::Frame(p) => assert_eq!(p, b"hi".to_vec()),
        other => panic!("expected a frame, got {:?}", other),
    }
    assert_eq!(next, input.len());
}

#[test]
fn decode_all_continues_after_malformed_frame() {
    let mut input = encode_frame(&b"one".to_vec());
    input.extend_from_slice(b"bad\n");
    input.extend_from_slice(&encode_frame(&b"two".to_vec()));
    let items = decode_all(&input);
    assert_eq!(items.len(), 3);
    match &items[0] {
        Decoded::Frame(p) => assert_eq!(p, &b"one".to_vec()),
        other => panic!("expected a frame, got {:?}", other),
    }
    assert!(matches!(items[1], Decoded::Fail(CodecError::Framing)));
    match &items[2] {
        Decoded::Frame(p) => assert_eq!(p, &b"two".to_vec()),
        other => panic!("expected a frame, got {:?}", other),
    }
}

#[test]
fn decode_all_stops_after_truncation() {
    let input = b"3\nab".to_vec();
    let items = decode_all(&input);
    assert_eq!(items.len(), 1);
    assert!(matches!(items[0], Decoded::Fail(CodecError::Truncated)));
}

#[test]
fn frame_decoder_reassembles_across_chunks() {
    let mut decoder = FrameDecoder::new();
    decoder.push_chunk(b"3\na");
    assert!(matches!(decoder.next_item(false), Decoded::NeedMore));
    decoder.push_chunk(b"bc2\n");
    match decoder.next_item(false) {
        Decoded::Frame(p) => assert_eq!(p, b"abc".to_vec()),
        other => panic!("expected a frame, got {:?}", other),
    }
    assert!(matches!(decoder.next_item(false), Decoded::NeedMore));
    decoder.push_chunk(b"hi");
    match decoder.next_item(false) {
        Decoded::Frame(p) => assert_eq!(p, b"hi".to_vec()),
        other => panic!("expected a frame, got {:?}", other),
    }
    assert!(matches!(decoder.next_item(true), Decoded::End));
}
