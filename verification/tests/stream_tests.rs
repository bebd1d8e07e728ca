use hyprhue::stream::{encode_colors, stream_key, StreamKeyError, StreamSequence};

#[test]
fn packet_has_header_and_one_entry_per_light() {
    let packet = encode_colors(5, &[1, 0x0203], 10, 20, 30);
    let mut expected = b"HueStream".to_vec();
    expected.extend_from_slice(&[1, 0, 5, 0, 0, 0, 0]);
    expected.extend_from_slice(&[0, 0, 1, 10, 10, 20, 20, 30, 30]);
    expected.extend_from_slice(&[0, 2, 3, 10, 10, 20, 20, 30, 30]);
    assert_eq!(packet, expected);
    assert_eq!(packet.len(), 16 + 9 * 2);
}

#[test]
fn packet_without_lights_is_the_header() {
    let packet = encode_colors(0, &[], 1, 2, 3);
    assert_eq!(packet, [b"HueStream".as_slice(), &[1, 0, 0, 0, 0, 0, 0]].concat());
}

#[test]
fn sequence_starts_at_zero_and_wraps() {
    let mut seq = StreamSequence::new();
    assert_eq!(seq.packet(&[7], 0, 0, 0)[11], 0);
    for _ in 0..255 {
        seq.sent();
    }
    assert_eq!(seq.sequence, 255);
    assert_eq!(seq.packet(&[7], 0, 0, 0)[11], 255);
    seq.sent();
    assert_eq!(seq.sequence, 0);
}

#[test]
fn stream_key_is_the_hex_of_the_client_key() {
    assert_eq!(stream_key("0aFF"), Ok(vec![0x0a, 0xff]));
    assert_eq!(stream_key("DEADbeef"), Ok(vec![0xde, 0xad, 0xbe, 0xef]));
    assert_eq!(stream_key(""), Ok(vec![]));
}

#[test]
fn stream_key_rejects_what_is_not_hex() {
    assert_eq!(stream_key("abc"), Err(StreamKeyError::OddLength));
    assert_eq!(stream_key("zz"), Err(StreamKeyError::InvalidCharacter { c: 'z', index: 0 }));
    assert_eq!(stream_key("0g12"), Err(StreamKeyError::InvalidCharacter { c: 'g', index: 1 }));
    assert_eq!(stream_key("12x4y6"), Err(StreamKeyError::InvalidCharacter { c: 'x', index: 2 }));
    // Non-ASCII keys fail on their UTF-8 bytes.
    assert_eq!(stream_key("é1"), Err(StreamKeyError::OddLength));
    assert_eq!(stream_key("é"), Err(StreamKeyError::InvalidCharacter { c: '\u{c3}', index: 0 }));
}
