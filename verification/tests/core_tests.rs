use dbmask::codec::{encode_frame, Decoder, Frame, ProxyError};
use dbmask::config::default_masking_enabled;
use dbmask::faker::fnv1a64_hash;
use dbmask::health::HealthStatus;
use dbmask::msg::{classify, encode_data_row, parse_data_row, parse_row_description, DataRow, Message};
use dbmask::wire::{push_be16, push_be32, read_be16, read_be32};

#[test]
fn wire_big_endian_round_trip() {
    let mut out = Vec::new();
    push_be32(&mut out, 0x0102_0304);
    push_be16(&mut out, 0x0506);
    assert_eq!(out, vec![1, 2, 3, 4, 5, 6]);
    assert_eq!(read_be32(out[0], out[1], out[2], out[3]), 0x0102_0304);
    assert_eq!(read_be16(out[4], out[5]), 0x0506);
}

#[test]
fn decoder_reassembles_split_frames() {
    let mut decoder = Decoder::new(false);
    let mut bytes = vec![b'X', 0, 0, 0, 7, 10, 11, 12];
    bytes.extend_from_slice(&[b'Y', 0, 0, 0, 4]);
    for chunk in bytes.chunks(2) {
        decoder.feed(chunk);
    }
    let first = decoder.next_frame().unwrap().unwrap();
    assert_eq!(first.tag, Some(b'X'));
    assert_eq!(first.payload, vec![10, 11, 12]);
    let second = decoder.next_frame().unwrap().unwrap();
    assert_eq!(second.tag, Some(b'Y'));
    assert_eq!(second.payload, Vec::<u8>::new());
    assert_eq!(decoder.next_frame().unwrap(), None);
    assert!(decoder.buffer_is_empty());
}

#[test]
fn decoder_untagged_first_frame() {
    let mut decoder = Decoder::new(true);
    decoder.feed(&[0, 0, 0, 6, 7, 8]);
    decoder.feed(&[b'Q', 0, 0, 0, 5, 9]);
    let startup = decoder.next_frame().unwrap().unwrap();
    assert_eq!(startup.tag, None);
    assert_eq!(startup.payload, vec![7, 8]);
    let tagged = decoder.next_frame().unwrap().unwrap();
    assert_eq!(tagged.tag, Some(b'Q'));
    assert_eq!(tagged.payload, vec![9]);
}

#[test]
fn decoder_rejects_bad_length() {
    let mut decoder = Decoder::new(false);
    decoder.feed(&[b'X', 0, 0, 0, 2]);
    assert_eq!(decoder.next_frame(), Err(ProxyError::MalformedFrame));
}

#[test]
fn decoder_respects_frame_ceiling() {
    let mut decoder = Decoder::with_max_frame(false, 16);
    decoder.feed(&[b'X', 0, 0, 0, 17]);
    assert_eq!(decoder.next_frame(), Err(ProxyError::MalformedFrame));
}

#[test]
fn encode_recomputes_length() {
    let frame = Frame { tag: Some(b'D'), payload: vec![1, 2, 3] };
    let mut out = Vec::new();
    encode_frame(&mut out, &frame);
    assert_eq!(out, vec![b'D', 0, 0, 0, 7, 1, 2, 3]);
}

#[test]
fn decoded_frames_reencode_byte_identically() {
    let mut input = vec![b'A', 0, 0, 0, 6, 1, 2];
    input.extend_from_slice(&[b'B', 0, 0, 0, 4]);
    let mut decoder = Decoder::new(false);
    decoder.feed(&input);
    let mut out = Vec::new();
    while let Some(frame) = decoder.next_frame().unwrap() {
        encode_frame(&mut out, &frame);
    }
    assert_eq!(out, input);
}

#[test]
fn row_description_parses_fields() {
    let mut payload = vec![0u8, 2];
    for name in [b"id".as_slice(), b"email".as_slice()] {
        payload.extend_from_slice(name);
        payload.push(0);
        payload.extend_from_slice(&1u32.to_be_bytes());
        payload.extend_from_slice(&2u16.to_be_bytes());
        payload.extend_from_slice(&3u32.to_be_bytes());
        payload.extend_from_slice(&0xFFFFu16.to_be_bytes()); // type length -1
        payload.extend_from_slice(&4u32.to_be_bytes());
        payload.extend_from_slice(&1u16.to_be_bytes());
    }
    let desc = parse_row_description(&payload).unwrap();
    assert_eq!(desc.fields.len(), 2);
    assert_eq!(desc.fields[0].name, b"id".to_vec());
    assert_eq!(desc.fields[1].name, b"email".to_vec());
    assert_eq!(desc.fields[0].table_oid, 1);
    assert_eq!(desc.fields[0].column_index, 2);
    assert_eq!(desc.fields[0].type_oid, 3);
    assert_eq!(desc.fields[0].type_len, -1);
    assert_eq!(desc.fields[0].type_modifier, 4);
    assert_eq!(desc.fields[0].format_code, 1);
}

#[test]
fn row_description_rejects_trailing_bytes() {
    let payload = vec![0u8, 0, 9];
    assert!(parse_row_description(&payload).is_none());
}

#[test]
fn data_row_parse_and_encode_are_inverse() {
    let mut payload = vec![0u8, 3];
    payload.extend_from_slice(&2u32.to_be_bytes());
    payload.extend_from_slice(b"hi");
    payload.extend_from_slice(&0xFFFF_FFFFu32.to_be_bytes());
    payload.extend_from_slice(&0u32.to_be_bytes());
    let row = parse_data_row(&payload).unwrap();
    assert_eq!(row.values.len(), 3);
    assert_eq!(row.values[0], Some(b"hi".to_vec()));
    assert_eq!(row.values[1], None);
    assert_eq!(row.values[2], Some(Vec::new()));
    let mut out = Vec::new();
    encode_data_row(&mut out, &row);
    assert_eq!(out, payload);
}

#[test]
fn data_row_rejects_short_cell() {
    let mut payload = vec![0u8, 1];
    payload.extend_from_slice(&5u32.to_be_bytes());
    payload.extend_from_slice(b"hi");
    assert!(parse_data_row(&payload).is_none());
}

#[test]
fn encode_changed_cells_recomputes_lengths() {
    let row = DataRow { values: vec![Some(b"abcdef".to_vec()), None] };
    let mut out = Vec::new();
    encode_data_row(&mut out, &row);
    let mut expected = vec![0u8, 2];
    expected.extend_from_slice(&6u32.to_be_bytes());
    expected.extend_from_slice(b"abcdef");
    expected.extend_from_slice(&0xFFFF_FFFFu32.to_be_bytes());
    assert_eq!(out, expected);
}

#[test]
fn fnv1a64_known_values() {
    // Reference values of FNV-1a 64.
    assert_eq!(fnv1a64_hash(b""), 0xcbf29ce484222325);
    assert_eq!(fnv1a64_hash(b"a"), 0xaf63dc4c8601ec8c);
    assert_eq!(fnv1a64_hash(b"foobar"), 0x85944171f73967e8);
}

#[test]
fn masking_is_on_by_default() {
    assert!(default_masking_enabled());
}

#[test]
fn health_default_is_healthy() {
    let status = HealthStatus::default();
    assert!(status.healthy);
    assert_eq!(status.consecutive_failures, 0);
    assert_eq!(status.consecutive_successes, 0);
    assert_eq!(status.last_check, None);
    assert_eq!(status.last_error, None);
    assert_eq!(status.latency_ms, None);
}

#[test]
fn health_flips_after_threshold_failures() {
    let mut status = HealthStatus::default();
    status.update(false, 1, Some(5), Some("refused".to_string()), 3, 1);
    assert!(status.healthy);
    status.update(false, 2, None, Some("refused".to_string()), 3, 1);
    assert!(status.healthy);
    status.update(false, 3, None, Some("refused".to_string()), 3, 1);
    assert!(!status.healthy);
    assert_eq!(status.consecutive_failures, 3);
    assert_eq!(status.last_check, Some(3));
    assert_eq!(status.last_error, Some("refused".to_string()));
    status.update(true, 4, Some(1), None, 3, 1);
    assert!(status.healthy);
    assert_eq!(status.consecutive_failures, 0);
    assert_eq!(status.last_error, None);
    assert!(status.is_healthy());
}

#[test]
fn classify_sorts_frames() {
    let desc = Frame { tag: Some(b'T'), payload: vec![0, 0] };
    match classify(desc).unwrap() {
        Message::RowDescription(d) => assert_eq!(d.fields.len(), 0),
        _ => panic!("expected a RowDescription"),
    }
    let row = Frame { tag: Some(b'D'), payload: vec![0, 0] };
    match classify(row).unwrap() {
        Message::DataRow(d) => assert_eq!(d.values.len(), 0),
        _ => panic!("expected a DataRow"),
    }
    let other = Frame { tag: Some(b'Z'), payload: vec![1, 2, 3] };
    match classify(other).unwrap() {
        Message::Opaque(f) => {
            assert_eq!(f.tag, Some(b'Z'));
            assert_eq!(f.payload, vec![1, 2, 3]);
        },
        _ => panic!("expected an opaque frame"),
    }
    let bad = Frame { tag: Some(b'D'), payload: vec![0, 1, 0, 0, 0, 9] };
    match classify(bad) {
        Err(e) => assert_eq!(e, ProxyError::MalformedFrame),
        Ok(_) => panic!("expected an error"),
    }
}
