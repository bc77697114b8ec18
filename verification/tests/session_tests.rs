use dbmask::codec::ProxyError;
use dbmask::config::{AppConfig, MaskingRule};
use dbmask::pipeline::Session;

fn enc_frame(tag: u8, payload: &[u8]) -> Vec<u8> {
    let mut out = Vec::new();
    out.push(tag);
    out.extend_from_slice(&((payload.len() as u32 + 4).to_be_bytes()));
    out.extend_from_slice(payload);
    out
}

fn dec_frames(bytes: &[u8]) -> Vec<(u8, Vec<u8>)> {
    let mut frames = Vec::new();
    let mut pos = 0usize;
    while pos < bytes.len() {
        let tag = bytes[pos];
        let len = u32::from_be_bytes([
            bytes[pos + 1],
            bytes[pos + 2],
            bytes[pos + 3],
            bytes[pos + 4],
        ]) as usize;
        let payload = bytes[pos + 5..pos + 1 + len].to_vec();
        frames.push((tag, payload));
        pos += 1 + len;
    }
    frames
}

fn desc_payload(names: &[&[u8]]) -> Vec<u8> {
    let mut out = Vec::new();
    out.extend_from_slice(&(names.len() as u16).to_be_bytes());
    for name in names {
        out.extend_from_slice(name);
        out.push(0);
        out.extend_from_slice(&0u32.to_be_bytes()); // table oid
        out.extend_from_slice(&0u16.to_be_bytes()); // column index
        out.extend_from_slice(&0u32.to_be_bytes()); // type oid
        out.extend_from_slice(&0u16.to_be_bytes()); // type length
        out.extend_from_slice(&0u32.to_be_bytes()); // type modifier
        out.extend_from_slice(&0u16.to_be_bytes()); // format code
    }
    out
}

fn row_payload(cells: &[Option<&[u8]>]) -> Vec<u8> {
    let mut out = Vec::new();
    out.extend_from_slice(&(cells.len() as u16).to_be_bytes());
    for cell in cells {
        match cell {
            None => out.extend_from_slice(&0xFFFF_FFFFu32.to_be_bytes()),
            Some(v) => {
                out.extend_from_slice(&(v.len() as u32).to_be_bytes());
                out.extend_from_slice(v);
            },
        }
    }
    out
}

fn no_rules() -> AppConfig {
    AppConfig { masking_enabled: true, rules: Vec::new(), tls: None }
}

fn one_rule(column: &str, strategy: &str) -> AppConfig {
    AppConfig {
        masking_enabled: true,
        rules: vec![MaskingRule {
            table: None,
            column: column.to_string(),
            strategy: strategy.to_string(),
        }],
        tls: None,
    }
}

/// The emitted cells of the single DataRow that follows one RowDescription.
fn run_one_row(config: AppConfig, names: &[&[u8]], cells: &[Option<&[u8]>]) -> Vec<Option<Vec<u8>>> {
    let mut session = Session::new_intercepting(config);
    let mut input = enc_frame(b'T', &desc_payload(names));
    input.extend_from_slice(&enc_frame(b'D', &row_payload(cells)));
    let out = session.process_chunk(&input).unwrap();
    let frames = dec_frames(&out);
    assert_eq!(frames.len(), 2);
    assert_eq!(frames[0].0, b'T');
    assert_eq!(frames[1].0, b'D');
    let payload = &frames[1].1;
    let n = u16::from_be_bytes([payload[0], payload[1]]) as usize;
    let mut cells_out = Vec::new();
    let mut pos = 2usize;
    for _ in 0..n {
        let raw = u32::from_be_bytes([
            payload[pos],
            payload[pos + 1],
            payload[pos + 2],
            payload[pos + 3],
        ]);
        pos += 4;
        if raw == 0xFFFF_FFFF {
            cells_out.push(None);
        } else {
            let len = raw as usize;
            cells_out.push(Some(payload[pos..pos + len].to_vec()));
            pos += len;
        }
    }
    assert_eq!(pos, payload.len());
    cells_out
}

#[test]
fn scenario_scanner_email() {
    let cells = run_one_row(no_rules(), &[b"col"], &[Some(b"test@example.com")]);
    let out = cells[0].as_ref().unwrap();
    assert_ne!(out, &b"test@example.com".to_vec());
    assert_eq!(out.iter().filter(|b| **b == b'@').count(), 1);
}

#[test]
fn scenario_scanner_non_pii() {
    let cells = run_one_row(no_rules(), &[b"col"], &[Some(b"some data")]);
    assert_eq!(cells[0].as_ref().unwrap(), &b"some data".to_vec());
}

#[test]
fn scenario_rule_override() {
    let cells = run_one_row(
        one_rule("email_col", "address"),
        &[b"email_col"],
        &[Some(b"test@example.com")],
    );
    let out = cells[0].as_ref().unwrap();
    assert!(!out.contains(&b'@'));
}

#[test]
fn scenario_credit_card_heuristic() {
    let cells = run_one_row(no_rules(), &[b"col"], &[Some(b"1234-5678-9012-3456")]);
    let out = cells[0].as_ref().unwrap();
    assert_ne!(out, &b"1234-5678-9012-3456".to_vec());
    assert_eq!(out.len(), 19);
    for (i, b) in out.iter().enumerate() {
        if i == 4 || i == 9 || i == 14 {
            assert_eq!(*b, b'-');
        } else {
            assert!(b.is_ascii_digit());
        }
    }
}

#[test]
fn scenario_null_cell() {
    let cells = run_one_row(one_rule("c", "email"), &[b"c"], &[None]);
    assert_eq!(cells[0], None);
}

#[test]
fn scenario_chunked_framing() {
    let mut input = enc_frame(b'T', &desc_payload(&[b"c"]));
    input.extend_from_slice(&enc_frame(b'D', &row_payload(&[Some(b"hello")])));

    let mut whole = Session::new_intercepting(no_rules());
    let out_whole = whole.process_chunk(&input).unwrap();

    let mut chunked = Session::new_intercepting(no_rules());
    let mut out_chunked = Vec::new();
    for b in &input {
        out_chunked.extend_from_slice(&chunked.process_chunk(&[*b]).unwrap());
    }

    assert_eq!(out_whole, out_chunked);
    assert_eq!(dec_frames(&out_whole), dec_frames(&out_chunked));
    assert_eq!(dec_frames(&out_whole).len(), 2);
}

#[test]
fn passthrough_direction_keeps_bytes() {
    // The client-to-server direction forwards everything verbatim,
    // beginning with the untagged startup frame.
    let mut startup = Vec::new();
    startup.extend_from_slice(&12u32.to_be_bytes());
    startup.extend_from_slice(b"\x00\x03\x00\x00user");
    let mut input = startup;
    input.extend_from_slice(&enc_frame(b'Q', b"select 1\x00"));

    let mut session = Session::new_passthrough();
    let mut out = Vec::new();
    for chunk in input.chunks(3) {
        out.extend_from_slice(&session.process_chunk(chunk).unwrap());
    }
    assert_eq!(out, input);
    session.finish().unwrap();
}

#[test]
fn passthrough_equivalence_when_disabled() {
    // With no rules and the scanner disabled, the intercepting direction
    // emits exactly what came in.
    let config = AppConfig { masking_enabled: false, rules: Vec::new(), tls: None };
    let mut input = enc_frame(b'T', &desc_payload(&[b"a", b"b"]));
    input.extend_from_slice(&enc_frame(
        b'D',
        &row_payload(&[Some(b"test@example.com"), None]),
    ));
    input.extend_from_slice(&enc_frame(b'Z', b"I"));

    let mut session = Session::new_intercepting(config);
    let out = session.process_chunk(&input).unwrap();
    assert_eq!(out, input);
}

#[test]
fn opaque_frames_pass_through_interception() {
    let mut input = enc_frame(b'C', b"SELECT 1\x00");
    input.extend_from_slice(&enc_frame(b'Z', b"I"));
    let mut session = Session::new_intercepting(no_rules());
    let out = session.process_chunk(&input).unwrap();
    assert_eq!(out, input);
}

#[test]
fn error_malformed_length() {
    // A declared length below 4 is malformed.
    let mut session = Session::new_intercepting(no_rules());
    let input = [b'D', 0, 0, 0, 3, 9, 9, 9];
    assert_eq!(session.process_chunk(&input), Err(ProxyError::MalformedFrame));
}

#[test]
fn error_unexpected_eof() {
    let mut session = Session::new_intercepting(no_rules());
    let input = enc_frame(b'D', &row_payload(&[Some(b"x")]));
    session.process_chunk(&input[..3]).unwrap();
    assert_eq!(session.finish(), Err(ProxyError::UnexpectedEof));
}

#[test]
fn error_data_row_without_description() {
    let mut session = Session::new_intercepting(no_rules());
    let input = enc_frame(b'D', &row_payload(&[Some(b"x")]));
    assert_eq!(session.process_chunk(&input), Err(ProxyError::ProtocolViolation));
}

#[test]
fn error_cell_count_mismatch() {
    let mut session = Session::new_intercepting(no_rules());
    let mut input = enc_frame(b'T', &desc_payload(&[b"a", b"b"]));
    input.extend_from_slice(&enc_frame(b'D', &row_payload(&[Some(b"x")])));
    assert_eq!(session.process_chunk(&input), Err(ProxyError::ProtocolViolation));
}

#[test]
fn error_malformed_row_payload() {
    // A DataRow whose payload does not hold the declared cells.
    let mut session = Session::new_intercepting(no_rules());
    let mut input = enc_frame(b'T', &desc_payload(&[b"a"]));
    input.extend_from_slice(&enc_frame(b'D', &[0, 1, 0, 0, 0, 99]));
    assert_eq!(session.process_chunk(&input), Err(ProxyError::MalformedFrame));
}

#[test]
fn masked_cells_counter_grows() {
    let mut session = Session::new_intercepting(no_rules());
    assert_eq!(session.masked_cells_total(), 0);
    let mut input = enc_frame(b'T', &desc_payload(&[b"a", b"b"]));
    input.extend_from_slice(&enc_frame(
        b'D',
        &row_payload(&[Some(b"test@example.com"), Some(b"plain")]),
    ));
    session.process_chunk(&input).unwrap();
    assert_eq!(session.masked_cells_total(), 1);
}

#[test]
fn column_count_is_preserved() {
    let cells = run_one_row(
        no_rules(),
        &[b"a", b"b", b"c"],
        &[Some(b"test@example.com"), None, Some(b"data")],
    );
    assert_eq!(cells.len(), 3);
}

#[test]
fn new_description_rebinds_rules() {
    // The second RowDescription replaces the first binding.
    let config = one_rule("secret", "mask");
    let mut session = Session::new_intercepting(config);
    let mut input = enc_frame(b'T', &desc_payload(&[b"secret"]));
    input.extend_from_slice(&enc_frame(b'D', &row_payload(&[Some(b"abc")])));
    input.extend_from_slice(&enc_frame(b'T', &desc_payload(&[b"open"])));
    input.extend_from_slice(&enc_frame(b'D', &row_payload(&[Some(b"abc")])));
    let out = session.process_chunk(&input).unwrap();
    let frames = dec_frames(&out);
    assert_eq!(frames.len(), 4);
    let first_row = &frames[1].1;
    let second_row = &frames[3].1;
    assert_eq!(&first_row[6..], b"MASKED");
    assert_eq!(&second_row[6..], b"abc");
}
