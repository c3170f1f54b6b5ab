use kb_share::client::{
    accept_reply,
    allowed_keys_message, key_state_packet, local_address, parse_keycodes, send_interval_millis,
    server_address, ClientError, KEY_STATES, REQUEST_KEYCODES, SEND_RATE,
};
use kb_share::keycodes::KeycodeTable;
use kb_share::util::{bytes_to_u16, u16_to_bytes};

fn table() -> KeycodeTable {
    KeycodeTable::new(vec![
        ("A".to_string(), 0x41),
        ("B".to_string(), 0x42),
        ("SPACE".to_string(), 0x20),
        ("LETTER_A".to_string(), 0x41),
    ])
}

#[test]
fn bytes_to_u16_reads_big_endian() {
    assert_eq!(bytes_to_u16(&[0x12, 0x34]), 0x1234);
    assert_eq!(bytes_to_u16(&[0x00, 0x41]), 0x41);
    assert_eq!(bytes_to_u16(&[0xff, 0xff, 0x07]), 0xffff);
}

#[test]
fn u16_to_bytes_writes_big_endian() {
    assert_eq!(u16_to_bytes(0x1234), [0x12, 0x34]);
    assert_eq!(u16_to_bytes(0), [0, 0]);
    assert_eq!(u16_to_bytes(0xff00), [0xff, 0x00]);
}

#[test]
fn u16_bytes_round_trip() {
    for d in 0..=u16::MAX {
        assert_eq!(bytes_to_u16(&u16_to_bytes(d)), d);
    }
    for hi in [0u8, 1, 0x7f, 0x80, 0xff] {
        for lo in [0u8, 1, 0x7f, 0x80, 0xff] {
            assert_eq!(u16_to_bytes(bytes_to_u16(&[hi, lo])), [hi, lo]);
        }
    }
}

#[test]
fn addresses_are_host_colon_port() {
    assert_eq!(local_address(5000), "127.0.0.1:5000");
    assert_eq!(local_address(0), "127.0.0.1:0");
    assert_eq!(local_address(65535), "127.0.0.1:65535");
    assert_eq!(server_address("192.168.1.20", 8080), "192.168.1.20:8080");
    assert_eq!(server_address("", 7), ":7");
    for p in [1u16, 9, 10, 99, 100, 1234, 40000] {
        assert_eq!(local_address(p), format!("127.0.0.1:{}", p));
    }
}

#[test]
fn request_and_packet_kinds() {
    assert_eq!(REQUEST_KEYCODES, 1);
    assert_eq!(KEY_STATES, 2);
    assert_eq!(SEND_RATE, 60);
    assert_eq!(send_interval_millis(), 16);
}

#[test]
fn reply_with_odd_length_is_invalid_data() {
    let t = table();
    assert_eq!(parse_keycodes(&[0x00], &t), Err(ClientError::InvalidData));
    assert_eq!(parse_keycodes(&[0x00, 0x41, 0x00], &t), Err(ClientError::InvalidData));
    assert_eq!(ClientError::InvalidData.message(), "Recieved invalid data from server");
}

#[test]
fn reply_with_unknown_code_is_invalid_keycode() {
    let t = table();
    assert_eq!(parse_keycodes(&[0x00, 0x41, 0x12, 0x34], &t), Err(ClientError::InvalidKeycode));
    assert_eq!(parse_keycodes(&[0x41, 0x00], &t), Err(ClientError::InvalidKeycode));
    assert_eq!(ClientError::InvalidKeycode.message(), "Recieved invalid keycode from server");
}

#[test]
fn reply_lists_codes_in_order() {
    let t = table();
    assert_eq!(parse_keycodes(&[], &t), Ok(vec![]));
    assert_eq!(parse_keycodes(&[0x00, 0x42, 0x00, 0x20, 0x00, 0x41], &t), Ok(vec![0x42, 0x20, 0x41]));
}

#[test]
fn reply_of_encoded_table_codes_reads_back() {
    let t = table();
    let codes: Vec<u16> = vec![0x20, 0x41, 0x41, 0x42];
    let mut msg: Vec<u8> = Vec::new();
    for c in &codes {
        msg.extend_from_slice(&u16_to_bytes(*c));
    }
    assert_eq!(parse_keycodes(&msg, &t), Ok(codes));
}

#[test]
fn allowed_keys_message_names_each_key() {
    let t = table();
    assert_eq!(allowed_keys_message(&vec![], &t), "Allowed keys: ");
    assert_eq!(allowed_keys_message(&vec![0x42], &t), "Allowed keys: B");
    assert_eq!(allowed_keys_message(&vec![0x41, 0x20, 0x42], &t), "Allowed keys: A, SPACE, B");
}

#[test]
fn key_state_packet_holds_each_key() {
    assert_eq!(key_state_packet(&vec![], &vec![]), vec![2]);
    assert_eq!(
        key_state_packet(&vec![0x41, 0x1234, 0x20], &vec![0, i16::MIN, 1]),
        vec![2, 0x00, 0x41, 0, 0x12, 0x34, 1, 0x00, 0x20, 1]
    );
}

#[test]
fn key_packet_layout() {
    let codes: Vec<u16> = vec![0x10, 0x2233, 0xffff, 0];
    let states: Vec<i16> = vec![-1, 0, 7, 0];
    let p = key_state_packet(&codes, &states);
    assert_eq!(p.len(), 1 + 3 * codes.len());
    assert_eq!(p[0], KEY_STATES);
    for i in 0..codes.len() {
        assert_eq!(bytes_to_u16(&p[1 + 3 * i..3 + 3 * i]), codes[i]);
        assert_eq!(p[3 + 3 * i], if states[i] == 0 { 0 } else { 1 });
    }
}

#[test]
fn keycode_table_lookups() {
    let t = table();
    assert_eq!(t.len(), 4);
    assert!(t.contains_name(&"SPACE".to_string()));
    assert!(!t.contains_name(&"space".to_string()));
    assert!(t.contains_code(0x42));
    assert!(!t.contains_code(0x43));
    assert_eq!(t.first_with_code(0x41), Some(0));
    assert_eq!(t.first_with_code(0x99), None);
    assert_eq!(t.name_for(0x41), "A");
    assert_eq!(t.name_at(3), "LETTER_A");
    assert_eq!(t.code_at(2), 0x20);
}

#[test]
fn accepted_reply_gives_keys_and_text() {
    let t = table();
    let (codes, text) = accept_reply(&[0x00, 0x20, 0x00, 0x41], &t).unwrap();
    assert_eq!(codes, vec![0x20, 0x41]);
    assert_eq!(text, "Allowed keys: SPACE, A");
    assert_eq!(accept_reply(&[0x00], &t).err(), Some(ClientError::InvalidData));
    assert_eq!(accept_reply(&[0x00, 0x07], &t).err(), Some(ClientError::InvalidKeycode));
}
