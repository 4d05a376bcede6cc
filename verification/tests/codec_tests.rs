use storescp::codec::{
    create_cstore_response, decode_store_request, encode_control_message, CommandValue,
    ControlMessage, DecodeError,
};

fn elem(group: u16, element: u16, value: &[u8]) -> Vec<u8> {
    let mut out = Vec::new();
    out.extend_from_slice(&group.to_le_bytes());
    out.extend_from_slice(&element.to_le_bytes());
    out.extend_from_slice(&(value.len() as u32).to_le_bytes());
    out.extend_from_slice(value);
    out
}

fn store_request_bytes(message_id: u16, class: &[u8], instance: &[u8]) -> Vec<u8> {
    let mut out = Vec::new();
    out.extend_from_slice(&elem(0x0000, 0x0002, class));
    out.extend_from_slice(&elem(0x0000, 0x0100, &1u16.to_le_bytes()));
    out.extend_from_slice(&elem(0x0000, 0x0110, &message_id.to_le_bytes()));
    out.extend_from_slice(&elem(0x0000, 0x0800, &1u16.to_le_bytes()));
    out.extend_from_slice(&elem(0x0000, 0x1000, instance));
    out
}

#[test]
fn decodes_store_request_fields() {
    let bytes = store_request_bytes(7, b"1.2.840.X\0", b"1.2.3.4\0");
    let req = decode_store_request(&bytes).expect("request should decode");
    assert_eq!(req.message_id, 7);
    assert_eq!(req.class_uid, b"1.2.840.X\0".to_vec());
    assert_eq!(req.instance_uid, b"1.2.3.4\0".to_vec());
}

#[test]
fn decode_takes_last_occurrence_of_a_tag() {
    let mut bytes = store_request_bytes(7, b"1.2.840.X\0", b"1.2.3.4\0");
    bytes.extend_from_slice(&elem(0x0000, 0x0110, &9u16.to_le_bytes()));
    let req = decode_store_request(&bytes).expect("request should decode");
    assert_eq!(req.message_id, 9);
}

#[test]
fn decode_rejects_truncated_header() {
    let bytes = vec![0x00, 0x00, 0x02, 0x00, 0x04];
    assert_eq!(decode_store_request(&bytes), Err(DecodeError::Malformed));
}

#[test]
fn decode_rejects_overlong_value_length() {
    // Header says 100 value bytes; only 2 follow.
    let mut bytes = Vec::new();
    bytes.extend_from_slice(&[0x00, 0x00, 0x02, 0x00]);
    bytes.extend_from_slice(&100u32.to_le_bytes());
    bytes.extend_from_slice(b"ab");
    assert_eq!(decode_store_request(&bytes), Err(DecodeError::Malformed));
}

#[test]
fn decode_reports_missing_message_id() {
    let mut bytes = Vec::new();
    bytes.extend_from_slice(&elem(0x0000, 0x0002, b"1.2\0"));
    bytes.extend_from_slice(&elem(0x0000, 0x1000, b"1.3\0"));
    assert_eq!(decode_store_request(&bytes), Err(DecodeError::MissingMessageId));
}

#[test]
fn decode_reports_invalid_message_id() {
    let mut bytes = Vec::new();
    bytes.extend_from_slice(&elem(0x0000, 0x0110, b"abcd"));
    assert_eq!(decode_store_request(&bytes), Err(DecodeError::InvalidMessageId));
}

#[test]
fn decode_reports_missing_class_uid() {
    let mut bytes = Vec::new();
    bytes.extend_from_slice(&elem(0x0000, 0x0110, &7u16.to_le_bytes()));
    bytes.extend_from_slice(&elem(0x0000, 0x1000, b"1.3\0"));
    assert_eq!(decode_store_request(&bytes), Err(DecodeError::MissingClassUid));
}

#[test]
fn decode_reports_missing_instance_uid() {
    let mut bytes = Vec::new();
    bytes.extend_from_slice(&elem(0x0000, 0x0110, &7u16.to_le_bytes()));
    bytes.extend_from_slice(&elem(0x0000, 0x0002, b"1.2\0"));
    assert_eq!(decode_store_request(&bytes), Err(DecodeError::MissingInstanceUid));
}

#[test]
fn decode_accepts_empty_message_as_missing_fields() {
    let bytes: Vec<u8> = Vec::new();
    assert_eq!(decode_store_request(&bytes), Err(DecodeError::MissingMessageId));
}

#[test]
fn encode_then_decode_roundtrip() {
    let msg = ControlMessage {
        elements: vec![
            storescp::codec::CommandElement {
                group: 0x0000,
                element: 0x0002,
                value: CommandValue::Uid(b"1.2.840.10008.5.1.4.1.1.7\0".to_vec()),
            },
            storescp::codec::CommandElement {
                group: 0x0000,
                element: 0x0110,
                value: CommandValue::Ushort(42),
            },
            storescp::codec::CommandElement {
                group: 0x0000,
                element: 0x1000,
                value: CommandValue::Uid(b"1.2.3.4\0".to_vec()),
            },
        ],
    };
    let bytes = encode_control_message(&msg);
    let req = decode_store_request(&bytes).expect("round trip should decode");
    assert_eq!(req.message_id, 42);
    assert_eq!(req.class_uid, b"1.2.840.10008.5.1.4.1.1.7\0".to_vec());
    assert_eq!(req.instance_uid, b"1.2.3.4\0".to_vec());
}

fn find_value(bytes: &[u8], group: u16, element: u16) -> Option<Vec<u8>> {
    let mut pos = 0usize;
    let mut found = None;
    while pos < bytes.len() {
        let g = u16::from_le_bytes([bytes[pos], bytes[pos + 1]]);
        let e = u16::from_le_bytes([bytes[pos + 2], bytes[pos + 3]]);
        let l = u32::from_le_bytes([
            bytes[pos + 4],
            bytes[pos + 5],
            bytes[pos + 6],
            bytes[pos + 7],
        ]) as usize;
        let value = bytes[pos + 8..pos + 8 + l].to_vec();
        if g == group && e == element {
            found = Some(value);
        }
        pos += 8 + l;
    }
    found
}

#[test]
fn cstore_response_carries_correlated_fields() {
    let class = b"1.2.840.X\0".to_vec();
    let instance = b"1.2.3.4\0".to_vec();
    let msg = create_cstore_response(7, &class, &instance);
    let bytes = encode_control_message(&msg);
    // group length: every field after it, each 8 header bytes plus value
    let glen = u32::from_le_bytes(
        find_value(&bytes, 0x0000, 0x0000).unwrap().try_into().unwrap(),
    );
    assert_eq!(glen, 56 + 10 + 8);
    assert_eq!(find_value(&bytes, 0x0000, 0x0002).unwrap(), class);
    assert_eq!(find_value(&bytes, 0x0000, 0x1000).unwrap(), instance);
    assert_eq!(find_value(&bytes, 0x0000, 0x0100).unwrap(), 0x8001u16.to_le_bytes().to_vec());
    assert_eq!(find_value(&bytes, 0x0000, 0x0120).unwrap(), 7u16.to_le_bytes().to_vec());
    assert_eq!(find_value(&bytes, 0x0000, 0x0800).unwrap(), 0x0101u16.to_le_bytes().to_vec());
    assert_eq!(find_value(&bytes, 0x0000, 0x0900).unwrap(), 0u16.to_le_bytes().to_vec());
    // group length equals the byte length of everything after the field
    assert_eq!(glen as usize, bytes.len() - 12);
}

#[test]
fn cstore_response_pads_odd_identifiers() {
    // odd-length identifiers are padded with one NUL on the wire,
    // and the group length counts the pad
    let class = b"1.2.840.X".to_vec();
    let instance = b"1.2.3.4".to_vec();
    let msg = create_cstore_response(9, &class, &instance);
    let bytes = encode_control_message(&msg);
    assert_eq!(find_value(&bytes, 0x0000, 0x0002).unwrap(), b"1.2.840.X\0".to_vec());
    assert_eq!(find_value(&bytes, 0x0000, 0x1000).unwrap(), b"1.2.3.4\0".to_vec());
    let glen = u32::from_le_bytes(
        find_value(&bytes, 0x0000, 0x0000).unwrap().try_into().unwrap(),
    );
    assert_eq!(glen, 56 + 10 + 8);
    assert_eq!(glen as usize, bytes.len() - 12);
    // every element's value has even length
    let mut pos = 0usize;
    while pos < bytes.len() {
        let l = u32::from_le_bytes([
            bytes[pos + 4],
            bytes[pos + 5],
            bytes[pos + 6],
            bytes[pos + 7],
        ]) as usize;
        assert_eq!(l % 2, 0);
        pos += 8 + l;
    }
}
