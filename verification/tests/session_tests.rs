use storescp::pdu::{Channel, Pdu, PduItem};
use storescp::session::{
    Action, PresentationContext, Session, SessionError, SessionState,
};

const IVRLE: &str = "1.2.840.10008.1.2";

fn context(id: u8, ts: &str) -> PresentationContext {
    PresentationContext {
        id,
        object_type: "1.2.840.10008.5.1.4.1.1.7".to_string(),
        data_encoding: ts.to_string(),
    }
}

fn item(context_id: u8, channel: Channel, is_terminal: bool, payload: &[u8]) -> PduItem {
    PduItem { context_id, channel, is_terminal, payload: payload.to_vec() }
}

fn elem(group: u16, element: u16, value: &[u8]) -> Vec<u8> {
    let mut out = Vec::new();
    out.extend_from_slice(&group.to_le_bytes());
    out.extend_from_slice(&element.to_le_bytes());
    out.extend_from_slice(&(value.len() as u32).to_le_bytes());
    out.extend_from_slice(value);
    out
}

fn store_request_bytes(message_id: u16, class: &[u8], instance: &[u8]) -> Vec<u8> {
    let mut out = Vec::new();
    out.extend_from_slice(&elem(0x0000, 0x0002, class));
    out.extend_from_slice(&elem(0x0000, 0x0100, &1u16.to_le_bytes()));
    out.extend_from_slice(&elem(0x0000, 0x0110, &message_id.to_le_bytes()));
    out.extend_from_slice(&elem(0x0000, 0x0800, &1u16.to_le_bytes()));
    out.extend_from_slice(&elem(0x0000, 0x1000, instance));
    out
}

/// A minimal Implicit VR Little Endian object bearing its own class
/// and instance identifiers.
fn object_bytes(class: &[u8], instance: &[u8]) -> Vec<u8> {
    let mut out = Vec::new();
    out.extend_from_slice(&elem(0x0008, 0x0016, class));
    out.extend_from_slice(&elem(0x0008, 0x0018, instance));
    out
}

fn find_value(bytes: &[u8], group: u16, element: u16) -> Option<Vec<u8>> {
    let mut pos = 0usize;
    let mut found = None;
    while pos < bytes.len() {
        let g = u16::from_le_bytes([bytes[pos], bytes[pos + 1]]);
        let e = u16::from_le_bytes([bytes[pos + 2], bytes[pos + 3]]);
        let l = u32::from_le_bytes([
            bytes[pos + 4],
            bytes[pos + 5],
            bytes[pos + 6],
            bytes[pos + 7],
        ]) as usize;
        let value = bytes[pos + 8..pos + 8 + l].to_vec();
        if g == group && e == element {
            found = Some(value);
        }
        pos += 8 + l;
    }
    found
}

#[test]
fn end_to_end_store_and_acknowledge() {
    let mut session = Session::new(vec![context(1, IVRLE)]);

    // command message: store request, message id 7
    let cmd = store_request_bytes(7, b"1.2.840.X\0", b"1.2.3.4\0");
    let actions = session
        .handle_pdu(&Pdu::BulkData(vec![item(1, Channel::Command, true, &cmd)]))
        .expect("command should be accepted");
    assert!(actions.is_empty());

    // object split over two data units, terminal only on the last
    let obj = object_bytes(b"1.2.840.X\0", b"1.2.3.4\0");
    let (first, second) = obj.split_at(obj.len() / 2);
    let actions = session
        .handle_pdu(&Pdu::BulkData(vec![item(1, Channel::Data, false, first)]))
        .expect("fragment should be accepted");
    assert!(actions.is_empty());
    let actions = session
        .handle_pdu(&Pdu::BulkData(vec![item(1, Channel::Data, true, second)]))
        .expect("store should succeed");

    assert_eq!(actions.len(), 2);
    match &actions[0] {
        Action::Persist { class_uid, instance_uid, data_encoding, file_name, .. } => {
            assert_eq!(file_name, "1.2.3.4.dcm");
            assert_eq!(data_encoding, IVRLE);
            assert_eq!(class_uid.trim_end_matches('\0'), "1.2.840.X");
            assert_eq!(instance_uid.trim_end_matches('\0'), "1.2.3.4");
        },
        _ => panic!("first action must persist the object"),
    }
    match &actions[1] {
        Action::SendCommand { context_id, bytes } => {
            assert_eq!(*context_id, 1);
            assert_eq!(
                find_value(bytes, 0x0000, 0x0120).unwrap(),
                7u16.to_le_bytes().to_vec()
            );
            assert_eq!(find_value(bytes, 0x0000, 0x0002).unwrap(), b"1.2.840.X\0".to_vec());
            assert_eq!(find_value(bytes, 0x0000, 0x1000).unwrap(), b"1.2.3.4\0".to_vec());
            assert_eq!(
                find_value(bytes, 0x0000, 0x0900).unwrap(),
                0u16.to_le_bytes().to_vec()
            );
            assert_eq!(
                find_value(bytes, 0x0000, 0x0800).unwrap(),
                0x0101u16.to_le_bytes().to_vec()
            );
            assert_eq!(
                find_value(bytes, 0x0000, 0x0100).unwrap(),
                0x8001u16.to_le_bytes().to_vec()
            );
        },
        _ => panic!("second action must send the acknowledgement"),
    }
    assert_eq!(session.state, SessionState::AwaitPdu);
}

#[test]
fn multi_item_unit_is_processed_item_by_item() {
    let mut session = Session::new(vec![context(1, IVRLE)]);
    let cmd = store_request_bytes(5, b"1.2.840.X\0", b"1.9.9.9\0");
    let (a, b) = cmd.split_at(cmd.len() / 2);
    // one unit carrying both the continuation and the terminal item
    let actions = session
        .handle_pdu(&Pdu::BulkData(vec![
            item(1, Channel::Command, false, a),
            item(1, Channel::Command, true, b),
        ]))
        .expect("both items must be fed");
    assert!(actions.is_empty());
    // the captured request is visible in the next acknowledgement
    let obj = object_bytes(b"1.2.840.X\0", b"1.9.9.9\0");
    let actions = session
        .handle_pdu(&Pdu::BulkData(vec![item(1, Channel::Data, true, &obj)]))
        .expect("store should succeed");
    match &actions[1] {
        Action::SendCommand { bytes, .. } => {
            assert_eq!(
                find_value(bytes, 0x0000, 0x0120).unwrap(),
                5u16.to_le_bytes().to_vec()
            );
            assert_eq!(find_value(bytes, 0x0000, 0x1000).unwrap(), b"1.9.9.9\0".to_vec());
        },
        _ => panic!("second action must send the acknowledgement"),
    }
}

#[test]
fn malformed_data_message_aborts_without_response() {
    let mut session = Session::new(vec![context(1, IVRLE)]);
    let cmd = store_request_bytes(7, b"1.2.840.X\0", b"1.2.3.4\0");
    session
        .handle_pdu(&Pdu::BulkData(vec![item(1, Channel::Command, true, &cmd)]))
        .expect("command should be accepted");
    // bytes that cannot decode under the negotiated encoding:
    // a truncated element header
    let garbage = vec![0x08u8, 0x00, 0x16, 0x00, 0xff, 0xff, 0xff];
    let err = session
        .handle_pdu(&Pdu::BulkData(vec![item(1, Channel::Data, true, &garbage)]))
        .expect_err("malformed object must be fatal");
    assert_eq!(err, SessionError::ObjectDecode);
    assert_eq!(session.state, SessionState::Aborted);
}

#[test]
fn unknown_context_is_fatal() {
    let mut session = Session::new(vec![context(1, IVRLE)]);
    let obj = object_bytes(b"1.2\0", b"1.3\0");
    let err = session
        .handle_pdu(&Pdu::BulkData(vec![item(9, Channel::Data, true, &obj)]))
        .expect_err("unknown context must be fatal");
    assert_eq!(err, SessionError::UnknownContext);
    assert_eq!(session.state, SessionState::Aborted);
}

#[test]
fn command_decode_failure_is_fatal() {
    let mut session = Session::new(vec![context(1, IVRLE)]);
    let err = session
        .handle_pdu(&Pdu::BulkData(vec![item(1, Channel::Command, true, b"bad")]))
        .expect_err("malformed command must be fatal");
    assert_eq!(
        err,
        SessionError::CommandDecode(storescp::codec::DecodeError::Malformed)
    );
    assert_eq!(session.state, SessionState::Aborted);
}

#[test]
fn object_without_identity_is_fatal() {
    let mut session = Session::new(vec![context(1, IVRLE)]);
    // an empty data set decodes but carries no identifiers
    let err = session
        .handle_pdu(&Pdu::BulkData(vec![item(1, Channel::Data, true, b"")]))
        .expect_err("object without identifiers must be fatal");
    assert_eq!(err, SessionError::MissingIdentity);
    assert_eq!(session.state, SessionState::Aborted);
}

#[test]
fn release_request_is_answered_and_terminal() {
    let mut session = Session::new(vec![context(1, IVRLE)]);
    let actions = session.handle_pdu(&Pdu::ReleaseRequest).expect("release is clean");
    assert_eq!(actions.len(), 1);
    assert!(matches!(actions[0], Action::SendReleaseResponse));
    assert_eq!(session.state, SessionState::Released);
}

#[test]
fn empty_bulk_data_unit_is_ignored() {
    let mut session = Session::new(vec![context(1, IVRLE)]);
    let actions = session.handle_pdu(&Pdu::BulkData(Vec::new())).expect("empty unit is a no-op");
    assert!(actions.is_empty());
    assert_eq!(session.state, SessionState::AwaitPdu);
}

#[test]
fn other_units_are_ignored() {
    let mut session = Session::new(vec![context(1, IVRLE)]);
    let actions = session.handle_pdu(&Pdu::Other).expect("unknown units are ignored");
    assert!(actions.is_empty());
    assert_eq!(session.state, SessionState::AwaitPdu);
}

#[test]
fn transport_end_is_quiet_and_terminal() {
    let mut session = Session::new(vec![context(1, IVRLE)]);
    session.note_transport_closed();
    assert_eq!(session.state, SessionState::Closed);
    let mut session2 = Session::new(vec![context(1, IVRLE)]);
    session2.note_transport_error();
    assert_eq!(session2.state, SessionState::Aborted);
}

#[test]
fn command_channel_decodes_under_fixed_encoding_whatever_was_negotiated() {
    // negotiate an explicit-VR encoding for the data channel; the
    // command channel still decodes under the fixed sub-encoding
    let mut session = Session::new(vec![context(1, "1.2.840.10008.1.2.1")]);
    let cmd = store_request_bytes(3, b"1.2.840.X\0", b"1.2.3.4\0");
    let actions = session
        .handle_pdu(&Pdu::BulkData(vec![item(1, Channel::Command, true, &cmd)]))
        .expect("command decodes under the fixed sub-encoding");
    assert!(actions.is_empty());
    assert_eq!(session.state, SessionState::AwaitPdu);
}

#[test]
fn repeated_store_of_same_instance_names_the_same_file() {
    let mut session = Session::new(vec![context(1, IVRLE)]);
    let cmd = store_request_bytes(7, b"1.2.840.X\0", b"1.2.3.4\0");
    let obj1 = object_bytes(b"1.2.840.X\0", b"1.2.3.4\0");
    let mut obj2 = object_bytes(b"1.2.840.X\0", b"1.2.3.4\0");
    obj2.extend_from_slice(&elem(0x0008, 0x0080, b"PAYLOAD DIFFERS\0"));

    let mut names = Vec::new();
    for obj in [&obj1, &obj2] {
        session
            .handle_pdu(&Pdu::BulkData(vec![item(1, Channel::Command, true, &cmd)]))
            .expect("command should be accepted");
        let actions = session
            .handle_pdu(&Pdu::BulkData(vec![item(1, Channel::Data, true, obj)]))
            .expect("store should succeed");
        match &actions[0] {
            Action::Persist { file_name, .. } => names.push(file_name.clone()),
            _ => panic!("first action must persist the object"),
        }
    }
    assert_eq!(names[0], names[1]);
    assert_eq!(names[0], "1.2.3.4.dcm");
}

#[test]
fn file_is_named_by_the_object_not_the_command() {
    // the command's claimed instance identifier may legitimately
    // differ from the object's own; the file takes the object's,
    // while the acknowledgement echoes the command's
    let mut session = Session::new(vec![context(1, IVRLE)]);
    let cmd = store_request_bytes(7, b"1.2.840.X\0", b"1.2.3.4\0");
    session
        .handle_pdu(&Pdu::BulkData(vec![item(1, Channel::Command, true, &cmd)]))
        .expect("command should be accepted");
    let obj = object_bytes(b"1.2.840.X\0", b"9.9.9.9\0");
    let actions = session
        .handle_pdu(&Pdu::BulkData(vec![item(1, Channel::Data, true, &obj)]))
        .expect("store should succeed");
    match &actions[0] {
        Action::Persist { file_name, instance_uid, .. } => {
            assert_eq!(instance_uid.trim_end_matches('\0'), "9.9.9.9");
            assert_eq!(file_name, "9.9.9.9.dcm");
        },
        _ => panic!("first action must persist the object"),
    }
    match &actions[1] {
        Action::SendCommand { bytes, .. } => {
            assert_eq!(find_value(bytes, 0x0000, 0x1000).unwrap(), b"1.2.3.4\0".to_vec());
        },
        _ => panic!("second action must send the acknowledgement"),
    }
}
