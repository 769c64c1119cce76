use rust_lin::adapt::{from_message, prepare_send, relay_error, to_message, to_sequenced_message};
use rust_lin::error::Error;
use rust_lin::frame::{ChecksumType, Frame};
use rust_lin::relay::{self, Message, Meta, Protocol, Version};

fn message_with_id(id: &str, payload: Vec<u8>) -> Message {
    Message {
        protocol: Protocol::Lin,
        version: Version::default(),
        id: id.to_string(),
        payload,
        timestamp_us: 0,
        seq: 0,
        meta: Meta::new(),
    }
}

#[test]
fn to_message_roundtrip_enhanced() {
    let f = Frame { id: 0x10, data: vec![0xAA, 0x55], checksum: 0xBE, checksum_type: ChecksumType::Enhanced };
    let msg = to_message(&f);
    assert_eq!(msg.id, "16");
    assert_eq!(msg.meta.get("lin.checksum_type").unwrap(), "enhanced");
    assert_eq!(msg.meta.get("lin.checksum").unwrap(), "190");
    assert_eq!(msg.payload, vec![0xAA, 0x55]);

    let f2 = from_message(&msg).unwrap();
    assert_eq!(f2.id, f.id);
    assert_eq!(f2.checksum_type, f.checksum_type);
    assert_eq!(f2.checksum, f.checksum);
    assert_eq!(f2.data, f.data);
}

#[test]
fn to_message_roundtrip_classic() {
    let f = Frame { id: 0x3C, data: vec![0x01], checksum: 0xFE, checksum_type: ChecksumType::Classic };
    let msg = to_message(&f);
    assert_eq!(msg.meta.get("lin.checksum_type").unwrap(), "classic");
    let f2 = from_message(&msg).unwrap();
    assert_eq!(f2.checksum_type, ChecksumType::Classic);
}

#[test]
fn from_message_invalid_id() {
    let msg = message_with_id("not_a_number", vec![]);
    assert!(matches!(from_message(&msg), Err(Error::InvalidFrame { .. })));
}

#[test]
fn from_message_id_overflow() {
    let msg = message_with_id("64", vec![0x01]);
    assert!(matches!(from_message(&msg), Err(Error::InvalidFrame { .. })));
}

#[test]
fn to_message_from_message_roundtrip() {
    let original = Frame {
        id: 0x10,
        data: vec![0xAA, 0x55, 0x66],
        checksum: 0xBE,
        checksum_type: ChecksumType::Enhanced,
    };
    let msg = to_message(&original);
    assert_eq!(msg.protocol, Protocol::Lin);
    assert_eq!(msg.id, "16");

    let recovered = from_message(&msg).unwrap();
    assert_eq!(recovered.id, original.id);
    assert_eq!(recovered.checksum_type, original.checksum_type);
    assert_eq!(recovered.checksum, original.checksum);
    assert_eq!(recovered.data, original.data);
}

#[test]
fn convert_valid_frame_produces_message() {
    let frame = Frame { id: 0x10, data: vec![0x01, 0x02, 0x03], checksum: 0xE9, checksum_type: ChecksumType::Enhanced };
    rust_lin::validate_frame(&frame).expect("frame must be valid before convert");
    let msg = to_message(&frame);
    assert_eq!(msg.protocol, Protocol::Lin);
    assert_eq!(msg.id, "16");
    assert_eq!(msg.payload, vec![0x01, 0x02, 0x03]);
}

#[test]
fn sec_from_message_rejects_non_lin_protocol() {
    let msg = Message::new(Protocol::Can, "16", vec![0x01, 0x02]);
    let err = from_message(&msg);
    assert!(err.is_err(), "from_message must reject Protocol::Can messages");
    assert!(matches!(err.unwrap_err(), rust_lin::Error::InvalidFrame { .. }));

    let msg_lin = Message::new(Protocol::Lin, "16", vec![0x01, 0x02]);
    assert!(from_message(&msg_lin).is_ok());
}

#[test]
fn adapt_from_message_protocol_and_id_validation() {
    let frame = Frame { id: 0x10, data: vec![1, 2], checksum: 0xAB, checksum_type: ChecksumType::Enhanced };
    let msg = rust_lin::to_message(&frame);
    assert_eq!(msg.protocol, Protocol::Lin, "to_message must set Protocol::Lin");

    let bad_proto = Message::new(Protocol::Can, "16", vec![1, 2]);
    assert!(from_message(&bad_proto).is_err(), "from_message must reject Protocol::Can");

    let bad_id = Message::new(Protocol::Lin, "64", vec![1, 2]);
    assert!(from_message(&bad_id).is_err(), "from_message must reject id=64");

    let bad_str = Message::new(Protocol::Lin, "not_a_number", vec![1]);
    assert!(from_message(&bad_str).is_err(), "from_message must reject non-numeric id");
}

#[test]
fn from_message_reasons_name_the_problem() {
    let can = Message::new(Protocol::Can, "16", vec![1]);
    assert_eq!(
        from_message(&can).unwrap_err().to_string(),
        "lin: invalid frame: protocol Can is not LIN (expected Protocol::Lin = 3)"
    );
    let bad = message_with_id("x1", vec![1]);
    assert_eq!(from_message(&bad).unwrap_err().to_string(), "lin: invalid frame: invalid LIN ID: 'x1'");
    let high = message_with_id("200", vec![1]);
    assert_eq!(
        from_message(&high).unwrap_err().to_string(),
        "lin: invalid frame: LIN ID 200 exceeds maximum 63"
    );
    let long = message_with_id("16", vec![0; 9]);
    assert_eq!(
        from_message(&long).unwrap_err().to_string(),
        "lin: invalid frame: LIN payload length 9 exceeds maximum 8"
    );
    let full = message_with_id("16", vec![0; 8]);
    assert!(from_message(&full).is_ok());
}

#[test]
fn from_message_defaults_without_metadata() {
    let m = message_with_id("+5", vec![9, 8]);
    let f = from_message(&m).unwrap();
    assert_eq!(f.id, 5);
    assert_eq!(f.checksum, 0);
    assert_eq!(f.checksum_type, ChecksumType::Classic);
    assert_eq!(f.data, vec![9, 8]);
}

#[test]
fn from_message_reads_metadata_exactly() {
    let mut m = message_with_id("7", vec![1]);
    m.meta.insert("lin.checksum_type".to_string(), "Enhanced".to_string());
    m.meta.insert("lin.checksum".to_string(), "256".to_string());
    let f = from_message(&m).unwrap();
    assert_eq!(f.checksum_type, ChecksumType::Classic);
    assert_eq!(f.checksum, 0);
    m.meta.insert("lin.checksum".to_string(), "255".to_string());
    m.meta.insert("lin.checksum_type".to_string(), "enhanced".to_string());
    let f = from_message(&m).unwrap();
    assert_eq!(f.checksum_type, ChecksumType::Enhanced);
    assert_eq!(f.checksum, 255);
}

#[test]
fn to_sequenced_message_carries_the_position() {
    let f = Frame { id: 0x01, data: vec![0x10], checksum: 7, checksum_type: ChecksumType::Classic };
    let m = to_sequenced_message(&f, 42);
    assert_eq!(m.seq, 42);
    assert_eq!(m.id, "1");
    assert_eq!(m.meta.len(), 2);
    assert_eq!(m.meta.get("lin.checksum").unwrap(), "7");
}

#[test]
fn prepare_send_orders_its_refusals() {
    let big = message_with_id("not_a_number", vec![0; 9]);
    assert_eq!(prepare_send(&big).unwrap_err(), relay::Error::PayloadTooLarge);
    let bad = message_with_id("not_a_number", vec![1]);
    assert_eq!(prepare_send(&bad).unwrap_err(), relay::Error::Closed);
    let ok = message_with_id("16", vec![1, 2, 3, 4, 5, 6, 7, 8]);
    let f = prepare_send(&ok).unwrap();
    assert_eq!(f.id, 16);
    assert_eq!(f.data.len(), 8);
}

#[test]
fn relay_error_maps_sentinels() {
    assert_eq!(relay_error(&Error::Closed), relay::Error::Closed);
    assert_eq!(relay_error(&Error::NoResponse), relay::Error::Timeout);
    assert_eq!(relay_error(&Error::PayloadTooLarge), relay::Error::PayloadTooLarge);
    assert_eq!(relay_error(&Error::NotConnected), relay::Error::NotConnected);
    assert_eq!(relay_error(&Error::Other("x".to_string())), relay::Error::Other);
    assert_eq!(relay_error(&Error::invalid_frame("x".to_string())), relay::Error::Closed);
}
