use rust_lin::command::{
    convert_frame, data_hex, frame_line, frame_to_publish, is_lin_protocol, keep_receiving,
    parse_frame_id,
    published_line, send_request, HexError, IntError, JsonRefusal, SendError,
};
use rust_lin::error::Error;
use rust_lin::frame::{ChecksumType, Frame};
use rust_lin::relay::{Message, Protocol};

#[test]
fn frame_ids_in_decimal_and_hex() {
    assert_eq!(parse_frame_id("16"), Ok(16));
    assert_eq!(parse_frame_id("+7"), Ok(7));
    assert_eq!(parse_frame_id("0x3f"), Ok(0x3F));
    assert_eq!(parse_frame_id("0X1A"), Ok(0x1A));
    assert_eq!(parse_frame_id("255"), Ok(255));
}

#[test]
fn frame_id_errors_follow_std() {
    assert_eq!(parse_frame_id(""), Err(IntError::Empty));
    assert_eq!(parse_frame_id("0x"), Err(IntError::Empty));
    assert_eq!(parse_frame_id("+"), Err(IntError::InvalidDigit));
    assert_eq!(parse_frame_id("-1"), Err(IntError::InvalidDigit));
    assert_eq!(parse_frame_id("1g"), Err(IntError::InvalidDigit));
    assert_eq!(parse_frame_id("256"), Err(IntError::TooLarge));
    assert_eq!(parse_frame_id("300x"), Err(IntError::TooLarge));
    assert_eq!(parse_frame_id("30x0"), Err(IntError::InvalidDigit));
    assert_eq!(parse_frame_id("0x100"), Err(IntError::TooLarge));
    for s in ["", "x", "999", "0x", "12", "0x7f", "+", "-"] {
        let ours = parse_frame_id(s).map_err(|e| e.to_string());
        let std_hex = if s.starts_with("0x") || s.starts_with("0X") {
            u8::from_str_radix(&s[2..], 16)
        } else {
            s.parse::<u8>()
        };
        assert_eq!(ours, std_hex.map_err(|e| e.to_string()), "input {:?}", s);
    }
}

#[test]
fn send_request_reads_id_and_data() {
    assert_eq!(send_request(Some("0x10"), Some("01 02 0a")), Ok((0x10, vec![1, 2, 10])));
    assert_eq!(send_request(None, Some("01")), Err(SendError::MissingId));
    assert_eq!(send_request(Some("1"), None), Err(SendError::MissingData));
    assert_eq!(send_request(Some("x"), Some("01")), Err(SendError::BadId(IntError::InvalidDigit)));
    assert_eq!(send_request(Some("1"), Some("012")), Err(SendError::BadData(HexError::OddLength)));
    assert_eq!(
        send_request(Some("1"), Some("0g")),
        Err(SendError::BadData(HexError::InvalidCharacter { c: 'g', index: 1 }))
    );
    assert_eq!(
        send_request(Some("1"), Some("010203040506070809")),
        Err(SendError::TooLong(9))
    );
}

#[test]
fn send_error_texts() {
    assert_eq!(SendError::MissingId.to_string(), "rust-lin: --id is required in text mode");
    assert_eq!(SendError::MissingData.to_string(), "rust-lin: --data is required in text mode");
    assert_eq!(SendError::TooLong(9).to_string(), "rust-lin: data length 9 exceeds maximum 8");
    assert_eq!(SendError::BadData(HexError::OddLength).to_string(), "Odd number of digits");
    assert_eq!(
        SendError::BadData(HexError::InvalidCharacter { c: 'g', index: 3 }).to_string(),
        "Invalid character 'g' at position 3"
    );
    assert_eq!(
        SendError::BadId(IntError::Empty).to_string(),
        "cannot parse integer from empty string"
    );
    assert_eq!(
        SendError::BadId(IntError::TooLarge).to_string(),
        "number too large to fit in target type"
    );
}

#[test]
fn printed_lines() {
    assert_eq!(published_line(0x10, &[0xAB, 0x01]), "published: id=0x10 data=ab01");
    let f = Frame { id: 0x2A, data: vec![0xFF, 0x00], checksum: 0x0C, checksum_type: ChecksumType::Enhanced };
    assert_eq!(frame_line(3, &f), "[3] id=0x2A checksum=0x0C ct=enhanced data=ff00");
    assert_eq!(data_hex(&[0x0f, 0x10]), "0f10");
}

#[test]
fn convert_checks_protocol_and_frame() {
    assert!(is_lin_protocol("LIN"));
    assert!(is_lin_protocol("lin"));
    assert!(!is_lin_protocol("CAN"));
    let f = Frame { id: 0x10, data: vec![1, 2, 3], checksum: 0xE9, checksum_type: ChecksumType::Enhanced };
    let m = convert_frame(&f).unwrap();
    assert_eq!(m.timestamp_us, 0);
    assert_eq!(m.id, "16");
    assert_eq!(m.payload, vec![1, 2, 3]);
    let bad = Frame { id: 0x40, data: vec![1], checksum: 0, checksum_type: ChecksumType::Classic };
    assert!(matches!(convert_frame(&bad), Err(Error::InvalidFrame { .. })));
}

#[test]
fn json_send_sorts_refusals() {
    let can = Message::new(Protocol::Can, "16", vec![1]);
    assert!(matches!(frame_to_publish(&can), Err(JsonRefusal::Conversion(Error::InvalidFrame { .. }))));
    let empty = Message::new(Protocol::Lin, "16", vec![]);
    assert!(matches!(frame_to_publish(&empty), Err(JsonRefusal::Invalid(Error::InvalidFrame { .. }))));
    let ok = Message::new(Protocol::Lin, "16", vec![5]);
    let f = frame_to_publish(&ok).unwrap();
    assert_eq!(f.id, 16);
    assert_eq!(f.data, vec![5]);
}

#[test]
fn subscribe_stops_after_count() {
    assert!(keep_receiving(0, 1000));
    assert!(keep_receiving(3, 2));
    assert!(!keep_receiving(3, 3));
}

#[test]
fn protocol_codes_read_back() {
    assert_eq!(Protocol::from_code(1), Some(Protocol::Can));
    assert_eq!(Protocol::from_code(3), Some(Protocol::Lin));
    assert_eq!(Protocol::from_code(2), None);
    for p in [Protocol::Can, Protocol::Lin] {
        assert_eq!(Protocol::from_code(p.code()), Some(p));
    }
}
