use rust_lin::safety::{Config, ErrorKind, Protector, Receiver, HEADER_SIZE};

fn make_cfg() -> Config {
    Config { data_id: 0x0001, source_id: 0x0010 }
}

#[test]
fn header_embeds_data_id_and_source_id() {
    let mut p = Protector::new(make_cfg());
    let out = p.protect(&[]);
    assert_eq!(u16::from_le_bytes([out[0], out[1]]), 0x0001);
    assert_eq!(u16::from_le_bytes([out[2], out[3]]), 0x0010);
}

#[test]
fn sequence_counter_increments() {
    let mut p = Protector::new(make_cfg());
    let a = p.protect(&[]);
    let b = p.protect(&[]);
    let seq_a = u32::from_le_bytes([a[4], a[5], a[6], a[7]]);
    let seq_b = u32::from_le_bytes([b[4], b[5], b[6], b[7]]);
    assert_eq!(seq_a, 0);
    assert_eq!(seq_b, 1);
}

#[test]
fn crc_embedded_in_header() {
    let mut p = Protector::new(make_cfg());
    let out = p.protect(&[0xAB, 0xCD]);
    let crc = u16::from_le_bytes([out[8], out[9]]);
    assert_ne!(crc, 0);
}

#[test]
fn crc_is_ccitt_false() {
    // CRC-16/CCITT-FALSE of header(data 1, source 0x10, seq 0) + zero CRC
    // slot, computed independently here bit by bit.
    fn crc(data: &[u8]) -> u16 {
        let mut c: u16 = 0xFFFF;
        for &b in data {
            c ^= (b as u16) << 8;
            for _ in 0..8 {
                c = if c & 0x8000 != 0 { (c << 1) ^ 0x1021 } else { c << 1 };
            }
        }
        c
    }
    assert_eq!(crc(b"123456789"), 0x29B1);
    let mut p = Protector::new(make_cfg());
    let out = p.protect(&[0x31, 0x32]);
    let mut input = out[..8].to_vec();
    input.extend_from_slice(&[0, 0, 0x31, 0x32]);
    assert_eq!(u16::from_le_bytes([out[8], out[9]]), crc(&input));
}

#[test]
fn unwrap_rejects_header_too_short() {
    let mut r = Receiver::new(make_cfg());
    let err = r.unwrap(&[0u8; 9]).unwrap_err();
    assert_eq!(err.kind, ErrorKind::HeaderTooShort);
    assert_eq!(err.message, "got 9 bytes, need at least 10");
    assert_eq!(err.counter, 0);
}

#[test]
fn unwrap_detects_crc_mismatch() {
    let mut p = Protector::new(make_cfg());
    let mut data = p.protect(&[0x01, 0x02]);
    data[8] ^= 0xFF;
    let mut r = Receiver::new(make_cfg());
    let err = r.unwrap(&data).unwrap_err();
    assert_eq!(err.kind, ErrorKind::CrcMismatch);
    assert!(err.message.starts_with("CRC mismatch: wire=0x"));
}

#[test]
fn unwrap_detects_sequence_gap() {
    let mut p = Protector::new(make_cfg());
    let first = p.protect(&[0x01]);
    let _second = p.protect(&[0x02]);
    let third = p.protect(&[0x03]);
    let mut r = Receiver::new(make_cfg());
    r.unwrap(&first).unwrap();
    let err = r.unwrap(&third).unwrap_err();
    assert_eq!(err.kind, ErrorKind::SequenceGap);
    assert_eq!(err.counter, 2);
    assert_eq!(err.message, "sequence gap: last=0 recv=2");
}

#[test]
fn protect_unwrap_round_trip() {
    let cfg = make_cfg();
    let mut p = Protector::new(cfg);
    let mut r = Receiver::new(cfg);
    let payload = vec![0xDE, 0xAD, 0xBE, 0xEF];
    let protected = p.protect(&payload);
    let recovered = r.unwrap(&protected).unwrap();
    assert_eq!(recovered, payload);
}

#[test]
fn protect_output_length() {
    let mut p = Protector::new(make_cfg());
    let payload = vec![1u8, 2, 3, 4];
    let out = p.protect(&payload);
    assert_eq!(out.len(), HEADER_SIZE + payload.len());
}

#[test]
fn unwrap_first_accepts_any_counter() {
    let mut p = Protector::new(make_cfg());
    p.protect(&[]);
    p.protect(&[]);
    let third = p.protect(&[0xAA]);
    let mut r = Receiver::new(make_cfg());
    let recovered = r.unwrap(&third).unwrap();
    assert_eq!(recovered, vec![0xAA]);
}

#[test]
fn unwrap_returns_independent_copy() {
    let cfg = make_cfg();
    let mut p = Protector::new(cfg);
    let mut r = Receiver::new(cfg);
    let payload = vec![0x11, 0x22];
    let protected = p.protect(&payload);
    let mut recovered = r.unwrap(&protected).unwrap();
    recovered[0] = 0xFF;
    assert_eq!(payload[0], 0x11);
    assert_eq!(protected[10], 0x11);
}

#[test]
fn sec_e2e_sequence_counter_replay_detected() {
    let cfg = Config { data_id: 0x0001, source_id: 0x0002 };
    let mut p = Protector::new(cfg);
    let mut r = Receiver::new(cfg);
    let frame0 = p.protect(&[0xAA]);
    let frame1 = p.protect(&[0xBB]);
    let _frame2 = p.protect(&[0xCC]);
    r.unwrap(&frame0).expect("seq=0 must be accepted");
    r.unwrap(&frame1).expect("seq=1 must be accepted");
    let err = r.unwrap(&frame0).expect_err("replayed seq=0 must be rejected");
    assert_eq!(err.kind, ErrorKind::SequenceGap, "replay must produce SequenceGap");
}

#[test]
fn sec_e2e_header_too_short_rejected() {
    let mut r = Receiver::new(Config { data_id: 0x0001, source_id: 0x0001 });
    let short = vec![0u8; 9];
    let err = r.unwrap(&short).expect_err("9-byte payload must be rejected");
    assert_eq!(err.kind, ErrorKind::HeaderTooShort);
    let err2 = r.unwrap(&[]).expect_err("empty payload must be rejected");
    assert_eq!(err2.kind, ErrorKind::HeaderTooShort);
}

#[test]
fn seooc_e2e_protect_unwrap_via_virtual_bus() {
    let cfg = Config { data_id: 0x0001, source_id: 0x0010 };
    let mut p = Protector::new(cfg);
    let mut r = Receiver::new(cfg);
    let payload = vec![0xDE, 0xAD, 0xBE, 0xEF];
    let protected = p.protect(&payload);
    assert_eq!(r.unwrap(&protected).unwrap(), payload);
}

#[test]
fn gap_keeps_the_last_accepted_counter() {
    let mut p = Protector::new(make_cfg());
    let a = p.protect(&[1]);
    let b = p.protect(&[2]);
    let c = p.protect(&[3]);
    let mut r = Receiver::new(make_cfg());
    r.unwrap(&a).unwrap();
    assert_eq!(r.unwrap(&c).unwrap_err().kind, ErrorKind::SequenceGap);
    assert_eq!(r.unwrap(&b).unwrap(), vec![2]);
    assert_eq!(r.unwrap(&c).unwrap(), vec![3]);
}

#[test]
fn replays_stay_refused() {
    let cfg = Config { data_id: 0x0001, source_id: 0x0002 };
    let mut p = Protector::new(cfg);
    let mut r = Receiver::new(cfg);
    let f0 = p.protect(&[0xAA]);
    let f1 = p.protect(&[0xBB]);
    r.unwrap(&f0).unwrap();
    r.unwrap(&f1).unwrap();
    assert_eq!(r.unwrap(&f0).unwrap_err().kind, ErrorKind::SequenceGap);
    assert_eq!(r.unwrap(&f1).unwrap_err().kind, ErrorKind::SequenceGap);
    assert_eq!(r.unwrap(&f0).unwrap_err().kind, ErrorKind::SequenceGap);
}

#[test]
fn foreign_ids_are_refused() {
    let mut p = Protector::new(Config { data_id: 0x0001, source_id: 0x0010 });
    let mut r = Receiver::new(Config { data_id: 0x0002, source_id: 0x0010 });
    let err = r.unwrap(&p.protect(&[0x01])).unwrap_err();
    assert_eq!(err.kind, ErrorKind::CrcMismatch);
    let mut q = Protector::new(Config { data_id: 0x0002, source_id: 0x0011 });
    assert_eq!(r.unwrap(&q.protect(&[0x01])).unwrap_err().kind, ErrorKind::CrcMismatch);
    let mut ok = Protector::new(Config { data_id: 0x0002, source_id: 0x0010 });
    assert_eq!(r.unwrap(&ok.protect(&[0x07])).unwrap(), vec![0x07]);
}

#[test]
fn a_stream_of_messages_round_trips() {
    let cfg = make_cfg();
    let mut p = Protector::new(cfg);
    let mut r = Receiver::new(cfg);
    for i in 0u8..20 {
        let payload = vec![i, i.wrapping_mul(3)];
        assert_eq!(r.unwrap(&p.protect(&payload)).unwrap(), payload);
    }
}

#[test]
fn e2e_error_text() {
    let mut r = Receiver::new(make_cfg());
    let err = r.unwrap(&[0u8; 3]).unwrap_err();
    assert_eq!(
        err.to_string(),
        "lin/safety: E2E error (kind=HeaderTooShort, counter=0): got 3 bytes, need at least 10"
    );
}
