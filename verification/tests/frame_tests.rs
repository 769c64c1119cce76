use rust_lin::frame::{
    calc_checksum, protect_id, validate_frame, verify_pid, ChecksumType, Filter, Frame,
    LIN_DIAG_REQUEST_ID, LIN_DIAG_RESPONSE_ID, LIN_MAX_ID,
};
use rust_lin::error::Error;

#[test]
fn protect_id_known_vectors() {
    let cases: &[(u8, u8)] = &[
        (0x00, 0x80),
        (0x01, 0xC1),
        (0x10, 0x50),
        (0x12, 0x92),
        (0x3F, 0xBF),
        (0x3C, 0x3C),
    ];
    for &(id, expected_pid) in cases {
        let pid = protect_id(id);
        assert_eq!(
            pid, expected_pid,
            "protect_id(0x{:02X}) = 0x{:02X}, want 0x{:02X}",
            id, pid, expected_pid
        );
    }
}

#[test]
fn protect_id_preserves_lower_6_bits() {
    for id in 0u8..=LIN_MAX_ID {
        let pid = protect_id(id);
        assert_eq!(pid & 0x3F, id, "protect_id(0x{:02X}): lower 6 bits mismatch", id);
    }
}

#[test]
fn protect_id_ignores_upper_bits() {
    assert_eq!(protect_id(0x50), protect_id(0x10));
    assert_eq!(protect_id(0xFF), protect_id(0x3F));
}

#[test]
fn verify_pid_accepts_all_valid_ids() {
    for id in 0u8..=LIN_MAX_ID {
        let pid = protect_id(id);
        let result = verify_pid(pid);
        assert!(result.is_ok(), "verify_pid(0x{:02X}) failed", pid);
        assert_eq!(result.unwrap(), id);
    }
}

#[test]
fn verify_pid_rejects_corrupt_p0() {
    let pid = protect_id(0x10) ^ 0x40;
    assert!(verify_pid(pid).is_err());
}

#[test]
fn verify_pid_rejects_corrupt_p1() {
    let pid = protect_id(0x10) ^ 0x80;
    assert!(verify_pid(pid).is_err());
}

#[test]
fn verify_pid_error_names_the_pid() {
    match verify_pid(0x10) {
        Err(Error::InvalidFrame { reason }) => assert_eq!(reason, "PID 0x10 parity mismatch"),
        other => panic!("unexpected {:?}", other),
    }
}

#[test]
fn verify_pid_counts_exactly_64_valid_pids() {
    let valid = (0u16..=255).filter(|p| verify_pid(*p as u8).is_ok()).count();
    assert_eq!(valid, 64);
}

#[test]
fn calc_checksum_enhanced_verify() {
    let pid = protect_id(0x10);
    let data = &[0x01u8, 0x02];
    let cs = calc_checksum(pid, data, ChecksumType::Enhanced);
    let mut sum: u16 = u16::from(pid);
    for &b in data {
        sum += u16::from(b);
        if sum > 0xFF {
            sum -= 0xFF;
        }
    }
    sum += u16::from(cs);
    if sum > 0xFF {
        sum -= 0xFF;
    }
    assert_eq!(sum, 0xFF, "enhanced checksum verify failed: sum=0x{:02X}", sum);
}

#[test]
fn calc_checksum_classic_excludes_pid() {
    let data = &[0xAAu8, 0x55];
    let cs1 = calc_checksum(0x50, data, ChecksumType::Classic);
    let cs2 = calc_checksum(0x92, data, ChecksumType::Classic);
    assert_eq!(cs1, cs2, "classic checksum must not depend on PID value");
}

#[test]
fn calc_checksum_enhanced_includes_pid() {
    let data = &[0xAAu8, 0x55];
    let cs1 = calc_checksum(0x50, data, ChecksumType::Enhanced);
    let cs2 = calc_checksum(0x92, data, ChecksumType::Enhanced);
    assert_ne!(cs1, cs2, "enhanced checksum must differ when PID differs");
}

#[test]
fn calc_checksum_carry_around() {
    let data = &[0xFFu8, 0x01];
    let pid = protect_id(0x00);
    let cs = calc_checksum(pid, data, ChecksumType::Classic);
    let mut sum: u16 = 0;
    for &b in data {
        sum += u16::from(b);
        if sum > 0xFF {
            sum -= 0xFF;
        }
    }
    sum += u16::from(cs);
    if sum > 0xFF {
        sum -= 0xFF;
    }
    assert_eq!(sum, 0xFF, "carry-around: sum+cs = 0x{:02X}, want 0xFF", sum);
}

#[test]
fn calc_checksum_exact_values() {
    // 0x01 + 0x02 = 0x03 -> 0xFF - 0x03
    assert_eq!(calc_checksum(0x50, &[0x01, 0x02], ChecksumType::Classic), 0xFC);
    // 0x50 + 0x01 + 0x02 = 0x53 -> 0xAC
    assert_eq!(calc_checksum(0x50, &[0x01, 0x02], ChecksumType::Enhanced), 0xAC);
    // 0xFF + 0x01 = 0x100 -> carry -> 0x01 -> 0xFE
    assert_eq!(calc_checksum(0x00, &[0xFF, 0x01], ChecksumType::Classic), 0xFE);
    assert_eq!(calc_checksum(0x00, &[], ChecksumType::Classic), 0xFF);
}

#[test]
fn checksum_roundtrip_classic_and_enhanced() {
    let pid = protect_id(0x10);
    let data = &[0x01u8, 0x02, 0x03, 0x04];
    let cs_enh = calc_checksum(pid, data, ChecksumType::Enhanced);
    let cs_cls = calc_checksum(pid, data, ChecksumType::Classic);
    assert_ne!(cs_enh, cs_cls, "classic and enhanced must differ");
    let cs_cls2 = calc_checksum(0x99, data, ChecksumType::Classic);
    assert_eq!(cs_cls, cs_cls2, "classic checksum must ignore PID");
}

#[test]
fn protect_id_verify_pid_roundtrip() {
    for id in 0u8..=0x3F {
        let pid = protect_id(id);
        assert_eq!(pid & 0x3F, id, "lower 6 bits must be preserved");
        let recovered = verify_pid(pid).unwrap();
        assert_eq!(recovered, id);
    }
}

fn frame(id: u8, data: Vec<u8>) -> Frame {
    Frame { id, data, ..Default::default() }
}

#[test]
fn validate_frame_rejects_high_id() {
    let f = frame(0x40, vec![0x01]);
    assert!(matches!(validate_frame(&f), Err(Error::InvalidFrame { .. })));
}

#[test]
fn validate_frame_rejects_empty_data() {
    let f = frame(0x10, vec![]);
    assert!(matches!(validate_frame(&f), Err(Error::InvalidFrame { .. })));
}

#[test]
fn validate_frame_rejects_oversized_data() {
    let f = frame(0x10, vec![0u8; 9]);
    assert!(matches!(validate_frame(&f), Err(Error::InvalidFrame { .. })));
}

#[test]
fn validate_frame_accepts_max_id() {
    assert!(validate_frame(&frame(0x3F, vec![0x01])).is_ok());
}

#[test]
fn validate_frame_accepts_min_data() {
    assert!(validate_frame(&frame(0x10, vec![0x01])).is_ok());
}

#[test]
fn validate_frame_accepts_max_data() {
    assert!(validate_frame(&frame(0x10, vec![0u8; 8])).is_ok());
}

#[test]
fn validate_frame_diag_must_use_classic_checksum() {
    for &id in &[LIN_DIAG_REQUEST_ID, LIN_DIAG_RESPONSE_ID] {
        let f = Frame { id, data: vec![0x00], checksum_type: ChecksumType::Enhanced, ..Default::default() };
        assert!(
            validate_frame(&f).is_err(),
            "diagnostic frame 0x{:02X} with enhanced checksum must be rejected",
            id
        );
        let f2 = Frame { id, data: vec![0x00], checksum_type: ChecksumType::Classic, ..Default::default() };
        assert!(
            validate_frame(&f2).is_ok(),
            "diagnostic frame 0x{:02X} with classic checksum must be accepted",
            id
        );
    }
}

#[test]
fn validate_frame_reasons() {
    let reason = |f: &Frame| match validate_frame(f) {
        Err(Error::InvalidFrame { reason }) => reason,
        other => panic!("unexpected {:?}", other),
    };
    assert_eq!(reason(&frame(0x40, vec![1])), "frame ID 0x40 exceeds maximum 0x3F");
    assert_eq!(reason(&frame(0x10, vec![])), "frame data must not be empty");
    assert_eq!(reason(&frame(0x10, vec![0; 12])), "frame data length 12 exceeds maximum 8");
    let diag = Frame { id: 0x3D, data: vec![1], checksum_type: ChecksumType::Enhanced, ..Default::default() };
    assert_eq!(reason(&diag), "diagnostic frame 0x3D must use classic checksum");
}

#[test]
fn validate_frame_id_boundary() {
    assert!(validate_frame(&frame(0x3F, vec![1])).is_ok());
    assert!(validate_frame(&frame(0x40, vec![1])).is_err());
}

#[test]
fn validate_frame_empty_data_rejected() {
    assert!(validate_frame(&frame(0x10, vec![])).is_err());
}

#[test]
fn validate_frame_oversized_data_rejected() {
    assert!(validate_frame(&frame(0x10, vec![0u8; 9])).is_err());
}

#[test]
fn validate_frame_diagnostic_must_use_classic() {
    for &id in &[LIN_DIAG_REQUEST_ID, LIN_DIAG_RESPONSE_ID] {
        assert!(validate_frame(&Frame { id, data: vec![0x01], checksum_type: ChecksumType::Enhanced, ..Default::default() }).is_err());
        assert!(validate_frame(&Frame { id, data: vec![0x01], checksum_type: ChecksumType::Classic, ..Default::default() }).is_ok());
    }
}

#[test]
fn sec_frame_id_bounds_injection_prevention() {
    assert!(validate_frame(&frame(0x40, vec![1])).is_err());
    assert!(validate_frame(&frame(0x3F, vec![1])).is_ok());
}

#[test]
fn convert_rejects_invalid_frame_before_to_message() {
    assert!(validate_frame(&frame(0x40, vec![0x01])).is_err());
    assert!(validate_frame(&frame(0x10, vec![])).is_err());
}

#[test]
fn filter_exact_match() {
    let f = Filter { id: 0x10, all: false };
    assert!(f.matches(&frame(0x10, vec![1])));
    assert!(!f.matches(&frame(0x20, vec![1])));
}

#[test]
fn filter_all_matches_every_id() {
    let f = Filter { id: 0, all: true };
    for id in 0u8..=LIN_MAX_ID {
        assert!(f.matches(&frame(id, vec![1])));
    }
}

#[test]
fn checksum_type_codes_and_names() {
    assert_eq!(ChecksumType::Classic.to_u8(), 0);
    assert_eq!(ChecksumType::Enhanced.to_u8(), 1);
    assert_eq!(ChecksumType::from_u8(1), Ok(ChecksumType::Enhanced));
    assert_eq!(ChecksumType::from_u8(0), Ok(ChecksumType::Classic));
    assert_eq!(ChecksumType::from_u8(7), Err("unknown checksum type: 7".to_string()));
    assert_eq!(ChecksumType::Enhanced.to_string(), "enhanced");
    assert_eq!(ChecksumType::Classic.as_str(), "classic");
    assert_eq!(ChecksumType::default(), ChecksumType::Classic);
}

#[test]
fn frame_clone_keeps_fields() {
    let f = Frame { id: 3, data: vec![1, 2], checksum: 9, checksum_type: ChecksumType::Enhanced };
    assert_eq!(f.clone(), f);
}

#[test]
fn checksum_type_into_wire_number() {
    assert_eq!(u8::from(ChecksumType::Classic), 0);
    assert_eq!(u8::from(ChecksumType::Enhanced), 1);
    assert_eq!(ChecksumType::from_u8(1), Ok(ChecksumType::Enhanced));
    assert_eq!(ChecksumType::from_u8(2), Err("unknown checksum type: 2".to_string()));
}

#[test]
fn checksum_ignores_order_and_trailing_zeros() {
    let data = [0x4A, 0x55, 0x93, 0xE5];
    let shuffled = [0xE5, 0x93, 0x4A, 0x55];
    for ct in [ChecksumType::Classic, ChecksumType::Enhanced] {
        let c = calc_checksum(0x50, &data, ct);
        assert_eq!(calc_checksum(0x50, &shuffled, ct), c);
        assert_eq!(calc_checksum(0x50, &[0x4A, 0x55, 0x93, 0xE5, 0x00], ct), c);
    }
    assert_eq!(
        calc_checksum(0x50, &data, ChecksumType::Enhanced),
        calc_checksum(0x00, &[0x50, 0x4A, 0x55, 0x93, 0xE5], ChecksumType::Classic)
    );
}
