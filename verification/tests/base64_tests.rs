use rust_lin::base64::{decode, encode};

#[test]
fn rfc4648_vectors() {
    let cases: &[(&[u8], &str)] = &[
        (b"", ""),
        (b"f", "Zg=="),
        (b"fo", "Zm8="),
        (b"foo", "Zm9v"),
        (b"foob", "Zm9vYg=="),
        (b"fooba", "Zm9vYmE="),
        (b"foobar", "Zm9vYmFy"),
    ];
    for (raw, text) in cases {
        assert_eq!(encode(raw), *text);
        assert_eq!(decode(text).unwrap(), raw.to_vec());
    }
}

#[test]
fn frame_bytes_round_trip() {
    let data = vec![0xAA, 0xBB, 0xCC];
    assert_eq!(encode(&data), "qrvM");
    assert_eq!(decode(&encode(&data)).unwrap(), data);
    let all: Vec<u8> = (0u8..=255).collect();
    assert_eq!(decode(&encode(&all)).unwrap(), all);
}

#[test]
fn decode_refuses_what_encode_never_writes() {
    for bad in ["Zg=", "Zh==", "Zm9=", "Z===", "=Zg=", "Zg==Zg==", "Zm9v!A==", "Zm 9v"] {
        assert!(decode(bad).is_none(), "{:?}", bad);
    }
    assert_eq!(decode("+/+/").unwrap(), vec![0xFB, 0xFF, 0xBF]);
}
