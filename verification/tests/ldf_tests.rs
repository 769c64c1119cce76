use rust_lin::ldf::{can_extract, decimal_tokens, extract_bits, parse, Db, Frame};

const SAMPLE_LDF: &str = r#"
LIN_description_file;
LIN_protocol_version = "2.1";
LIN_language_version = "2.1";
LIN_speed = 19.2 kbps;
Nodes {
  Master: ECU, 5 ms, 0.1 ms;
  Slaves: Seat, Mirror;
}
Signals {
  SeatPos : 8, 0, ECU, Seat;
  MirrorH : 8, 0, ECU, Mirror;
}
Frames {
  SeatFrame : 0x10, ECU, 1 {
    SeatPos, 0;
  }
  MirrorFrame : 0x20, ECU, 1 {
    MirrorH, 0;
  }
}
Schedule_tables {
  MainSchedule {
    SeatFrame delay 10 ms;
    MirrorFrame delay 10 ms;
  }
}
"#;

/// The value a floating point reading gives a decimal token, as an
/// unsigned integer.
fn float_value(token: &str) -> Option<u64> {
    token.parse::<f64>().ok().map(|v| v as u64)
}

/// Parses LDF text, reading its decimal tokens as floating point numbers.
fn load(text: &str) -> Db {
    let values: Vec<Option<u64>> = decimal_tokens(text).iter().map(|t| float_value(t)).collect();
    parse(text, &values)
}

/// The first number on the `LIN_speed` line.
fn speed_kbps(db: &Db) -> f64 {
    for part in db.speed_line().split_whitespace() {
        let part = part.trim_end_matches(';');
        if let Ok(f) = part.parse::<f64>() {
            return f;
        }
    }
    0.0
}

#[test]
fn parse_protocol_version() {
    let db = load(SAMPLE_LDF);
    assert_eq!(db.protocol_version(), "2.1");
}

#[test]
fn parse_speed() {
    let db = load(SAMPLE_LDF);
    assert!((speed_kbps(&db) - 19.2).abs() < 0.01);
}

#[test]
fn parse_master_node() {
    let db = load(SAMPLE_LDF);
    assert_eq!(db.master_node(), "ECU");
}

#[test]
fn parse_slave_nodes() {
    let db = load(SAMPLE_LDF);
    let slaves = db.slave_nodes();
    assert!(slaves.contains(&"Seat".to_string()));
    assert!(slaves.contains(&"Mirror".to_string()));
}

#[test]
fn parse_frames() {
    let db = load(SAMPLE_LDF);
    let f = db.frame(0x10).expect("SeatFrame at 0x10");
    assert_eq!(f.name, "SeatFrame");
    assert_eq!(f.publisher, "ECU");
    assert_eq!(f.length, 1);
}

#[test]
fn parse_signal_refs() {
    let db = load(SAMPLE_LDF);
    let f = db.frame(0x10).unwrap();
    assert!(!f.signals.is_empty());
    assert_eq!(f.signals[0].name, "SeatPos");
    assert_eq!(f.signals[0].bit_offset, 0);
}

#[test]
fn parse_signal_bit_width() {
    let db = load(SAMPLE_LDF);
    let s = db.signal("SeatPos").expect("SeatPos signal");
    assert_eq!(s.bit_width, 8);
}

#[test]
fn parse_signal_publisher() {
    let db = load(SAMPLE_LDF);
    let s = db.signal("SeatPos").unwrap();
    assert_eq!(s.publisher, "ECU");
}

#[test]
fn decode_lsb_first() {
    let db = load(SAMPLE_LDF);
    let result = db.decode(0x10, &[0xAB]).unwrap();
    assert_eq!(*result.get("SeatPos").unwrap(), 0xAB);
}

#[test]
fn decode_unknown_frame_returns_none() {
    let db = load(SAMPLE_LDF);
    assert!(db.decode(0x3F, &[0x00]).is_none());
}

#[test]
fn parse_schedule_table() {
    let db = load(SAMPLE_LDF);
    let sched = db.schedule("MainSchedule").expect("MainSchedule");
    assert_eq!(sched.len(), 2);
    assert_eq!(sched[0].id, 0x10);
    assert_eq!(sched[1].id, 0x20);
}

#[test]
fn frame_unknown_id_returns_none() {
    let db = load(SAMPLE_LDF);
    assert!(db.frame(0x3F).is_none());
}

#[test]
fn signal_unknown_name_returns_none() {
    let db = load(SAMPLE_LDF);
    assert!(db.signal("NoSuchSignal").is_none());
}

#[test]
fn parse_does_not_panic_on_garbage() {
    let db = load("this is not a valid ldf !!!");
    assert_eq!(db.frames().len(), 0);
}

#[test]
fn frames_returns_defensive_copy() {
    let db = load(SAMPLE_LDF);
    let mut copy = db.frames();
    copy.insert(
        0x3F,
        Frame {
            name: "Injected".into(),
            id: 0x3F,
            publisher: "test".into(),
            length: 1,
            signals: vec![],
        },
    );
    assert!(db.frame(0x3F).is_none(), "mutation of copy must not affect Db");
}

#[test]
fn sec_ldf_parse_no_panic_on_malformed_input() {
    let db = load("");
    assert_eq!(db.frames().len(), 0);

    let db2 = load("not an LDF file at all @@@@###");
    assert_eq!(db2.frames().len(), 0);

    let db3 = load("LIN_description_file;\nLIN_protocol_version = \"2.1\";");
    assert_eq!(db3.protocol_version(), "2.1");
}

#[test]
fn seooc_ldf_schedule_ids_are_valid() {
    let ldf_src = r#"
LIN_description_file;
LIN_protocol_version = "2.1";
LIN_language_version = "2.1";
LIN_speed = 19.2 kbps;
Nodes {
  Master: ECU, 5 ms, 0.1 ms;
  Slaves: Seat;
}
Signals {
  SeatPos : 8, 0, ECU, Seat;
}
Frames {
  SeatFrame : 0x10, ECU, 1 {
    SeatPos, 0;
  }
}
Schedule_tables {
  Main {
    SeatFrame delay 10 ms;
  }
}
"#;
    let db = load(ldf_src);
    let sched = db.schedule("Main").expect("Main schedule must be parsed");
    assert!(!sched.is_empty(), "schedule must have at least one entry");
    for entry in &sched {
        assert!(entry.id <= rust_lin::LIN_MAX_ID);
    }
}

#[test]
fn sample_tokens_are_init_values_then_delays() {
    let toks = decimal_tokens(SAMPLE_LDF);
    assert_eq!(toks, vec!["0", "0", "10", "10"]);
}

#[test]
fn decimal_values_are_taken_in_order() {
    let db = parse(SAMPLE_LDF, &[Some(5), None, Some(20)]);
    assert_eq!(db.signal("SeatPos").unwrap().init_value, 5);
    assert_eq!(db.signal("MirrorH").unwrap().init_value, 0);
    let sched = db.schedule("MainSchedule").unwrap();
    assert_eq!(sched[0].delay_ms, 20);
    assert_eq!(sched[1].delay_ms, 0);
    assert_eq!(decimal_tokens(SAMPLE_LDF).len(), 4);
}

#[test]
fn versions_nodes_and_subscribers() {
    let db = load(SAMPLE_LDF);
    assert_eq!(db.language_version(), "2.1");
    assert_eq!(db.slave_nodes(), &["Seat".to_string(), "Mirror".to_string()]);
    let s = db.signal("MirrorH").unwrap();
    assert_eq!(s.subscribers, vec!["Mirror".to_string()]);
    assert_eq!(db.signals().len(), 2);
    assert_eq!(db.frames().len(), 2);
}

#[test]
fn hex_numbers_are_read_directly() {
    let text = "Signals {\n  Big : 0x10, 0xFF, ECU, A, B ,, C;\n}\n";
    assert!(decimal_tokens(text).is_empty());
    let db = parse(text, &[]);
    let s = db.signal("Big").unwrap();
    assert_eq!(s.bit_width, 16);
    assert_eq!(s.init_value, 255);
    assert_eq!(s.publisher, "ECU");
    assert_eq!(s.subscribers, vec!["A".to_string(), "B".to_string(), "C".to_string()]);
}

#[test]
fn comments_and_brace_lines_are_handled() {
    let text = "Nodes // the nodes\n{\n  Master: M1; // main\n}\nFrames\n{\n  F : 5, M1, 2 {\n    S, 3;\n  }\n}\n";
    let db = load(text);
    assert_eq!(db.master_node(), "M1");
    let f = db.frame(5).unwrap();
    assert_eq!(f.length, 2);
    assert_eq!(f.signals.len(), 1);
    assert_eq!(f.signals[0].bit_offset, 3);
}

#[test]
fn an_open_frame_is_kept_at_end_of_file() {
    let db = load("Frames {\n  F : 7, M, 1 {\n    S, 1;");
    let f = db.frame(7).unwrap();
    assert_eq!(f.name, "F");
    assert_eq!(f.signals[0].name, "S");
}

#[test]
fn schedule_skips_unknown_frames_and_assignments() {
    let text = "Frames {\n  A : 1, M, 1 {\n  }\n}\nSchedule_tables {\n  T {\n    AssignFrameId { X, A };\n    Nope delay 5 ms;\n    A DELAY 0x20 ms;\n  }\n}\n";
    let db = load(text);
    let t = db.schedule("T").unwrap();
    assert_eq!(t.len(), 1);
    assert_eq!(t[0].id, 1);
    assert_eq!(t[0].delay_ms, 0x20);
    assert_eq!(decimal_tokens(text), vec!["5"]);
}

#[test]
fn schedule_uses_lowest_id_of_a_repeated_name() {
    let text = "Frames {\n  A : 9, M, 1 {\n  }\n  A : 3, M, 1 {\n  }\n}\nSchedule_tables {\n  T {\n    A delay 1 ms;\n  }\n}\n";
    let db = load(text);
    assert_eq!(db.schedule("T").unwrap()[0].id, 3);
}

#[test]
fn decode_spans_bytes() {
    let text = "Signals {\n  W : 12, 0, M;\n  B : 1, 0, M;\n}\nFrames {\n  F : 1, M, 2 {\n    W, 4;\n    B, 15;\n    Missing, 0;\n  }\n}\n";
    let db = load(text);
    let m = db.decode(1, &[0xA0, 0xBC]).unwrap();
    assert_eq!(*m.get("W").unwrap(), 0xBCA);
    assert_eq!(*m.get("B").unwrap(), 1);
    assert!(m.get("Missing").is_none());
    assert_eq!(m.len(), 2);
}

#[test]
fn extract_bits_reads_lsb_first() {
    assert_eq!(extract_bits(&[0b1010_0000], 5, 3), 0b101);
    assert_eq!(extract_bits(&[0xFF], 4, 8), 0x0F);
    assert_eq!(extract_bits(&[], 0, 8), 0);
    assert_eq!(extract_bits(&[0x34, 0x12], 0, 16), 0x1234);
}

#[test]
fn frames_are_keyed_by_their_id() {
    let db = load(SAMPLE_LDF);
    for (k, f) in db.frames() {
        assert_eq!(f.id, k);
    }
    let wide = load(
        "Frames {\n  Hi : 0x141, M, 1 {\n    S1, 0;\n  }\n  Lo : 0x7F, M, 1 {\n  }\n  Ok : 0x3F, M, 1 {\n    S2, 4;\n  }\n}\n",
    );
    assert!(wide.frame(0x41).is_none());
    assert!(wide.frame(0x7F).is_none());
    let ok = wide.frame(0x3F).unwrap();
    assert_eq!(ok.name, "Ok");
    assert_eq!(ok.signals.len(), 1);
    assert_eq!(wide.frames().len(), 1);
}

#[test]
fn tokens_do_not_depend_on_values() {
    let a = parse(SAMPLE_LDF, &[]);
    let b = parse(SAMPLE_LDF, &[Some(1), Some(2), Some(3), Some(4)]);
    assert_eq!(a.schedule("MainSchedule").unwrap().len(), b.schedule("MainSchedule").unwrap().len());
    assert_eq!(b.signal("MirrorH").unwrap().init_value, 2);
    assert_eq!(b.schedule("MainSchedule").unwrap()[1].delay_ms, 4);
    assert_eq!(a.signal("MirrorH").unwrap().init_value, 0);
}

#[test]
fn readable_fields_are_told_apart() {
    assert!(can_extract(&[0xFF], 0, 8));
    assert!(can_extract(&[0xFF; 8], 0, 64));
    assert!(can_extract(&[0xFF; 8], 0, 200));
    assert!(!can_extract(&[0xFF; 9], 0, 65));
    assert!(can_extract(&[0xFF, 0x00], 0, 80));
    assert!(!can_extract(&[0x01], usize::MAX, 2));
    assert!(can_extract(&[0x01], usize::MAX, 0));
    let db = load(SAMPLE_LDF);
    assert!(db.can_decode(0x10, &[0xAB]));
    assert!(db.can_decode(0x3E, &[0xFF; 16]));
    let wide = load("Signals {\n  Big : 72, 0, E, A;\n}\nFrames {\n  F : 0x01, E, 9 {\n    Big, 0;\n  }\n}\n");
    assert!(!wide.can_decode(0x01, &[0xFF; 9]));
    let mut low = vec![0xFF; 8];
    low.push(0);
    assert!(wide.can_decode(0x01, &low));
    assert_eq!(*wide.decode(0x01, &low).unwrap().get("Big").unwrap(), u64::MAX);
}
