use can_decode::ByteOrder;
use can_decode::DecodedMessage;
use can_decode::MessageDef;
use can_decode::Parser;
use can_decode::SignalLayout;

fn layout(name: &str, start_bit: usize, bit_width: usize) -> SignalLayout {
    SignalLayout {
        name: name.to_string(),
        start_bit,
        bit_width,
        byte_order: ByteOrder::LittleEndian,
        signed: false,
        unit: String::new(),
    }
}

fn def(msg_id: u32, name: &str, signals: Vec<SignalLayout>) -> MessageDef {
    MessageDef { msg_id, is_extended: false, name: name.to_string(), signals }
}

fn signal_names(m: &DecodedMessage) -> Vec<String> {
    let mut names = Vec::new();
    for s in m.signals.iter() {
        names.push(s.name.clone());
    }
    names
}

#[test]
fn unknown_frame_yields_no_message() {
    let parser = Parser::new();
    let data = [0u8; 8];
    assert!(parser.decode_msg(0x123, &data).is_none());
}

#[test]
fn known_frame_with_zero_decoded_signals_is_still_a_message() {
    let mut parser = Parser::new();
    parser.add_def(def(0x123, "Empty", vec![layout("a", 60, 8)]));
    let data = [0u8; 8];
    let m = parser.decode_msg(0x123, &data).unwrap();
    assert_eq!(m.name, "Empty");
    assert_eq!(m.msg_id, 0x123);
    assert!(!m.is_extended);
    assert_eq!(m.signals.len(), 0);
}

#[test]
fn partial_decode_keeps_the_other_signals() {
    let mut parser = Parser::new();
    parser.add_def(def(
        0x200,
        "Mixed",
        vec![layout("first", 0, 8), layout("broken", 60, 8), layout("second", 8, 8)],
    ));
    let data = [0x11u8, 0x22, 0x33, 0x44, 0x55, 0x66, 0x77, 0x88];
    let m = parser.decode_msg(0x200, &data).unwrap();
    assert_eq!(signal_names(&m), vec!["first".to_string(), "second".to_string()]);
    assert_eq!(m.signals[0].raw, 0x11);
    assert_eq!(m.signals[1].raw, 0x22);
}

#[test]
fn duplicate_load_keeps_the_last_definition() {
    let mut parser = Parser::new();
    let first = parser.add_def(def(0x100, "First", vec![layout("a", 0, 8)]));
    assert!(!first);
    let second = parser.add_def(def(0x100, "Second", vec![layout("b", 0, 4)]));
    assert!(second);
    let defs = parser.msg_defs();
    assert_eq!(defs.len(), 1);
    assert_eq!(defs[0].name, "Second");
    let signals = parser.signal_defs_for_msg(0x100).unwrap();
    assert_eq!(signals.len(), 1);
    assert_eq!(signals[0].name, "b");
    assert_eq!(signals[0].bit_width, 4);
}

#[test]
fn duplicate_load_in_batches_keeps_the_last_definition() {
    let mut parser = Parser::new();
    let first_batch = vec![
        def(0x100, "EngineA", vec![layout("rpm", 0, 16)]),
        def(0x101, "Brakes", vec![layout("pressure", 0, 8)]),
    ];
    let second_batch = vec![def(0x100, "EngineB", vec![layout("rpm2", 16, 16)])];
    let replaced_first = parser.add_defs(first_batch);
    assert_eq!(replaced_first, 0);
    let replaced_second = parser.add_defs(second_batch);
    assert_eq!(replaced_second, 1);
    let defs = parser.msg_defs();
    assert_eq!(defs.len(), 2);
    let signals = parser.signal_defs_for_msg(0x100).unwrap();
    assert_eq!(signals.len(), 1);
    assert_eq!(signals[0].name, "rpm2");
    let brakes = parser.signal_defs_for_msg(0x101).unwrap();
    assert_eq!(brakes[0].name, "pressure");
}

#[test]
fn clear_forgets_all_definitions() {
    let mut parser = Parser::new();
    parser.add_def(def(0x300, "M", vec![layout("x", 0, 8)]));
    assert!(parser.decode_msg(0x300, &[0u8]).is_some());
    parser.clear();
    assert!(parser.decode_msg(0x300, &[0u8]).is_none());
    assert_eq!(parser.msg_defs().len(), 0);
}

#[test]
fn default_parser_is_empty() {
    let parser = Parser::default();
    assert_eq!(parser.msg_defs().len(), 0);
    assert!(parser.decode_msg(0, &[0u8]).is_none());
}

#[test]
fn extended_flag_is_reported() {
    let mut parser = Parser::new();
    parser.add_def(MessageDef {
        msg_id: 0x1FFF_FFFF,
        is_extended: true,
        name: "Ext".to_string(),
        signals: vec![layout("v", 0, 8)],
    });
    let m = parser.decode_msg(0x1FFF_FFFF, &[7u8]).unwrap();
    assert!(m.is_extended);
    assert_eq!(m.signals[0].raw, 7);
}

#[test]
fn lookup_distinguishes_known_from_unknown() {
    let mut parser = Parser::new();
    parser.add_def(def(5, "Known", vec![]));
    assert!(parser.lookup(5).is_some());
    assert_eq!(parser.lookup(5).unwrap().name, "Known");
    assert!(parser.lookup(6).is_none());
    assert!(parser.signal_defs_for_msg(6).is_none());
}
