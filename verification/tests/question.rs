use dns_wire::errors::Errors;
use dns_wire::question::QueryType;
use dns_wire::question::Question;
use dns_wire::raw_packet::RawPacket;

fn buffer_with(bytes: &[u8]) -> RawPacket {
    let mut buf = RawPacket::new();
    buf.buf[..bytes.len()].copy_from_slice(bytes);
    buf
}

#[test]
fn query_type_from_num_maps_the_known_types() {
    assert_eq!(QueryType::from_num(1), QueryType::A);
    assert_eq!(QueryType::from_num(2), QueryType::NS);
    assert_eq!(QueryType::from_num(5), QueryType::Cname);
    assert_eq!(QueryType::from_num(15), QueryType::MX);
    assert_eq!(QueryType::from_num(28), QueryType::Aaaa);
}

#[test]
fn query_type_from_another_num_keeps_the_num() {
    assert_eq!(QueryType::from_num(0), QueryType::Unknown(0));
    assert_eq!(QueryType::from_num(16), QueryType::Unknown(16));
    assert_eq!(QueryType::from_num(65535), QueryType::Unknown(65535));
}

#[test]
fn query_type_to_num_gives_the_num_back() {
    for n in [0u16, 1, 2, 3, 5, 15, 16, 28, 29, 255, 65535] {
        assert_eq!(QueryType::from_num(n).to_num(), n);
    }
    assert_eq!(QueryType::Unknown(1).to_num(), 1);
}

#[test]
fn new_question_is_empty() {
    let q = Question::new();
    assert_eq!(q.name, "");
    assert_eq!(q.query_type, QueryType::Unknown(0));
    assert_eq!(q.class, 0);
}

#[test]
fn question_parse_reads_name_type_and_class() {
    let mut buf = buffer_with(b"\x07example\x03com\x00\x00\x01\x00\x01");
    let mut q = Question::new();
    q.parse(&mut buf).unwrap();
    assert_eq!(q.name, "example.com");
    assert_eq!(q.query_type, QueryType::A);
    assert_eq!(q.class, 1);
    assert_eq!(buf.cursor(), 17);
}

#[test]
fn question_parse_keeps_an_unknown_type() {
    let mut buf = buffer_with(b"\x01a\x00\x00\x63\x00\x03");
    let mut q = Question::new();
    q.parse(&mut buf).unwrap();
    assert_eq!(q.query_type, QueryType::Unknown(99));
    assert_eq!(q.class, 3);
}

#[test]
fn question_parse_reads_the_fields_behind_a_pointer() {
    let mut bytes = b"\x03com\x00".to_vec();
    bytes.extend_from_slice(b"\x01a\xC0\x00\x00\x0F\x00\x01");
    let mut buf = buffer_with(&bytes);
    buf.seek(5).unwrap();
    let mut q = Question::new();
    q.parse(&mut buf).unwrap();
    assert_eq!(q.name, "a.com");
    assert_eq!(q.query_type, QueryType::MX);
    assert_eq!(buf.cursor(), 13);
}

#[test]
fn question_parse_without_room_for_type_and_class_is_buffer_end() {
    let mut buf = RawPacket::new();
    buf.seek(509).unwrap();
    let mut q = Question::new();
    assert!(matches!(q.parse(&mut buf), Err(Errors::BufferEnd)));
}

#[test]
fn question_parse_hands_on_a_jump_cycle() {
    let mut buf = buffer_with(&[0xC0, 0x00]);
    let mut q = Question::new();
    assert!(matches!(q.parse(&mut buf), Err(Errors::JumpCycle)));
}

#[test]
fn question_write_writes_name_type_and_class() {
    let mut q = Question::new();
    q.name = String::from("example.com");
    q.query_type = QueryType::Aaaa;
    q.class = 1;
    let mut buf = RawPacket::new();
    q.write(&mut buf).unwrap();
    assert_eq!(buf.cursor(), 17);
    assert_eq!(&buf.buf[..17], b"\x07example\x03com\x00\x00\x1C\x00\x01");
}

#[test]
fn question_write_with_a_long_label_is_invalid_label_len() {
    let mut q = Question::new();
    q.name = "b".repeat(64);
    let mut buf = RawPacket::new();
    assert!(matches!(q.write(&mut buf), Err(Errors::InvalidLabelLen)));
    assert_eq!(buf.cursor(), 0);
    assert!(buf.buf.iter().all(|b| *b == 0));
}

#[test]
fn question_write_that_does_not_fit_is_buffer_overflow() {
    let mut q = Question::new();
    q.name = String::from("a");
    let mut buf = RawPacket::new();
    buf.seek(506).unwrap();
    assert!(matches!(q.write(&mut buf), Err(Errors::BufferOverflow)));
    buf.seek(505).unwrap();
    q.write(&mut buf).unwrap();
    assert_eq!(buf.cursor(), 512);
}

#[test]
fn written_question_is_read_back() {
    let mut q = Question::new();
    q.name = String::from("ns1.example.org");
    q.query_type = QueryType::Unknown(257);
    q.class = 4;
    let mut buf = RawPacket::new();
    q.write(&mut buf).unwrap();
    let end = buf.cursor();
    buf.seek(0).unwrap();
    let mut back = Question::new();
    back.parse(&mut buf).unwrap();
    assert_eq!(back.name, q.name);
    assert_eq!(back.query_type, q.query_type);
    assert_eq!(back.class, q.class);
    assert_eq!(buf.cursor(), end);
}
