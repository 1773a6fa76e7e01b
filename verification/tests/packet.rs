use dns_wire::dns_packet::DNSPacket;
use dns_wire::errors::Errors;
use dns_wire::header::ResponseCode;
use dns_wire::question::QueryType;
use dns_wire::question::Question;
use dns_wire::raw_packet::RawPacket;
use dns_wire::record::Record;
use dns_wire::record::RecordPreamble;

fn buffer_with(bytes: &[u8]) -> RawPacket {
    let mut buf = RawPacket::new();
    buf.buf[..bytes.len()].copy_from_slice(bytes);
    buf
}

fn question(name: &str, query_type: QueryType) -> Question {
    let mut q = Question::new();
    q.name = String::from(name);
    q.query_type = query_type;
    q.class = 1;
    q
}

fn a_record(name: &str, ip: [u8; 4]) -> Record {
    Record::A {
        preamble: RecordPreamble {
            name: String::from(name),
            query_type: QueryType::A,
            class: 1,
            ttl: 60,
            len: 4,
        },
        ip,
    }
}

const ONE_ANSWER: &[u8] =
    b"\x00\x07\x81\x80\x00\x01\x00\x01\x00\x00\x00\x00\x01a\x00\x00\x01\x00\x01\xC0\x0C\x00\x01\x00\x01\x00\x00\x00\x3C\x00\x04\x01\x02\x03\x04";

#[test]
fn new_packet_is_empty() {
    let p = DNSPacket::new();
    assert_eq!(p.header.id, 0);
    assert_eq!(p.header.qd_count, 0);
    assert!(p.question_sec.is_empty());
    assert!(p.answer_sec.is_empty());
    assert!(p.authority_sec.is_empty());
    assert!(p.additional_sec.is_empty());
}

#[test]
fn packet_parse_reads_header_question_and_answer() {
    let mut buf = buffer_with(ONE_ANSWER);
    let mut p = DNSPacket::new();
    p.parse(&mut buf).unwrap();
    assert_eq!(p.header.id, 7);
    assert!(p.header.qr && p.header.rd && p.header.ra);
    assert_eq!(p.header.rcode, ResponseCode::Noerror);
    assert_eq!(p.question_sec.len(), 1);
    assert_eq!(p.question_sec[0].name, "a");
    assert_eq!(p.question_sec[0].query_type, QueryType::A);
    assert_eq!(p.answer_sec.len(), 1);
    match &p.answer_sec[0] {
        Record::A { preamble, ip } => {
            assert_eq!(preamble.name, "a");
            assert_eq!(*ip, [1, 2, 3, 4]);
        }
        other => panic!("not an A record: {:?}", other),
    }
    assert!(p.authority_sec.is_empty());
    assert!(p.additional_sec.is_empty());
    assert_eq!(buf.cursor(), 35);
}

#[test]
fn packet_parse_reads_as_many_entries_as_the_header_counts() {
    let mut bytes = b"\x00\x00\x00\x00\x00\x02\x00\x00\x00\x01\x00\x02".to_vec();
    bytes.extend_from_slice(b"\x01a\x00\x00\x01\x00\x01");
    bytes.extend_from_slice(b"\x01b\x00\x00\x02\x00\x01");
    bytes.extend_from_slice(b"\x01c\x00\x00\x02\x00\x01\x00\x00\x00\x00\x00\x03\x01n\x00");
    bytes.extend_from_slice(b"\x01d\x00\x00\x01\x00\x01\x00\x00\x00\x00\x00\x04\x09\x09\x09\x09");
    bytes.extend_from_slice(b"\x01e\x00\x00\x63\x00\x01\x00\x00\x00\x00\x00\x01\x55");
    let mut buf = buffer_with(&bytes);
    let mut p = DNSPacket::new();
    p.parse(&mut buf).unwrap();
    assert_eq!(p.question_sec.len(), 2);
    assert_eq!(p.answer_sec.len(), 0);
    assert_eq!(p.authority_sec.len(), 1);
    assert_eq!(p.additional_sec.len(), 2);
    assert_eq!(p.question_sec[1].name, "b");
    assert!(matches!(p.authority_sec[0], Record::NS { .. }));
    assert!(matches!(p.additional_sec[0], Record::A { .. }));
    assert!(matches!(p.additional_sec[1], Record::Unknown { .. }));
    assert_eq!(buf.cursor(), bytes.len());
}

#[test]
fn packet_with_fewer_answers_than_counted_is_refused() {
    let mut bytes = ONE_ANSWER.to_vec();
    bytes[7] = 2; // an_count = 2, one answer follows
    let mut buf = buffer_with(&bytes);
    let mut p = DNSPacket::new();
    assert!(matches!(p.parse(&mut buf), Err(Errors::RangeErr)));
}

#[test]
fn packet_whose_counted_answer_lies_behind_the_buffer_is_refused() {
    let mut buf = RawPacket::new();
    buf.buf[..12].copy_from_slice(b"\x00\x00\x00\x00\x00\x00\x00\x02\x00\x00\x00\x00");
    // one record of unknown type that fills the buffer to its last byte
    buf.buf[12..23].copy_from_slice(b"\x00\x00\x63\x00\x01\x00\x00\x00\x00\x01\xE9");
    let mut p = DNSPacket::new();
    assert!(matches!(p.parse(&mut buf), Err(Errors::BufferOverflow)));
    buf.buf[7] = 1;
    buf.seek(0).unwrap();
    let mut p = DNSPacket::new();
    p.parse(&mut buf).unwrap();
    assert_eq!(p.answer_sec.len(), 1);
    assert_eq!(buf.cursor(), 512);
}

#[test]
fn packet_parse_of_a_cut_header_is_buffer_end() {
    let mut buf = RawPacket::new();
    buf.seek(505).unwrap();
    let mut p = DNSPacket::new();
    assert!(matches!(p.parse(&mut buf), Err(Errors::BufferEnd)));
}

#[test]
fn packet_parse_appends_to_the_sections_it_finds() {
    let mut p = DNSPacket::new();
    p.question_sec.push(question("old", QueryType::NS));
    let mut buf = buffer_with(ONE_ANSWER);
    p.parse(&mut buf).unwrap();
    assert_eq!(p.question_sec.len(), 2);
    assert_eq!(p.question_sec[0].name, "old");
    assert_eq!(p.question_sec[1].name, "a");
}

#[test]
fn packet_write_writes_header_and_sections_in_order() {
    let mut p = DNSPacket::new();
    p.header.id = 7;
    p.header.qr = true;
    p.header.rd = true;
    p.header.ra = true;
    p.header.qd_count = 1;
    p.header.an_count = 1;
    p.question_sec.push(question("a", QueryType::A));
    p.answer_sec.push(a_record("a", [1, 2, 3, 4]));
    let mut buf = RawPacket::new();
    p.write(&mut buf).unwrap();
    assert_eq!(
        &buf.buf[..buf.cursor()],
        b"\x00\x07\x81\x80\x00\x01\x00\x01\x00\x00\x00\x00\x01a\x00\x00\x01\x00\x01\x01a\x00\x00\x01\x00\x01\x00\x00\x00\x3C\x00\x04\x01\x02\x03\x04"
    );
}

#[test]
fn packet_write_writes_the_counts_as_they_stand() {
    let mut p = DNSPacket::new();
    p.header.an_count = 5;
    p.question_sec.push(question("a", QueryType::A));
    let mut buf = RawPacket::new();
    p.write(&mut buf).unwrap();
    assert_eq!(&buf.buf[4..8], &[0, 0, 0, 5]);
    assert_eq!(buf.cursor(), 19);
}

#[test]
fn packet_write_with_a_long_label_is_invalid_label_len() {
    let mut p = DNSPacket::new();
    p.question_sec.push(question("ok", QueryType::A));
    p.question_sec.push(question(&"e".repeat(64), QueryType::A));
    let mut buf = RawPacket::new();
    assert!(matches!(p.write(&mut buf), Err(Errors::InvalidLabelLen)));
}

#[test]
fn packet_write_that_does_not_fit_is_buffer_overflow() {
    let mut p = DNSPacket::new();
    for _ in 0..40 {
        p.answer_sec.push(a_record("a", [1, 2, 3, 4]));
    }
    let mut buf = RawPacket::new();
    assert!(matches!(p.write(&mut buf), Err(Errors::BufferOverflow)));
    let mut buf = RawPacket::new();
    buf.seek(501).unwrap();
    assert!(matches!(DNSPacket::new().write(&mut buf), Err(Errors::BufferOverflow)));
}

#[test]
fn written_packet_is_read_back() {
    let mut p = DNSPacket::new();
    p.header.id = 0xBEEF;
    p.header.qr = true;
    p.header.aa = true;
    p.header.op_code = 2;
    p.header.z = 5;
    p.header.rcode = ResponseCode::Servfail;
    p.header.qd_count = 1;
    p.header.an_count = 2;
    p.header.ns_count = 1;
    p.header.ar_count = 1;
    p.question_sec.push(question("www.example.com", QueryType::A));
    p.answer_sec.push(a_record("www.example.com", [93, 184, 216, 34]));
    p.answer_sec.push(Record::Cname {
        preamble: RecordPreamble {
            name: String::from("www.example.com"),
            query_type: QueryType::Cname,
            class: 1,
            ttl: 1,
            len: 13,
        },
        name: String::from("example.com"),
    });
    p.authority_sec.push(Record::NS {
        preamble: RecordPreamble {
            name: String::from("example.com"),
            query_type: QueryType::NS,
            class: 1,
            ttl: 2,
            len: 17,
        },
        name: String::from("ns1.example.com"),
    });
    p.additional_sec.push(Record::Unknown {
        preamble: RecordPreamble {
            name: String::from("example.com"),
            query_type: QueryType::Unknown(41),
            class: 4096,
            ttl: 0,
            len: 3,
        },
        data: vec![0, 0xC0, 0xFF],
    });
    let mut buf = RawPacket::new();
    p.write(&mut buf).unwrap();
    let end = buf.cursor();
    buf.seek(0).unwrap();
    let mut back = DNSPacket::new();
    back.parse(&mut buf).unwrap();
    assert_eq!(buf.cursor(), end);
    assert_eq!(back.header, p.header);
    assert_eq!(format!("{:?}", back.question_sec), format!("{:?}", p.question_sec));
    assert_eq!(format!("{:?}", back.answer_sec), format!("{:?}", p.answer_sec));
    assert_eq!(format!("{:?}", back.authority_sec), format!("{:?}", p.authority_sec));
    assert_eq!(format!("{:?}", back.additional_sec), format!("{:?}", p.additional_sec));
}

#[test]
fn packet_that_fills_the_buffer_is_read_back() {
    let mut p = DNSPacket::new();
    p.header.an_count = 1;
    p.answer_sec.push(Record::Unknown {
        preamble: RecordPreamble {
            name: String::from("x"),
            query_type: QueryType::Unknown(300),
            class: 1,
            ttl: 9,
            len: 487,
        },
        data: vec![0x5A; 487],
    });
    let mut buf = RawPacket::new();
    p.write(&mut buf).unwrap();
    assert_eq!(buf.cursor(), 512);
    buf.seek(0).unwrap();
    let mut back = DNSPacket::new();
    back.parse(&mut buf).unwrap();
    assert_eq!(format!("{:?}", back.answer_sec), format!("{:?}", p.answer_sec));
    assert_eq!(buf.cursor(), 512);
}
