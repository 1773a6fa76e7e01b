use dns_wire::errors::Errors;
use dns_wire::header::Header;
use dns_wire::header::ResponseCode;
use dns_wire::raw_packet::RawPacket;

fn buffer_with(bytes: &[u8]) -> RawPacket {
    let mut buf = RawPacket::new();
    buf.buf[..bytes.len()].copy_from_slice(bytes);
    buf
}

#[test]
fn response_code_from_num_maps_the_six_codes() {
    assert_eq!(ResponseCode::from_num(0), ResponseCode::Noerror);
    assert_eq!(ResponseCode::from_num(1), ResponseCode::Former);
    assert_eq!(ResponseCode::from_num(2), ResponseCode::Servfail);
    assert_eq!(ResponseCode::from_num(3), ResponseCode::Nxdomain);
    assert_eq!(ResponseCode::from_num(4), ResponseCode::Notimp);
    assert_eq!(ResponseCode::from_num(5), ResponseCode::Refused);
}

#[test]
fn response_code_from_unknown_num_is_noerror() {
    assert_eq!(ResponseCode::from_num(6), ResponseCode::Noerror);
    assert_eq!(ResponseCode::from_num(15), ResponseCode::Noerror);
    assert_eq!(ResponseCode::from_num(255), ResponseCode::Noerror);
}

#[test]
fn response_code_to_num_is_the_inverse_on_known_codes() {
    for n in 0u8..=5 {
        assert_eq!(ResponseCode::from_num(n).to_num(), n);
    }
}

#[test]
fn new_header_is_all_zero() {
    let h = Header::new();
    assert_eq!(h.id, 0);
    assert!(!h.qr && !h.aa && !h.tc && !h.rd && !h.ra);
    assert_eq!(h.op_code, 0);
    assert_eq!(h.z, 0);
    assert_eq!(h.rcode, ResponseCode::Noerror);
    assert_eq!((h.qd_count, h.an_count, h.ns_count, h.ar_count), (0, 0, 0, 0));
}

#[test]
fn header_parse_unpacks_every_field() {
    let mut buf = buffer_with(&[
        0x1A, 0x2B, // id
        0b1010_1101, // qr, op_code 5, aa, rd
        0b1011_0011, // ra, z 3, rcode 3
        0x00, 0x01, 0x00, 0x02, 0x00, 0x03, 0x01, 0x00,
    ]);
    let mut h = Header::new();
    h.parse(&mut buf).unwrap();
    assert_eq!(h.id, 0x1A2B);
    assert!(h.qr);
    assert_eq!(h.op_code, 5);
    assert!(h.aa);
    assert!(!h.tc);
    assert!(h.rd);
    assert!(h.ra);
    assert_eq!(h.z, 3);
    assert_eq!(h.rcode, ResponseCode::Nxdomain);
    assert_eq!(h.qd_count, 1);
    assert_eq!(h.an_count, 2);
    assert_eq!(h.ns_count, 3);
    assert_eq!(h.ar_count, 256);
    assert_eq!(buf.cursor(), 12);
}

#[test]
fn header_parse_reads_the_truncated_flag() {
    let mut buf = buffer_with(&[0, 0, 0b0000_0010, 0, 0, 0, 0, 0, 0, 0, 0, 0]);
    let mut h = Header::new();
    h.parse(&mut buf).unwrap();
    assert!(h.tc);
    assert!(!h.qr && !h.aa && !h.rd);
}

#[test]
fn header_parse_takes_an_unknown_response_code_as_noerror() {
    let mut buf = buffer_with(&[0, 0, 0, 0x0F, 0, 0, 0, 0, 0, 0, 0, 0]);
    let mut h = Header::new();
    h.parse(&mut buf).unwrap();
    assert_eq!(h.rcode, ResponseCode::Noerror);
}

#[test]
fn header_parse_with_fewer_than_twelve_bytes_is_buffer_end() {
    let mut buf = RawPacket::new();
    buf.seek(501).unwrap();
    let mut h = Header::new();
    assert!(matches!(h.parse(&mut buf), Err(Errors::BufferEnd)));
    assert_eq!(buf.cursor(), 512);
}

#[test]
fn header_parse_of_the_last_twelve_bytes_succeeds() {
    let mut buf = RawPacket::new();
    buf.seek(500).unwrap();
    let mut h = Header::new();
    h.parse(&mut buf).unwrap();
    assert_eq!(buf.cursor(), 512);
}

#[test]
fn header_write_packs_every_field() {
    let mut h = Header::new();
    h.id = 0x1A2B;
    h.qr = true;
    h.op_code = 5;
    h.aa = true;
    h.rd = true;
    h.ra = true;
    h.z = 3;
    h.rcode = ResponseCode::Nxdomain;
    h.qd_count = 1;
    h.an_count = 2;
    h.ns_count = 3;
    h.ar_count = 256;
    let mut buf = RawPacket::new();
    h.write(&mut buf).unwrap();
    assert_eq!(buf.cursor(), 12);
    assert_eq!(
        &buf.buf[..12],
        &[0x1A, 0x2B, 0b1010_1101, 0b1011_0011, 0, 1, 0, 2, 0, 3, 1, 0]
    );
}

#[test]
fn header_write_of_a_plain_query() {
    let mut h = Header::new();
    h.id = 0x1A2B;
    h.rd = true;
    h.qd_count = 1;
    let mut buf = RawPacket::new();
    h.write(&mut buf).unwrap();
    assert_eq!(&buf.buf[..12], &[0x1A, 0x2B, 0x01, 0x00, 0, 1, 0, 0, 0, 0, 0, 0]);
}

#[test]
fn header_write_keeps_the_low_bits_of_wide_fields() {
    let mut h = Header::new();
    h.op_code = 0x1F;
    h.z = 0x0F;
    let mut buf = RawPacket::new();
    h.write(&mut buf).unwrap();
    assert_eq!(buf.buf[2], 0b0111_1000);
    assert_eq!(buf.buf[3], 0b0111_0000);
}

#[test]
fn header_write_with_fewer_than_twelve_bytes_is_buffer_overflow() {
    let mut buf = RawPacket::new();
    buf.seek(501).unwrap();
    let h = Header::new();
    assert!(matches!(h.write(&mut buf), Err(Errors::BufferOverflow)));
    assert_eq!(buf.cursor(), 512);
}

#[test]
fn written_header_is_read_back() {
    let mut h = Header::new();
    h.id = 0xFFFF;
    h.qr = true;
    h.op_code = 15;
    h.tc = true;
    h.z = 7;
    h.rcode = ResponseCode::Refused;
    h.ar_count = 0xFFFF;
    let mut buf = RawPacket::new();
    buf.seek(100).unwrap();
    h.write(&mut buf).unwrap();
    buf.seek(100).unwrap();
    let mut back = Header::new();
    back.parse(&mut buf).unwrap();
    assert_eq!(back, h);
}
