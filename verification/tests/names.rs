use dns_wire::errors::Errors;
use dns_wire::name::encode_name;
use dns_wire::name::label_string;
use dns_wire::raw_packet::RawPacket;

fn buffer_with(bytes: &[u8]) -> RawPacket {
    let mut buf = RawPacket::new();
    buf.buf[..bytes.len()].copy_from_slice(bytes);
    buf
}

fn read_name(buf: &mut RawPacket) -> Result<String, Errors> {
    let mut out = String::new();
    buf.read_query_name(&mut out)?;
    Ok(out)
}

#[test]
fn encode_name_prefixes_each_label_with_its_length() {
    assert_eq!(
        encode_name(b"example.com").unwrap(),
        vec![7, b'e', b'x', b'a', b'm', b'p', b'l', b'e', 3, b'c', b'o', b'm', 0]
    );
}

#[test]
fn encode_name_of_one_label() {
    assert_eq!(encode_name(b"a").unwrap(), vec![1, b'a', 0]);
}

#[test]
fn encode_name_of_the_empty_name_is_one_empty_label() {
    assert_eq!(encode_name(b"").unwrap(), vec![0, 0]);
}

#[test]
fn encode_name_keeps_empty_labels() {
    assert_eq!(encode_name(b"a..b").unwrap(), vec![1, b'a', 0, 1, b'b', 0]);
    assert_eq!(encode_name(b"a.").unwrap(), vec![1, b'a', 0, 0]);
    assert_eq!(encode_name(b".a").unwrap(), vec![0, 1, b'a', 0]);
}

#[test]
fn encode_name_takes_a_label_of_63_bytes() {
    let label = [b'x'; 63];
    let wire = encode_name(&label).unwrap();
    assert_eq!(wire.len(), 65);
    assert_eq!(wire[0], 63);
    assert_eq!(wire[64], 0);
}

#[test]
fn encode_name_refuses_a_label_of_64_bytes() {
    let label = [b'x'; 64];
    assert!(encode_name(&label).is_none());
    let mut name = b"ok.".to_vec();
    name.extend_from_slice(&label);
    name.extend_from_slice(b".com");
    assert!(encode_name(&name).is_none());
}

#[test]
fn write_query_name_writes_the_wire_form() {
    let mut buf = RawPacket::new();
    buf.write_query_name("example.com").unwrap();
    assert_eq!(buf.cursor(), 13);
    assert_eq!(&buf.buf[..13], b"\x07example\x03com\x00");
}

#[test]
fn write_query_name_with_a_long_label_is_invalid_label_len() {
    let mut buf = RawPacket::new();
    buf.write_u8(0xEE).unwrap();
    let name = format!("www.{}.com", "a".repeat(64));
    assert!(matches!(buf.write_query_name(&name), Err(Errors::InvalidLabelLen)));
    assert_eq!(buf.cursor(), 1);
    assert!(buf.buf[1..].iter().all(|b| *b == 0));
}

#[test]
fn write_query_name_that_does_not_fit_is_buffer_overflow() {
    let mut buf = RawPacket::new();
    buf.seek(505).unwrap();
    assert!(matches!(buf.write_query_name("example.com"), Err(Errors::BufferOverflow)));
    assert_eq!(buf.cursor(), 512);
    assert_eq!(&buf.buf[505..], b"\x07exampl");
}

#[test]
fn read_query_name_joins_labels_with_dots() {
    let mut buf = buffer_with(b"\x07example\x03com\x00\xFF");
    assert_eq!(read_name(&mut buf).unwrap(), "example.com");
    assert_eq!(buf.cursor(), 13);
}

#[test]
fn read_query_name_lower_cases_labels() {
    let mut buf = buffer_with(b"\x03WwW\x07ExAmPlE\x03COM\x00");
    assert_eq!(read_name(&mut buf).unwrap(), "www.example.com");
}

#[test]
fn read_query_name_of_the_root_is_empty() {
    let mut buf = buffer_with(&[0, 9]);
    assert_eq!(read_name(&mut buf).unwrap(), "");
    assert_eq!(buf.cursor(), 1);
}

#[test]
fn read_query_name_appends_to_the_output() {
    let mut buf = buffer_with(b"\x03com\x00");
    let mut out = String::from("x");
    buf.read_query_name(&mut out).unwrap();
    assert_eq!(out, "xcom");
}

#[test]
fn read_query_name_follows_a_pointer_and_stops_behind_it() {
    // "com" at 0; at 5: "example" then a pointer to 0; then a marker byte.
    let mut bytes = b"\x03com\x00".to_vec();
    bytes.extend_from_slice(b"\x07example\xC0\x00\x55");
    let mut buf = buffer_with(&bytes);
    buf.seek(5).unwrap();
    assert_eq!(read_name(&mut buf).unwrap(), "example.com");
    assert_eq!(buf.cursor(), 15);
    assert_eq!(buf.read_u8().unwrap(), 0x55);
}

#[test]
fn read_query_name_uses_the_low_fourteen_bits_of_a_pointer() {
    let mut buf = RawPacket::new();
    buf.buf[0] = 0xC1;
    buf.buf[1] = 0x2C; // offset 0x012C = 300
    buf.buf[300..305].copy_from_slice(b"\x03net\x00");
    assert_eq!(read_name(&mut buf).unwrap(), "net");
    assert_eq!(buf.cursor(), 2);
}

#[test]
fn read_query_name_follows_four_pointers() {
    let mut buf = RawPacket::new();
    buf.buf[0..2].copy_from_slice(&[0xC0, 10]);
    buf.buf[10..12].copy_from_slice(&[0xC0, 20]);
    buf.buf[20..22].copy_from_slice(&[0xC0, 30]);
    buf.buf[30..32].copy_from_slice(&[0xC0, 40]);
    buf.buf[40..44].copy_from_slice(b"\x02ok\x00");
    assert_eq!(read_name(&mut buf).unwrap(), "ok");
    assert_eq!(buf.cursor(), 2);
}

#[test]
fn read_query_name_gives_up_at_the_fifth_pointer() {
    let mut buf = RawPacket::new();
    buf.buf[0..2].copy_from_slice(&[0xC0, 10]);
    buf.buf[10..12].copy_from_slice(&[0xC0, 20]);
    buf.buf[20..22].copy_from_slice(&[0xC0, 30]);
    buf.buf[30..32].copy_from_slice(&[0xC0, 40]);
    buf.buf[40..42].copy_from_slice(&[0xC0, 50]);
    buf.buf[50..54].copy_from_slice(b"\x02ok\x00");
    assert!(matches!(read_name(&mut buf), Err(Errors::JumpCycle)));
    assert_eq!(buf.cursor(), 2);
}

#[test]
fn read_query_name_of_a_pointer_to_itself_is_jump_cycle() {
    let mut buf = buffer_with(&[0xC0, 0x00]);
    assert!(matches!(read_name(&mut buf), Err(Errors::JumpCycle)));
}

#[test]
fn read_query_name_of_a_cycle_of_two_is_jump_cycle() {
    let mut buf = buffer_with(&[0xC0, 0x02, 0xC0, 0x00]);
    assert!(matches!(read_name(&mut buf), Err(Errors::JumpCycle)));
}

#[test]
fn read_query_name_keeps_labels_read_before_a_cycle() {
    let mut buf = buffer_with(b"\x01a\xC0\x00");
    let mut out = String::new();
    assert!(matches!(buf.read_query_name(&mut out), Err(Errors::JumpCycle)));
    assert_eq!(out, "a.a.a.a.a");
    assert_eq!(buf.cursor(), 4);
}

#[test]
fn read_query_name_that_leaves_the_buffer_is_buffer_overflow() {
    let mut buf = RawPacket::new();
    buf.buf[508] = 5;
    buf.seek(508).unwrap();
    assert!(matches!(read_name(&mut buf), Err(Errors::BufferOverflow)));
    assert_eq!(buf.cursor(), 508);
}

#[test]
fn read_query_name_without_a_closing_zero_is_buffer_overflow() {
    let mut buf = RawPacket::new();
    for b in buf.buf.iter_mut() {
        *b = 1;
    }
    assert!(matches!(read_name(&mut buf), Err(Errors::BufferOverflow)));
}

#[test]
fn read_query_name_of_a_pointer_outside_is_buffer_overflow() {
    let mut buf = buffer_with(&[0xFF, 0xFF]);
    assert!(matches!(read_name(&mut buf), Err(Errors::BufferOverflow)));
    assert_eq!(buf.cursor(), 2);
}

#[test]
fn read_query_name_of_half_a_pointer_at_the_end_is_buffer_overflow() {
    let mut buf = RawPacket::new();
    buf.buf[511] = 0xC0;
    buf.seek(511).unwrap();
    assert!(matches!(read_name(&mut buf), Err(Errors::BufferOverflow)));
    assert_eq!(buf.cursor(), 511);
}

#[test]
fn read_query_name_that_ends_with_the_buffer_is_read() {
    let mut buf = RawPacket::new();
    buf.buf[508..512].copy_from_slice(b"\x02ab\x00");
    buf.seek(508).unwrap();
    assert_eq!(read_name(&mut buf).unwrap(), "ab");
    assert_eq!(buf.cursor(), 512);
}

#[test]
fn read_query_name_takes_a_length_above_63_as_a_length() {
    let mut buf = RawPacket::new();
    buf.buf[0] = 64;
    for b in buf.buf[1..65].iter_mut() {
        *b = b'Z';
    }
    assert_eq!(read_name(&mut buf).unwrap(), "z".repeat(64));
    assert_eq!(buf.cursor(), 66);
}

#[test]
fn read_query_name_replaces_bytes_that_are_no_utf8() {
    let mut buf = buffer_with(&[2, 0xFF, b'A', 0]);
    assert_eq!(read_name(&mut buf).unwrap(), "\u{FFFD}a");
}

#[test]
fn read_query_name_lower_cases_beyond_ascii() {
    let mut buf = buffer_with(&[2, 0xC3, 0x89, 0]); // U+00C9
    assert_eq!(read_name(&mut buf).unwrap(), "\u{E9}");
}

#[test]
fn written_name_is_read_back() {
    let mut buf = RawPacket::new();
    buf.write_query_name("mail.example.org").unwrap();
    let end = buf.cursor();
    buf.seek(0).unwrap();
    assert_eq!(read_name(&mut buf).unwrap(), "mail.example.org");
    assert_eq!(buf.cursor(), end);
}

#[test]
fn label_string_lower_cases_ascii_capitals_only() {
    assert_eq!(label_string(b"Example-42_Z"), "example-42_z");
    assert_eq!(label_string(b"@AZ[`az{"), "@az[`az{");
    assert_eq!(label_string(b""), "");
}

#[test]
fn label_string_takes_other_bytes_as_utf8_text() {
    assert_eq!(label_string("M\u{DC}NCHEN".as_bytes()), "m\u{FC}nchen");
    assert_eq!(label_string(&[b'A', 0x80, b'B']), "a\u{FFFD}b");
}
