use dns_wire::errors::Errors;
use dns_wire::raw_packet::RawPacket;
use dns_wire::raw_packet::PACKET_SIZE;

fn buffer_with(bytes: &[u8]) -> RawPacket {
    let mut buf = RawPacket::new();
    buf.buf[..bytes.len()].copy_from_slice(bytes);
    buf
}

#[test]
fn new_buffer_is_zeroed_with_cursor_at_start() {
    let buf = RawPacket::new();
    assert_eq!(buf.cursor(), 0);
    assert_eq!(buf.buf.len(), 512);
    assert_eq!(PACKET_SIZE, 512);
    assert!(buf.buf.iter().all(|b| *b == 0));
}

#[test]
fn read_u8_reads_and_advances() {
    let mut buf = buffer_with(&[7, 9]);
    assert_eq!(buf.read_u8().unwrap(), 7);
    assert_eq!(buf.cursor(), 1);
    assert_eq!(buf.read_u8().unwrap(), 9);
    assert_eq!(buf.cursor(), 2);
}

#[test]
fn read_u8_at_end_is_buffer_end() {
    let mut buf = RawPacket::new();
    buf.seek(511).unwrap();
    assert_eq!(buf.read_u8().unwrap(), 0);
    assert_eq!(buf.cursor(), 512);
    assert!(matches!(buf.read_u8(), Err(Errors::BufferEnd)));
    assert_eq!(buf.cursor(), 512);
}

#[test]
fn read_u16_is_big_endian() {
    let mut buf = buffer_with(&[0x12, 0x34]);
    assert_eq!(buf.read_u16().unwrap(), 0x1234);
    assert_eq!(buf.cursor(), 2);
}

#[test]
fn read_u32_is_big_endian() {
    let mut buf = buffer_with(&[0xDE, 0xAD, 0xBE, 0xEF]);
    assert_eq!(buf.read_u32().unwrap(), 0xDEADBEEF);
    assert_eq!(buf.cursor(), 4);
}

#[test]
fn read_u16_with_one_byte_left_fails_at_the_end() {
    let mut buf = RawPacket::new();
    buf.seek(511).unwrap();
    assert!(matches!(buf.read_u16(), Err(Errors::BufferEnd)));
    assert_eq!(buf.cursor(), 512);
}

#[test]
fn read_u32_with_three_bytes_left_fails_at_the_end() {
    let mut buf = RawPacket::new();
    buf.seek(509).unwrap();
    assert!(matches!(buf.read_u32(), Err(Errors::BufferEnd)));
    assert_eq!(buf.cursor(), 512);
}

#[test]
fn write_u16_then_read_u16_gives_the_value_back() {
    let mut buf = RawPacket::new();
    buf.write_u16(0x1234).unwrap();
    assert_eq!(buf.cursor(), 2);
    assert_eq!(&buf.buf[..2], &[0x12, 0x34]);
    buf.seek(0).unwrap();
    assert_eq!(buf.read_u16().unwrap(), 0x1234);
}

#[test]
fn write_u32_then_read_u32_gives_the_value_back() {
    let mut buf = RawPacket::new();
    buf.write_u32(0x0102_0304).unwrap();
    assert_eq!(buf.cursor(), 4);
    assert_eq!(&buf.buf[..4], &[1, 2, 3, 4]);
    buf.seek(0).unwrap();
    assert_eq!(buf.read_u32().unwrap(), 0x0102_0304);
}

#[test]
fn write_u8_fills_the_last_byte_and_then_overflows() {
    let mut buf = RawPacket::new();
    buf.seek(511).unwrap();
    buf.write_u8(0xAB).unwrap();
    assert_eq!(buf.buf[511], 0xAB);
    assert_eq!(buf.cursor(), 512);
    assert!(matches!(buf.write_u8(1), Err(Errors::BufferOverflow)));
    assert_eq!(buf.cursor(), 512);
}

#[test]
fn write_u16_with_one_byte_left_writes_it_and_fails() {
    let mut buf = RawPacket::new();
    buf.seek(511).unwrap();
    assert!(matches!(buf.write_u16(0xA1B2), Err(Errors::BufferOverflow)));
    assert_eq!(buf.buf[511], 0xA1);
    assert_eq!(buf.cursor(), 512);
}

#[test]
fn write_u32_with_two_bytes_left_fails() {
    let mut buf = RawPacket::new();
    buf.seek(510).unwrap();
    assert!(matches!(buf.write_u32(0x01020304), Err(Errors::BufferOverflow)));
    assert_eq!(&buf.buf[510..], &[1, 2]);
    assert_eq!(buf.cursor(), 512);
}

#[test]
fn write_bytes_copies_and_advances() {
    let mut buf = RawPacket::new();
    buf.write_bytes(&[1, 2, 3]).unwrap();
    assert_eq!(&buf.buf[..4], &[1, 2, 3, 0]);
    assert_eq!(buf.cursor(), 3);
}

#[test]
fn write_bytes_that_do_not_fit_fail() {
    let mut buf = RawPacket::new();
    buf.seek(510).unwrap();
    assert!(matches!(buf.write_bytes(&[1, 2, 3]), Err(Errors::BufferOverflow)));
    assert_eq!(&buf.buf[510..], &[1, 2]);
    assert_eq!(buf.cursor(), 512);
}

#[test]
fn seek_moves_within_the_buffer() {
    let mut buf = RawPacket::new();
    buf.seek(100).unwrap();
    assert_eq!(buf.cursor(), 100);
    buf.seek(512).unwrap();
    assert_eq!(buf.cursor(), 512);
}

#[test]
fn seek_behind_the_end_is_buffer_overflow() {
    let mut buf = RawPacket::new();
    buf.seek(10).unwrap();
    assert!(matches!(buf.seek(513), Err(Errors::BufferOverflow)));
    assert_eq!(buf.cursor(), 10);
    assert!(matches!(buf.seek(usize::MAX), Err(Errors::BufferOverflow)));
}

#[test]
fn step_moves_forward() {
    let mut buf = RawPacket::new();
    buf.step(5).unwrap();
    buf.step(7).unwrap();
    assert_eq!(buf.cursor(), 12);
    buf.step(500).unwrap();
    assert_eq!(buf.cursor(), 512);
}

#[test]
fn step_behind_the_end_is_buffer_overflow() {
    let mut buf = RawPacket::new();
    buf.step(12).unwrap();
    assert!(matches!(buf.step(501), Err(Errors::BufferOverflow)));
    assert_eq!(buf.cursor(), 12);
    assert!(matches!(buf.step(usize::MAX), Err(Errors::BufferOverflow)));
    assert_eq!(buf.cursor(), 12);
}

#[test]
fn get_byte_at_does_not_move_the_cursor() {
    let buf = buffer_with(&[5, 6, 7]);
    assert_eq!(buf.get_byte_at(2).unwrap(), 7);
    assert_eq!(buf.cursor(), 0);
    assert_eq!(buf.get_byte_at(511).unwrap(), 0);
}

#[test]
fn get_byte_at_outside_is_buffer_overflow() {
    let buf = RawPacket::new();
    assert!(matches!(buf.get_byte_at(512), Err(Errors::BufferOverflow)));
}

#[test]
fn get_bytes_from_is_inclusive() {
    let buf = buffer_with(&[1, 2, 3, 4, 5]);
    assert_eq!(buf.get_bytes_from(1, 3).unwrap(), &[2, 3, 4]);
    assert_eq!(buf.get_bytes_from(2, 2).unwrap(), &[3]);
    assert_eq!(buf.get_bytes_from(0, 511).unwrap().len(), 512);
    assert_eq!(buf.cursor(), 0);
}

#[test]
fn get_bytes_from_with_start_after_end_is_range_err() {
    let buf = RawPacket::new();
    assert!(matches!(buf.get_bytes_from(3, 2), Err(Errors::RangeErr)));
    assert!(matches!(buf.get_bytes_from(600, 2), Err(Errors::RangeErr)));
}

#[test]
fn get_bytes_from_outside_is_buffer_overflow() {
    let buf = RawPacket::new();
    assert!(matches!(buf.get_bytes_from(2, 512), Err(Errors::BufferOverflow)));
    assert!(matches!(buf.get_bytes_from(512, 512), Err(Errors::BufferOverflow)));
}

#[test]
fn set_u16_patches_without_moving_the_cursor() {
    let mut buf = RawPacket::new();
    buf.write_bytes(&[9, 9, 9, 9]).unwrap();
    buf.set_u16(1, 0xABCD).unwrap();
    assert_eq!(&buf.buf[..4], &[9, 0xAB, 0xCD, 9]);
    assert_eq!(buf.cursor(), 4);
    buf.set_u16(510, 0x0102).unwrap();
    assert_eq!(&buf.buf[510..], &[1, 2]);
}

#[test]
fn set_u16_outside_is_buffer_overflow_and_writes_nothing() {
    let mut buf = RawPacket::new();
    assert!(matches!(buf.set_u16(511, 0xFFFF), Err(Errors::BufferOverflow)));
    assert_eq!(buf.buf[511], 0);
    assert!(matches!(buf.set_u16(usize::MAX, 1), Err(Errors::BufferOverflow)));
}
