use pathfinder::util::Cursor;

#[test]
fn cursor_reads_big_endian_numbers() {
    let bytes = [0x12u8, 0x34, 0xFF, 0xFE, 0x01, 0x02, 0x03, 0x04, 0x7F];
    let mut cursor = Cursor::new(&bytes);
    assert_eq!(cursor.position(), 0);
    assert_eq!(cursor.read_u16(), Ok(0x1234));
    assert_eq!(cursor.position(), 2);
    assert_eq!(cursor.read_i16(), Ok(-2));
    assert_eq!(cursor.read_u32(), Ok(0x0102_0304));
    assert_eq!(cursor.read_u8(), Ok(0x7F));
    assert_eq!(cursor.position(), 9);
}

#[test]
fn cursor_reads_extreme_values() {
    let bytes = [0x80u8, 0x00, 0x7F, 0xFF, 0xFF, 0xFF, 0xFF, 0xFF, 0x00, 0x01];
    let mut cursor = Cursor::new(&bytes);
    assert_eq!(cursor.read_i16(), Ok(i16::MIN));
    assert_eq!(cursor.read_i16(), Ok(i16::MAX));
    assert_eq!(cursor.read_u32(), Ok(u32::MAX));
    assert_eq!(cursor.read_u16(), Ok(1));
}

#[test]
fn cursor_byte_order_is_not_little_endian() {
    let bytes = [0x00u8, 0x01, 0x00, 0x00, 0x00, 0x02];
    let mut cursor = Cursor::new(&bytes);
    assert_eq!(cursor.read_u16(), Ok(1));
    assert_eq!(cursor.read_u32(), Ok(2));
}

#[test]
fn cursor_fails_at_the_end_and_stays() {
    let bytes = [0xABu8, 0xCD, 0xEF];
    let mut cursor = Cursor::new(&bytes);
    assert_eq!(cursor.read_u32(), Err(()));
    assert_eq!(cursor.position(), 0);
    assert_eq!(cursor.read_u16(), Ok(0xABCD));
    assert_eq!(cursor.read_u16(), Err(()));
    assert_eq!(cursor.read_i16(), Err(()));
    assert_eq!(cursor.position(), 2);
    assert_eq!(cursor.read_u8(), Ok(0xEF));
    assert_eq!(cursor.read_u8(), Err(()));
    assert_eq!(cursor.position(), 3);
}

#[test]
fn cursor_jumps_to_the_end_but_not_beyond() {
    let bytes = [1u8, 2, 3, 4];
    let mut cursor = Cursor::new(&bytes);
    assert_eq!(cursor.jump(0), Ok(()));
    assert_eq!(cursor.jump(3), Ok(()));
    assert_eq!(cursor.position(), 3);
    assert_eq!(cursor.jump(2), Err(()));
    assert_eq!(cursor.position(), 3);
    assert_eq!(cursor.jump(1), Ok(()));
    assert_eq!(cursor.position(), 4);
    assert_eq!(cursor.jump(usize::MAX), Err(()));
    assert_eq!(cursor.jump(0), Ok(()));
    assert_eq!(cursor.read_u8(), Err(()));
}

#[test]
fn cursor_copies_read_independently() {
    let bytes = [0u8, 7, 0, 9];
    let mut first = Cursor::new(&bytes);
    let mut second = first;
    assert_eq!(second.jump(2), Ok(()));
    assert_eq!(first.read_u16(), Ok(7));
    assert_eq!(second.read_u16(), Ok(9));
}

#[test]
fn cursor_over_an_empty_buffer() {
    let bytes: [u8; 0] = [];
    let mut cursor = Cursor::new(&bytes);
    assert_eq!(cursor.jump(0), Ok(()));
    assert_eq!(cursor.read_u8(), Err(()));
    assert_eq!(cursor.read_u16(), Err(()));
    assert_eq!(cursor.jump(1), Err(()));
}
