use redextract::reader::ArchiveCursor;

#[test]
fn reads_little_endian_numbers_in_sequence() {
    let data = [0x01u8, 0x02, 0x03, 0x04, 0x05, 0x06, 0x07];
    let mut cursor = ArchiveCursor { data: &data, pos: 0 };
    assert_eq!(cursor.read_u32(), 0x0403_0201);
    assert_eq!(cursor.pos, 4);
    assert_eq!(cursor.read_u16(), 0x0605);
    assert_eq!(cursor.read_u8(), 0x07);
    assert_eq!(cursor.pos, 7);
}

#[test]
fn reads_u64() {
    let data = [0x88u8, 0x77, 0x66, 0x55, 0x44, 0x33, 0x22, 0x11];
    let mut cursor = ArchiveCursor { data: &data, pos: 0 };
    assert_eq!(cursor.read_u64(), 0x1122_3344_5566_7788);
    assert_eq!(cursor.pos, 8);
}

#[test]
fn reads_u32_max() {
    let data = [0xffu8; 4];
    let mut cursor = ArchiveCursor { data: &data, pos: 0 };
    assert_eq!(cursor.read_u32(), u32::MAX);
}

#[test]
fn reads_slices_and_strings() {
    let data = b"abcHello\xffz";
    let mut cursor = ArchiveCursor { data, pos: 0 };
    assert_eq!(cursor.read_slice(3), b"abc");
    assert_eq!(cursor.read_string(5), "Hello");
    assert_eq!(cursor.read_string(2), "\u{FFFD}z");
    assert_eq!(cursor.pos, data.len());
}

#[test]
fn reads_empty_slice() {
    let data = [1u8, 2];
    let mut cursor = ArchiveCursor { data: &data, pos: 2 };
    assert_eq!(cursor.read_slice(0), b"");
    assert_eq!(cursor.pos, 2);
}
