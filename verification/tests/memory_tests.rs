use lib::memory::Memory;

#[test]
fn new_memory_is_zeroed() {
    let m = Memory::new(16);
    assert_eq!(m.data.len(), 16);
    assert!(m.data.iter().all(|b| *b == 0));
}

#[test]
fn byte_write_then_read() {
    let mut m = Memory::new(8);
    m.write_u8(3, 0xAB);
    assert_eq!(m.read_u8(3), 0xAB);
    assert_eq!(m.read_u8(2), 0);
    assert_eq!(m.read_u8(4), 0);
}

#[test]
fn word_is_little_endian() {
    let mut m = Memory::new(8);
    m.write_u32(2, 0x1234_5678);
    assert_eq!(m.data, vec![0, 0, 0x78, 0x56, 0x34, 0x12, 0, 0]);
    assert_eq!(m.read_u32(2), 0x1234_5678);
}

#[test]
fn word_write_then_read_back() {
    let mut m = Memory::new(12);
    m.write_u32(4, 0xFFFF_FFFF);
    m.write_u32(0, 7);
    m.write_u32(8, 400);
    assert_eq!(m.read_u32(4), 0xFFFF_FFFF);
    assert_eq!(m.read_u32(0), 7);
    assert_eq!(m.read_u32(8), 400);
}

#[test]
fn word_read_assembles_bytes() {
    let mut m = Memory::new(4);
    m.write_u8(0, 1);
    m.write_u8(1, 2);
    m.write_u8(2, 3);
    m.write_u8(3, 4);
    assert_eq!(m.read_u32(0), 0x0403_0201);
}
