use serial_loader::crc32::Crc32;

fn digest_of(data: &[u8]) -> u32 {
    let mut crc = Crc32::new();
    crc.crc32_slice(data);
    crc.finish()
}

#[test]
fn check_value_of_standard_crc32() {
    assert_eq!(digest_of(b"123456789"), 0xCBF4_3926);
}

#[test]
fn digest_of_nothing_is_zero() {
    assert_eq!(Crc32::new().finish(), 0);
}

#[test]
fn digest_of_single_byte() {
    assert_eq!(digest_of(b"a"), 0xE8B7_BE43);
}

#[test]
fn word_and_four_bytes_agree() {
    let w: u32 = 0x1234_5678;
    let mut by_word = Crc32::new();
    by_word.crc32_u32(w);
    let mut by_bytes = Crc32::new();
    by_bytes.crc32_u8(0x78);
    by_bytes.crc32_u8(0x56);
    by_bytes.crc32_u8(0x34);
    by_bytes.crc32_u8(0x12);
    let mut by_buffer = Crc32::new();
    by_buffer.crc32_slice(&[0x78, 0x56, 0x34, 0x12]);
    assert_eq!(by_word.finish(), by_bytes.finish());
    assert_eq!(by_word.finish(), by_buffer.finish());
    assert_eq!(by_word.finish(), digest_of(&w.to_le_bytes()));
}

#[test]
fn chunking_does_not_change_digest() {
    let data = b"The quick brown fox jumps over the lazy dog";
    let mut crc = Crc32::new();
    crc.crc32_slice(&data[..10]);
    crc.crc32_slice(&data[10..11]);
    crc.crc32_slice(&data[11..]);
    assert_eq!(crc.finish(), 0x414F_A339);
    assert_eq!(digest_of(data), 0x414F_A339);
}

#[test]
fn order_of_bytes_matters() {
    assert_ne!(digest_of(b"ab"), digest_of(b"ba"));
}

#[test]
fn reset_and_finish_leave_state() {
    let mut crc = Crc32::new();
    crc.crc32_slice(b"abc");
    let first = crc.finish();
    assert_eq!(crc.finish(), first);
    crc.reset();
    assert_eq!(crc.finish(), 0);
    crc.crc32_slice(b"abc");
    assert_eq!(crc.finish(), first);
}
