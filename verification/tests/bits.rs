use jabcode::bits::{xor_assign, BitBuf};

#[test]
fn roundtrip() {
    let bytes = b"hello world!";
    let buf = BitBuf::from_bytes(bytes);
    assert_eq!(buf.to_bytes(), bytes);
}

#[test]
fn push_read_8() {
    let mut buf = BitBuf::default();
    buf.push_bits(0b10110100, 8);
    buf.push_bits(0b11001010, 8);
    assert_eq!(buf.read_bits(0, 8), 0b10110100);
    assert_eq!(buf.read_bits(8, 8), 0b11001010);
}

#[test]
fn modules_3bpm() {
    let mut buf = BitBuf::default();
    for v in 0u8..8 {
        buf.push_bits(v as u64, 3);
    }
    let mods: Vec<u8> = buf.modules(3);
    assert_eq!(mods, (0u8..8).collect::<Vec<_>>());
}

#[test]
fn from_bytes_is_lsb_first() {
    let buf = BitBuf::from_bytes(&[0b0000_0101, 0x80]);
    assert_eq!(buf.len(), 16);
    assert!(!buf.is_empty());
    assert!(buf.get_bit(0));
    assert!(!buf.get_bit(1));
    assert!(buf.get_bit(2));
    assert!(buf.get_bit(15));
    assert!(!buf.get_bit(14));
    assert_eq!(buf.inner(), &[0x8005u64]);
}

#[test]
fn empty_buffer() {
    let buf = BitBuf::with_capacity(100);
    assert_eq!(buf.len(), 0);
    assert!(buf.is_empty());
    assert_eq!(buf.to_bytes(), Vec::<u8>::new());
    assert_eq!(BitBuf::default().len(), 0);
}

#[test]
fn push_across_word_boundary() {
    let mut buf = BitBuf::default();
    buf.push_bits(0, 60);
    buf.push_bits(0b1011_0110, 8);
    assert_eq!(buf.len(), 68);
    assert_eq!(buf.read_bits(60, 8), 0b1011_0110);
    assert_eq!(buf.read_bits(56, 8), 0b0110_0000);
    assert_eq!(buf.inner().len(), 2);
}

#[test]
fn partial_final_byte() {
    let mut buf = BitBuf::default();
    buf.push_bits(0b101, 3);
    buf.push_bits(0b1, 1);
    buf.push_bits(0b11111, 5);
    assert_eq!(buf.to_bytes(), vec![0b1111_1101, 0b1]);
}

#[test]
fn modules_drop_partial_group() {
    let buf = BitBuf::from_bytes(&[0xff, 0x01]);
    // 16 bits at 3 bits per module: five whole modules.
    assert_eq!(buf.modules(3), vec![7, 7, 7, 0, 0]);
}

#[test]
fn set_get_resize() {
    let mut buf = BitBuf::default();
    buf.resize_bits(70);
    assert_eq!(buf.len(), 70);
    assert_eq!(buf.inner().len(), 2);
    buf.set_bit(65, true);
    assert!(buf.get_bit(65));
    buf.set_bit(65, false);
    assert!(!buf.get_bit(65));
    buf.resize_bits(10);
    assert_eq!(buf.len(), 10);
    assert_eq!(buf.inner().len(), 1);
}

#[test]
fn xor_of_buffers() {
    let mut a = BitBuf::from_bytes(&[0b1100_1100]);
    let b = BitBuf::from_bytes(&[0b1010_1010]);
    xor_assign(&mut a, &b);
    assert_eq!(a.to_bytes(), vec![0b0110_0110]);
    assert_eq!(a.len(), 8);
}

#[test]
fn inner_mut_gives_the_words() {
    let mut buf = BitBuf::from_bytes(&[0x0f]);
    buf.inner_mut()[0] = 0xf0;
    assert_eq!(buf.to_bytes(), vec![0xf0]);
}
