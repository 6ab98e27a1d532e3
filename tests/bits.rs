use chameleon::bits::BitReader;

#[test]
fn bits_come_least_significant_first() {
    let mut r = BitReader::new(&[0b1010_0110, 0x01]);
    let bits: Vec<Option<u8>> = (0..9).map(|_| r.next_bit()).collect();
    let expect = [0, 1, 1, 0, 0, 1, 0, 1, 1];
    for (b, e) in bits.iter().zip(expect.iter()) {
        assert_eq!(*b, Some(*e));
    }
}

#[test]
fn exhausted_reader_yields_none() {
    let mut r = BitReader::new(&[0xff]);
    for _ in 0..8 {
        assert_eq!(r.next_bit(), Some(1));
    }
    assert_eq!(r.next_bit(), None);
    assert_eq!(r.read_prefix_bit(), None);
}

#[test]
fn multi_bit_reads_are_lsb_first() {
    let mut r = BitReader::new(&[0b1101_0110, 0b0000_0011]);
    assert_eq!(r.read_bits_lsb_first(3), Some(0b110));
    assert_eq!(r.read_bits_lsb_first(7), Some(0b11_11010));
    assert_eq!(r.read_bits_lsb_first(7), None);
    assert_eq!(r.read_bits_lsb_first(6), Some(0));
}

#[test]
fn align_and_take_bytes() {
    let mut r = BitReader::new(&[0xff, 0x12, 0x34, 0x56]);
    r.next_bit();
    assert_eq!(r.byte_position(), 0);
    r.align_to_byte();
    assert_eq!(r.byte_position(), 1);
    assert_eq!(r.take_bytes(2), Some(vec![0x12, 0x34]));
    assert_eq!(r.take_bytes(2), None);
    assert!(r.has_bits(8));
    assert!(!r.has_bits(9));
}
