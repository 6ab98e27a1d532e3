use chameleon::bits::BitReader;
use chameleon::inflate::DeflateError;
use chameleon::prefix::{Code, PrefixCodeMap};

#[test]
fn canonical_codes_of_rfc_example() {
    // Lengths (3, 3, 3, 3, 3, 2, 4, 4) give codes 010, 011, 100, 101, 110,
    // 00, 1110, 1111.
    let t = PrefixCodeMap::from_lengths(&[3, 3, 3, 3, 3, 2, 4, 4]).unwrap();
    let expect: [(u16, u8, usize); 8] =
        [(2, 3, 0), (3, 3, 1), (4, 3, 2), (5, 3, 3), (6, 3, 4), (0, 2, 5), (14, 4, 6), (15, 4, 7)];
    assert_eq!(t.map.len(), 8);
    for (code, len, sym) in expect {
        assert_eq!(t.map.get(&Code::from(code, len).key()), Some(&sym));
    }
    assert_eq!(t.max_length, 4);
}

#[test]
fn codes_are_unique_and_fit_their_length() {
    let lengths = [2u8, 1, 3, 4, 0, 4, 0];
    let t = PrefixCodeMap::from_lengths(&lengths).unwrap();
    let mut keys: Vec<u32> = t.map.keys().cloned().collect();
    keys.dedup();
    assert_eq!(keys.len(), 5);
    for (key, sym) in &t.map {
        let len = key / 65536;
        let code = key % 65536;
        assert_eq!(len, lengths[*sym] as u32);
        assert!(code < (1 << len));
    }
}

#[test]
fn single_code_of_length_one() {
    let t = PrefixCodeMap::from_lengths(&[0, 1, 0]).unwrap();
    assert_eq!(t.map.get(&Code::from(0, 1).key()), Some(&1));
    let mut r = BitReader::new(&[0x00]);
    assert_eq!(t.decode(&mut r), Ok(1));
}

#[test]
fn all_zero_lengths_build() {
    let t = PrefixCodeMap::from_lengths(&[0; 30]).unwrap();
    assert!(t.map.is_empty());
    let mut r = BitReader::new(&[0xff]);
    assert_eq!(t.decode(&mut r), Err(DeflateError::InvalidSymbol));
}

#[test]
fn over_subscribed_lengths_rejected() {
    assert!(matches!(PrefixCodeMap::from_lengths(&[1, 1, 1]), Err(DeflateError::InvalidTable)));
}

#[test]
fn too_long_length_rejected() {
    assert!(matches!(PrefixCodeMap::from_lengths(&[16, 1]), Err(DeflateError::InvalidTable)));
}

#[test]
fn decode_reads_codes_most_significant_first() {
    // Symbols 0..=7 of the RFC example; code 1110 (symbol 6) then 00 (symbol 5).
    let t = PrefixCodeMap::from_lengths(&[3, 3, 3, 3, 3, 2, 4, 4]).unwrap();
    // Bits in stream order: 1,1,1,0, 0,0 -> byte 0b0000_0111.
    let mut r = BitReader::new(&[0x07]);
    assert_eq!(t.decode(&mut r), Ok(6));
    assert_eq!(t.decode(&mut r), Ok(5));
}

#[test]
fn decode_runs_out_of_bits() {
    let t = PrefixCodeMap::from_lengths(&[3, 3, 3, 3, 3, 2, 4, 4]).unwrap();
    let mut r = BitReader::new(&[]);
    assert_eq!(t.decode(&mut r), Err(DeflateError::UnexpectedEnd));
}

#[test]
fn decode_unknown_code() {
    // Only code 0 of length 1 exists; a 1 bit matches nothing.
    let t = PrefixCodeMap::from_lengths(&[1]).unwrap();
    let mut r = BitReader::new(&[0x01]);
    assert_eq!(t.decode(&mut r), Err(DeflateError::InvalidSymbol));
}

#[test]
fn code_push_and_push_bit() {
    let mut c = Code::new();
    c.push_bit(1);
    c.push(0b011, 3);
    assert_eq!(c, Code::from(0b1011, 4));
    c.push_bit(7);
    assert_eq!(c, Code::from(0b10111, 5));
    assert_eq!(c.key(), 5 * 65536 + 0b10111);
}

#[test]
fn code_bits_most_significant_first() {
    assert_eq!(Code::from(0b1011, 4).bits(), vec![1, 0, 1, 1]);
    assert_eq!(Code::from(0b0011, 5).bits(), vec![0, 0, 0, 1, 1]);
    assert!(Code::default().bits().is_empty());
}

#[test]
fn error_descriptions() {
    assert!(DeflateError::BackRefOutOfRange.describe().contains("back-reference"));
    assert_ne!(DeflateError::InvalidBlock.describe(), DeflateError::InvalidTable.describe());
}
