use chameleon::inflate::{copy_back, inflate, DeflateError, DeflateStream};

fn hex(s: &str) -> Vec<u8> {
    (0..s.len())
        .step_by(2)
        .map(|i| u8::from_str_radix(&s[i..i + 2], 16).unwrap())
        .collect()
}

#[test]
fn stored_empty_block() {
    assert_eq!(inflate(&[0x01, 0x00, 0x00, 0xff, 0xff]), Ok(vec![]));
}

#[test]
fn stored_hi_block() {
    let out = inflate(&[0x01, 0x02, 0x00, 0xfd, 0xff, 0x48, 0x69]).unwrap();
    assert_eq!(out, vec![0x48, 0x69]);
}

#[test]
fn stored_block_copies_raw_bytes() {
    let data: Vec<u8> = (0..300u32).map(|i| (i * 7 % 251) as u8).collect();
    let len = data.len() as u16;
    let mut stream = vec![0x01, (len & 0xff) as u8, (len >> 8) as u8];
    stream.push((!len & 0xff) as u8);
    stream.push((!len >> 8) as u8);
    stream.extend_from_slice(&data);
    assert_eq!(inflate(&stream).unwrap(), data);
}

#[test]
fn stored_len_nlen_mismatch() {
    assert_eq!(inflate(&[0x01, 0x02, 0x00, 0xfd, 0xfe, 0x48, 0x69]), Err(DeflateError::InvalidBlock));
}

#[test]
fn stored_block_truncated() {
    assert_eq!(inflate(&[0x01, 0x03, 0x00, 0xfc, 0xff, 0x48, 0x69]), Err(DeflateError::UnexpectedEnd));
}

#[test]
fn two_stored_blocks() {
    let stream = [0x00, 0x01, 0x00, 0xfe, 0xff, 0x41, 0x01, 0x01, 0x00, 0xfe, 0xff, 0x42];
    assert_eq!(inflate(&stream).unwrap(), vec![0x41, 0x42]);
}

#[test]
fn fixed_single_literal() {
    assert_eq!(inflate(&[0x4b, 0x04, 0x00]).unwrap(), vec![0x61]);
}

#[test]
fn fixed_run_length() {
    assert_eq!(inflate(&[0x4b, 0x04, 0x03, 0x00]).unwrap(), vec![0x61; 6]);
}

#[test]
fn fixed_max_length_min_distance() {
    assert_eq!(inflate(&[0x4b, 0x1c, 0x05, 0x00]).unwrap(), vec![0x61; 259]);
}

#[test]
fn fixed_without_end_of_block() {
    assert_eq!(inflate(&[0x4b, 0x4c, 0x02]), Err(DeflateError::UnexpectedEnd));
}

#[test]
fn reserved_block_type() {
    assert_eq!(inflate(&[0x07]), Err(DeflateError::InvalidBlock));
}

#[test]
fn empty_input() {
    assert_eq!(inflate(&[]), Err(DeflateError::UnexpectedEnd));
}

#[test]
fn literal_length_symbol_out_of_range() {
    assert_eq!(inflate(&[0x1b, 0x03]), Err(DeflateError::InvalidSymbol));
}

#[test]
fn distance_symbol_out_of_range() {
    assert_eq!(inflate(&[0x4b, 0x04, 0x3e, 0x00]), Err(DeflateError::InvalidSymbol));
}

#[test]
fn back_reference_too_far() {
    assert_eq!(inflate(&[0x4b, 0x04, 0x42, 0x00]), Err(DeflateError::BackRefOutOfRange));
}

#[test]
fn dynamic_minimal_header_has_no_literals() {
    let stream = [0x05, 0x00, 0x80, 0xe4, 0x7f, 0x1b];
    assert_eq!(inflate(&stream), Err(DeflateError::InvalidTable));
}

#[test]
fn dynamic_without_distance_codes() {
    let stream = [0x05, 0xc0, 0x21, 0x09, 0x00, 0x00, 0x00, 0x00, 0xa0, 0xad, 0xfe, 0x3f, 0x21, 0x08];
    assert_eq!(inflate(&stream).unwrap(), b"aaa".to_vec());
}

#[test]
fn dynamic_repeat_without_previous_length() {
    assert_eq!(inflate(&[0x05, 0x00, 0x02, 0x24]), Err(DeflateError::InvalidSymbol));
}

#[test]
fn round_trip_dynamic_block() {
    let data: Vec<u8> = (0..2000u32).map(|i| b"abcdefgh"[((i * i + i / 7) % 8) as usize]).collect();
    let stream = hex("edcbb10100300802b05b4151ffbfa09cd1812163401154b1c6b6ab4da7360dc6769656b767689c212f2f2f2f2f2fef9bf700");
    assert_eq!(inflate(&stream).unwrap(), data);
}

#[test]
fn round_trip_fixed_text() {
    let data = b"The quick brown fox jumps over the lazy dog. ".repeat(8);
    let stream = hex("0bc94855282ccd4cce56482aca2fcf5348cbaf50c82acd2d2856c82f4b2d522801 4ae72456552aa4e4a7eb29848c2a26573100".replace(' ', "").as_str());
    assert_eq!(inflate(&stream).unwrap(), data);
}

#[test]
fn round_trip_byte_sequence() {
    let data: Vec<u8> = (0..768u32).map(|i| (i % 256) as u8).collect();
    let stream = hex(&[
        "636064626661656 3e7e0e4e2e6e1e5e317101412161115139790949296919593",
        "575054525651555 3d7d0d4d2d6d1d5d3373034323631353 3b7b0b4b2b6b1b5b3",
        "777074727671757 3f7f0f4f2f6f1f5f30f080c0a0e090d0b8f888c8a8e898d8b",
        "4f484c4a4e494d4 bcfc8cccacec9cdcb2f282c2a2e292d2bafa8acaaaea9adab",
        "6f686c6a6e696d6 befe8eceaeee9edeb9f3071d2e429 53a74d9f3173d6ec3973",
        "e7cd5fb070d1e22 54b972d5fb172d5ea356bd7addfb071d3e62d5bb76ddfb173",
        "d7ee3d7bf7ed3f7 0f0d0e123478f1d3f71f2d4e93367cf9dbf70f1d2e52b57af",
        "5dbf71f3d6ed3b7 7efdd7ff0f0d1e3274f9f3d7ff1f2d5eb376fdfbdfff0f1d3",
        "e72f5fbf7dfff1f 3d7ef3f7ffffd6718f5ff88f63f00"
    ].concat()
    .replace(' ', "")
    .as_str());
    assert_eq!(inflate(&stream).unwrap(), data);
}

#[test]
fn stream_decompress_twice_returns_same_output() {
    let mut stream = DeflateStream::build(&[0x01, 0x02, 0x00, 0xfd, 0xff, 0x48, 0x69]);
    assert_eq!(stream.decompress().unwrap(), vec![0x48, 0x69]);
    assert_eq!(stream.decompress().unwrap(), vec![0x48, 0x69]);
}

#[test]
fn back_reference_repeats_tail() {
    let mut out = vec![b'A'];
    copy_back(&mut out, 1, 5);
    assert_eq!(out, vec![b'A'; 6]);
    let mut out = vec![1, 2, 3];
    copy_back(&mut out, 2, 5);
    assert_eq!(out, vec![1, 2, 3, 2, 3, 2, 3, 2]);
}
