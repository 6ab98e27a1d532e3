use chameleon::inflate::DeflateError;
use chameleon::zlib::{adler32, zlib_decompress, ZlibError, ZlibHeader, ZlibStream};

fn hex(s: &str) -> Vec<u8> {
    (0..s.len())
        .step_by(2)
        .map(|i| u8::from_str_radix(&s[i..i + 2], 16).unwrap())
        .collect()
}

#[test]
fn zlib_payload_abc() {
    let z = [0x78, 0x9c, 0x4b, 0x4c, 0x4a, 0x06, 0x00, 0x02, 0x4d, 0x01, 0x27];
    assert_eq!(zlib_decompress(&z).unwrap(), b"abc".to_vec());
}

#[test]
fn zlib_stream_build_and_decompress() {
    let z = [0x78, 0x9c, 0x4b, 0x4c, 0x4a, 0x06, 0x00, 0x02, 0x4d, 0x01, 0x27];
    let mut s = ZlibStream::build(&z).unwrap();
    assert_eq!(s.header.cm, 8);
    assert_eq!(s.header.cinfo, 7);
    assert_eq!(s.header.flevel, 2);
    assert_eq!(s.header.fdict, None);
    assert_eq!(s.header.end_idx, 2);
    assert_eq!(s.adler32, 0x024d0127);
    assert_eq!(s.decompress().unwrap(), b"abc".to_vec());
}

#[test]
fn zlib_round_trips() {
    assert_eq!(zlib_decompress(&hex("78010300000000 01".replace(' ', "").as_str())).unwrap(), vec![]);
    assert_eq!(zlib_decompress(&hex("7801010300fcff616263024d0127")).unwrap(), b"abc".to_vec());
    assert_eq!(
        zlib_decompress(&hex("78dacb48cdc9c957c84027016803 08b1".replace(' ', "").as_str())).unwrap(),
        b"hello hello hello hello".to_vec()
    );
    let data: Vec<u8> = (0..2000u32).map(|i| b"abcdefgh"[((i * i + i / 7) % 8) as usize]).collect();
    let z = hex(&[
        "78daedcbb10100300802b05b4151ffbfa09cd1812163401154b1c6b6ab4da736",
        "0dc6769656b767689c212f2f2f2f2f2fef9bf700d2e110c1"
    ].concat());
    assert_eq!(zlib_decompress(&z).unwrap(), data);
}

#[test]
fn zlib_bad_header() {
    assert_eq!(ZlibHeader::build(&[0x78, 0x9d]).unwrap_err(), ZlibError::InvalidHeader);
    assert_eq!(zlib_decompress(&[0x78, 0x9d, 0x03, 0x00, 0, 0, 0, 1]), Err(ZlibError::InvalidHeader));
}

#[test]
fn zlib_truncated() {
    assert_eq!(ZlibHeader::build(&[0x78]).unwrap_err(), ZlibError::Truncated);
    assert_eq!(zlib_decompress(&[0x78, 0x9c, 0x03]), Err(ZlibError::Truncated));
    // Dictionary flag set but no room for the id.
    assert_eq!(ZlibHeader::build(&[0x78, 0xbb, 0x00]).unwrap_err(), ZlibError::Truncated);
}

#[test]
fn zlib_dictionary_id() {
    let h = ZlibHeader::build(&[0x78, 0xbb, 0x12, 0x34, 0x56, 0x78]).unwrap();
    assert_eq!(h.fdict, Some(0x12345678));
    assert_eq!(h.end_idx, 6);
}

#[test]
fn zlib_checksum_mismatch() {
    let z = [0x78, 0x9c, 0x4b, 0x4c, 0x4a, 0x06, 0x00, 0x02, 0x4d, 0x01, 0x28];
    assert_eq!(zlib_decompress(&z), Err(ZlibError::ChecksumMismatch));
}

#[test]
fn zlib_inner_deflate_error() {
    assert_eq!(zlib_decompress(&[0x78, 0x9c, 0x07, 0, 0, 0, 1]), Err(ZlibError::Deflate(DeflateError::InvalidBlock)));
}

#[test]
fn adler32_known_values() {
    assert_eq!(adler32(b""), 1);
    assert_eq!(adler32(b"abc"), 0x024d0127);
    assert_eq!(adler32(b"Wikipedia"), 0x11e60398);
}
