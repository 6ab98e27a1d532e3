use chameleon::crc::crc32;
use chameleon::png::{
    decode_png, defilter_image, Chunk, ColorType, DecoderError, Interlace, Png, PngData, IEND,
};
use chameleon::zlib::ZlibError;

fn hex(s: &str) -> Vec<u8> {
    (0..s.len())
        .step_by(2)
        .map(|i| u8::from_str_radix(&s[i..i + 2], 16).unwrap())
        .collect()
}

fn two_by_two() -> Vec<u8> {
    hex(&[
        "89504e470d0a1a0a0000000d4948445200000002000000020802000000fdd49a73",
        "000000124944415478da63f8cfc0c000c20cff8100001fee05fbf1abba77",
        "0000000049454e44ae426082"
    ].concat())
}

#[test]
fn png_two_by_two_rgb() {
    let png = Png::from_bytes(&two_by_two()).unwrap();
    assert_eq!(png.dimensions, (2, 2));
    assert_eq!(png.bit_depth, 8);
    assert!(png.color_type == ColorType::RGB);
    assert!(png.interlace == Interlace::NoInterlace);
    let px = png.rgb().unwrap();
    assert_eq!(px, vec![(255, 0, 0), (0, 255, 0), (0, 0, 255), (255, 255, 255)]);
    assert_eq!(decode_png(&two_by_two()).unwrap(), px);
}

#[test]
fn png_all_filter_types() {
    let file = hex(&[
        "89504e470d0a1a0a0000000d4948445200000003000000040802000000c44f1250",
        "000000334944415478da012800d7ff01a54dca73d866a3f83d026edf14befe4b73",
        "bcb103365cb041cf249bcb4d0497d71dc743c3496 2c091bd1384773328660000",
        "000049454e44ae426082"
    ].concat()
    .replace(' ', ""));
    let pixels = [
        0xa5, 0x4d, 0xca, 0x18, 0x25, 0x30, 0xbb, 0x1d, 0x6d, 0x13, 0x2c, 0xde, 0xd6, 0x23,
        0x7b, 0x2e, 0xd9, 0x1e, 0x3f, 0x72, 0x1f, 0xcb, 0x19, 0x71, 0x17, 0x44, 0x94, 0xd6,
        0x49, 0x3c, 0x9d, 0x5c, 0x34, 0x60, 0xbe, 0x31,
    ];
    let expect: Vec<(u8, u8, u8)> = pixels.chunks(3).map(|c| (c[0], c[1], c[2])).collect();
    assert_eq!(decode_png(&file).unwrap(), expect);
}

#[test]
fn png_split_idat_and_ancillary_chunk() {
    let file = hex(&[
        "89504e470d0a1a0a0000000d4948445200000002000000020802000000fdd49a73",
        "00000003744558746b0076cb04f390000000054944415478da63f8cf51e86ad7",
        "0000001049444154c0c0f09f81114830feff0f001cfb04fe853f9f63",
        "0000000049454e44ae426082"
    ].concat());
    let data = PngData::build(&file).unwrap();
    assert_eq!(data.idat.len(), 2);
    assert_eq!(data.ancillary_chunks.len(), 1);
    assert_eq!(data.ihdr.data.len(), 13);
    assert!(data.plte.is_none());
    assert_eq!(data.raw_data, file);
    assert_eq!(
        decode_png(&file).unwrap(),
        vec![(255, 0, 0), (0, 255, 0), (0, 0, 255), (1, 255, 254)]
    );
}

#[test]
fn png_not_png() {
    let mut file = two_by_two();
    file[1] = b'Q';
    assert!(matches!(Png::from_bytes(&file), Err(DecoderError::NotPngFile)));
    assert!(matches!(PngData::build(&[0x89, 0x50]), Err(DecoderError::NotPngFile)));
}

#[test]
fn png_bad_crc() {
    let mut file = two_by_two();
    file[20] ^= 1;
    assert!(matches!(decode_png(&file), Err(DecoderError::BadCrc)));
}

#[test]
fn png_unknown_chunk_type() {
    let file = hex(&[
        "89504e470d0a1a0a0000000d4948445200000002000000020802000000fdd49a73",
        "0000000061626364ed82cd110000000049454e44ae426082"
    ].concat());
    assert!(matches!(PngData::build(&file), Err(DecoderError::InvalidChunk)));
}

#[test]
fn png_missing_end_chunk() {
    let file = hex("89504e470d0a1a0a0000000d4948445200000002000000020802000000fdd49a73");
    assert!(matches!(PngData::build(&file), Err(DecoderError::Truncated)));
    let mut cut = two_by_two();
    cut.truncate(50);
    assert!(matches!(decode_png(&cut), Err(DecoderError::Truncated)));
}

#[test]
fn png_grayscale_unsupported() {
    let file = hex(&[
        "89504e470d0a1a0a0000000d49484452000000010000000108000000003a7e9b55",
        "0000000a4944415478da6368000000820081da45083b0000000049454e44ae426082"
    ].concat());
    let png = Png::from_bytes(&file).unwrap();
    assert!(png.color_type == ColorType::Grayscale);
    assert!(matches!(png.rgb(), Err(DecoderError::UnsupportedColorType)));
}

#[test]
fn png_sixteen_bit_unsupported() {
    let file = hex(&[
        "89504e470d0a1a0a0000000d4948445200000001000000011002000000c0e78f9d",
        "0000000f4944415478da636064626661650300003f001698c168130000000049454e44ae426082"
    ].concat());
    assert!(matches!(decode_png(&file), Err(DecoderError::UnsupportedBitDepth(16))));
}

#[test]
fn png_interlaced_unsupported() {
    let file = hex(&[
        "89504e470d0a1a0a0000000d4948445200000001000000010802000001e7706348",
        "0000000c4944415478da636064620600000e0007e99237d40000000049454e44ae426082"
    ].concat());
    let png = Png::from_bytes(&file).unwrap();
    assert!(png.interlace == Interlace::Adam7);
    assert!(matches!(png.rgb(), Err(DecoderError::UnsupportedInterlace)));
}

#[test]
fn png_bad_filter_byte() {
    let file = hex(&[
        "89504e470d0a1a0a0000000d4948445200000001000000010802000000907753de",
        "0000000c4944415478da6365646206000022000c058014970000000049454e44ae426082"
    ].concat());
    assert!(matches!(decode_png(&file), Err(DecoderError::InvalidFilter(5))));
}

#[test]
fn png_image_data_too_short() {
    let file = hex(&[
        "89504e470d0a1a0a0000000d49484452000000020000000108020000007b40e8dd",
        "0000000c4944415478da636064620600000e0007e99237d40000000049454e44ae426082"
    ].concat());
    assert!(matches!(decode_png(&file), Err(DecoderError::InvalidImageData)));
}

#[test]
fn png_broken_zlib_data() {
    let mut file = two_by_two();
    // Corrupt the Adler-32 checksum and fix up the IDAT CRC.
    let idat_start = 33;
    let len = 0x12;
    file[idat_start + 8 + len - 1] ^= 0xff;
    let crc = crc32(&file[idat_start + 4..idat_start + 8 + len]);
    file[idat_start + 8 + len..idat_start + 12 + len].copy_from_slice(&crc.to_be_bytes());
    assert!(matches!(decode_png(&file), Err(DecoderError::Zlib(ZlibError::ChecksumMismatch))));
}

#[test]
fn png_header_values_checked() {
    let mut file = two_by_two();
    file[16 + 9] = 5;
    let crc = crc32(&file[12..29]);
    file[29..33].copy_from_slice(&crc.to_be_bytes());
    assert!(matches!(Png::from_bytes(&file), Err(DecoderError::InvalidColorType(5))));
    file[16 + 9] = 2;
    file[16 + 12] = 2;
    let crc = crc32(&file[12..29]);
    file[29..33].copy_from_slice(&crc.to_be_bytes());
    assert!(matches!(Png::from_bytes(&file), Err(DecoderError::InvalidInterlace(2))));
    file[16 + 12] = 0;
    file[16 + 10] = 1;
    let crc = crc32(&file[12..29]);
    file[29..33].copy_from_slice(&crc.to_be_bytes());
    assert!(matches!(Png::from_bytes(&file), Err(DecoderError::UnsupportedMethod)));
}

#[test]
fn chunk_from_end_chunk() {
    let c = Chunk::from(&hex("0000000049454e44ae426082")).unwrap();
    assert_eq!(c.length, 0);
    assert_eq!(c.ctype, b"IEND".to_vec());
    assert_eq!(c.crc, 0xae426082);
    assert_eq!(c.size, 12);
    assert_eq!(c.type_code(), IEND);
    let e = Chunk::new();
    assert_eq!(e.size, 0);
    assert!(e.data.is_empty());
}

#[test]
fn crc32_known_values() {
    assert_eq!(crc32(b"123456789"), 0xcbf43926);
    assert_eq!(crc32(b"IEND"), 0xae426082);
    assert_eq!(crc32(b""), 0);
}

#[test]
fn defilter_image_rows() {
    // Two rows of one pixel: Sub on the first, Up on the second.
    let data = [1, 10, 20, 30, 2, 1, 1, 1];
    assert_eq!(defilter_image(&data, 1, 2, 3).unwrap(), vec![10, 20, 30, 11, 21, 31]);
    assert!(matches!(defilter_image(&data, 1, 3, 3), Err(DecoderError::InvalidImageData)));
    assert_eq!(defilter_image(&[], 5, 0, 3).unwrap(), vec![]);
}

#[test]
fn decoder_error_descriptions() {
    assert_eq!(DecoderError::NotPngFile.describe(), "not a PNG file");
    assert_eq!(
        DecoderError::Zlib(ZlibError::ChecksumMismatch).describe(),
        ZlibError::ChecksumMismatch.describe()
    );
    assert_eq!(Chunk::default().length, 0);
}
