use vstd::prelude::*;

use crate::crc::{crc32, crc32_spec};
use crate::filter::{lemma_recon_len, recon, unfilter_row, zeros, Filters};
use crate::zlib::{be32, zlib_decompress, zlib_spec, ZlibError};

verus! {

/// The eight bytes every PNG file starts with.
pub const PNG_HEADER: [u8; 8] = [137, 80, 78, 71, 13, 10, 26, 10];

/// Chunk type `IHDR`, as a big-endian number.
pub const IHDR: u32 = 0x4948_4452;

/// Chunk type `PLTE`.
pub const PLTE: u32 = 0x504C_5445;

/// Chunk type `IDAT`.
pub const IDAT: u32 = 0x4944_4154;

/// Chunk type `IEND`.
pub const IEND: u32 = 0x4945_4E44;

/// The chunk types this decoder knows, as big-endian numbers: IHDR, PLTE,
/// IDAT, IEND, cHRM, gAMA, iCCP, sBIT, sRGB, bKGD, hIST, tRNS, pHYs, sPLT,
/// tIME, iTXt, tEXt, zTXt.
pub const VALID_CHUNK_TYPES: [u32; 18] = [
    0x4948_4452,
    0x504C_5445,
    0x4944_4154,
    0x4945_4E44,
    0x6348_524D,
    0x6741_4D41,
    0x6943_4350,
    0x7342_4954,
    0x7352_4742,
    0x624B_4744,
    0x6849_5354,
    0x7452_4E53,
    0x7048_5973,
    0x7350_4C54,
    0x7449_4D45,
    0x6954_5874,
    0x7445_5874,
    0x7A54_5874,
];

/// Why a PNG file could not be decoded.
#[derive(Debug, Clone, Copy, PartialEq, Eq, Structural)]
pub enum DecoderError {
    /// The file does not start with the PNG signature.
    NotPngFile,
    /// A chunk of a type this decoder does not know.
    InvalidChunk,
    /// A chunk whose CRC does not match its type and data.
    BadCrc,
    /// The file ends inside a chunk, or before an IEND chunk.
    Truncated,
    /// No IHDR chunk of 13 bytes.
    MissingHeader,
    /// A compression or filter method other than 0 in IHDR.
    UnsupportedMethod,
    /// A color type byte that PNG does not define.
    InvalidColorType(u8),
    /// An interlace byte that PNG does not define.
    InvalidInterlace(u8),
    /// A color type other than RGB.
    UnsupportedColorType,
    /// A bit depth other than 8.
    UnsupportedBitDepth(u8),
    /// Adam7 interlacing.
    UnsupportedInterlace,
    /// A scanline whose filter byte is not 0 to 4.
    InvalidFilter(u8),
    /// Image data whose length is not that of the scanlines.
    InvalidImageData,
    /// The image data stream could not be decoded.
    Zlib(ZlibError),
}

impl DecoderError {
    /// A short description of the error.
    pub fn describe(&self) -> &'static str {
        match self {
            DecoderError::NotPngFile => "not a PNG file",
            DecoderError::InvalidChunk => "chunk of an unknown type",
            DecoderError::BadCrc => "chunk CRC does not match",
            DecoderError::Truncated => "file ends inside a chunk or before IEND",
            DecoderError::MissingHeader => "no IHDR chunk of 13 bytes",
            DecoderError::UnsupportedMethod => "compression or filter method is not 0",
            DecoderError::InvalidColorType(_) => "invalid color type",
            DecoderError::InvalidInterlace(_) => "invalid interlace method",
            DecoderError::UnsupportedColorType => "only RGB images are supported",
            DecoderError::UnsupportedBitDepth(_) => "only a bit depth of 8 is supported",
            DecoderError::UnsupportedInterlace => "interlaced images are not supported",
            DecoderError::InvalidFilter(_) => "scanline filter byte is not 0 to 4",
            DecoderError::InvalidImageData => "image data length does not match the scanlines",
            DecoderError::Zlib(e) => e.describe(),
        }
    }
}

/// The color types of PNG.
#[derive(Debug, Clone, Copy, PartialEq, Eq, Structural)]
pub enum ColorType {
    Grayscale,
    RGB,
    PalleteIndex,
    GrayscaleAlpha,
    RGBA,
}

/// The interlace methods of PNG.
#[derive(Debug, Clone, Copy, PartialEq, Eq, Structural)]
pub enum Interlace {
    NoInterlace,
    Adam7,
}

/// The type of the chunk at `i` is one this decoder knows.
pub open spec fn known_type(t: nat) -> bool {
    exists|k: int| 0 <= k < 18 && t == VALID_CHUNK_TYPES@[k]
}

/// The chunk at index `i` of `s`: its data length, or why it is not one.
#[verifier::opaque]
pub open spec fn chunk_spec(s: Seq<u8>, i: int) -> Result<nat, DecoderError> {
    if s.len() < i + 8 {
        Err(DecoderError::Truncated)
    } else if !known_type(be32(s, i + 4)) {
        Err(DecoderError::InvalidChunk)
    } else {
        let len = be32(s, i);
        if s.len() < i + 12 + len {
            Err(DecoderError::Truncated)
        } else if crc32_spec(s.subrange(i + 4, i + 8 + len)) != be32(s, i + 8 + len) {
            Err(DecoderError::BadCrc)
        } else {
            Ok(len)
        }
    }
}

/// The chunks from index `i` on, appended to `acc` as (type, data) pairs,
/// up to and including IEND.
pub open spec fn chunks_from(s: Seq<u8>, i: int, acc: Seq<(nat, Seq<u8>)>) -> Result<
    Seq<(nat, Seq<u8>)>,
    DecoderError,
>
    decreases s.len() - i,
{
    match chunk_spec(s, i) {
        Err(e) => Err(e),
        Ok(len) => {
            let t = be32(s, i + 4);
            let acc2 = acc.push((t, s.subrange(i + 8, i + 8 + len)));
            if t == IEND {
                Ok(acc2)
            } else if i + 12 + len <= s.len() {
                chunks_from(s, i + 12 + len, acc2)
            } else {
                Err(DecoderError::Truncated)
            }
        },
    }
}

/// The chunks of a PNG file, after its signature.
pub open spec fn png_chunks(s: Seq<u8>) -> Result<Seq<(nat, Seq<u8>)>, DecoderError> {
    if s.len() < 8 || s.subrange(0, 8) != PNG_HEADER@ {
        Err(DecoderError::NotPngFile)
    } else {
        chunks_from(s, 8, Seq::empty())
    }
}

/// The data of the IDAT chunks of a chunk list, concatenated in order.
pub open spec fn idat_data(l: Seq<(nat, Seq<u8>)>) -> Seq<u8>
    decreases l.len(),
{
    if l.len() == 0 {
        Seq::empty()
    } else if l.last().0 == IDAT {
        idat_data(l.drop_last()) + l.last().1
    } else {
        idat_data(l.drop_last())
    }
}

/// The data of the last IHDR chunk of a chunk list.
pub open spec fn ihdr_data(l: Seq<(nat, Seq<u8>)>) -> Option<Seq<u8>>
    decreases l.len(),
{
    if l.len() == 0 {
        None
    } else if l.last().0 == IHDR {
        Some(l.last().1)
    } else {
        ihdr_data(l.drop_last())
    }
}

/// The data of the last PLTE chunk of a chunk list.
pub open spec fn plte_data(l: Seq<(nat, Seq<u8>)>) -> Option<Seq<u8>>
    decreases l.len(),
{
    if l.len() == 0 {
        None
    } else if l.last().0 == PLTE {
        Some(l.last().1)
    } else {
        plte_data(l.drop_last())
    }
}

/// The chunks of a chunk list that are neither IHDR, PLTE, IDAT nor IEND.
pub open spec fn ancillary(l: Seq<(nat, Seq<u8>)>) -> Seq<(nat, Seq<u8>)>
    decreases l.len(),
{
    if l.len() == 0 {
        Seq::empty()
    } else {
        let t = l.last().0;
        if t == IHDR || t == PLTE || t == IDAT || t == IEND {
            ancillary(l.drop_last())
        } else {
            ancillary(l.drop_last()).push(l.last())
        }
    }
}

/// The data of a list of chunks, concatenated.
pub open spec fn chunks_data(v: Seq<Chunk>) -> Seq<u8>
    decreases v.len(),
{
    if v.len() == 0 {
        Seq::empty()
    } else {
        chunks_data(v.drop_last()) + v.last().data@
    }
}

impl Default for Chunk {
    fn default() -> (r: Chunk)
        ensures
            r.length == 0,
            r.ctype@.len() == 0,
            r.data@.len() == 0,
            r.crc == 0,
            r.size == 0,
    {
        Chunk::new()
    }
}

/// One chunk of a PNG file.
#[derive(Debug)]
pub struct Chunk {
    /// Length of the data.
    pub length: usize,
    /// The four type bytes.
    pub ctype: Vec<u8>,
    pub data: Vec<u8>,
    /// The CRC-32 stored after the data.
    pub crc: u32,
    /// Bytes the whole chunk takes: data and twelve more.
    pub size: usize,
}

/// Reads four bytes at `i` as a big-endian number.
fn read_be32(s: &[u8], i: usize) -> (r: u32)
    requires
        i + 4 <= s@.len(),
    ensures
        r == be32(s@, i as int),
{
    s[i] as u32 * 16777216 + s[i + 1] as u32 * 65536 + s[i + 2] as u32 * 256 + s[i + 3] as u32
}

/// Copies `s[a..b]`.
fn copy_range(s: &[u8], a: usize, b: usize) -> (r: Vec<u8>)
    requires
        a <= b <= s@.len(),
    ensures
        r@ == s@.subrange(a as int, b as int),
{
    let mut out: Vec<u8> = Vec::new();
    let mut i: usize = a;
    while i < b
        invariant
            a <= i <= b <= s@.len(),
            out@ == s@.subrange(a as int, i as int),
        decreases b - i,
    {
        out.push(s[i]);
        i = i + 1;
    }
    out
}

impl Chunk {
    /// An empty chunk.
    pub fn new() -> (r: Chunk)
        ensures
            r.length == 0,
            r.ctype@.len() == 0,
            r.data@.len() == 0,
            r.crc == 0,
            r.size == 0,
    {
        Chunk { length: 0, ctype: Vec::new(), data: Vec::new(), crc: 0, size: 0 }
    }

    /// Parses the chunk at the start of `bytes`.
    pub fn from(bytes: &[u8]) -> (r: Result<Chunk, DecoderError>)
        ensures
            chunk_matches(r, bytes@, 0),
    {
        Chunk::at(bytes, 0)
    }

    /// Parses the chunk at index `i` of `bytes`.
    pub fn at(bytes: &[u8], i: usize) -> (r: Result<Chunk, DecoderError>)
        ensures
            chunk_matches(r, bytes@, i as int),
    {
        reveal(chunk_spec);
        let n = bytes.len();
        if n < 8 || i > n - 8 {
            return Err(DecoderError::Truncated);
        }
        let ctype = read_be32(bytes, i + 4);
        let mut k: usize = 0;
        let mut known = false;
        while k < 18
            invariant
                k <= 18,
                known == exists|q: int| 0 <= q < k && ctype == VALID_CHUNK_TYPES@[q],
            decreases 18 - k,
        {
            if VALID_CHUNK_TYPES[k] == ctype {
                known = true;
            }
            k = k + 1;
        }
        if !known {
            return Err(DecoderError::InvalidChunk);
        }
        let length = read_be32(bytes, i) as usize;
        if n - i < 12 || n - i - 12 < length {
            return Err(DecoderError::Truncated);
        }
        let covered = copy_range(bytes, i + 4, i + 8 + length);
        let crc = read_be32(bytes, i + 8 + length);
        if crc32(covered.as_slice()) != crc {
            return Err(DecoderError::BadCrc);
        }
        let ctype = copy_range(bytes, i + 4, i + 8);
        let data = copy_range(bytes, i + 8, i + 8 + length);
        Ok(Chunk { length, ctype, data, crc, size: length + 12 })
    }

    /// The chunk type as a big-endian number.
    pub fn type_code(&self) -> (r: u32)
        requires
            self.ctype@.len() == 4,
        ensures
            r == be32(self.ctype@, 0),
    {
        read_be32(self.ctype.as_slice(), 0)
    }
}

/// A chunk that parses lies within the input.
pub proof fn lemma_chunk_ok(s: Seq<u8>, i: int)
    requires
        0 <= i,
        chunk_spec(s, i) is Ok,
    ensures
        i + 12 + chunk_spec(s, i)->Ok_0 <= s.len(),
{
    reveal(chunk_spec);
}

/// `r` is what `chunk_spec` says of the chunk at `i` of `s`.
pub open spec fn chunk_matches(r: Result<Chunk, DecoderError>, s: Seq<u8>, i: int) -> bool {
    match chunk_spec(s, i) {
        Err(e) => r is Err && r->Err_0 == e,
        Ok(len) => r is Ok && {
            let c = r->Ok_0;
            &&& c.length == len
            &&& c.ctype@ == s.subrange(i + 4, i + 8)
            &&& c.data@ == s.subrange(i + 8, i + 8 + len)
            &&& c.crc == be32(s, i + 8 + len)
            &&& c.size == len + 12
        },
    }
}

/// The chunks of a PNG file, sorted by what they hold.
pub struct PngData {
    /// The whole file.
    pub raw_data: Vec<u8>,
    /// The last IHDR chunk, or an empty chunk if there is none.
    pub ihdr: Chunk,
    /// The last PLTE chunk.
    pub plte: Option<Chunk>,
    /// The IDAT chunks in file order.
    pub idat: Vec<Chunk>,
    /// The other chunks before IEND.
    pub ancillary_chunks: Vec<Chunk>,
}

impl PngData {
    /// Checks the signature and reads the chunks up to and including IEND.
    pub fn build(raw_data: &[u8]) -> (r: Result<PngData, DecoderError>)
        ensures
            match png_chunks(raw_data@) {
                Err(e) => r is Err && r->Err_0 == e,
                Ok(l) => r is Ok && {
                    let d = r->Ok_0;
                    &&& d.raw_data@ == raw_data@
                    &&& chunks_data(d.idat@) == idat_data(l)
                    &&& match ihdr_data(l) {
                        Some(h) => d.ihdr.data@ == h,
                        None => d.ihdr.data@.len() == 0,
                    }
                    &&& match plte_data(l) {
                        Some(p) => d.plte is Some && d.plte->Some_0.data@ == p,
                        None => d.plte is None,
                    }
                    &&& d.ancillary_chunks@.len() == ancillary(l).len()
                    &&& forall|k: int|
                        0 <= k < ancillary(l).len() ==> #[trigger] d.ancillary_chunks@[k].data@
                            == ancillary(l)[k].1
                },
            },
    {
        if raw_data.len() < 8 {
            return Err(DecoderError::NotPngFile);
        }
        let mut k: usize = 0;
        while k < 8
            invariant
                k <= 8 <= raw_data@.len(),
                forall|q: int| 0 <= q < k ==> raw_data@[q] == PNG_HEADER@[q],
            decreases 8 - k,
        {
            if raw_data[k] != PNG_HEADER[k] {
                proof {
                    assert(raw_data@.subrange(0, 8)[k as int] != PNG_HEADER@[k as int]);
                }
                return Err(DecoderError::NotPngFile);
            }
            k = k + 1;
        }
        proof {
            assert(raw_data@.subrange(0, 8) =~= PNG_HEADER@);
        }
        let ghost target = png_chunks(raw_data@);
        let ghost mut acc: Seq<(nat, Seq<u8>)> = Seq::empty();
        let n = raw_data.len();
        let mut index: usize = 8;
        let mut ihdr = Chunk::new();
        let mut plte: Option<Chunk> = None;
        let mut idat: Vec<Chunk> = Vec::new();
        let mut ancillary_chunks: Vec<Chunk> = Vec::new();
        loop
            invariant
                8 <= index <= raw_data@.len(),
                n == raw_data@.len(),
                target == png_chunks(raw_data@),
                chunks_from(raw_data@, index as int, acc) == target,
                chunks_data(idat@) == idat_data(acc),
                match ihdr_data(acc) {
                    Some(h) => ihdr.data@ == h,
                    None => ihdr.data@.len() == 0,
                },
                match plte_data(acc) {
                    Some(p) => plte is Some && plte->Some_0.data@ == p,
                    None => plte is None,
                },
                ancillary_chunks@.len() == ancillary(acc).len(),
                forall|k: int|
                    0 <= k < ancillary(acc).len() ==> #[trigger] ancillary_chunks@[k].data@
                        == ancillary(acc)[k].1,
            decreases raw_data@.len() - index,
        {
            let chunk = match Chunk::at(raw_data, index) {
                Ok(c) => c,
                Err(e) => {
                    return Err(e);
                },
            };
            proof {
                lemma_chunk_ok(raw_data@, index as int);
            }
            let ghost t = be32(raw_data@, index + 4);
            let ghost acc2 = acc.push((t, chunk.data@));
            let code = chunk.type_code();
            proof {
                assert(be32(chunk.ctype@, 0) == t);
                assert(acc2.drop_last() =~= acc);
            }
            let size = chunk.size;
            if code == IEND {
                return Ok(PngData {
                    raw_data: copy_range(raw_data, 0, raw_data.len()),
                    ihdr,
                    plte,
                    idat,
                    ancillary_chunks,
                });
            } else if code == IHDR {
                ihdr = chunk;
            } else if code == IDAT {
                let ghost old_idat = idat@;
                idat.push(chunk);
                proof {
                    assert(idat@.drop_last() =~= old_idat);
                }
            } else if code == PLTE {
                plte = Some(chunk);
            } else {
                let ghost old_anc = ancillary_chunks@;
                ancillary_chunks.push(chunk);
                proof {
                    assert forall|q: int| 0 <= q < ancillary(acc2).len() implies #[trigger] ancillary_chunks@[q].data@
                        == ancillary(acc2)[q].1 by {
                        if q < old_anc.len() {
                            assert(ancillary_chunks@[q] == old_anc[q]);
                        }
                    }
                }
            }
            proof {
                acc = acc2;
            }
            index = index + size;
        }
    }
}

/// The reconstructed bytes of the first `k` scanlines of `data`, each a
/// filter byte and `rowlen` filtered bytes; the line above the first is
/// zeros.
pub open spec fn defilter_rows(data: Seq<u8>, rowlen: nat, bpp: nat, k: nat) -> Result<
    Seq<u8>,
    DecoderError,
>
    decreases k,
{
    if k == 0 {
        Ok(Seq::empty())
    } else {
        match defilter_rows(data, rowlen, bpp, (k - 1) as nat) {
            Err(e) => Err(e),
            Ok(prev) => {
                let start = (k - 1) * (rowlen + 1);
                let ft = data[start];
                let prior = if k == 1 {
                    Seq::new(rowlen, |i: int| 0u8)
                } else {
                    prev.subrange(prev.len() - rowlen, prev.len() as int)
                };
                if ft > 4 {
                    Err(DecoderError::InvalidFilter(ft))
                } else {
                    Ok(
                        prev + recon(
                            ft,
                            data.subrange(start + 1, start + 1 + rowlen),
                            prior,
                            bpp,
                            rowlen,
                        ),
                    )
                }
            },
        }
    }
}

/// The pixel bytes of an image of `width` by `height` pixels of `bpp`
/// bytes, from its decompressed scanlines.
pub open spec fn defilter_spec(data: Seq<u8>, width: nat, height: nat, bpp: nat) -> Result<
    Seq<u8>,
    DecoderError,
> {
    if data.len() != height * (1 + width * bpp) {
        Err(DecoderError::InvalidImageData)
    } else {
        defilter_rows(data, width * bpp, bpp, height)
    }
}

pub proof fn lemma_defilter_rows_err(data: Seq<u8>, rowlen: nat, bpp: nat, k: nat, m: nat)
    requires
        k <= m,
        defilter_rows(data, rowlen, bpp, k) is Err,
    ensures
        defilter_rows(data, rowlen, bpp, m) == defilter_rows(data, rowlen, bpp, k),
    decreases m - k,
{
    if k < m {
        lemma_defilter_rows_err(data, rowlen, bpp, k, (m - 1) as nat);
    }
}

/// Reconstructs the pixel bytes of an image of `width` by `height` pixels
/// of `bpp` bytes from its decompressed scanlines.
pub fn defilter_image(data: &[u8], width: usize, height: usize, bpp: usize) -> (r: Result<
    Vec<u8>,
    DecoderError,
>)
    requires
        bpp >= 1,
    ensures
        match defilter_spec(data@, width as nat, height as nat, bpp as nat) {
            Ok(px) => r is Ok && r->Ok_0@ == px,
            Err(e) => r is Err && r->Err_0 == e,
        },
{
    let n = data.len();
    if height == 0 {
        proof {
            assert(0 * (1 + width * bpp) == 0) by (nonlinear_arith);
        }
        if n == 0 {
            return Ok(Vec::new());
        } else {
            return Err(DecoderError::InvalidImageData);
        }
    }
    let rowlen = match width.checked_mul(bpp) {
        Some(v) => v,
        None => {
            proof {
                let w = width as nat * bpp as nat;
                assert(height * (1 + w) >= w) by (nonlinear_arith)
                    requires height >= 1;
            }
            return Err(DecoderError::InvalidImageData);
        },
    };
    let stride = match rowlen.checked_add(1) {
        Some(v) => v,
        None => {
            proof {
                assert(height * (1 + rowlen as nat) >= 1 + rowlen) by (nonlinear_arith)
                    requires height >= 1;
            }
            return Err(DecoderError::InvalidImageData);
        },
    };
    let total = match stride.checked_mul(height) {
        Some(v) => v,
        None => {
            proof {
                assert(height * stride == stride * height) by (nonlinear_arith);
            }
            return Err(DecoderError::InvalidImageData);
        },
    };
    proof {
        assert(height * stride == stride * height) by (nonlinear_arith);
    }
    if n != total {
        return Err(DecoderError::InvalidImageData);
    }
    let ghost d = data@;
    proof {
        assert(rowlen == width * bpp);
        assert(d.len() == height * (1 + width * bpp));
    }
    let mut out: Vec<u8> = Vec::new();
    let mut prior = zeros(rowlen);
    let mut start: usize = 0;
    let mut k: usize = 0;
    while k < height
        invariant
            bpp >= 1,
            n == d.len() == height * stride,
            d == data@,
            defilter_spec(d, width as nat, height as nat, bpp as nat) == defilter_rows(
                d,
                rowlen as nat,
                bpp as nat,
                height as nat,
            ),
            stride == rowlen + 1,
            k <= height,
            start == k * stride,
            defilter_rows(d, rowlen as nat, bpp as nat, k as nat) is Ok,
            out@ == defilter_rows(d, rowlen as nat, bpp as nat, k as nat)->Ok_0,
            out@.len() == k * rowlen,
            prior@ == if k == 0 {
                Seq::new(rowlen as nat, |i: int| 0u8)
            } else {
                out@.subrange(out@.len() - rowlen, out@.len() as int)
            },
        decreases height - k,
    {
        proof {
            assert((k + 1) * stride <= height * stride) by (nonlinear_arith)
                requires k < height;
            assert((k + 1) * stride == k * stride + stride) by (nonlinear_arith);
        }
        proof {
            assert(start == k * (rowlen + 1));
            if k > 0 {
                assert(k * rowlen >= rowlen) by (nonlinear_arith)
                    requires k >= 1;
            }
        }
        let ft = data[start];
        if Filters::from_byte(ft).is_none() {
            proof {
                lemma_defilter_rows_err(d, rowlen as nat, bpp as nat, (k + 1) as nat, height as nat);
            }
            return Err(DecoderError::InvalidFilter(ft));
        }
        let raw = copy_range(data, start + 1, start + 1 + rowlen);
        let row = unfilter_row(ft, raw.as_slice(), prior.as_slice(), bpp);
        proof {
            lemma_recon_len(ft, raw@, prior@, bpp as nat, rowlen as nat);
        }
        let ghost out0 = out@;
        let mut j: usize = 0;
        while j < row.len()
            invariant
                j <= row@.len(),
                out@ == out0 + row@.subrange(0, j as int),
            decreases row@.len() - j,
        {
            out.push(row[j]);
            j = j + 1;
            proof {
                assert(out@ =~= out0 + row@.subrange(0, j as int));
            }
        }
        proof {
            assert(row@.subrange(0, row@.len() as int) =~= row@);
            assert(out@.subrange(out@.len() - rowlen, out@.len() as int) =~= row@);
            assert(k * rowlen + rowlen == (k + 1) * rowlen) by (nonlinear_arith);
        }
        prior = row;
        start = start + stride;
        k = k + 1;
    }
    Ok(out)
}

/// Pixel bytes grouped into (R, G, B) triplets.
pub open spec fn rgb_tuples(px: Seq<u8>) -> Seq<(u8, u8, u8)> {
    Seq::new(px.len() / 3, |i: int| (px[3 * i], px[3 * i + 1], px[3 * i + 2]))
}

/// Groups pixel bytes into (R, G, B) triplets; bytes left over are
/// dropped.
pub fn to_rgb_tuples(px: &[u8]) -> (r: Vec<(u8, u8, u8)>)
    ensures
        r@ == rgb_tuples(px@),
{
    let mut out: Vec<(u8, u8, u8)> = Vec::new();
    let mut i: usize = 0;
    while i < px.len() / 3
        invariant
            i <= px@.len() / 3,
            out@ == rgb_tuples(px@).subrange(0, i as int),
        decreases px@.len() / 3 - i,
    {
        out.push((px[3 * i], px[3 * i + 1], px[3 * i + 2]));
        i = i + 1;
        proof {
            assert(out@ =~= rgb_tuples(px@).subrange(0, i as int));
        }
    }
    proof {
        assert(out@ =~= rgb_tuples(px@));
    }
    out
}

/// The color type that a color type byte stands for.
pub open spec fn color_type_of(b: u8) -> Option<ColorType> {
    if b == 0 {
        Some(ColorType::Grayscale)
    } else if b == 2 {
        Some(ColorType::RGB)
    } else if b == 3 {
        Some(ColorType::PalleteIndex)
    } else if b == 4 {
        Some(ColorType::GrayscaleAlpha)
    } else if b == 6 {
        Some(ColorType::RGBA)
    } else {
        None
    }
}

/// Why the data of the IHDR chunk `h`, if any, is not usable.
pub open spec fn ihdr_check(h: Option<Seq<u8>>) -> Result<Seq<u8>, DecoderError> {
    match h {
        None => Err(DecoderError::MissingHeader),
        Some(h) => if h.len() != 13 {
            Err(DecoderError::MissingHeader)
        } else if color_type_of(h[9]) is None {
            Err(DecoderError::InvalidColorType(h[9]))
        } else if h[12] > 1 {
            Err(DecoderError::InvalidInterlace(h[12]))
        } else if h[10] != 0 || h[11] != 0 {
            Err(DecoderError::UnsupportedMethod)
        } else {
            Ok(h)
        },
    }
}

/// The (R, G, B) pixels of an image with these header values and this
/// concatenated IDAT data.
pub open spec fn rgb_spec(
    color_type: ColorType,
    bit_depth: u8,
    interlace: Interlace,
    width: nat,
    height: nat,
    idat: Seq<u8>,
) -> Result<Seq<(u8, u8, u8)>, DecoderError> {
    if color_type != ColorType::RGB {
        Err(DecoderError::UnsupportedColorType)
    } else if bit_depth != 8 {
        Err(DecoderError::UnsupportedBitDepth(bit_depth))
    } else if interlace != Interlace::NoInterlace {
        Err(DecoderError::UnsupportedInterlace)
    } else {
        match zlib_spec(idat) {
            Err(e) => Err(DecoderError::Zlib(e)),
            Ok(raw) => match defilter_spec(raw, width, height, 3) {
                Err(e) => Err(e),
                Ok(px) => Ok(rgb_tuples(px)),
            },
        }
    }
}

/// The (R, G, B) pixels of a PNG file, left to right, top to bottom.
pub open spec fn png_rgb_spec(file: Seq<u8>) -> Result<Seq<(u8, u8, u8)>, DecoderError> {
    match png_chunks(file) {
        Err(e) => Err(e),
        Ok(l) => match ihdr_check(ihdr_data(l)) {
            Err(e) => Err(e),
            Ok(h) => rgb_spec(
                color_type_of(h[9])->Some_0,
                h[8],
                if h[12] == 0 {
                    Interlace::NoInterlace
                } else {
                    Interlace::Adam7
                },
                be32(h, 0),
                be32(h, 4),
                idat_data(l),
            ),
        },
    }
}

/// A PNG file: its chunks and the values of its header.
pub struct Png {
    pub data: PngData,
    /// Width and height in pixels.
    pub dimensions: (usize, usize),
    pub bit_depth: u8,
    pub color_type: ColorType,
    pub interlace: Interlace,
}

impl Png {
    /// Reads the chunks of a PNG file and the values of its IHDR chunk.
    pub fn from_bytes(file: &[u8]) -> (r: Result<Png, DecoderError>)
        ensures
            match png_chunks(file@) {
                Err(e) => r is Err && r->Err_0 == e,
                Ok(l) => match ihdr_check(ihdr_data(l)) {
                    Err(e) => r is Err && r->Err_0 == e,
                    Ok(h) => r is Ok && {
                        let p = r->Ok_0;
                        &&& p.dimensions.0 == be32(h, 0)
                        &&& p.dimensions.1 == be32(h, 4)
                        &&& p.bit_depth == h[8]
                        &&& color_type_of(h[9]) == Some(p.color_type)
                        &&& p.interlace == if h[12] == 0 {
                            Interlace::NoInterlace
                        } else {
                            Interlace::Adam7
                        }
                        &&& chunks_data(p.data.idat@) == idat_data(l)
                    },
                },
            },
    {
        let data = match PngData::build(file) {
            Ok(d) => d,
            Err(e) => {
                return Err(e);
            },
        };
        if data.ihdr.data.len() != 13 {
            return Err(DecoderError::MissingHeader);
        }
        let h = data.ihdr.data.as_slice();
        let width = read_be32(h, 0) as usize;
        let height = read_be32(h, 4) as usize;
        let bit_depth = h[8];
        let color_type = match h[9] {
            0 => ColorType::Grayscale,
            2 => ColorType::RGB,
            3 => ColorType::PalleteIndex,
            4 => ColorType::GrayscaleAlpha,
            6 => ColorType::RGBA,
            other => {
                return Err(DecoderError::InvalidColorType(other));
            },
        };
        let interlace = match h[12] {
            0 => Interlace::NoInterlace,
            1 => Interlace::Adam7,
            other => {
                return Err(DecoderError::InvalidInterlace(other));
            },
        };
        if h[10] != 0 || h[11] != 0 {
            return Err(DecoderError::UnsupportedMethod);
        }
        Ok(Png { data, dimensions: (width, height), bit_depth, color_type, interlace })
    }

    /// The IDAT data, concatenated: the zlib stream of the image.
    pub fn idat_bytes(&self) -> (r: Vec<u8>)
        ensures
            r@ == chunks_data(self.data.idat@),
    {
        let mut out: Vec<u8> = Vec::new();
        let mut k: usize = 0;
        while k < self.data.idat.len()
            invariant
                k <= self.data.idat@.len(),
                out@ == chunks_data(self.data.idat@.subrange(0, k as int)),
            decreases self.data.idat@.len() - k,
        {
            let ghost out0 = out@;
            let chunk = &self.data.idat[k];
            let mut i: usize = 0;
            while i < chunk.data.len()
                invariant
                    i <= chunk.data@.len(),
                    out@ == out0 + chunk.data@.subrange(0, i as int),
                decreases chunk.data@.len() - i,
            {
                out.push(chunk.data[i]);
                i = i + 1;
                proof {
                    assert(out@ =~= out0 + chunk.data@.subrange(0, i as int));
                }
            }
            proof {
                assert(chunk.data@.subrange(0, chunk.data@.len() as int) =~= chunk.data@);
                assert(self.data.idat@.subrange(0, k + 1).drop_last() =~= self.data.idat@.subrange(
                    0,
                    k as int,
                ));
            }
            k = k + 1;
        }
        proof {
            assert(self.data.idat@.subrange(0, self.data.idat@.len() as int) =~= self.data.idat@);
        }
        out
    }

    /// Decodes the image into (R, G, B) pixels, left to right, top to
    /// bottom. Only 8-bit RGB images without interlacing are supported.
    pub fn rgb(&self) -> (r: Result<Vec<(u8, u8, u8)>, DecoderError>)
        ensures
            match rgb_spec(
                self.color_type,
                self.bit_depth,
                self.interlace,
                self.dimensions.0 as nat,
                self.dimensions.1 as nat,
                chunks_data(self.data.idat@),
            ) {
                Ok(px) => r is Ok && r->Ok_0@ == px,
                Err(e) => r is Err && r->Err_0 == e,
            },
    {
        if self.color_type != ColorType::RGB {
            return Err(DecoderError::UnsupportedColorType);
        }
        if self.bit_depth != 8 {
            return Err(DecoderError::UnsupportedBitDepth(self.bit_depth));
        }
        if self.interlace != Interlace::NoInterlace {
            return Err(DecoderError::UnsupportedInterlace);
        }
        let zlib_bytes = self.idat_bytes();
        let data = match zlib_decompress(zlib_bytes.as_slice()) {
            Ok(d) => d,
            Err(e) => {
                return Err(DecoderError::Zlib(e));
            },
        };
        let px = match defilter_image(data.as_slice(), self.dimensions.0, self.dimensions.1, 3) {
            Ok(p) => p,
            Err(e) => {
                return Err(e);
            },
        };
        Ok(to_rgb_tuples(px.as_slice()))
    }
}

/// Decodes a PNG file into (R, G, B) pixels, left to right, top to bottom.
pub fn decode_png(file: &[u8]) -> (r: Result<Vec<(u8, u8, u8)>, DecoderError>)
    ensures
        match png_rgb_spec(file@) {
            Ok(px) => r is Ok && r->Ok_0@ == px,
            Err(e) => r is Err && r->Err_0 == e,
        },
{
    let png = match Png::from_bytes(file) {
        Ok(p) => p,
        Err(e) => {
            return Err(e);
        },
    };
    png.rgb()
}

} // verus!
