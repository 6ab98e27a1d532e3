use vstd::prelude::*;

use crate::inflate::{inflate_spec, DeflateError, DeflateStream};

verus! {

/// Why a zlib stream could not be decoded.
#[derive(Debug, Clone, Copy, PartialEq, Eq, Structural)]
pub enum ZlibError {
    /// The two header bytes, read as a big-endian number, are not a
    /// multiple of 31.
    InvalidHeader,
    /// The input is too short for the header, dictionary id or checksum.
    Truncated,
    /// The DEFLATE data inside could not be decoded.
    Deflate(DeflateError),
    /// The Adler-32 checksum does not match the decoded data.
    ChecksumMismatch,
}

impl ZlibError {
    /// A short description of the error.
    pub fn describe(&self) -> &'static str {
        match self {
            ZlibError::InvalidHeader => "invalid header: CMF and FLG are not a multiple of 31",
            ZlibError::Truncated => "stream too short for its header and checksum",
            ZlibError::Deflate(e) => e.describe(),
            ZlibError::ChecksumMismatch => "Adler-32 checksum does not match the data",
        }
    }
}

/// Modulus of the Adler-32 sums.
pub const ADLER_MOD: u32 = 65521;

/// The first Adler-32 sum: one plus the bytes, modulo 65521.
pub open spec fn adler_a(s: Seq<u8>) -> nat
    decreases s.len(),
{
    if s.len() == 0 {
        1
    } else {
        ((adler_a(s.drop_last()) + s.last()) % (ADLER_MOD as int)) as nat
    }
}

/// The second Adler-32 sum: the sum of the first sum after each byte,
/// modulo 65521.
pub open spec fn adler_b(s: Seq<u8>) -> nat
    decreases s.len(),
{
    if s.len() == 0 {
        0
    } else {
        ((adler_b(s.drop_last()) + adler_a(s)) % (ADLER_MOD as nat)) as nat
    }
}

/// The Adler-32 checksum of `s`.
pub open spec fn adler32_spec(s: Seq<u8>) -> nat {
    adler_b(s) * 65536 + adler_a(s)
}

/// Four bytes read as a big-endian number.
pub open spec fn be32(s: Seq<u8>, i: int) -> nat {
    (s[i] * 16777216 + s[i + 1] * 65536 + s[i + 2] * 256 + s[i + 3]) as nat
}

/// Whether the header's dictionary flag is set.
pub open spec fn has_dict(s: Seq<u8>) -> bool {
    (s[1] / 32) % 2 == 1
}

/// Length of the header: two bytes, and four more for a dictionary id.
pub open spec fn header_len(s: Seq<u8>) -> nat {
    if has_dict(s) {
        6
    } else {
        2
    }
}

/// What a zlib stream decodes to.
pub open spec fn zlib_spec(s: Seq<u8>) -> Result<Seq<u8>, ZlibError> {
    if s.len() < 2 {
        Err(ZlibError::Truncated)
    } else if (s[0] * 256 + s[1]) % 31 != 0 {
        Err(ZlibError::InvalidHeader)
    } else if s.len() < header_len(s) + 4 {
        Err(ZlibError::Truncated)
    } else {
        match inflate_spec(s.subrange(header_len(s) as int, s.len() - 4)) {
            Err(e) => Err(ZlibError::Deflate(e)),
            Ok(o) => if adler32_spec(o) == be32(s, s.len() - 4) {
                Ok(o)
            } else {
                Err(ZlibError::ChecksumMismatch)
            },
        }
    }
}

/// The bytes `r` hold what `s` says, or both are the same error.
pub open spec fn same_zlib_result(r: Result<Vec<u8>, ZlibError>, s: Result<Seq<u8>, ZlibError>) -> bool {
    match s {
        Ok(o) => r is Ok && r->Ok_0@ == o,
        Err(e) => r == Err::<Vec<u8>, ZlibError>(e),
    }
}

/// The Adler-32 checksum of `data`.
pub fn adler32(data: &[u8]) -> (r: u32)
    ensures
        r == adler32_spec(data@),
{
    let mut a: u32 = 1;
    let mut b: u32 = 0;
    let mut i: usize = 0;
    while i < data.len()
        invariant
            i <= data@.len(),
            a == adler_a(data@.subrange(0, i as int)),
            b == adler_b(data@.subrange(0, i as int)),
            a < ADLER_MOD,
            b < ADLER_MOD,
        decreases data@.len() - i,
    {
        proof {
            assert(data@.subrange(0, i + 1).drop_last() =~= data@.subrange(0, i as int));
        }
        a = (a + data[i] as u32) % ADLER_MOD;
        b = (b + a) % ADLER_MOD;
        i = i + 1;
    }
    proof {
        assert(data@.subrange(0, data@.len() as int) =~= data@);
    }
    b * 65536 + a
}

/// The header of a zlib stream.
#[derive(Debug, Clone, Copy, PartialEq, Eq, Structural)]
pub struct ZlibHeader {
    /// Compression method: the low four bits of the first byte.
    pub cm: u8,
    /// Compression info: the high four bits of the first byte.
    pub cinfo: u8,
    /// The preset dictionary id, when the flag for one is set.
    pub fdict: Option<u32>,
    /// Compression level: the two high bits of the second byte.
    pub flevel: u8,
    /// Index of the first byte after the header.
    pub end_idx: usize,
}

impl ZlibHeader {
    /// Parses the header at the start of `bytes`.
    pub fn build(bytes: &[u8]) -> (r: Result<ZlibHeader, ZlibError>)
        ensures
            bytes@.len() < 2 ==> r == Err::<ZlibHeader, ZlibError>(ZlibError::Truncated),
            bytes@.len() >= 2 && (bytes@[0] * 256 + bytes@[1]) % 31 != 0 ==> r == Err::<
                ZlibHeader,
                ZlibError,
            >(ZlibError::InvalidHeader),
            bytes@.len() >= 2 && (bytes@[0] * 256 + bytes@[1]) % 31 == 0 && bytes@.len()
                < header_len(bytes@) ==> r == Err::<ZlibHeader, ZlibError>(ZlibError::Truncated),
            bytes@.len() >= 2 && (bytes@[0] * 256 + bytes@[1]) % 31 == 0 && bytes@.len()
                >= header_len(bytes@) ==> (r matches Ok(h) && {
                &&& h.cm == bytes@[0] % 16
                &&& h.cinfo == bytes@[0] / 16
                &&& h.flevel == bytes@[1] / 64
                &&& h.end_idx == header_len(bytes@)
                &&& h.fdict == if has_dict(bytes@) {
                    Some(be32(bytes@, 2) as u32)
                } else {
                    None
                }
            }),
    {
        if bytes.len() < 2 {
            return Err(ZlibError::Truncated);
        }
        let cmf = bytes[0];
        let flg = bytes[1];
        if (cmf as u32 * 256 + flg as u32) % 31 != 0 {
            return Err(ZlibError::InvalidHeader);
        }
        let cm = cmf % 16;
        let cinfo = cmf / 16;
        let flevel = flg / 64;
        let mut end_idx: usize = 2;
        let fdict = if (flg / 32) % 2 == 1 {
            if bytes.len() < 6 {
                return Err(ZlibError::Truncated);
            }
            end_idx = 6;
            Some(
                bytes[2] as u32 * 16777216 + bytes[3] as u32 * 65536 + bytes[4] as u32 * 256
                    + bytes[5] as u32,
            )
        } else {
            None
        };
        Ok(ZlibHeader { cm, cinfo, fdict, flevel, end_idx })
    }
}

/// A zlib stream taken apart: its header, a decoder over the DEFLATE data,
/// and the checksum that ends it.
pub struct ZlibStream {
    pub header: ZlibHeader,
    pub deflate: DeflateStream,
    pub adler32: u32,
}

impl ZlibStream {
    /// Splits `bytes` into header, DEFLATE data and checksum.
    pub fn build(bytes: &[u8]) -> (r: Result<ZlibStream, ZlibError>)
        ensures
            bytes@.len() < 2 ==> r == Err::<ZlibStream, ZlibError>(ZlibError::Truncated),
            bytes@.len() >= 2 && (bytes@[0] * 256 + bytes@[1]) % 31 != 0 ==> r is Err && r->Err_0
                == ZlibError::InvalidHeader,
            bytes@.len() >= 2 && (bytes@[0] * 256 + bytes@[1]) % 31 == 0 && bytes@.len()
                < header_len(bytes@) + 4 ==> r is Err && r->Err_0 == ZlibError::Truncated,
            bytes@.len() >= 2 && (bytes@[0] * 256 + bytes@[1]) % 31 == 0 && bytes@.len()
                >= header_len(bytes@) + 4 ==> (r matches Ok(z) && {
                &&& z.deflate.wf()
                &&& z.deflate.input() == bytes@.subrange(
                    header_len(bytes@) as int,
                    bytes@.len() - 4,
                )
                &&& z.deflate.position() == 0
                &&& z.deflate.output() == Seq::<u8>::empty()
                &&& !z.deflate.is_finished()
                &&& z.adler32 == be32(bytes@, bytes@.len() - 4)
                &&& z.header.end_idx == header_len(bytes@)
                &&& z.header.cm == bytes@[0] % 16
                &&& z.header.cinfo == bytes@[0] / 16
                &&& z.header.flevel == bytes@[1] / 64
                &&& z.header.fdict == if has_dict(bytes@) {
                    Some(be32(bytes@, 2) as u32)
                } else {
                    None
                }
            }),
    {
        let header = match ZlibHeader::build(bytes) {
            Ok(h) => h,
            Err(e) => {
                return Err(e);
            },
        };
        let n = bytes.len();
        if n < header.end_idx + 4 {
            return Err(ZlibError::Truncated);
        }
        let mut body: Vec<u8> = Vec::new();
        let mut i: usize = header.end_idx;
        while i < n - 4
            invariant
                header.end_idx <= i <= n - 4,
                n == bytes@.len(),
                body@ == bytes@.subrange(header.end_idx as int, i as int),
            decreases n - 4 - i,
        {
            body.push(bytes[i]);
            i = i + 1;
        }
        let deflate = DeflateStream::build(body.as_slice());
        let adler32 = bytes[n - 4] as u32 * 16777216 + bytes[n - 3] as u32 * 65536 + bytes[n
            - 2] as u32 * 256 + bytes[n - 1] as u32;
        Ok(ZlibStream { header, deflate, adler32 })
    }

    /// Decodes the DEFLATE data and checks it against the checksum.
    pub fn decompress(&mut self) -> (r: Result<Vec<u8>, ZlibError>)
        requires
            old(self).deflate.wf(),
        ensures
            match old(self).deflate.remaining_result() {
                Err(e) => r == Err::<Vec<u8>, ZlibError>(ZlibError::Deflate(e)),
                Ok(o) => if adler32_spec(o) == old(self).adler32 {
                    r is Ok && r->Ok_0@ == o
                } else {
                    r == Err::<Vec<u8>, ZlibError>(ZlibError::ChecksumMismatch)
                },
            },
    {
        let data = match self.deflate.decompress() {
            Ok(v) => v,
            Err(e) => {
                return Err(ZlibError::Deflate(e));
            },
        };
        if adler32(data.as_slice()) != self.adler32 {
            return Err(ZlibError::ChecksumMismatch);
        }
        Ok(data)
    }
}

/// Decodes a whole zlib stream.
pub fn zlib_decompress(bytes: &[u8]) -> (r: Result<Vec<u8>, ZlibError>)
    ensures
        same_zlib_result(r, zlib_spec(bytes@)),
{
    let mut z = match ZlibStream::build(bytes) {
        Ok(z) => z,
        Err(e) => {
            return Err(e);
        },
    };
    z.decompress()
}

} // verus!
