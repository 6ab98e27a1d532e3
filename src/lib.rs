//! A PNG decoder: a DEFLATE inflater over a bit reader and canonical prefix
//! codes, the zlib wrapper with its Adler-32 check, PNG chunks with their
//! CRC-32, and the scanline filters, each stated as a specification and
//! proved against it.

pub mod bits;
pub mod crc;
pub mod filter;
pub mod inflate;
pub mod png;
pub mod ppm;
pub mod prefix;
pub mod zlib;
