use vstd::prelude::*;

verus! {

/// The header of a binary PPM image whose width and height are single
/// digits, stored as `digit + 48`.
pub open spec fn ppm_header(x: u8, y: u8) -> Seq<u8> {
    seq![0x50u8, 0x36, 0x0a, (x + 48) as u8, 0x20, (y + 48) as u8, 0x0a, 0x32, 0x35, 0x35, 0x0a]
}

/// The bytes of pixels written one after the other.
pub open spec fn pixel_bytes(p: Seq<(u8, u8, u8)>) -> Seq<u8>
    decreases p.len(),
{
    if p.len() == 0 {
        Seq::empty()
    } else {
        pixel_bytes(p.drop_last()) + seq![p.last().0, p.last().1, p.last().2]
    }
}

/// A small binary PPM image.
pub struct PpmSmall {
    pub header: Vec<u8>,
    pub dimensions: (u8, u8),
    pub data: Vec<(u8, u8, u8)>,
}

impl PpmSmall {
    /// An image of `x` by `y` pixels holding `data`.
    pub fn build(data: &[(u8, u8, u8)], x: u8, y: u8) -> (r: PpmSmall)
        requires
            x <= 207,
            y <= 207,
        ensures
            r.header@ == ppm_header(x, y),
            r.dimensions == (x, y),
            r.data@ == data@,
    {
        let header = vec![
            0x50u8,
            0x36,
            0x0a,
            x + 48,
            0x20,
            y + 48,
            0x0a,
            0x32,
            0x35,
            0x35,
            0x0a,
        ];
        let mut pixels: Vec<(u8, u8, u8)> = Vec::new();
        let mut i: usize = 0;
        while i < data.len()
            invariant
                i <= data@.len(),
                pixels@ == data@.subrange(0, i as int),
            decreases data@.len() - i,
        {
            pixels.push(data[i]);
            i = i + 1;
        }
        proof {
            assert(header@ =~= ppm_header(x, y));
            assert(pixels@ =~= data@);
        }
        PpmSmall { header, dimensions: (x, y), data: pixels }
    }

    /// The file: the header, the pixels' bytes, and a final newline.
    pub fn to_bytes(&self) -> (r: Vec<u8>)
        ensures
            r@ == self.header@ + pixel_bytes(self.data@) + seq![0x0au8],
    {
        let mut out: Vec<u8> = Vec::new();
        let mut i: usize = 0;
        while i < self.header.len()
            invariant
                i <= self.header@.len(),
                out@ == self.header@.subrange(0, i as int),
            decreases self.header@.len() - i,
        {
            out.push(self.header[i]);
            i = i + 1;
        }
        proof {
            assert(self.header@.subrange(0, self.header@.len() as int) =~= self.header@);
        }
        let mut k: usize = 0;
        while k < self.data.len()
            invariant
                k <= self.data@.len(),
                out@ == self.header@ + pixel_bytes(self.data@.subrange(0, k as int)),
            decreases self.data@.len() - k,
        {
            let (r, g, b) = self.data[k];
            out.push(r);
            out.push(g);
            out.push(b);
            proof {
                let s = self.data@.subrange(0, k + 1);
                assert(s.drop_last() =~= self.data@.subrange(0, k as int));
                assert(out@ =~= self.header@ + pixel_bytes(s));
            }
            k = k + 1;
        }
        proof {
            assert(self.data@.subrange(0, self.data@.len() as int) =~= self.data@);
        }
        out.push(0x0a);
        out
    }
}

} // verus!
