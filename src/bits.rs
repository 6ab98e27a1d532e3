use vstd::arithmetic::power2::*;
use vstd::prelude::*;

verus! {

/// The k-th bit of a DEFLATE bit stream: bit `k % 8` (counting from the
/// least significant) of byte `k / 8`.
pub open spec fn bit_of(d: Seq<u8>, k: int) -> nat {
    ((d[k / 8] >> ((k % 8) as u8)) & 1u8) as nat
}

/// Number of bits held by a byte sequence.
pub open spec fn total_bits(d: Seq<u8>) -> nat {
    8 * d.len()
}

/// The `n` bits starting at `p`, read least significant first:
/// the i-th bit read is bit `i` of the value.
pub open spec fn lsb_bits(d: Seq<u8>, p: int, n: nat) -> nat
    decreases n,
{
    if n == 0 {
        0
    } else {
        lsb_bits(d, p, (n - 1) as nat) + bit_of(d, p + n - 1) * pow2((n - 1) as nat)
    }
}

pub proof fn lemma_bit_of_le_1(d: Seq<u8>, k: int)
    requires
        0 <= k < total_bits(d),
    ensures
        bit_of(d, k) <= 1,
{
    let b = d[k / 8];
    let s = (k % 8) as u8;
    assert((b >> s) & 1u8 <= 1u8) by (bit_vector);
}

pub proof fn lemma_lsb_bits_bound(d: Seq<u8>, p: int, n: nat)
    requires
        0 <= p,
        p + n <= total_bits(d),
    ensures
        lsb_bits(d, p, n) < pow2(n),
    decreases n,
{
    lemma2_to64();
    if n > 0 {
        lemma_lsb_bits_bound(d, p, (n - 1) as nat);
        lemma_bit_of_le_1(d, p + n - 1);
        lemma_pow2_unfold(n);
        let w = pow2((n - 1) as nat);
        let b = bit_of(d, p + n - 1);
        assert(b * w <= w) by (nonlinear_arith)
            requires b <= 1;
    }
}

/// A cursor over a byte buffer that hands out bits in DEFLATE order.
pub struct BitReader {
    data: Vec<u8>,
    byte: usize,
    bit: usize,
}

pub proof fn lemma_pos_split(byte: nat, bit: nat)
    requires
        bit < 8,
    ensures
        (8 * byte + bit) / 8 == byte,
        (8 * byte + bit) % 8 == bit,
{
    assert((8 * byte + bit) / 8 == byte && (8 * byte + bit) % 8 == bit) by (nonlinear_arith)
        requires bit < 8;
}

impl BitReader {
    /// The bytes being read.
    pub closed spec fn bytes(&self) -> Seq<u8> {
        self.data@
    }

    /// Index of the next bit to be produced.
    pub closed spec fn pos(&self) -> nat {
        (8 * self.byte + self.bit) as nat
    }

    pub closed spec fn wf(&self) -> bool {
        ||| self.byte < self.data.len() && self.bit < 8
        ||| self.byte == self.data.len() && self.bit == 0
    }

    /// A well-formed reader never stands past the end of its input.
    pub proof fn lemma_pos_bound(&self)
        requires
            self.wf(),
        ensures
            self.pos() <= total_bits(self.bytes()),
    {
    }

    pub fn new(bytes: &[u8]) -> (r: BitReader)
        ensures
            r.wf(),
            r.bytes() == bytes@,
            r.pos() == 0,
    {
        BitReader { data: copy_bytes(bytes), byte: 0, bit: 0 }
    }

    /// Whether at least `n` bits are left.
    pub fn has_bits(&self, n: usize) -> (r: bool)
        requires
            self.wf(),
            n <= 64,
        ensures
            r == (self.pos() + n <= total_bits(self.bytes())),
    {
        let rem = self.data.len() - self.byte;
        if rem > 9 {
            true
        } else {
            8 * rem - self.bit >= n
        }
    }

    /// The next bit, or `None` once every bit has been produced.
    pub fn next_bit(&mut self) -> (r: Option<u8>)
        requires
            old(self).wf(),
        ensures
            final(self).wf(),
            final(self).bytes() == old(self).bytes(),
            old(self).pos() < total_bits(old(self).bytes()) ==> {
                &&& r == Some(bit_of(old(self).bytes(), old(self).pos() as int) as u8)
                &&& final(self).pos() == old(self).pos() + 1
            },
            old(self).pos() >= total_bits(old(self).bytes()) ==> {
                &&& r.is_none()
                &&& final(self).pos() == old(self).pos()
            },
    {
        if self.byte >= self.data.len() {
            return None;
        }
        proof {
            lemma_pos_split(self.byte as nat, self.bit as nat);
        }
        let byte = self.data[self.byte];
        let shift = self.bit as u8;
        let b = (byte >> shift) & 1u8;
        proof {
            assert((byte >> shift) & 1u8 <= 1u8) by (bit_vector);
        }
        if self.bit == 7 {
            self.bit = 0;
            self.byte = self.byte + 1;
        } else {
            self.bit = self.bit + 1;
        }
        Some(b)
    }

    /// One bit of a prefix code. Codes are appended to most significant
    /// first by the decoder; the bit itself comes from the same stream.
    pub fn read_prefix_bit(&mut self) -> (r: Option<u8>)
        requires
            old(self).wf(),
        ensures
            final(self).wf(),
            final(self).bytes() == old(self).bytes(),
            old(self).pos() < total_bits(old(self).bytes()) ==> {
                &&& r == Some(bit_of(old(self).bytes(), old(self).pos() as int) as u8)
                &&& final(self).pos() == old(self).pos() + 1
            },
            old(self).pos() >= total_bits(old(self).bytes()) ==> {
                &&& r.is_none()
                &&& final(self).pos() == old(self).pos()
            },
    {
        self.next_bit()
    }

    /// Reads `n` bits least significant first. Returns `None`, and moves
    /// nothing, when fewer than `n` bits are left.
    pub fn read_bits_lsb_first(&mut self, n: u8) -> (r: Option<u32>)
        requires
            old(self).wf(),
            n <= 16,
        ensures
            final(self).wf(),
            final(self).bytes() == old(self).bytes(),
            old(self).pos() + n <= total_bits(old(self).bytes()) ==> {
                &&& r == Some(lsb_bits(old(self).bytes(), old(self).pos() as int, n as nat) as u32)
                &&& final(self).pos() == old(self).pos() + n
            },
            old(self).pos() + n > total_bits(old(self).bytes()) ==> {
                &&& r.is_none()
                &&& final(self).pos() == old(self).pos()
            },
    {
        if !self.has_bits(n as usize) {
            return None;
        }
        let ghost d = self.data@;
        let ghost p = self.pos() as int;
        let mut val: u32 = 0;
        let mut weight: u32 = 1;
        let mut i: u8 = 0;
        proof {
            lemma2_to64();
        }
        while i < n
            invariant
                0 <= p,
                self.wf(),
                self.data@ == d,
                i <= n <= 16,
                self.pos() == p + i,
                p + n <= total_bits(d),
                weight == pow2(i as nat),
                val == lsb_bits(d, p, i as nat),
            decreases n - i,
        {
            proof {
                lemma_lsb_bits_bound(d, p, i as nat);
                lemma_pow2_unfold((i + 1) as nat);
                lemma_pow2_strictly_increases(i as nat, 16);
                lemma2_to64();
            }
            let b = self.next_bit().unwrap();
            proof {
                lemma_bit_of_le_1(d, p + i);
                assert(b as nat * weight as nat <= weight as nat) by (nonlinear_arith)
                    requires b <= 1;
            }
            val = val + (b as u32) * weight;
            weight = weight * 2;
            i = i + 1;
        }
        Some(val)
    }

    /// Skips the bits left in the current byte.
    pub fn align_to_byte(&mut self)
        requires
            old(self).wf(),
        ensures
            final(self).wf(),
            final(self).bytes() == old(self).bytes(),
            final(self).pos() == byte_ceil(old(self).pos()) * 8,
    {
        proof {
            lemma_pos_split(self.byte as nat, self.bit as nat);
        }
        if self.bit != 0 {
            self.bit = 0;
            self.byte = self.byte + 1;
        }
    }

    /// Index of the byte that holds the next bit.
    pub fn byte_position(&self) -> (r: usize)
        requires
            self.wf(),
        ensures
            r == self.pos() / 8,
    {
        proof {
            lemma_pos_split(self.byte as nat, self.bit as nat);
        }
        self.byte
    }

    /// Hands out the `len` whole bytes at the current byte-aligned position
    /// and moves past them; `None` if fewer are left.
    pub fn take_bytes(&mut self, len: usize) -> (r: Option<Vec<u8>>)
        requires
            old(self).wf(),
            old(self).pos() % 8 == 0,
        ensures
            final(self).wf(),
            final(self).bytes() == old(self).bytes(),
            ({
                let b = old(self).pos() / 8;
                if b + len <= old(self).bytes().len() {
                    &&& r.is_some()
                    &&& r.unwrap()@ == old(self).bytes().subrange(b as int, b + len)
                    &&& final(self).pos() == old(self).pos() + 8 * len
                } else {
                    &&& r.is_none()
                    &&& final(self).pos() == old(self).pos()
                }
            }),
    {
        proof {
            lemma_pos_split(self.byte as nat, self.bit as nat);
        }
        let b = self.byte;
        if len > self.data.len() - b {
            return None;
        }
        let mut out: Vec<u8> = Vec::new();
        let mut i: usize = b;
        while i < b + len
            invariant
                b <= i <= b + len <= self.data.len(),
                out@ == self.data@.subrange(b as int, i as int),
            decreases b + len - i,
        {
            out.push(self.data[i]);
            i = i + 1;
        }
        self.byte = self.byte + len;
        Some(out)
    }
}

/// A fresh vector holding the bytes of a slice.
pub fn copy_bytes(b: &[u8]) -> (r: Vec<u8>)
    ensures
        r@ == b@,
{
    let mut out: Vec<u8> = Vec::new();
    let mut i: usize = 0;
    while i < b.len()
        invariant
            i <= b@.len(),
            out@ == b@.subrange(0, i as int),
        decreases b@.len() - i,
    {
        out.push(b[i]);
        i = i + 1;
    }
    proof {
        assert(out@ =~= b@);
    }
    out
}

/// Number of bytes that `p` bits begin to fill.
pub open spec fn byte_ceil(p: nat) -> nat {
    if p % 8 == 0 {
        p / 8
    } else {
        p / 8 + 1
    }
}

} // verus!
