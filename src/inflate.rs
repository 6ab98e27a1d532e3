use vstd::arithmetic::power2::*;
use vstd::prelude::*;

use crate::bits::{bit_of, byte_ceil, copy_bytes, lsb_bits, total_bits, BitReader};
use crate::prefix::{
    count_before, count_len, decode_from, decode_spec, kraft, lengths_valid, lookup, max_len,
    PrefixCodeMap,
};

verus! {

/// Why a DEFLATE stream could not be decoded.
#[derive(Debug, Clone, Copy, PartialEq, Eq, Structural)]
pub enum DeflateError {
    /// Reserved block type, or a stored block whose LEN and NLEN disagree.
    InvalidBlock,
    /// A code that no symbol has, a symbol outside its alphabet, or a
    /// repeat of the previous code length where there is none.
    InvalidSymbol,
    /// Code lengths that no prefix code can have (over-subscribed, too
    /// long, or an empty literal/length alphabet).
    InvalidTable,
    /// A back-reference that reaches before the start of the output.
    BackRefOutOfRange,
    /// The input ended in the middle of a field or a symbol.
    UnexpectedEnd,
}

impl DeflateError {
    /// A short description of the error.
    pub fn describe(&self) -> &'static str {
        match self {
            DeflateError::InvalidBlock => "invalid block: reserved block type or LEN/NLEN mismatch",
            DeflateError::InvalidSymbol => "invalid symbol: undecodable code or symbol out of range",
            DeflateError::InvalidTable => "invalid table: code lengths that form no prefix code",
            DeflateError::BackRefOutOfRange => "back-reference before the start of the output",
            DeflateError::UnexpectedEnd => "input ended inside a block",
        }
    }
}

/// The number of extra bits each length code has.
pub const LENGTH_EXTRA_BITS: [u8; 29] = [
    0, 0, 0, 0, 0, 0, 0, 0, 1, 1, 1, 1, 2, 2, 2, 2, 3, 3, 3, 3, 4, 4, 4, 4, 5, 5, 5, 5, 0,
];

/// The base length value of each length code.
pub const LENGTH_BASE: [u16; 29] = [
    3, 4, 5, 6, 7, 8, 9, 10, 11, 13, 15, 17, 19, 23, 27, 31, 35, 43, 51, 59, 67, 83, 99, 115, 131,
    163, 195, 227, 258,
];

/// The number of extra bits each distance code has.
pub const DISTANCE_EXTRA_BITS: [u8; 30] = [
    0, 0, 0, 0, 1, 1, 2, 2, 3, 3, 4, 4, 5, 5, 6, 6, 7, 7, 8, 8, 9, 9, 10, 10, 11, 11, 12, 12, 13,
    13,
];

/// The base value of each distance code.
pub const DISTANCE_BASE: [u16; 30] = [
    1, 2, 3, 4, 5, 7, 9, 13, 17, 25, 33, 49, 65, 97, 129, 193, 257, 385, 513, 769, 1025, 1537,
    2049, 3073, 4097, 6145, 8193, 12289, 16385, 24577,
];

/// The order in which the code lengths of the code-length alphabet are sent.
pub const CODE_LENGTH_ORDER: [usize; 19] = [
    16, 17, 18, 0, 8, 7, 9, 6, 10, 5, 11, 4, 12, 3, 13, 2, 14, 1, 15,
];

/// Copies `n` bytes, one at a time, from `dist` bytes before the end of
/// `out` to its end; bytes written by the copy can be read back by it.
pub open spec fn lz_copy(out: Seq<u8>, dist: nat, n: nat) -> Seq<u8>
    decreases n,
{
    if n == 0 {
        out
    } else {
        let o = lz_copy(out, dist, (n - 1) as nat);
        o.push(o[o.len() - dist])
    }
}

/// Code lengths of the fixed literal/length code.
pub open spec fn fixed_lit_lengths() -> Seq<u8> {
    Seq::new(
        288,
        |i: int|
            if i < 144 {
                8u8
            } else if i < 256 {
                9u8
            } else if i < 280 {
                7u8
            } else {
                8u8
            },
    )
}

/// Code lengths of the fixed distance code.
pub open spec fn fixed_dist_lengths() -> Seq<u8> {
    Seq::new(32, |i: int| 5u8)
}

/// `q` lies after `p` and within the input.
pub open spec fn advances(d: Seq<u8>, p: nat, q: nat) -> bool {
    p < q <= total_bits(d)
}

/// A length/distance pair whose length symbol `s` (257..=285) has been read
/// and ends at `p`: its extra bits, the distance symbol and its extra bits,
/// then the copy.
pub open spec fn back_reference(dd: Seq<u8>, d: Seq<u8>, p: nat, out: Seq<u8>, s: nat) -> Result<
    (Seq<u8>, nat),
    DeflateError,
> {
    let li = s - 257;
    let ln = LENGTH_EXTRA_BITS@[li] as nat;
    if p + ln > total_bits(d) {
        Err(DeflateError::UnexpectedEnd)
    } else {
        let length = LENGTH_BASE@[li] as nat + lsb_bits(d, p as int, ln);
        match decode_spec(dd, d, p + ln) {
            Err(e) => Err(e),
            Ok((ds, pos3)) => if ds >= 30 {
                Err(DeflateError::InvalidSymbol)
            } else {
                let dn = DISTANCE_EXTRA_BITS@[ds as int] as nat;
                if pos3 + dn > total_bits(d) {
                    Err(DeflateError::UnexpectedEnd)
                } else {
                    let dist = DISTANCE_BASE@[ds as int] as nat + lsb_bits(d, pos3 as int, dn);
                    if dist > out.len() {
                        Err(DeflateError::BackRefOutOfRange)
                    } else {
                        Ok((lz_copy(out, dist, length), pos3 + dn))
                    }
                }
            },
        }
    }
}

/// The symbols of a Huffman-coded block from `p` on, with literal/length
/// code lengths `ll` and distance code lengths `dd`, appended to `out`;
/// gives the output and the position after the end-of-block symbol.
pub open spec fn symbols_from(ll: Seq<u8>, dd: Seq<u8>, d: Seq<u8>, p: nat, out: Seq<u8>) -> Result<
    (Seq<u8>, nat),
    DeflateError,
>
    decreases total_bits(d) - p,
{
    match decode_spec(ll, d, p) {
        Err(e) => Err(e),
        Ok((s, pos1)) => if s < 256 {
            if advances(d, p, pos1) {
                symbols_from(ll, dd, d, pos1, out.push(s as u8))
            } else {
                Err(DeflateError::UnexpectedEnd)
            }
        } else if s == 256 {
            Ok((out, pos1))
        } else if s <= 285 {
            match back_reference(dd, d, pos1, out, s) {
                Err(e) => Err(e),
                Ok((o2, pos2)) => if advances(d, p, pos2) {
                    symbols_from(ll, dd, d, pos2, o2)
                } else {
                    Err(DeflateError::UnexpectedEnd)
                },
            }
        } else {
            Err(DeflateError::InvalidSymbol)
        },
    }
}

/// One code-length symbol `s` of a dynamic block header, read up to `p`,
/// applied to the lengths `acc` gathered so far: a length itself (0..=15),
/// a repeat of the previous length (16) or a run of zeros (17, 18), each
/// repeat count read from the extra bits after `p`.
pub open spec fn code_length_step(d: Seq<u8>, p: nat, acc: Seq<u8>, s: nat) -> Result<
    (Seq<u8>, nat),
    DeflateError,
> {
    if s < 16 {
        Ok((acc.push(s as u8), p))
    } else if s == 16 {
        if acc.len() == 0 {
            Err(DeflateError::InvalidSymbol)
        } else if p + 2 > total_bits(d) {
            Err(DeflateError::UnexpectedEnd)
        } else {
            Ok((acc + Seq::new(3 + lsb_bits(d, p as int, 2), |i: int| acc.last()), p + 2))
        }
    } else if s == 17 {
        if p + 3 > total_bits(d) {
            Err(DeflateError::UnexpectedEnd)
        } else {
            Ok((acc + Seq::new(3 + lsb_bits(d, p as int, 3), |i: int| 0u8), p + 3))
        }
    } else if s == 18 {
        if p + 7 > total_bits(d) {
            Err(DeflateError::UnexpectedEnd)
        } else {
            Ok((acc + Seq::new(11 + lsb_bits(d, p as int, 7), |i: int| 0u8), p + 7))
        }
    } else {
        Err(DeflateError::InvalidSymbol)
    }
}

/// Decodes code lengths with the code-length code `cl` from `p` on until
/// at least `count` are gathered in `acc`.
pub open spec fn code_lengths_from(cl: Seq<u8>, d: Seq<u8>, p: nat, count: nat, acc: Seq<u8>) -> Result<
    (Seq<u8>, nat),
    DeflateError,
>
    decreases total_bits(d) - p,
{
    if acc.len() >= count {
        Ok((acc, p))
    } else {
        match decode_spec(cl, d, p) {
            Err(e) => Err(e),
            Ok((s, pos1)) => match code_length_step(d, pos1, acc, s) {
                Err(e) => Err(e),
                Ok((a2, pos2)) => if advances(d, p, pos2) {
                    code_lengths_from(cl, d, pos2, count, a2)
                } else {
                    Err(DeflateError::UnexpectedEnd)
                },
            },
        }
    }
}

/// The code lengths of the code-length alphabet: the first `n` three-bit
/// values from `p` on, put in place by `CODE_LENGTH_ORDER`; the rest zero.
pub open spec fn cl_lengths(d: Seq<u8>, p: nat, n: nat) -> Seq<u8>
    decreases n,
{
    if n == 0 {
        Seq::new(19, |i: int| 0u8)
    } else {
        let k = (n - 1) as nat;
        cl_lengths(d, p, k).update(
            CODE_LENGTH_ORDER@[k as int] as int,
            lsb_bits(d, (p + 3 * k) as int, 3) as u8,
        )
    }
}

/// The header of a dynamic block from `p` on: the literal/length and the
/// distance code lengths, and the position after them.
pub open spec fn dynamic_tables(d: Seq<u8>, p: nat) -> Result<(Seq<u8>, Seq<u8>, nat), DeflateError> {
    if p + 14 > total_bits(d) {
        Err(DeflateError::UnexpectedEnd)
    } else {
        let nlit = lsb_bits(d, p as int, 5) + 257;
        let ndist = lsb_bits(d, p + 5int, 5) + 1;
        let ncl = lsb_bits(d, p + 10int, 4) + 4;
        let pos0 = p + 14;
        if pos0 + 3 * ncl > total_bits(d) {
            Err(DeflateError::UnexpectedEnd)
        } else {
            let cl = cl_lengths(d, pos0, ncl);
            if !lengths_valid(cl) {
                Err(DeflateError::InvalidTable)
            } else {
                match code_lengths_from(cl, d, pos0 + 3 * ncl, nlit + ndist, seq![]) {
                    Err(e) => Err(e),
                    Ok((ls, pos1)) => {
                        let ll = ls.subrange(0, nlit as int);
                        let dd = ls.subrange(nlit as int, ls.len() as int);
                        if ls.len() != nlit + ndist || !lengths_valid(ll) || !lengths_valid(dd)
                            || max_len(ll) == 0 {
                            Err(DeflateError::InvalidTable)
                        } else {
                            Ok((ll, dd, pos1))
                        }
                    },
                }
            }
        }
    }
}

/// A stored block whose header bits end at `p`: LEN and NLEN from the next
/// byte boundary on, then LEN raw bytes.
pub open spec fn stored_block(d: Seq<u8>, p: nat, out: Seq<u8>) -> Result<(Seq<u8>, nat), DeflateError> {
    let b = byte_ceil(p);
    if b + 4 > d.len() {
        Err(DeflateError::UnexpectedEnd)
    } else {
        let b = b as int;
        let len = d[b] + 256 * d[b + 1];
        let nlen = d[b + 2] + 256 * d[b + 3];
        if len + nlen != 65535 {
            Err(DeflateError::InvalidBlock)
        } else if b + 4 + len > d.len() {
            Err(DeflateError::UnexpectedEnd)
        } else {
            Ok((out + d.subrange(b + 4, b + 4 + len), 8 * (b + 4 + len) as nat))
        }
    }
}

/// The body of a block of type `btype` whose header ends at `p`.
#[verifier::opaque]
pub open spec fn block_body(btype: nat, d: Seq<u8>, p: nat, out: Seq<u8>) -> Result<
    (Seq<u8>, nat),
    DeflateError,
> {
    if btype == 0 {
        stored_block(d, p, out)
    } else if btype == 1 {
        symbols_from(fixed_lit_lengths(), fixed_dist_lengths(), d, p, out)
    } else if btype == 2 {
        match dynamic_tables(d, p) {
            Err(e) => Err(e),
            Ok((ll, dd, pos1)) => symbols_from(ll, dd, d, pos1, out),
        }
    } else {
        Err(DeflateError::InvalidBlock)
    }
}

/// The blocks from `p` on, up to and including the one marked final,
/// appended to `out`.
pub open spec fn blocks_from(d: Seq<u8>, p: nat, out: Seq<u8>) -> Result<Seq<u8>, DeflateError>
    decreases total_bits(d) - p,
{
    if p + 3 > total_bits(d) {
        Err(DeflateError::UnexpectedEnd)
    } else {
        match block_body(lsb_bits(d, p + 1int, 2), d, p + 3, out) {
            Err(e) => Err(e),
            Ok((o, q)) => if bit_of(d, p as int) == 1 {
                Ok(o)
            } else if advances(d, p, q) {
                blocks_from(d, q, o)
            } else {
                Err(DeflateError::UnexpectedEnd)
            },
        }
    }
}

/// What a DEFLATE stream decodes to.
pub open spec fn inflate_spec(d: Seq<u8>) -> Result<Seq<u8>, DeflateError> {
    blocks_from(d, 0, seq![])
}

/// The bytes `r` hold what `s` says, or both are the same error.
pub open spec fn same_result(r: Result<Vec<u8>, DeflateError>, s: Result<Seq<u8>, DeflateError>) -> bool {
    match s {
        Ok(o) => r is Ok && r->Ok_0@ == o,
        Err(e) => r == Err::<Vec<u8>, DeflateError>(e),
    }
}

pub proof fn lemma_decode_from_ok(l: Seq<u8>, d: Seq<u8>, p: nat, k: nat, code: nat)
    requires
        decode_from(l, d, p, k, code) is Ok,
    ensures
        ({
            let (s, q) = decode_from(l, d, p, k, code)->Ok_0;
            p + k < q <= total_bits(d) && s < l.len()
        }),
    decreases max_len(l) - k,
{
    if k < max_len(l) && p + k < total_bits(d) {
        let c = 2 * code + bit_of(d, (p + k) as int);
        if lookup(l, k + 1, c) is None {
            lemma_decode_from_ok(l, d, p, k + 1, c);
        }
    }
}

/// A decoded symbol lies in its alphabet, and decoding moves forward within
/// the input.
pub proof fn lemma_decode_ok(l: Seq<u8>, d: Seq<u8>, p: nat)
    requires
        decode_spec(l, d, p) is Ok,
    ensures
        advances(d, p, decode_spec(l, d, p)->Ok_0.1),
        decode_spec(l, d, p)->Ok_0.0 < l.len(),
{
    lemma_decode_from_ok(l, d, p, 0, 0);
}

pub proof fn lemma_lz_copy_len(out: Seq<u8>, dist: nat, n: nat)
    ensures
        lz_copy(out, dist, n).len() == out.len() + n,
    decreases n,
{
    if n > 0 {
        lemma_lz_copy_len(out, dist, (n - 1) as nat);
    }
}

pub proof fn lemma_lz_copy_prefix(out: Seq<u8>, dist: nat, n: nat, i: int)
    requires
        0 <= i < out.len(),
    ensures
        lz_copy(out, dist, n)[i] == out[i],
    decreases n,
{
    if n > 0 {
        lemma_lz_copy_prefix(out, dist, (n - 1) as nat, i);
        lemma_lz_copy_len(out, dist, (n - 1) as nat);
    }
}

/// A back-reference copies byte by byte: byte `j` of what it appends is
/// byte `j % dist` of the `dist` bytes it starts from, so a length longer
/// than the distance repeats them.
pub proof fn lemma_lz_copy_repeats(out: Seq<u8>, dist: nat, n: nat)
    requires
        1 <= dist <= out.len(),
    ensures
        lz_copy(out, dist, n).len() == out.len() + n,
        forall|j: int|
            0 <= j < n ==> #[trigger] lz_copy(out, dist, n)[out.len() + j] == out[out.len() - dist
                + (j % (dist as int))],
    decreases n,
{
    lemma_lz_copy_len(out, dist, n);
    if n > 0 {
        let m = (n - 1) as nat;
        lemma_lz_copy_repeats(out, dist, m);
        let o = lz_copy(out, dist, m);
        assert forall|j: int| 0 <= j < n implies #[trigger] lz_copy(out, dist, n)[out.len() + j]
            == out[out.len() - dist + (j % (dist as int))] by {
            if j < m {
                assert(lz_copy(out, dist, n)[out.len() + j] == o[out.len() + j]);
            } else {
                let src = out.len() + m - dist;
                assert(lz_copy(out, dist, n)[out.len() + j] == o[src]);
                if m < dist {
                    lemma_lz_copy_prefix(out, dist, m, src);
                    assert(j % (dist as int) == j) by (nonlinear_arith)
                        requires 0 <= j < dist;
                } else {
                    let j2 = j - dist;
                    assert(o[out.len() + j2] == out[out.len() - dist + (j2 % (dist as int))]);
                    assert(j2 % (dist as int) == j % (dist as int)) by (nonlinear_arith)
                        requires j2 == j - dist, j >= dist, dist >= 1;
                }
            }
        }
    }
}

pub proof fn lemma_count_run(l: Seq<u8>, a: int, j: int, k: nat, c: u8)
    requires
        0 <= a <= j <= l.len(),
        forall|i: int| a <= i < j ==> l[i] == c,
    ensures
        count_before(l, j, k) == count_before(l, a, k) + if c == k {
            (j - a) as nat
        } else {
            0nat
        },
    decreases j - a,
{
    if a < j {
        lemma_count_run(l, a, j - 1, k, c);
    }
}

/// The fixed codes are valid prefix codes.
pub proof fn lemma_fixed_lengths_valid()
    ensures
        lengths_valid(fixed_lit_lengths()),
        lengths_valid(fixed_dist_lengths()),
{
    let l = fixed_lit_lengths();
    assert forall|k: nat| 1 <= k <= 15 implies #[trigger] count_len(l, k) == if k == 7 {
        24nat
    } else if k == 8 {
        152nat
    } else if k == 9 {
        112nat
    } else {
        0nat
    } by {
        lemma_count_run(l, 0, 144, k, 8);
        lemma_count_run(l, 144, 256, k, 9);
        lemma_count_run(l, 256, 280, k, 7);
        lemma_count_run(l, 280, 288, k, 8);
    }
    assert(kraft(l, 6) == 0) by {
        reveal_with_fuel(kraft, 7);
    }
    assert(kraft(l, 9) == 512) by {
        reveal_with_fuel(kraft, 4);
    }
    assert(kraft(l, 15) == 32768) by {
        reveal_with_fuel(kraft, 7);
    }
    lemma2_to64();
    let m = fixed_dist_lengths();
    assert forall|k: nat| 1 <= k <= 15 implies #[trigger] count_len(m, k) == if k == 5 {
        32nat
    } else {
        0nat
    } by {
        lemma_count_run(m, 0, 32, k, 5);
    }
    assert(kraft(m, 5) == 32) by {
        reveal_with_fuel(kraft, 6);
    }
    assert(kraft(m, 15) == 32768) by {
        reveal_with_fuel(kraft, 11);
    }
}

/// Appends `length` bytes copied one at a time from `distance` bytes back.
pub fn copy_back(out: &mut Vec<u8>, distance: usize, length: usize)
    requires
        1 <= distance <= old(out)@.len(),
    ensures
        final(out)@ == lz_copy(old(out)@, distance as nat, length as nat),
{
    let ghost o0 = old(out)@;
    let mut k: usize = 0;
    while k < length
        invariant
            1 <= distance <= o0.len(),
            k <= length,
            out@ == lz_copy(o0, distance as nat, k as nat),
        decreases length - k,
    {
        proof {
            lemma_lz_copy_len(o0, distance as nat, k as nat);
        }
        let b = out[out.len() - distance];
        out.push(b);
        k = k + 1;
    }
}

/// Reads a length/distance pair whose length symbol `s` has just been
/// decoded, and performs the copy.
#[verifier::rlimit(50)]
fn read_back_reference(
    reader: &mut BitReader,
    out: &mut Vec<u8>,
    dd: &PrefixCodeMap,
    s: usize,
) -> (r: Result<(), DeflateError>)
    requires
        old(reader).wf(),
        dd.wf(),
        257 <= s <= 285,
    ensures
        final(reader).wf(),
        final(reader).bytes() == old(reader).bytes(),
        final(reader).pos() >= old(reader).pos(),
        match back_reference(dd.lengths@, old(reader).bytes(), old(reader).pos(), old(out)@, s as nat) {
            Ok((o, q)) => r is Ok && final(out)@ == o && final(reader).pos() == q,
            Err(e) => r == Err::<(), DeflateError>(e),
        },
{
    let ghost d = old(reader).bytes();
    let ghost p = old(reader).pos();
    let li = s - 257;
    let ln = LENGTH_EXTRA_BITS[li];
    assert(ln <= 5);
    let extra = match reader.read_bits_lsb_first(ln) {
        Some(v) => v,
        None => {
            return Err(DeflateError::UnexpectedEnd);
        },
    };
    proof {
        crate::bits::lemma_lsb_bits_bound(d, p as int, ln as nat);
        lemma_pow2_strictly_increases(ln as nat, 6);
        lemma2_to64();
    }
    let length = LENGTH_BASE[li] as usize + extra as usize;
    let ds = match dd.decode(reader) {
        Ok(v) => v,
        Err(e) => {
            return Err(e);
        },
    };
    if ds >= 30 {
        return Err(DeflateError::InvalidSymbol);
    }
    let ghost pos3 = reader.pos();
    let dn = DISTANCE_EXTRA_BITS[ds];
    assert(dn <= 13);
    let dextra = match reader.read_bits_lsb_first(dn) {
        Some(v) => v,
        None => {
            return Err(DeflateError::UnexpectedEnd);
        },
    };
    proof {
        crate::bits::lemma_lsb_bits_bound(d, pos3 as int, dn as nat);
        lemma_pow2_strictly_increases(dn as nat, 14);
    }
    assert(DISTANCE_BASE[ds as int] >= 1);
    let distance = DISTANCE_BASE[ds] as usize + dextra as usize;
    if distance > out.len() {
        return Err(DeflateError::BackRefOutOfRange);
    }
    copy_back(out, distance, length);
    Ok(())
}

/// Decodes the symbols of a Huffman-coded block up to and including its
/// end-of-block symbol.
#[verifier::loop_isolation(false)]
fn decode_block_symbols(
    reader: &mut BitReader,
    out: &mut Vec<u8>,
    ll: &PrefixCodeMap,
    dd: &PrefixCodeMap,
) -> (r: Result<(), DeflateError>)
    requires
        old(reader).wf(),
        ll.wf(),
        dd.wf(),
    ensures
        final(reader).wf(),
        final(reader).bytes() == old(reader).bytes(),
        final(reader).pos() >= old(reader).pos(),
        match symbols_from(ll.lengths@, dd.lengths@, old(reader).bytes(), old(reader).pos(), old(out)@) {
            Ok((o, q)) => r is Ok && final(out)@ == o && final(reader).pos() == q,
            Err(e) => r == Err::<(), DeflateError>(e),
        },
{
    let ghost d = old(reader).bytes();
    let ghost target = symbols_from(ll.lengths@, dd.lengths@, d, old(reader).pos(), old(out)@);
    loop
        invariant
            reader.wf(),
            reader.bytes() == d,
            reader.pos() >= old(reader).pos(),
            symbols_from(ll.lengths@, dd.lengths@, d, reader.pos(), out@) == target,
        decreases total_bits(d) - reader.pos(),
    {
        let ghost p = reader.pos();
        let sym = match ll.decode(reader) {
            Ok(v) => v,
            Err(e) => {
                return Err(e);
            },
        };
        proof {
            lemma_decode_ok(ll.lengths@, d, p);
        }
        if sym < 256 {
            out.push(sym as u8);
        } else if sym == 256 {
            return Ok(());
        } else if sym <= 285 {
            match read_back_reference(reader, out, dd, sym) {
                Ok(()) => {},
                Err(e) => {
                    return Err(e);
                },
            }
        } else {
            return Err(DeflateError::InvalidSymbol);
        }
    }
}

/// Decodes `count` code lengths of a dynamic block header with the
/// code-length code `cl`.
#[verifier::loop_isolation(false)]
fn decode_code_lengths(reader: &mut BitReader, cl: &PrefixCodeMap, count: usize) -> (r: Result<
    Vec<u8>,
    DeflateError,
>)
    requires
        old(reader).wf(),
        cl.wf(),
        count <= 1000,
    ensures
        final(reader).wf(),
        final(reader).bytes() == old(reader).bytes(),
        final(reader).pos() >= old(reader).pos(),
        match code_lengths_from(cl.lengths@, old(reader).bytes(), old(reader).pos(), count as nat, seq![]) {
            Ok((ls, q)) => r is Ok && r->Ok_0@ == ls && final(reader).pos() == q,
            Err(e) => r == Err::<Vec<u8>, DeflateError>(e),
        },
{
    let ghost d = old(reader).bytes();
    let ghost target = code_lengths_from(cl.lengths@, d, old(reader).pos(), count as nat, seq![]);
    let mut acc: Vec<u8> = Vec::new();
    while acc.len() < count
        invariant
            reader.wf(),
            reader.bytes() == d,
            reader.pos() >= old(reader).pos(),
            acc@.len() < count + 140,
            code_lengths_from(cl.lengths@, d, reader.pos(), count as nat, acc@) == target,
        decreases total_bits(d) - reader.pos(),
    {
        let ghost p = reader.pos();
        let ghost a0 = acc@;
        let sym = match cl.decode(reader) {
            Ok(v) => v,
            Err(e) => {
                return Err(e);
            },
        };
        proof {
            lemma_decode_ok(cl.lengths@, d, p);
        }
        let ghost pos1 = reader.pos();
        if sym < 16 {
            acc.push(sym as u8);
        } else {
            let (nbits, base): (u8, usize) = if sym == 16 {
                (2, 3)
            } else if sym == 17 {
                (3, 3)
            } else if sym == 18 {
                (7, 11)
            } else {
                return Err(DeflateError::InvalidSymbol);
            };
            if sym == 16 && acc.len() == 0 {
                return Err(DeflateError::InvalidSymbol);
            }
            let extra = match reader.read_bits_lsb_first(nbits) {
                Some(v) => v,
                None => {
                    return Err(DeflateError::UnexpectedEnd);
                },
            };
            proof {
                crate::bits::lemma_lsb_bits_bound(d, pos1 as int, nbits as nat);
                lemma_pow2_strictly_increases(nbits as nat, 8);
                lemma2_to64();
            }
            let value: u8 = if sym == 16 {
                acc[acc.len() - 1]
            } else {
                0
            };
            let times = base + extra as usize;
            let mut k: usize = 0;
            while k < times
                invariant
                    k <= times,
                    acc@ == a0 + Seq::new(k as nat, |i: int| value),
                decreases times - k,
            {
                acc.push(value);
                k = k + 1;
                proof {
                    assert(acc@ =~= a0 + Seq::new(k as nat, |i: int| value));
                }
            }
            proof {
                if sym == 16 {
                    assert(value == a0.last());
                }
                assert(acc@ =~= a0 + Seq::new(times as nat, |i: int| value));
            }
        }
    }
    Ok(acc)
}

/// A vector holding `v[a..b]`.
fn slice_vec(v: &Vec<u8>, a: usize, b: usize) -> (r: Vec<u8>)
    requires
        a <= b <= v@.len(),
    ensures
        r@ == v@.subrange(a as int, b as int),
{
    let mut out: Vec<u8> = Vec::new();
    let mut i: usize = a;
    while i < b
        invariant
            a <= i <= b <= v@.len(),
            out@ == v@.subrange(a as int, i as int),
        decreases b - i,
    {
        out.push(v[i]);
        i = i + 1;
    }
    out
}

/// The code lengths of the fixed literal/length code.
fn fixed_literal_lengths() -> (r: Vec<u8>)
    ensures
        r@ == fixed_lit_lengths(),
{
    let mut v: Vec<u8> = Vec::new();
    let mut i: usize = 0;
    while i < 288
        invariant
            i <= 288,
            v@ == fixed_lit_lengths().subrange(0, i as int),
        decreases 288 - i,
    {
        let len: u8 = if i < 144 {
            8
        } else if i < 256 {
            9
        } else if i < 280 {
            7
        } else {
            8
        };
        v.push(len);
        i = i + 1;
        proof {
            assert(v@ =~= fixed_lit_lengths().subrange(0, i as int));
        }
    }
    proof {
        assert(v@ =~= fixed_lit_lengths());
    }
    v
}

/// The code lengths of the fixed distance code.
fn fixed_distance_lengths() -> (r: Vec<u8>)
    ensures
        r@ == fixed_dist_lengths(),
{
    let mut v: Vec<u8> = Vec::new();
    let mut i: usize = 0;
    while i < 32
        invariant
            i <= 32,
            v@ == fixed_dist_lengths().subrange(0, i as int),
        decreases 32 - i,
    {
        v.push(5);
        i = i + 1;
        proof {
            assert(v@ =~= fixed_dist_lengths().subrange(0, i as int));
        }
    }
    proof {
        assert(v@ =~= fixed_dist_lengths());
    }
    v
}

/// A DEFLATE decoder over one compressed stream.
pub struct DeflateStream {
    decompressed: Vec<u8>,
    bitstream: BitReader,
    finished: bool,
}

impl DeflateStream {
    /// The compressed bytes.
    pub closed spec fn input(&self) -> Seq<u8> {
        self.bitstream.bytes()
    }

    /// The index of the next compressed bit to read.
    pub closed spec fn position(&self) -> nat {
        self.bitstream.pos()
    }

    /// The bytes decoded so far.
    pub closed spec fn output(&self) -> Seq<u8> {
        self.decompressed@
    }

    /// Whether the final block has been decoded.
    pub closed spec fn is_finished(&self) -> bool {
        self.finished
    }

    pub closed spec fn wf(&self) -> bool {
        self.bitstream.wf()
    }

    /// What decoding the rest of the stream gives: the output so far once
    /// the final block is done, else the blocks left appended to it.
    pub open spec fn remaining_result(&self) -> Result<Seq<u8>, DeflateError> {
        if self.is_finished() {
            Ok(self.output())
        } else {
            blocks_from(self.input(), self.position(), self.output())
        }
    }

    /// A decoder at the start of `compressed`.
    pub fn build(compressed: &[u8]) -> (r: DeflateStream)
        ensures
            r.wf(),
            r.input() == compressed@,
            r.position() == 0,
            r.output() == Seq::<u8>::empty(),
            !r.is_finished(),
    {
        DeflateStream {
            decompressed: Vec::new(),
            bitstream: BitReader::new(compressed),
            finished: false,
        }
    }

    /// Decodes the blocks that are left, up to and including the final one,
    /// and returns all the output.
    #[verifier::loop_isolation(false)]
    pub fn decompress(&mut self) -> (r: Result<Vec<u8>, DeflateError>)
        requires
            old(self).wf(),
        ensures
            final(self).wf(),
            final(self).input() == old(self).input(),
            same_result(r, old(self).remaining_result()),
    {
        let ghost d = self.input();
        let ghost target = if self.finished {
            Ok(self.decompressed@)
        } else {
            blocks_from(d, self.bitstream.pos(), self.decompressed@)
        };
        while !self.finished
            invariant
                self.wf(),
                self.input() == d,
                target == if self.finished {
                    Ok(self.decompressed@)
                } else {
                    blocks_from(d, self.bitstream.pos(), self.decompressed@)
                },
            decreases total_bits(d) - self.bitstream.pos(),
        {
            let ghost p = self.bitstream.pos();
            if !self.bitstream.has_bits(3) {
                return Err(DeflateError::UnexpectedEnd);
            }
            let bfinal = self.bitstream.next_bit().unwrap();
            let btype = self.bitstream.read_bits_lsb_first(2).unwrap();
            proof {
                crate::bits::lemma_lsb_bits_bound(d, p + 1int, 2);
                lemma2_to64();
                crate::bits::lemma_bit_of_le_1(d, p as int);
            }
            let res = self.decode_block(btype);
            match res {
                Ok(()) => {},
                Err(e) => {
                    return Err(e);
                },
            }
            self.finished = bfinal == 1;
            proof {
                self.bitstream.lemma_pos_bound();
            }
        }
        Ok(copy_bytes(self.decompressed.as_slice()))
    }

    /// The body of a block of type `btype`, whose header has been read.
    fn decode_block(&mut self, btype: u32) -> (r: Result<(), DeflateError>)
        requires
            old(self).wf(),
        ensures
            final(self).wf(),
            final(self).input() == old(self).input(),
            final(self).is_finished() == old(self).is_finished(),
            final(self).position() >= old(self).position(),
            match block_body(btype as nat, old(self).input(), old(self).position(), old(self).output()) {
                Ok((o, q)) => r is Ok && final(self).output() == o && final(self).position() == q,
                Err(e) => r == Err::<(), DeflateError>(e),
            },
    {
        reveal(block_body);
        if btype == 0 {
            self.block_type_0()
        } else if btype == 1 {
            self.block_type_1()
        } else if btype == 2 {
            self.block_type_2()
        } else {
            Err(DeflateError::InvalidBlock)
        }
    }

    /// A stored block: LEN and NLEN from the next byte boundary on, then LEN
    /// bytes copied as they are.
    #[verifier::loop_isolation(false)]
    fn block_type_0(&mut self) -> (r: Result<(), DeflateError>)
        requires
            old(self).wf(),
        ensures
            final(self).wf(),
            final(self).input() == old(self).input(),
            final(self).is_finished() == old(self).is_finished(),
            final(self).position() >= old(self).position(),
            match stored_block(old(self).input(), old(self).position(), old(self).output()) {
                Ok((o, q)) => r is Ok && final(self).output() == o && final(self).position() == q,
                Err(e) => r == Err::<(), DeflateError>(e),
            },
    {
        self.bitstream.align_to_byte();
        let header = match self.bitstream.take_bytes(4) {
            Some(h) => h,
            None => {
                return Err(DeflateError::UnexpectedEnd);
            },
        };
        let len = header[0] as usize + 256 * header[1] as usize;
        let nlen = header[2] as usize + 256 * header[3] as usize;
        if len + nlen != 65535 {
            return Err(DeflateError::InvalidBlock);
        }
        let data = match self.bitstream.take_bytes(len) {
            Some(v) => v,
            None => {
                return Err(DeflateError::UnexpectedEnd);
            },
        };
        let ghost o0 = self.decompressed@;
        let ghost bs = self.bitstream;
        let mut i: usize = 0;
        while i < data.len()
            invariant
                self.bitstream == bs,
                self.finished == old(self).finished,
                i <= data@.len(),
                self.decompressed@ == o0 + data@.subrange(0, i as int),
            decreases data@.len() - i,
        {
            self.decompressed.push(data[i]);
            i = i + 1;
            proof {
                assert(self.decompressed@ =~= o0 + data@.subrange(0, i as int));
            }
        }
        proof {
            assert(data@.subrange(0, data@.len() as int) =~= data@);
        }
        Ok(())
    }

    /// A block coded with the fixed literal/length and distance codes.
    fn block_type_1(&mut self) -> (r: Result<(), DeflateError>)
        requires
            old(self).wf(),
        ensures
            final(self).wf(),
            final(self).input() == old(self).input(),
            final(self).is_finished() == old(self).is_finished(),
            final(self).position() >= old(self).position(),
            match symbols_from(
                fixed_lit_lengths(),
                fixed_dist_lengths(),
                old(self).input(),
                old(self).position(),
                old(self).output(),
            ) {
                Ok((o, q)) => r is Ok && final(self).output() == o && final(self).position() == q,
                Err(e) => r == Err::<(), DeflateError>(e),
            },
    {
        proof {
            lemma_fixed_lengths_valid();
        }
        let lit = fixed_literal_lengths();
        let dist = fixed_distance_lengths();
        let ll = match PrefixCodeMap::from_lengths(lit.as_slice()) {
            Ok(t) => t,
            Err(e) => {
                return Err(e);
            },
        };
        let dd = match PrefixCodeMap::from_lengths(dist.as_slice()) {
            Ok(t) => t,
            Err(e) => {
                return Err(e);
            },
        };
        decode_block_symbols(&mut self.bitstream, &mut self.decompressed, &ll, &dd)
    }

    /// A block with its own codes: the header that gives their code
    /// lengths, then the symbols.
    fn block_type_2(&mut self) -> (r: Result<(), DeflateError>)
        requires
            old(self).wf(),
        ensures
            final(self).wf(),
            final(self).input() == old(self).input(),
            final(self).is_finished() == old(self).is_finished(),
            final(self).position() >= old(self).position(),
            match dynamic_tables(old(self).input(), old(self).position()) {
                Ok((ll, dd, pos1)) => match symbols_from(ll, dd, old(self).input(), pos1, old(self).output()) {
                    Ok((o, q)) => r is Ok && final(self).output() == o && final(self).position() == q,
                    Err(e) => r == Err::<(), DeflateError>(e),
                },
                Err(e) => r == Err::<(), DeflateError>(e),
            },
    {
        let (ll, dd) = match read_dynamic_tables(&mut self.bitstream) {
            Ok(t) => t,
            Err(e) => {
                return Err(e);
            },
        };
        decode_block_symbols(&mut self.bitstream, &mut self.decompressed, &ll, &dd)
    }
}

/// Reads `ncl` three-bit code lengths of the code-length alphabet and puts
/// them in place.
fn read_cl_lengths(reader: &mut BitReader, ncl: usize) -> (r: Vec<u8>)
    requires
        old(reader).wf(),
        ncl <= 19,
        old(reader).pos() + 3 * ncl <= total_bits(old(reader).bytes()),
    ensures
        final(reader).wf(),
        final(reader).bytes() == old(reader).bytes(),
        final(reader).pos() == old(reader).pos() + 3 * ncl,
        r@ == cl_lengths(old(reader).bytes(), old(reader).pos(), ncl as nat),
{
    let ghost d = old(reader).bytes();
    let ghost pos0 = old(reader).pos();
    let mut cl: Vec<u8> = Vec::new();
    let mut i: usize = 0;
    while i < 19
        invariant
            i <= 19,
            cl@ == Seq::new(i as nat, |j: int| 0u8),
        decreases 19 - i,
    {
        cl.push(0);
        i = i + 1;
        proof {
            assert(cl@ =~= Seq::new(i as nat, |j: int| 0u8));
        }
    }
    let mut i: usize = 0;
    while i < ncl
        invariant
            reader.wf(),
            reader.bytes() == d,
            i <= ncl <= 19,
            pos0 + 3 * ncl <= total_bits(d),
            reader.pos() == pos0 + 3 * i,
            cl@ == cl_lengths(d, pos0, i as nat),
            cl@.len() == 19,
        decreases ncl - i,
    {
        assert(CODE_LENGTH_ORDER[i as int] < 19);
        let v = reader.read_bits_lsb_first(3).unwrap();
        proof {
            crate::bits::lemma_lsb_bits_bound(d, (pos0 + 3 * i) as int, 3);
            lemma2_to64();
        }
        cl.set(CODE_LENGTH_ORDER[i], v as u8);
        i = i + 1;
    }
    cl
}

/// Reads the header of a dynamic block and builds its literal/length and
/// distance codes.
fn read_dynamic_tables(reader: &mut BitReader) -> (r: Result<
    (PrefixCodeMap, PrefixCodeMap),
    DeflateError,
>)
    requires
        old(reader).wf(),
    ensures
        final(reader).wf(),
        final(reader).bytes() == old(reader).bytes(),
        final(reader).pos() >= old(reader).pos(),
        match dynamic_tables(old(reader).bytes(), old(reader).pos()) {
            Ok((ll, dd, pos1)) => r is Ok && r->Ok_0.0.wf() && r->Ok_0.1.wf() && r->Ok_0.0.lengths@
                == ll && r->Ok_0.1.lengths@ == dd && final(reader).pos() == pos1,
            Err(e) => r is Err && r->Err_0 == e,
        },
{
    let ghost d = old(reader).bytes();
    let ghost p = old(reader).pos();
    if !reader.has_bits(14) {
        return Err(DeflateError::UnexpectedEnd);
    }
    let hlit = reader.read_bits_lsb_first(5).unwrap();
    let hdist = reader.read_bits_lsb_first(5).unwrap();
    let hclen = reader.read_bits_lsb_first(4).unwrap();
    proof {
        crate::bits::lemma_lsb_bits_bound(d, p as int, 5);
        crate::bits::lemma_lsb_bits_bound(d, p + 5int, 5);
        crate::bits::lemma_lsb_bits_bound(d, p + 10int, 4);
        lemma2_to64();
    }
    let nlit = hlit as usize + 257;
    let ndist = hdist as usize + 1;
    let ncl = hclen as usize + 4;
    if !reader.has_bits(3 * ncl) {
        return Err(DeflateError::UnexpectedEnd);
    }
    let cl = read_cl_lengths(reader, ncl);
    let cl_table = match PrefixCodeMap::from_lengths(cl.as_slice()) {
        Ok(t) => t,
        Err(e) => {
            return Err(e);
        },
    };
    let lengths = match decode_code_lengths(reader, &cl_table, nlit + ndist) {
        Ok(v) => v,
        Err(e) => {
            return Err(e);
        },
    };
    if lengths.len() != nlit + ndist {
        return Err(DeflateError::InvalidTable);
    }
    let lit = slice_vec(&lengths, 0, nlit);
    let dist = slice_vec(&lengths, nlit, nlit + ndist);
    let ll = match PrefixCodeMap::from_lengths(lit.as_slice()) {
        Ok(t) => t,
        Err(e) => {
            return Err(e);
        },
    };
    let dd = match PrefixCodeMap::from_lengths(dist.as_slice()) {
        Ok(t) => t,
        Err(e) => {
            return Err(e);
        },
    };
    if ll.max_length == 0 {
        return Err(DeflateError::InvalidTable);
    }
    Ok((ll, dd))
}

/// Decodes a whole DEFLATE stream.
pub fn inflate(compressed: &[u8]) -> (r: Result<Vec<u8>, DeflateError>)
    ensures
        same_result(r, inflate_spec(compressed@)),
{
    let mut stream = DeflateStream::build(compressed);
    stream.decompress()
}

/// A stream of one final stored block holding `x`.
pub open spec fn stored_stream(x: Seq<u8>) -> Seq<u8> {
    let len = x.len();
    seq![
        1u8,
        (len % 256) as u8,
        (len / 256) as u8,
        ((65535 - len) % 256) as u8,
        ((65535 - len) / 256) as u8,
    ] + x
}

/// A stored block decodes to exactly the LEN bytes that follow its header.
pub proof fn lemma_stored_block_round_trip(x: Seq<u8>)
    requires
        x.len() <= 65535,
    ensures
        inflate_spec(stored_stream(x)) == Ok::<Seq<u8>, DeflateError>(x),
{
    reveal(block_body);
    let d = stored_stream(x);
    let len = x.len();
    assert(d[0] == 1u8);
    assert(bit_of(d, 0) == 1) by {
        assert(((1u8 >> 0u8) & 1u8) == 1u8) by (bit_vector);
    }
    assert(bit_of(d, 1) == 0 && bit_of(d, 2) == 0) by {
        assert(((1u8 >> 1u8) & 1u8) == 0u8) by (bit_vector);
        assert(((1u8 >> 2u8) & 1u8) == 0u8) by (bit_vector);
    }
    assert(lsb_bits(d, 1, 1) == 0) by {
        assert(lsb_bits(d, 1, 0) == 0);
        assert(lsb_bits(d, 1, 1) == lsb_bits(d, 1, 0) + bit_of(d, 1) * pow2(0));
    }
    assert(lsb_bits(d, 1, 2) == 0) by {
        assert(lsb_bits(d, 1, 2) == lsb_bits(d, 1, 1) + bit_of(d, 2) * pow2(1));
    }
    assert(byte_ceil(3) == 1);
    assert(d[1] + 256 * d[2] == len);
    assert(d[3] + 256 * d[4] == 65535 - len);
    assert(d.subrange(5, 5 + len as int) =~= x);
    assert(Seq::<u8>::empty() + x =~= x);
}

} // verus!
