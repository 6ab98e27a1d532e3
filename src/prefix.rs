use std::collections::BTreeMap;
use vstd::arithmetic::power2::*;
use vstd::prelude::*;

use crate::bits::{bit_of, copy_bytes, total_bits, BitReader};
use crate::inflate::DeflateError;

verus! {

broadcast use {vstd::laws_cmp::group_laws_cmp, vstd::std_specs::btree::group_btree_axioms};

/// Longest code length that DEFLATE allows.
pub const MAX_CODE_LENGTH: u8 = 15;

/// Number of symbols before index `j` whose code length is `k`.
pub open spec fn count_before(l: Seq<u8>, j: int, k: nat) -> nat
    decreases j,
{
    if j <= 0 {
        0
    } else {
        count_before(l, j - 1, k) + if l[j - 1] == k {
            1nat
        } else {
            0nat
        }
    }
}

/// Number of symbols with code length `k`; absent symbols (length 0) are
/// not counted.
pub open spec fn count_len(l: Seq<u8>, k: nat) -> nat {
    if k == 0 {
        0
    } else {
        count_before(l, l.len() as int, k)
    }
}

/// The Kraft sum scaled to lengths up to `k`: the sum over present symbols
/// with length at most `k` of `2^(k - length)`.
pub open spec fn kraft(l: Seq<u8>, k: nat) -> nat
    decreases k,
{
    if k == 0 {
        0
    } else {
        2 * kraft(l, (k - 1) as nat) + count_len(l, k)
    }
}

/// The first code of length `k` in the canonical code.
pub open spec fn next_code(l: Seq<u8>, k: nat) -> nat
    decreases k,
{
    if k == 0 {
        0
    } else {
        2 * (next_code(l, (k - 1) as nat) + count_len(l, (k - 1) as nat))
    }
}

/// The canonical code of symbol `i`: the first code of its length plus the
/// number of symbols of that length before it.
pub open spec fn canonical_code(l: Seq<u8>, i: int) -> nat {
    next_code(l, l[i] as nat) + count_before(l, i, l[i] as nat)
}

/// Lengths from which a prefix code can be built: none longer than 15 and
/// the Kraft sum at most 1.
pub open spec fn lengths_valid(l: Seq<u8>) -> bool {
    &&& forall|i: int| 0 <= i < l.len() ==> #[trigger] l[i] <= MAX_CODE_LENGTH
    &&& kraft(l, MAX_CODE_LENGTH as nat) <= pow2(MAX_CODE_LENGTH as nat)
}

/// Symbol `i` is present and has the code `code` of length `len`.
pub open spec fn has_code(l: Seq<u8>, i: int, len: nat, code: nat) -> bool {
    &&& 0 <= i < l.len()
    &&& l[i] as nat == len
    &&& len > 0
    &&& canonical_code(l, i) == code
}

/// The symbol whose code is `code` of length `len`, if any.
pub open spec fn lookup(l: Seq<u8>, len: nat, code: nat) -> Option<nat> {
    if exists|i: int| has_code(l, i, len, code) {
        Some((choose|i: int| has_code(l, i, len, code)) as nat)
    } else {
        None
    }
}

/// The longest code length in `l`.
pub open spec fn max_len(l: Seq<u8>) -> nat
    decreases l.len(),
{
    if l.len() == 0 {
        0
    } else {
        let m = max_len(l.drop_last());
        if l.last() as nat > m {
            l.last() as nat
        } else {
            m
        }
    }
}

/// The key under which a code of length `len` is stored.
pub open spec fn code_key(len: nat, code: nat) -> u32 {
    (len * 65536 + code) as u32
}

/// Decoding from `p` after `k` bits have been read into `code`: read one
/// more bit, and stop at the first length at which the bits read are the
/// code of a symbol.
pub open spec fn decode_from(l: Seq<u8>, d: Seq<u8>, p: nat, k: nat, code: nat) -> Result<
    (nat, nat),
    DeflateError,
>
    decreases max_len(l) - k,
{
    if k >= max_len(l) {
        Err(DeflateError::InvalidSymbol)
    } else if p + k >= total_bits(d) {
        Err(DeflateError::UnexpectedEnd)
    } else {
        let c = 2 * code + bit_of(d, (p + k) as int);
        match lookup(l, k + 1, c) {
            Some(s) => Ok((s, p + k + 1)),
            None => decode_from(l, d, p, k + 1, c),
        }
    }
}

/// The symbol of the canonical code of `l` that the bits at `p` start with,
/// and the position after it.
pub open spec fn decode_spec(l: Seq<u8>, d: Seq<u8>, p: nat) -> Result<(nat, nat), DeflateError> {
    decode_from(l, d, p, 0, 0)
}

pub proof fn lemma_max_len_bound(l: Seq<u8>)
    requires
        forall|i: int| 0 <= i < l.len() ==> #[trigger] l[i] <= MAX_CODE_LENGTH,
    ensures
        max_len(l) <= MAX_CODE_LENGTH,
    decreases l.len(),
{
    if l.len() > 0 {
        let m = l.drop_last();
        assert forall|i: int| 0 <= i < m.len() implies #[trigger] m[i] <= MAX_CODE_LENGTH by {
            assert(m[i] == l[i]);
        }
        lemma_max_len_bound(m);
        assert(l.last() == l[l.len() - 1]);
    }
}

pub proof fn lemma_count_before_mono(l: Seq<u8>, i: int, j: int, k: nat)
    requires
        0 <= i <= j <= l.len(),
    ensures
        count_before(l, i, k) <= count_before(l, j, k),
    decreases j - i,
{
    if i < j {
        lemma_count_before_mono(l, i, j - 1, k);
    }
}

pub proof fn lemma_count_before_le(l: Seq<u8>, j: int, k: nat)
    requires
        0 <= j <= l.len(),
    ensures
        count_before(l, j, k) <= j,
    decreases j,
{
    if j > 0 {
        lemma_count_before_le(l, j - 1, k);
    }
}

pub proof fn lemma_next_code_plus_count(l: Seq<u8>, k: nat)
    ensures
        next_code(l, k) + count_len(l, k) == kraft(l, k),
    decreases k,
{
    if k > 0 {
        lemma_next_code_plus_count(l, (k - 1) as nat);
    }
}

pub proof fn lemma_kraft_scaled(l: Seq<u8>, k: nat, m: nat)
    requires
        k <= m,
    ensures
        kraft(l, k) * pow2((m - k) as nat) <= kraft(l, m),
    decreases m - k,
{
    if k == m {
        lemma2_to64();
        assert(pow2((m - k) as nat) == 1);
        assert(kraft(l, k) * 1 == kraft(l, k));
    } else {
        let m1 = (m - 1) as nat;
        lemma_kraft_scaled(l, k, m1);
        let e = (m - k) as nat;
        let e1 = (m1 - k) as nat;
        assert(e1 == e - 1);
        lemma_pow2_unfold(e);
        let a = kraft(l, k);
        let w = pow2(e1);
        assert(pow2(e) == 2 * w);
        assert(a * w <= kraft(l, m1));
        assert(kraft(l, m) >= 2 * kraft(l, m1));
        assert(a * (2 * w) == 2 * (a * w)) by (nonlinear_arith);
        assert(a * pow2(e) <= kraft(l, m));
    }
}

/// With valid lengths, at most `2^k` codes of length up to `k` are used.
pub proof fn lemma_kraft_bound(l: Seq<u8>, k: nat)
    requires
        lengths_valid(l),
        k <= MAX_CODE_LENGTH,
    ensures
        kraft(l, k) <= pow2(k),
{
    lemma_kraft_scaled(l, k, 15);
    lemma_pow2_adds(k, (15 - k) as nat);
    lemma_pow2_pos((15 - k) as nat);
    let a = kraft(l, k);
    let b = pow2(k);
    let w = pow2((15 - k) as nat);
    assert(a <= b) by (nonlinear_arith)
        requires
            a * w <= b * w,
            w > 0,
    ;
}

/// Under valid lengths the code of a present symbol fits in its length.
pub proof fn lemma_code_fits(l: Seq<u8>, i: int)
    requires
        lengths_valid(l),
        0 <= i < l.len(),
        l[i] > 0,
    ensures
        canonical_code(l, i) < pow2(l[i] as nat),
{
    let k = l[i] as nat;
    lemma_count_before_mono(l, i + 1, l.len() as int, k);
    lemma_next_code_plus_count(l, k);
    lemma_kraft_bound(l, k);
}

/// Two present symbols of one length have different codes.
pub proof fn lemma_code_distinct(l: Seq<u8>, i: int, j: int)
    requires
        0 <= i < j < l.len(),
        l[i] == l[j],
    ensures
        canonical_code(l, i) < canonical_code(l, j),
{
    lemma_count_before_mono(l, i + 1, j, l[i] as nat);
}

pub proof fn lemma_has_code_unique(l: Seq<u8>, i: int, j: int, len: nat, code: nat)
    requires
        has_code(l, i, len, code),
        has_code(l, j, len, code),
    ensures
        i == j,
{
    if i < j {
        lemma_code_distinct(l, i, j);
    } else if j < i {
        lemma_code_distinct(l, j, i);
    }
}

pub proof fn lemma_code_key_injective(len1: nat, code1: nat, len2: nat, code2: nat)
    requires
        len1 <= MAX_CODE_LENGTH,
        len2 <= MAX_CODE_LENGTH,
        code1 < 65536,
        code2 < 65536,
        code_key(len1, code1) == code_key(len2, code2),
    ensures
        len1 == len2,
        code1 == code2,
{
    assert(len1 * 65536 + code1 < 0x1_0000_0000) by (nonlinear_arith)
        requires len1 <= 15, code1 < 65536;
    assert(len2 * 65536 + code2 < 0x1_0000_0000) by (nonlinear_arith)
        requires len2 <= 15, code2 < 65536;
    assert(len1 == len2 && code1 == code2) by (nonlinear_arith)
        requires
            len1 * 65536 + code1 == len2 * 65536 + code2,
            code1 < 65536,
            code2 < 65536,
    ;
}

/// Building a table from lengths whose Kraft sum is at most 1 succeeds, and
/// the codes it assigns are unique and fit in the length each symbol asked
/// for.
pub proof fn lemma_valid_lengths_give_unique_codes(l: Seq<u8>)
    requires
        lengths_valid(l),
    ensures
        forall|i: int|
            0 <= i < l.len() && l[i] > 0 ==> #[trigger] canonical_code(l, i) < pow2(l[i] as nat),
        forall|i: int, j: int|
            #![trigger canonical_code(l, i), canonical_code(l, j)]
            0 <= i < l.len() && 0 <= j < l.len() && i != j && l[i] > 0 && l[j] > 0 ==> (l[i],
            canonical_code(l, i)) != (l[j], canonical_code(l, j)),
{
    assert forall|i: int| 0 <= i < l.len() && l[i] > 0 implies #[trigger] canonical_code(l, i)
        < pow2(l[i] as nat) by {
        lemma_code_fits(l, i);
    }
    assert forall|i: int, j: int|
        #![trigger canonical_code(l, i), canonical_code(l, j)]
        0 <= i < l.len() && 0 <= j < l.len() && i != j && l[i] > 0 && l[j] > 0 implies (l[i],
        canonical_code(l, i)) != (l[j], canonical_code(l, j)) by {
        if l[i] == l[j] {
            if i < j {
                lemma_code_distinct(l, i, j);
            } else {
                lemma_code_distinct(l, j, i);
            }
        }
    }
}

/// A code being assembled bit by bit: the low `length` bits of `buffer`,
/// most significant first.
#[derive(Clone, Copy, Debug, PartialEq, Eq, Structural)]
pub struct Code {
    pub buffer: u16,
    pub length: u8,
}

impl Code {
    pub open spec fn wf(&self) -> bool {
        &&& self.length <= 16
        &&& (self.buffer as nat) < pow2(self.length as nat)
    }

    /// The empty code.
    pub fn new() -> (r: Code)
        ensures
            r.buffer == 0,
            r.length == 0,
            r.wf(),
    {
        proof {
            lemma2_to64();
        }
        Code { buffer: 0, length: 0 }
    }

    /// The code made of the low `length` bits of `buffer`.
    pub fn from(buffer: u16, length: u8) -> (r: Code)
        ensures
            r.buffer == buffer,
            r.length == length,
    {
        Code { buffer, length }
    }

    /// Appends the `length` low bits of `buffer` after the bits already held.
    pub fn push(&mut self, buffer: u16, length: u8)
        requires
            old(self).wf(),
            length < 16,
            old(self).length + length <= 16,
            (buffer as nat) < pow2(length as nat),
        ensures
            final(self).wf(),
            final(self).length == old(self).length + length,
            final(self).buffer == old(self).buffer * pow2(length as nat) + buffer,
    {
        let ghost x = self.buffer;
        let ghost m = self.length as nat;
        let ghost n = length as nat;
        proof {
            lemma_pow2_adds(m, n);
            lemma_pow2_strictly_increases((m + n) as nat, 17);
            lemma2_to64();
            if m + n < 16 {
                lemma_pow2_strictly_increases((m + n) as nat, 16);
            }
            assert(x * pow2(n) < pow2(m) * pow2(n)) by (nonlinear_arith)
                requires x < pow2(m), pow2(n) > 0;
            lemma_pow2_pos(n);
            assert(x * pow2(n) + buffer < pow2(m + n)) by (nonlinear_arith)
                requires
                    x < pow2(m),
                    buffer < pow2(n),
                    pow2(m) * pow2(n) == pow2(m + n),
            ;
            vstd::bits::lemma_u16_shl_is_mul(x, length as u16);
            vstd::bits::lemma_u16_shl_is_mul(1u16, length as u16);
        }
        let shifted = self.buffer << length;
        proof {
            assert(shifted == x * pow2(n));
            let one_n: u16 = 1u16 << (length as u16);
            assert(one_n == pow2(n));
            let lu = length as u16;
            assert(((x << lu) | buffer) == (x << lu) + buffer) by (bit_vector)
                requires
                    buffer < (1u16 << lu),
                    lu < 16,
            ;
            assert(shifted == x << lu);
        }
        self.buffer = shifted | buffer;
        self.length = self.length + length;
    }

    /// Appends one bit; any non-zero value counts as 1.
    pub fn push_bit(&mut self, bit: u8)
        requires
            old(self).wf(),
            old(self).length < 16,
        ensures
            final(self).wf(),
            final(self).length == old(self).length + 1,
            final(self).buffer == 2 * old(self).buffer + if bit == 0 {
                0nat
            } else {
                1nat
            },
    {
        let b: u16 = if bit == 0 {
            0
        } else {
            1
        };
        proof {
            lemma_pow2_unfold((self.length + 1) as nat);
            lemma_pow2_strictly_increases((self.length + 1) as nat, 17);
            lemma2_to64();
            if self.length + 1 < 16 {
                lemma_pow2_strictly_increases((self.length + 1) as nat, 16);
            }
        }
        self.buffer = 2 * self.buffer + b;
        self.length = self.length + 1;
    }

    /// The bits of the code, most significant first.
    pub fn bits(&self) -> (r: Vec<u8>)
        requires
            self.wf(),
        ensures
            r@.len() == self.length,
            forall|i: int|
                0 <= i < self.length ==> #[trigger] r@[i] == (self.buffer as nat / pow2(
                    (self.length - 1 - i) as nat,
                )) % 2,
    {
        let mut out: Vec<u8> = Vec::new();
        let mut i: u8 = 0;
        while i < self.length
            invariant
                self.wf(),
                i <= self.length,
                out@.len() == i,
                forall|q: int|
                    0 <= q < i ==> #[trigger] out@[q] == (self.buffer as nat / pow2(
                        (self.length - 1 - q) as nat,
                    )) % 2,
            decreases self.length - i,
        {
            let shift = (self.length - 1 - i) as u16;
            proof {
                vstd::bits::lemma_u16_shr_is_div(self.buffer, shift);
            }
            let b = ((self.buffer >> shift) % 2) as u8;
            out.push(b);
            i = i + 1;
        }
        out
    }

    /// The key of this code in a `PrefixCodeMap`.
    pub fn key(&self) -> (r: u32)
        requires
            self.length <= MAX_CODE_LENGTH,
        ensures
            r == code_key(self.length as nat, self.buffer as nat),
    {
        (self.length as u32) * 65536 + (self.buffer as u32)
    }
}

impl Default for Code {
    fn default() -> (r: Code)
        ensures
            r.buffer == 0,
            r.length == 0,
    {
        Code::new()
    }
}

/// A canonical prefix code: maps the key of each (code, length) pair to the
/// symbol that has it.
pub struct PrefixCodeMap {
    pub map: BTreeMap<u32, usize>,
    pub lengths: Vec<u8>,
    pub max_length: u8,
}

impl PrefixCodeMap {
    /// The map holds exactly the canonical code of `lengths`.
    pub open spec fn wf(&self) -> bool {
        &&& lengths_valid(self.lengths@)
        &&& self.max_length as nat == max_len(self.lengths@)
        &&& forall|len: nat, code: nat|
            1 <= len <= MAX_CODE_LENGTH && code < pow2(len) ==> {
                &&& (#[trigger] self.map@.contains_key(code_key(len, code))) <==> lookup(
                    self.lengths@,
                    len,
                    code,
                ) is Some
                &&& self.map@.contains_key(code_key(len, code)) ==> self.map@[code_key(len, code)]
                    as nat == lookup(self.lengths@, len, code)->Some_0
            }
        &&& forall|k: u32| #[trigger]
            self.map@.contains_key(k) ==> exists|len: nat, code: nat|
                1 <= len <= MAX_CODE_LENGTH && code < pow2(len) && k == code_key(len, code)
    }

    /// Builds the canonical prefix code of `code_lengths`, where entry `i` is
    /// the code length of symbol `i` and 0 marks an absent symbol. Fails with
    /// `InvalidTable` exactly when a length exceeds 15 or the Kraft sum
    /// exceeds 1.
    pub fn from_lengths(code_lengths: &[u8]) -> (r: Result<PrefixCodeMap, DeflateError>)
        ensures
            lengths_valid(code_lengths@) <==> r is Ok,
            r is Err ==> r == Err::<PrefixCodeMap, DeflateError>(DeflateError::InvalidTable),
            r matches Ok(t) ==> t.wf() && t.lengths@ == code_lengths@,
    {
        let ghost l = code_lengths@;
        let n = code_lengths.len();
        // Count the symbols of each length, and find the longest.
        let mut counts: Vec<u64> = Vec::new();
        let mut k: usize = 0;
        while k < 16
            invariant
                k <= 16,
                counts@.len() == k,
                forall|q: int| 0 <= q < k ==> counts@[q] == 0,
            decreases 16 - k,
        {
            counts.push(0);
            k = k + 1;
        }
        let mut max_length: u8 = 0;
        let mut j: usize = 0;
        while j < n
            invariant
                l == code_lengths@,
                n == l.len(),
                j <= n,
                counts@.len() == 16,
                forall|q: int| 0 <= q < 16 ==> #[trigger] counts@[q] == count_before(l, j as int, q as nat),
                forall|q: int| 0 <= q < j ==> #[trigger] l[q] <= MAX_CODE_LENGTH,
                max_length as nat == max_len(l.subrange(0, j as int)),
            decreases n - j,
        {
            let len = code_lengths[j];
            if len > MAX_CODE_LENGTH {
                return Err(DeflateError::InvalidTable);
            }
            proof {
                assert(l.subrange(0, j as int + 1).drop_last() =~= l.subrange(0, j as int));
                assert forall|q: int| 0 <= q < 16 implies #[trigger] count_before(l, j as int + 1, q as nat)
                    == count_before(l, j as int, q as nat) + if l[j as int] == q {
                    1nat
                } else {
                    0nat
                } by {}
                lemma_count_before_le(l, j as int, len as nat);
            }
            let c = counts[len as usize];
            counts.set(len as usize, c + 1);
            if len > max_length {
                max_length = len;
            }
            j = j + 1;
        }
        proof {
            assert(l.subrange(0, n as int) =~= l);
        }
        // Check the Kraft sum one length at a time.
        let mut kr: u64 = 0;
        let mut k: usize = 1;
        while k <= 15
            invariant
                l == code_lengths@,
                1 <= k <= 16,
                counts@.len() == 16,
                forall|q: int| 0 <= q < 16 ==> #[trigger] counts@[q] == count_before(l, n as int, q as nat),
                n == l.len(),
                kr == kraft(l, (k - 1) as nat),
                kr <= pow2((k - 1) as nat),
                k - 1 <= 15,
            decreases 16 - k,
        {
            proof {
                lemma2_to64();
                lemma_pow2_strictly_increases((k - 1) as nat, 15);
                lemma_pow2_unfold(k as nat);
            }
            if counts[k] > 32768 || 2 * kr + counts[k] > (1u64 << k as u64) {
                proof {
                    vstd::bits::lemma_u64_shl_is_mul(1, k as u64);
                    lemma_pow2_strictly_increases(k as nat, 16);
                    assert(kraft(l, k as nat) == 2 * kr + counts@[k as int]);
                    assert(kraft(l, k as nat) > pow2(k as nat));
                    lemma_kraft_scaled(l, k as nat, 15);
                    if k < 15 {
                        lemma_pow2_strictly_increases(k as nat, 15);
                    }
                    lemma_pow2_adds(k as nat, (15 - k) as nat);
                    lemma_pow2_pos((15 - k) as nat);
                    let a = kraft(l, k as nat);
                    let w = pow2((15 - k) as nat);
                    assert(a * w > pow2(k as nat) * w) by (nonlinear_arith)
                        requires a > pow2(k as nat), w > 0;
                    assert((k + (15 - k)) as nat == 15nat);
                    assert(pow2(k as nat) * w == pow2(15));
                    assert(kraft(l, 15) > pow2(15));
                }
                return Err(DeflateError::InvalidTable);
            }
            proof {
                vstd::bits::lemma_u64_shl_is_mul(1, k as u64);
            }
            kr = 2 * kr + counts[k];
            k = k + 1;
        }
        // The first code of each length.
        let mut next: Vec<u64> = Vec::new();
        next.push(0);
        let mut k: usize = 1;
        while k < 16
            invariant
                l == code_lengths@,
                1 <= k <= 16,
                next@.len() == k,
                counts@.len() == 16,
                forall|q: int| 0 <= q < 16 ==> #[trigger] counts@[q] == count_before(l, n as int, q as nat),
                n == l.len(),
                lengths_valid(l),
                forall|q: int| 0 <= q < k ==> #[trigger] next@[q] == next_code(l, q as nat) + count_before(l, 0, q as nat),
            decreases 16 - k,
        {
            proof {
                lemma_next_code_plus_count(l, (k - 1) as nat);
                lemma_kraft_bound(l, (k - 1) as nat);
                lemma_pow2_strictly_increases((k - 1) as nat, 16);
                lemma2_to64();
            }
            let prev_count = if k == 1 {
                0
            } else {
                counts[k - 1]
            };
            let v = 2 * (next[k - 1] + prev_count);
            next.push(v);
            k = k + 1;
        }
        // Assign the codes in symbol order.
        let mut map: BTreeMap<u32, usize> = BTreeMap::new();
        let mut j: usize = 0;
        while j < n
            invariant
                l == code_lengths@,
                n == l.len(),
                j <= n,
                lengths_valid(l),
                next@.len() == 16,
                forall|q: int| 1 <= q < 16 ==> #[trigger] next@[q] == next_code(l, q as nat) + count_before(l, j as int, q as nat),
                forall|len: nat, code: nat|
                    1 <= len <= MAX_CODE_LENGTH && code < pow2(len) ==> {
                        &&& (#[trigger] map@.contains_key(code_key(len, code))) <==> exists|i: int|
                            0 <= i < j && has_code(l, i, len, code)
                        &&& map@.contains_key(code_key(len, code)) ==> {
                            &&& map@[code_key(len, code)] < j
                            &&& has_code(l, map@[code_key(len, code)] as int, len, code)
                        }
                    },
                forall|k: u32| #[trigger]
                    map@.contains_key(k) ==> exists|len: nat, code: nat|
                        1 <= len <= MAX_CODE_LENGTH && code < pow2(len) && k == code_key(len, code),
            decreases n - j,
        {
            let len = code_lengths[j];
            proof {
                assert forall|q: int| 1 <= q < 16 implies #[trigger] count_before(l, j as int + 1, q as nat)
                    == count_before(l, j as int, q as nat) + if l[j as int] == q {
                    1nat
                } else {
                    0nat
                } by {}
            }
            if len > 0 {
                let ghost cj = canonical_code(l, j as int);
                proof {
                    lemma_code_fits(l, j as int);
                    assert(len <= 15);
                    lemma_pow2_strictly_increases(len as nat, 16);
                    lemma2_to64();
                }
                let c = next[len as usize];
                assert(c == cj);
                let key = Code::from(c as u16, len).key();
                let ghost old_map = map@;
                map.insert(key, j);
                proof {
                    assert forall|k: u32| #[trigger] map@.contains_key(k) implies exists|len2: nat, code2: nat|
                        1 <= len2 <= MAX_CODE_LENGTH && code2 < pow2(len2) && k == code_key(len2, code2) by {
                        if k == key {
                            assert(1 <= len <= MAX_CODE_LENGTH && cj < pow2(len as nat) && k == code_key(len as nat, cj));
                        } else {
                            assert(old_map.contains_key(k));
                        }
                    }
                }
                next.set(len as usize, c + 1);
                proof {
                    assert forall|len2: nat, code2: nat|
                        1 <= len2 <= MAX_CODE_LENGTH && code2 < pow2(len2) implies {
                            &&& (#[trigger] map@.contains_key(code_key(len2, code2))) <==> exists|i: int|
                                0 <= i < j + 1 && has_code(l, i, len2, code2)
                            &&& map@.contains_key(code_key(len2, code2)) ==> {
                                &&& map@[code_key(len2, code2)] < j + 1
                                &&& has_code(l, map@[code_key(len2, code2)] as int, len2, code2)
                            }
                        } by {
                        lemma_pow2_strictly_increases(len2, 16);
                        if code_key(len2, code2) == key {
                            lemma_code_key_injective(len2, code2, len as nat, cj);
                            assert(has_code(l, j as int, len2, code2));
                        } else {
                            if exists|i: int| 0 <= i < j + 1 && has_code(l, i, len2, code2) {
                                let i = choose|i: int| 0 <= i < j + 1 && has_code(l, i, len2, code2);
                                if i == j {
                                    assert(code_key(len2, code2) == key);
                                }
                            }
                        }
                    }
                }
            } else {
                proof {
                    assert forall|len2: nat, code2: nat|
                        1 <= len2 <= MAX_CODE_LENGTH && code2 < pow2(len2) implies {
                            &&& (#[trigger] map@.contains_key(code_key(len2, code2))) <==> exists|i: int|
                                0 <= i < j + 1 && has_code(l, i, len2, code2)
                        } by {
                        if exists|i: int| 0 <= i < j + 1 && has_code(l, i, len2, code2) {
                            let i = choose|i: int| 0 <= i < j + 1 && has_code(l, i, len2, code2);
                            assert(i != j);
                        }
                    }
                }
            }
            j = j + 1;
        }
        let lengths = copy_bytes(code_lengths);
        let t = PrefixCodeMap { map, lengths, max_length };
        proof {
            assert forall|len: nat, code: nat|
                1 <= len <= MAX_CODE_LENGTH && code < pow2(len) implies {
                    &&& (#[trigger] t.map@.contains_key(code_key(len, code))) <==> lookup(l, len, code) is Some
                    &&& t.map@.contains_key(code_key(len, code)) ==> t.map@[code_key(len, code)] as nat
                        == lookup(l, len, code)->Some_0
                } by {
                if t.map@.contains_key(code_key(len, code)) {
                    let i = t.map@[code_key(len, code)] as int;
                    let c = choose|i: int| has_code(l, i, len, code);
                    lemma_has_code_unique(l, i, c, len, code);
                }
            }
        }
        Ok(t)
    }

    /// Decodes one symbol from `reader`, reading its code one bit at a time,
    /// most significant first. Fails with `InvalidSymbol` when no symbol's
    /// code starts the input within the longest code length, and with
    /// `UnexpectedEnd` when the input ends first.
    #[verifier::loop_isolation(false)]
    pub fn decode(&self, reader: &mut BitReader) -> (r: Result<usize, DeflateError>)
        requires
            self.wf(),
            old(reader).wf(),
        ensures
            final(reader).wf(),
            final(reader).bytes() == old(reader).bytes(),
            final(reader).pos() >= old(reader).pos(),
            match decode_spec(self.lengths@, old(reader).bytes(), old(reader).pos()) {
                Ok((s, p)) => r is Ok && r->Ok_0 == s && final(reader).pos() == p,
                Err(e) => r == Err::<usize, DeflateError>(e),
            },
    {
        let ghost l = self.lengths@;
        let ghost d = old(reader).bytes();
        let ghost p = old(reader).pos();
        proof {
            lemma_max_len_bound(l);
        }
        let mut code = Code::new();
        while code.length < self.max_length
            invariant
                self.wf(),
                l == self.lengths@,
                reader.wf(),
                reader.bytes() == d,
                code.wf(),
                code.length <= self.max_length <= MAX_CODE_LENGTH,
                reader.pos() == p + code.length,
                decode_from(l, d, p, code.length as nat, code.buffer as nat) == decode_spec(l, d, p),
            decreases self.max_length - code.length,
        {
            let ghost k = code.length as nat;
            let ghost c0 = code.buffer as nat;
            if !reader.has_bits(1) {
                return Err(DeflateError::UnexpectedEnd);
            }
            let next = reader.read_prefix_bit();
            let bit = next.unwrap();
            proof {
                crate::bits::lemma_bit_of_le_1(d, (p + k) as int);
            }
            code.push_bit(bit);
            assert(code.buffer as nat == 2 * c0 + bit_of(d, (p + k) as int));
            let key = code.key();
            match self.map.get(&key) {
                Some(sym) => {
                    return Ok(*sym);
                },
                None => {},
            }
        }
        Err(DeflateError::InvalidSymbol)
    }
}

} // verus!
