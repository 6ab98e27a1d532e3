use vstd::prelude::*;

verus! {

/// The filter methods of a PNG scanline, by their filter byte.
#[derive(Debug, Clone, Copy, PartialEq, Eq, Structural)]
pub enum Filters {
    NoFilter,
    Sub,
    Up,
    Average,
    Paeth,
}

impl Filters {
    /// The filter that a scanline's filter byte names, if any.
    pub fn from_byte(b: u8) -> (r: Option<Filters>)
        ensures
            b == 0 <==> r == Some(Filters::NoFilter),
            b == 1 <==> r == Some(Filters::Sub),
            b == 2 <==> r == Some(Filters::Up),
            b == 3 <==> r == Some(Filters::Average),
            b == 4 <==> r == Some(Filters::Paeth),
            b > 4 <==> r is None,
    {
        match b {
            0 => Some(Filters::NoFilter),
            1 => Some(Filters::Sub),
            2 => Some(Filters::Up),
            3 => Some(Filters::Average),
            4 => Some(Filters::Paeth),
            _ => None,
        }
    }
}

/// Distance between two integers.
pub open spec fn abs_diff(x: int, y: int) -> int {
    if x >= y {
        x - y
    } else {
        y - x
    }
}

/// The Paeth predictor: of left `a`, above `b` and upper left `c`, the one
/// closest to `a + b - c`, ties going to `a`, then `b`.
pub open spec fn paeth_spec(a: u8, b: u8, c: u8) -> u8 {
    let p = a + b - c;
    let pa = abs_diff(p, a as int);
    let pb = abs_diff(p, b as int);
    let pc = abs_diff(p, c as int);
    if pa <= pb && pa <= pc {
        a
    } else if pb <= pc {
        b
    } else {
        c
    }
}

/// What filter `ft` predicts from left `a`, above `b` and upper left `c`.
pub open spec fn predictor(ft: u8, a: u8, b: u8, c: u8) -> nat {
    if ft == 0 {
        0
    } else if ft == 1 {
        a as nat
    } else if ft == 2 {
        b as nat
    } else if ft == 3 {
        ((a + b) / 2) as nat
    } else {
        paeth_spec(a, b, c) as nat
    }
}

/// The first `n` reconstructed bytes of a scanline filtered with `ft`,
/// given its filtered bytes `raw` and the reconstructed line above,
/// `prior`; `bpp` bytes make a pixel. Sums are taken modulo 256.
pub open spec fn recon(ft: u8, raw: Seq<u8>, prior: Seq<u8>, bpp: nat, n: nat) -> Seq<u8>
    decreases n,
{
    if n == 0 {
        Seq::empty()
    } else {
        let r = recon(ft, raw, prior, bpp, (n - 1) as nat);
        let i = n - 1;
        let a = if i >= bpp {
            r[i - bpp]
        } else {
            0u8
        };
        let c = if i >= bpp {
            prior[i - bpp]
        } else {
            0u8
        };
        r.push(((raw[i] + predictor(ft, a, prior[i], c)) % 256) as u8)
    }
}

/// The Paeth filter applied to a scanline `raw` under the line `prior`.
pub open spec fn paeth_filter(raw: Seq<u8>, prior: Seq<u8>, bpp: nat) -> Seq<u8> {
    Seq::new(
        raw.len(),
        |i: int|
            {
                let a = if i >= bpp {
                    raw[i - bpp]
                } else {
                    0u8
                };
                let c = if i >= bpp {
                    prior[i - bpp]
                } else {
                    0u8
                };
                ((raw[i] - paeth_spec(a, prior[i], c)) % 256) as u8
            },
    )
}

pub proof fn lemma_recon_len(ft: u8, raw: Seq<u8>, prior: Seq<u8>, bpp: nat, n: nat)
    ensures
        recon(ft, raw, prior, bpp, n).len() == n,
    decreases n,
{
    if n > 0 {
        lemma_recon_len(ft, raw, prior, bpp, (n - 1) as nat);
    }
}

/// Undoing the Paeth filter gives back the scanline it was applied to.
pub proof fn lemma_paeth_round_trip(raw: Seq<u8>, prior: Seq<u8>, bpp: nat)
    requires
        bpp >= 1,
        prior.len() >= raw.len(),
    ensures
        recon(4, paeth_filter(raw, prior, bpp), prior, bpp, raw.len()) == raw,
{
    lemma_paeth_prefix(raw, prior, bpp, raw.len());
    assert(raw.subrange(0, raw.len() as int) =~= raw);
}

proof fn lemma_paeth_prefix(raw: Seq<u8>, prior: Seq<u8>, bpp: nat, n: nat)
    requires
        bpp >= 1,
        prior.len() >= raw.len(),
        n <= raw.len(),
    ensures
        recon(4, paeth_filter(raw, prior, bpp), prior, bpp, n) == raw.subrange(0, n as int),
    decreases n,
{
    if n > 0 {
        let f = paeth_filter(raw, prior, bpp);
        let m = (n - 1) as nat;
        lemma_paeth_prefix(raw, prior, bpp, m);
        lemma_recon_len(4, f, prior, bpp, m);
        let r = recon(4, f, prior, bpp, m);
        let i = m as int;
        let a = if i >= bpp {
            raw[i - bpp]
        } else {
            0u8
        };
        let c = if i >= bpp {
            prior[i - bpp]
        } else {
            0u8
        };
        if i >= bpp {
            assert(r[i - bpp] == raw[i - bpp]);
        }
        let p = paeth_spec(a, prior[i], c) as int;
        let x = raw[i] as int;
        assert(((((x - p) % 256) as u8) + p) % 256 == x) by (nonlinear_arith)
            requires
                0 <= x < 256,
                0 <= p < 256,
        ;
        assert(recon(4, f, prior, bpp, n) =~= raw.subrange(0, n as int));
    }
}

/// The Paeth predictor of left `left`, above `above` and upper left
/// `upper_left`.
pub fn fpaeth(left: u8, above: u8, upper_left: u8) -> (r: u8)
    ensures
        r == paeth_spec(left, above, upper_left),
{
    let a = left as i32;
    let b = above as i32;
    let c = upper_left as i32;
    let p = a + b - c;
    let pa = if p >= a {
        p - a
    } else {
        a - p
    };
    let pb = if p >= b {
        p - b
    } else {
        b - p
    };
    let pc = if p >= c {
        p - c
    } else {
        c - p
    };
    if pa <= pb && pa <= pc {
        left
    } else if pb <= pc {
        above
    } else {
        upper_left
    }
}

/// Reconstructs a scanline filtered with `ft` (0 to 4).
pub fn unfilter_row(ft: u8, raw: &[u8], prior: &[u8], bpp: usize) -> (r: Vec<u8>)
    requires
        ft <= 4,
        bpp >= 1,
        prior@.len() >= raw@.len(),
    ensures
        r@ == recon(ft, raw@, prior@, bpp as nat, raw@.len()),
{
    let mut buf: Vec<u8> = Vec::new();
    let mut i: usize = 0;
    while i < raw.len()
        invariant
            i <= raw@.len() <= prior@.len(),
            bpp >= 1,
            buf@ == recon(ft, raw@, prior@, bpp as nat, i as nat),
        decreases raw@.len() - i,
    {
        proof {
            lemma_recon_len(ft, raw@, prior@, bpp as nat, i as nat);
        }
        let a: u8 = if i >= bpp {
            buf[i - bpp]
        } else {
            0
        };
        let b: u8 = prior[i];
        let c: u8 = if i >= bpp {
            prior[i - bpp]
        } else {
            0
        };
        let pred: u16 = if ft == 0 {
            0
        } else if ft == 1 {
            a as u16
        } else if ft == 2 {
            b as u16
        } else if ft == 3 {
            (a as u16 + b as u16) / 2
        } else {
            fpaeth(a, b, c) as u16
        };
        let v = ((raw[i] as u16 + pred) % 256) as u8;
        buf.push(v);
        i = i + 1;
    }
    buf
}

/// A line of zeros, the line above the first scanline.
pub fn zeros(n: usize) -> (r: Vec<u8>)
    ensures
        r@ == Seq::new(n as nat, |i: int| 0u8),
{
    let mut v: Vec<u8> = Vec::new();
    let mut i: usize = 0;
    while i < n
        invariant
            i <= n,
            v@ == Seq::new(i as nat, |j: int| 0u8),
        decreases n - i,
    {
        v.push(0);
        i = i + 1;
        proof {
            assert(v@ =~= Seq::new(i as nat, |j: int| 0u8));
        }
    }
    v
}

/// Undoes the Sub filter: each byte plus the reconstructed byte `bpp`
/// before it.
pub fn rfsub(scanline: &[u8], bpp: usize) -> (r: Vec<u8>)
    requires
        bpp >= 1,
    ensures
        r@ == recon(1, scanline@, Seq::new(scanline@.len(), |i: int| 0u8), bpp as nat, scanline@.len()),
{
    let prior = zeros(scanline.len());
    unfilter_row(1, scanline, prior.as_slice(), bpp)
}

/// Undoes the Up filter: each byte plus the byte above it.
pub fn rfup(scanline: &[u8], last: &[u8]) -> (r: Vec<u8>)
    requires
        last@.len() >= scanline@.len(),
    ensures
        r@ == recon(2, scanline@, last@, 1, scanline@.len()),
{
    unfilter_row(2, scanline, last, 1)
}

/// Undoes the Average filter: each byte plus the mean, rounded down, of the
/// reconstructed byte `bpp` before it and the byte above it.
pub fn rfaverage(scanline: &[u8], last: &[u8], bpp: usize) -> (r: Vec<u8>)
    requires
        bpp >= 1,
        last@.len() >= scanline@.len(),
    ensures
        r@ == recon(3, scanline@, last@, bpp as nat, scanline@.len()),
{
    unfilter_row(3, scanline, last, bpp)
}

/// Undoes the Paeth filter.
pub fn rfpaeth(scanline: &[u8], last: &[u8], bpp: usize) -> (r: Vec<u8>)
    requires
        bpp >= 1,
        last@.len() >= scanline@.len(),
    ensures
        r@ == recon(4, scanline@, last@, bpp as nat, scanline@.len()),
{
    unfilter_row(4, scanline, last, bpp)
}

} // verus!
