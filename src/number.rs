//! Decomposed JSON numbers and their decimal text.
use vstd::prelude::*;

verus! {

/// A JSON number as sign, integer mantissa and decimal exponent
/// (`value = ±mantissa × 10^exponent`), or the not-a-number sentinel.
#[derive(Clone, Copy, Debug, PartialEq, Eq, Structural)]
pub struct Number {
    pub nan: bool,
    pub positive: bool,
    pub mantissa: u64,
    pub exponent: i16,
}

/// The ASCII decimal digits of `n`, most significant first, without leading zeros.
pub open spec fn digits(n: nat) -> Seq<u8>
    decreases n,
{
    if n < 10 {
        seq![(48 + n) as u8]
    } else {
        digits(n / 10).push((48 + n % 10) as u8)
    }
}

/// How many `0` digits end `d`.
pub open spec fn trailing_zeros(d: Seq<u8>) -> nat
    decreases d.len(),
{
    if d.len() > 0 && d.last() == 48 {
        1 + trailing_zeros(d.drop_last())
    } else {
        0
    }
}

/// A run of `n` `0` digits.
pub open spec fn zeros(n: nat) -> Seq<u8> {
    Seq::new(n, |i: int| 48u8)
}

/// The body of a nonzero number written from its significant digits `c`
/// (no trailing zeros) and exponent `e`, in whichever form is shortest:
/// plain digits, digits with a decimal point, or digits with an exponent.
pub open spec fn significant_text(c: Seq<u8>, e: int) -> Seq<u8> {
    if e == 0 {
        c
    } else if e > 0 {
        if e <= 2 {
            c + zeros(e as nat)
        } else {
            c + seq![101u8] + digits(e as nat)
        }
    } else if -e < c.len() {
        c.subrange(0, c.len() + e) + seq![46u8] + c.subrange(c.len() + e, c.len() as int)
    } else if -e <= c.len() + digits((-e) as nat).len() {
        seq![48u8, 46u8] + zeros((-e - c.len()) as nat) + c
    } else {
        c + seq![101u8, 45u8] + digits((-e) as nat)
    }
}

/// The text of a number that is not the sentinel: an optional minus sign,
/// then `0` for a zero mantissa, else the mantissa's digits with their
/// trailing zeros moved into the exponent, in the shortest of the forms
/// plain, with a decimal point, or with an exponent.
#[verifier::opaque]
pub open spec fn number_text(positive: bool, mantissa: nat, exponent: int) -> Seq<u8> {
    let sign: Seq<u8> = if positive { seq![] } else { seq![45u8] };
    let d = digits(mantissa);
    let t = trailing_zeros(d);
    let body = if mantissa == 0 {
        seq![48u8]
    } else {
        significant_text(d.subrange(0, d.len() - t), exponent + t)
    };
    sign + body
}

/// What a number serializes to: `null` for the sentinel, else its decimal text.
pub open spec fn number_json(n: Number) -> Seq<u8> {
    if n.nan {
        seq![110u8, 117u8, 108u8, 108u8]
    } else {
        number_text(n.positive, n.mantissa as nat, n.exponent as int)
    }
}

impl Number {
    /// The number `±mantissa × 10^exponent`.
    pub fn from_parts(positive: bool, mantissa: u64, exponent: i16) -> (r: Number)
        ensures
            r == (Number { nan: false, positive, mantissa, exponent }),
    {
        Number { nan: false, positive, mantissa, exponent }
    }

    /// The not-a-number sentinel.
    pub fn nan() -> (r: Number)
        ensures
            r.nan,
    {
        Number { nan: true, positive: true, mantissa: 0, exponent: 0 }
    }

    pub fn is_nan(&self) -> (r: bool)
        ensures
            r == self.nan,
    {
        self.nan
    }

    /// Sign flag, mantissa and exponent.
    pub fn as_parts(&self) -> (r: (bool, u64, i16))
        ensures
            r == (self.positive, self.mantissa, self.exponent),
    {
        (self.positive, self.mantissa, self.exponent)
    }
}

pub open spec fn pow10(k: nat) -> nat
    decreases k,
{
    if k == 0 {
        1
    } else {
        10 * pow10((k - 1) as nat)
    }
}

proof fn lemma_digits_len(n: nat, k: nat)
    requires
        k >= 1,
        n < pow10(k),
    ensures
        1 <= digits(n).len() <= k,
    decreases n,
{
    if n >= 10 {
        assert(k >= 2) by {
            if k == 1 {
                assert(pow10(1) == 10 * pow10(0));
            }
        }
        let k1 = (k - 1) as nat;
        assert(pow10(k) == 10 * pow10(k1));
        assert(n / 10 < pow10(k1)) by (nonlinear_arith)
            requires n < 10 * pow10(k1);
        lemma_digits_len(n / 10, k1);
    }
}

proof fn lemma_u64_digits_len(n: u64)
    ensures
        1 <= digits(n as nat).len() <= 20,
{
    reveal_with_fuel(pow10, 21);
    assert(pow10(20) == 100000000000000000000nat);
    lemma_digits_len(n as nat, 20);
}

/// The decimal digits of `n`.
pub fn write_digits(n: u64) -> (r: Vec<u8>)
    ensures
        r@ == digits(n as nat),
{
    let mut rest: u64 = n;
    let mut out: Vec<u8> = Vec::new();
    while rest >= 10
        invariant
            digits(n as nat) == digits(rest as nat) + out@,
        decreases rest,
    {
        let d: u8 = (rest % 10) as u8;
        proof {
            assert(digits(rest as nat) == digits((rest / 10) as nat).push((48 + rest % 10) as u8));
            assert(digits((rest / 10) as nat) + (seq![(48 + d) as u8] + out@) =~= digits(
                rest as nat,
            ) + out@);
        }
        out.insert(0, 48 + d);
        rest = rest / 10;
    }
    out.insert(0, 48 + rest as u8);
    proof {
        assert(digits(n as nat) =~= out@);
    }
    out
}

/// Appends `n` copies of `b` to `out`.
fn push_repeat(out: &mut Vec<u8>, b: u8, n: usize)
    ensures
        final(out)@ == old(out)@ + Seq::new(n as nat, |i: int| b),
{
    let mut k: usize = 0;
    while k < n
        invariant
            k <= n,
            out@ == old(out)@ + Seq::new(k as nat, |i: int| b),
        decreases n - k,
    {
        out.push(b);
        proof {
            assert(old(out)@ + Seq::new((k + 1) as nat, |i: int| b) =~= (old(out)@ + Seq::new(k as nat, |i: int| b)).push(b));
        }
        k = k + 1;
    }
}

/// Appends the text of `n` (`null` for the sentinel) to `out`.
pub fn write_number_text(out: &mut Vec<u8>, n: &Number)
    ensures
        final(out)@ == old(out)@ + number_json(*n),
{
    if n.nan {
        out.push(110);
        out.push(117);
        out.push(108);
        out.push(108);
        assert(final(out)@ =~= old(out)@ + number_json(*n));
        return;
    }
    proof {
        reveal(number_text);
    }
    if !n.positive {
        out.push(45);
    }
    if n.mantissa == 0 {
        out.push(48);
        proof {
            assert(final(out)@ =~= old(out)@ + number_json(*n));
        }
        return;
    }
    let d = write_digits(n.mantissa);
    proof {
        lemma_u64_digits_len(n.mantissa);
    }
    let len = d.len();
    let mut t: usize = 0;
    proof {
        assert(d@.subrange(0, len as int) =~= d@);
    }
    while t < len && d[len - 1 - t] == 48
        invariant
            len == d@.len(),
            len <= 20,
            t <= len,
            trailing_zeros(d@) == t + trailing_zeros(d@.subrange(0, len - t)),
        decreases len - t,
    {
        proof {
            let sub = d@.subrange(0, len - t);
            assert(sub.drop_last() =~= d@.subrange(0, len - t - 1));
        }
        t = t + 1;
    }
    proof {
        if t < len {
            assert(d@.subrange(0, len - t).last() == d@[len - 1 - t]);
        } else {
            assert(d@.subrange(0, 0).len() == 0);
        }
        assert(trailing_zeros(d@) == t);
    }
    let clen: usize = len - t;
    let e: i64 = n.exponent as i64 + t as i64;
    write_significant(out, &d, clen, e);
    proof {
        assert(final(out)@ =~= old(out)@ + number_json(*n));
    }
}

/// Appends `significant_text` of the first `clen` digits of `d` and exponent `e`.
fn write_significant(out: &mut Vec<u8>, d: &Vec<u8>, clen: usize, e: i64)
    requires
        clen <= d@.len() <= 20,
        -100000 <= e <= 100000,
    ensures
        final(out)@ == old(out)@ + significant_text(d@.subrange(0, clen as int), e as int),
{
    let ghost c = d@.subrange(0, clen as int);
    if e == 0 {
        push_all(out, d, 0, clen);
    } else if e > 0 {
        push_all(out, d, 0, clen);
        if e <= 2 {
            push_repeat(out, 48, e as usize);
            proof {
                assert(Seq::new(e as nat, |i: int| 48u8) =~= zeros(e as nat));
            }
        } else {
            out.push(101);
            let ed = write_digits(e as u64);
            let elen = ed.len();
            push_all(out, &ed, 0, elen);
            proof {
                assert(ed@.subrange(0, elen as int) =~= ed@);
            }
        }
    } else {
        let k: u64 = (-e) as u64;
        let kd = write_digits(k);
        let klen = kd.len();
        proof {
            lemma_u64_digits_len(k);
            assert(kd@.subrange(0, klen as int) =~= kd@);
        }
        if (k as usize) < clen {
            let cut: usize = clen - k as usize;
            push_all(out, d, 0, cut);
            out.push(46);
            push_all(out, d, cut, clen);
            proof {
                assert(d@.subrange(0, cut as int) =~= c.subrange(0, c.len() + e));
                assert(d@.subrange(cut as int, clen as int) =~= c.subrange(c.len() + e, c.len() as int));
            }
        } else if (k as usize) <= clen + klen {
            out.push(48);
            out.push(46);
            push_repeat(out, 48, k as usize - clen);
            push_all(out, d, 0, clen);
            proof {
                assert(Seq::new((k - clen) as nat, |i: int| 48u8) =~= zeros((-e - c.len()) as nat));
            }
        } else {
            push_all(out, d, 0, clen);
            out.push(101);
            out.push(45);
            push_all(out, &kd, 0, klen);
        }
    }
    proof {
        assert(final(out)@ =~= old(out)@ + significant_text(c, e as int));
    }
}

/// Appends `src[from..to]` to `out`.
pub fn push_all(out: &mut Vec<u8>, src: &Vec<u8>, from: usize, to: usize)
    requires
        from <= to <= src@.len(),
    ensures
        final(out)@ == old(out)@ + src@.subrange(from as int, to as int),
{
    let mut i: usize = from;
    while i < to
        invariant
            from <= i <= to <= src@.len(),
            out@ == old(out)@ + src@.subrange(from as int, i as int),
        decreases to - i,
    {
        out.push(src[i]);
        proof {
            assert(src@.subrange(from as int, i + 1) =~= src@.subrange(from as int, i as int).push(src@[i as int]));
        }
        i = i + 1;
    }
}

} // verus!
