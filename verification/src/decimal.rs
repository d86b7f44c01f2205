//! Fixed-point values for the fractional fields of the text formats.
//!
//! Cursor coordinates and life fractions travel as decimal tokens such as
//! `1.0` or `-12.25`.  The codec holds them as signed fixed-point numbers
//! with seven fractional digits, which keeps every comparison and transform
//! exact.  Printing is canonical (no sign for zero, fraction stripped of
//! trailing zeros, omitted when zero); parsing accepts an optional sign,
//! digits around at most one decimal point, truncating fractional digits
//! beyond the seventh toward zero, and rejects everything else.

use vstd::prelude::*;

use crate::numtext::all_digits;
use crate::numtext::digits_val;
use crate::numtext::is_digit;
use crate::numtext::lemma_digits_val_leading_zeros;
use crate::numtext::lemma_digits_val_push;
use crate::numtext::lemma_print_nat;
use crate::numtext::parse_bounded_from;
use crate::numtext::push_decimal_u64;
use crate::numtext::spec_parse_bounded;
use crate::numtext::spec_print_nat;

verus! {

/// How many units one whole number counts: seven fractional digits.
pub const DECIMAL_SCALE: u64 = 10_000_000;

/// A signed fixed-point number counted in ten-millionths.
#[derive(Clone, Copy, Debug, PartialEq, Eq, Structural)]
pub struct Decimal {
    /// The value times ten million.
    pub units: i64,
}

impl Decimal {
    /// The value `n`, exactly.
    pub fn from_int(n: i32) -> (r: Decimal)
        ensures
            r.units == n as int * DECIMAL_SCALE as int,
    {
        let u = (n as i64) * (DECIMAL_SCALE as i64);
        assert(-922337203685477580800000000 <= n as int * DECIMAL_SCALE as int
            <= 922337203685477580800000000) by (nonlinear_arith)
            requires
                -0x80000000 <= n as int <= 0x7fffffff,
        ;
        Decimal { units: u }
    }

    /// The raw count of ten-millionths.
    pub fn from_units(units: i64) -> (r: Decimal)
        ensures
            r.units == units,
    {
        Decimal { units }
    }
}

impl Default for Decimal {
    /// Zero.
    fn default() -> (r: Self)
        ensures
            r.units == 0,
    {
        Decimal { units: 0 }
    }
}

/// Ten to the `n`.
pub open spec fn pow10(n: nat) -> nat
    decreases n,
{
    if n == 0 {
        1
    } else {
        10 * pow10((n - 1) as nat)
    }
}

/// `s` left-padded with zero digits to seven bytes.
pub open spec fn pad7(s: Seq<u8>) -> Seq<u8> {
    Seq::new((7 - s.len()) as nat, |i: int| 48u8) + s
}

/// `s` with its trailing zero digits removed.
pub open spec fn strip_zeros(s: Seq<u8>) -> Seq<u8>
    decreases s.len(),
{
    if s.len() > 0 && s.last() == 48u8 {
        strip_zeros(s.drop_last())
    } else {
        s
    }
}

/// The canonical digits of a fraction of `f` ten-millionths: seven zero-padded
/// digits, stripped of trailing zeros.
pub open spec fn spec_frac_digits(f: nat) -> Seq<u8> {
    strip_zeros(pad7(spec_print_nat(f)))
}

/// The canonical text of `units` ten-millionths: optional minus sign, integer
/// part, and the fraction after a point when it is not zero.
pub open spec fn spec_print_decimal(units: int) -> Seq<u8> {
    let mag = if units >= 0 {
        units as nat
    } else {
        (-units) as nat
    };
    let sign: Seq<u8> = if units < 0 {
        seq![45u8]
    } else {
        Seq::empty()
    };
    let ip = mag / (DECIMAL_SCALE as nat);
    let fp = mag % (DECIMAL_SCALE as nat);
    if fp == 0 {
        sign + spec_print_nat(ip)
    } else {
        sign + spec_print_nat(ip) + seq![46u8] + spec_frac_digits(fp)
    }
}

/// The position of the first `.` in `s`, or the length of `s` if none.
pub open spec fn first_dot(s: Seq<u8>) -> int
    decreases s.len(),
{
    if s.len() == 0 {
        0
    } else if s[0] == 46u8 {
        0
    } else {
        1 + first_dot(s.drop_first())
    }
}

pub proof fn lemma_first_dot_bounds(s: Seq<u8>)
    ensures
        0 <= first_dot(s) <= s.len(),
        forall|i: int| 0 <= i < first_dot(s) ==> s[i] != 46u8,
        first_dot(s) < s.len() ==> s[first_dot(s)] == 46u8,
    decreases s.len(),
{
    if s.len() > 0 && s[0] != 46u8 {
        lemma_first_dot_bounds(s.drop_first());
        assert forall|i: int| 0 <= i < first_dot(s) implies s[i] != 46u8 by {
            if i > 0 {
                assert(s.drop_first()[i - 1] == s[i]);
            }
        }
        if first_dot(s) < s.len() {
            assert(s.drop_first()[first_dot(s) - 1] == s[first_dot(s)]);
        }
    }
}

/// The value in ten-millionths carried by the digits around the point:
/// integer digits `ip`, fraction digits `fp` truncated to seven.
pub open spec fn spec_token_units(ip: Seq<u8>, fp: Seq<u8>) -> nat {
    let frac = if fp.len() <= 7 {
        fp
    } else {
        fp.take(7)
    };
    digits_val(ip) * (DECIMAL_SCALE as nat) + digits_val(frac) * pow10((7 - frac.len()) as nat)
}

/// The magnitude bound a sign admits: one more for the negative side.
pub open spec fn spec_mag_bound(neg: bool) -> u64 {
    if neg {
        9223372036854775808u64
    } else {
        i64::MAX as u64
    }
}

/// The fixed-point value a decimal token stands for, if well formed.
///
/// Grammar: optional `+` or `-`; then digits with at most one `.` between
/// them, at least one digit in all; fractional digits beyond the seventh are
/// read but do not count; magnitudes beyond the signed 64-bit range are
/// rejected.
pub open spec fn spec_parse_decimal(s: Seq<u8>) -> Option<Decimal> {
    let neg = s.len() > 0 && s[0] == 45u8;
    let body = if s.len() > 0 && (s[0] == 45u8 || s[0] == 43u8) {
        s.skip(1)
    } else {
        s
    };
    let d = first_dot(body);
    let ip = body.take(d);
    let rest = body.skip(d);
    let fp = if rest.len() == 0 {
        rest
    } else {
        rest.skip(1)
    };
    if all_digits(ip) && all_digits(fp) && ip.len() + fp.len() > 0 && spec_token_units(ip, fp)
        <= spec_mag_bound(neg) {
        if neg {
            Some(Decimal { units: (-(spec_token_units(ip, fp) as int)) as i64 })
        } else {
            Some(Decimal { units: spec_token_units(ip, fp) as int as i64 })
        }
    } else {
        None
    }
}

/// Ten to the exponents a fraction needs, as a machine word.
fn pow10_u64(n: u64) -> (r: u64)
    requires
        n <= 7,
    ensures
        r == pow10(n as nat),
        r <= 10_000_000,
{
    let mut r: u64 = 1;
    let mut i: u64 = 0;
    while i < n
        invariant
            i <= n <= 7,
            r == pow10(i as nat),
            r <= 10_000_000,
        decreases n - i,
    {
        proof {
            assert(pow10((i + 1) as nat) == 10 * pow10(i as nat));
            lemma_pow10_bounds(i as nat + 1);
        }
        r = r * 10;
        i = i + 1;
    }
    proof {
        lemma_pow10_bounds(n as nat);
    }
    r
}

/// Ten to the power grows with the exponent and starts at one.
pub proof fn lemma_pow10_mono(a: nat, b: nat)
    requires
        a <= b,
    ensures
        1 <= pow10(a) <= pow10(b),
    decreases b,
{
    if a == b {
        lemma_pow10_pos(a);
    } else {
        lemma_pow10_mono(a, (b - 1) as nat);
        assert(pow10(b) == 10 * pow10((b - 1) as nat));
        assert(pow10((b - 1) as nat) <= 10 * pow10((b - 1) as nat)) by (nonlinear_arith)
            requires
                pow10((b - 1) as nat) >= 1,
        ;
    }
}

pub proof fn lemma_pow10_pos(n: nat)
    ensures
        pow10(n) >= 1,
    decreases n,
{
    if n > 0 {
        lemma_pow10_pos((n - 1) as nat);
    }
}

/// The first eight powers of ten, spelled out.
pub proof fn lemma_pow10_values()
    ensures
        pow10(0) == 1,
        pow10(1) == 10,
        pow10(2) == 100,
        pow10(3) == 1000,
        pow10(4) == 10000,
        pow10(5) == 100000,
        pow10(6) == 1_000_000,
        pow10(7) == 10_000_000,
{
    assert(pow10(0) == 1);
    assert(pow10(1) == 10);
    assert(pow10(2) == 100);
    assert(pow10(3) == 1000);
    assert(pow10(4) == 10000);
    assert(pow10(5) == 100000);
    assert(pow10(6) == 1_000_000);
    assert(pow10(7) == 10_000_000);
}

pub proof fn lemma_pow10_bounds(n: nat)
    requires
        n <= 7,
    ensures
        pow10(n) <= 10_000_000,
        pow10(n) >= 1,
{
    lemma_pow10_values();
    lemma_pow10_mono(n, 7);
}

/// Up to six fractional digits, the scale stays within a million.
proof fn lemma_pow10_le6(n: nat)
    requires
        n <= 6,
    ensures
        pow10(n) <= 1_000_000,
        pow10(n) >= 1,
{
    lemma_pow10_values();
    lemma_pow10_mono(n, 6);
}

/// Parse a whole token as a fixed-point decimal number.
#[verifier::rlimit(60)]
pub fn parse_decimal_token(s: &Vec<u8>) -> (r: Option<Decimal>)
    ensures
        r == spec_parse_decimal(s@),
{
    let neg = s.len() > 0 && s[0] == 45u8;
    let start: usize = if s.len() > 0 && (s[0] == 45u8 || s[0] == 43u8) {
        1
    } else {
        0
    };
    let ghost body = s@.skip(start as int);
    proof {
        if start == 0 {
            assert(body =~= s@);
        }
    }
    // Find the point, if any, and check the shape of the integer digits.
    let mut i: usize = start;
    while i < s.len() && s[i] != 46u8
        invariant
            start <= i <= s@.len(),
            body == s@.skip(start as int),
            forall|j: int| start <= j < i ==> s@[j] != 46u8,
        decreases s@.len() - i,
    {
        i = i + 1;
    }
    let dot: usize = i;
    proof {
        lemma_first_dot_bounds(body);
        assert forall|j: int| 0 <= j < dot - start implies body[j] != 46u8 by {
            assert(body[j] == s@[start + j]);
        }
        if dot < s@.len() {
            assert(body[dot - start] == 46u8);
            lemma_first_dot_at(body, dot - start);
        } else {
            if first_dot(body) < body.len() {
                assert(body[first_dot(body)] == 46u8);
            }
        }
        assert(first_dot(body) == dot - start);
    }
    let ghost ip = body.take(dot - start);
    let ghost rest = body.skip(dot - start);
    let ghost fp = if rest.len() == 0 {
        rest
    } else {
        rest.skip(1)
    };
    proof {
        assert(ip =~= s@.subrange(start as int, dot as int));
        if dot < s@.len() {
            assert(fp =~= s@.skip(dot + 1));
        } else {
            assert(rest.len() == 0);
            assert(fp =~= s@.skip(s@.len() as int));
        }
    }
    // Integer digits: bounded so that scaling cannot overflow.
    let ival: u64 = if dot == start {
        proof {
            assert(ip.len() == 0);
        }
        0u64
    } else {
        // 922337203685 == i64::MAX / DECIMAL_SCALE.
        match parse_prefix_bounded(s, start, dot, 922337203685u64) {
            Some(v) => v,
            None => {
                proof {
                    lemma_reject_int_part(ip, fp, neg);
                }
                return None;
            },
        }
    };
    assert(ival <= 922337203685u64);
    assert(ival == digits_val(ip));
    // Fraction digits: all must be digits, the first seven carry value.
    let fstart: usize = if dot == s.len() {
        s.len()
    } else {
        dot + 1
    };
    let mut fval: u64 = 0;
    let mut k: usize = 0;
    let mut j: usize = fstart;
    while j < s.len()
        invariant
            fstart <= j <= s@.len(),
            dot < s@.len() ==> fstart == dot + 1,
            dot == s@.len() ==> fstart == s@.len(),
            fp == s@.skip(fstart as int),
            k == if j - fstart <= 7 {
                j - fstart
            } else {
                7
            },
            all_digits(fp.take(j - fstart)),
            fval == digits_val(fp.take(k as int)),
            fval < 10_000_000,
            !all_digits(fp) ==> spec_parse_decimal(s@) is None,
        decreases s@.len() - j,
    {
        let b = s[j];
        assert(fp[j - fstart] == s@[j as int]);
        if b < 48 || b > 57 {
            proof {
                assert(!all_digits(fp)) by {
                    assert(fp[j - fstart] == b);
                }
                assert(spec_parse_decimal(s@) is None);
            }
            return None;
        }
        proof {
            assert(fp.take(j + 1 - fstart).drop_last() =~= fp.take(j - fstart));
            assert(fp.take(j + 1 - fstart) =~= fp.take(j - fstart).push(b));
        }
        if k < 7 {
            proof {
                lemma_digits_val_push(fp.take(k as int), b);
                assert(fp.take(k + 1) =~= fp.take(k as int).push(b));
                assert(all_digits(fp.take(k as int))) by {
                    assert(forall|m: int|
                        0 <= m < k ==> fp.take(k as int)[m] == #[trigger] fp.take(j - fstart)[m]);
                }
                lemma_digits_val_lt(fp.take(k as int));
                lemma_pow10_le6((k as nat));
            }
            fval = fval * 10 + ((b - 48) as u64);
            k = k + 1;
        }
        j = j + 1;
    }
    proof {
        assert(fp.take(j - fstart) =~= fp);
        if fp.len() <= 7 {
            assert(fp.take(k as int) =~= fp);
        }
    }
    if dot != s.len() && dot + 1 == s.len() && dot == start {
        // A bare point with no digit on either side.
        proof {
            assert(ip.len() + fp.len() == 0);
        }
        return None;
    }
    if s.len() == 0 || start == s.len() {
        proof {
            assert(ip.len() + fp.len() == 0);
        }
        return None;
    }
    // Assemble the magnitude and apply the sign.
    let scale_rest = pow10_u64(7 - (k as u64));
    proof {
        assert(ival * DECIMAL_SCALE <= 9223372036850000000) by (nonlinear_arith)
            requires
                ival <= 922337203685u64,
                DECIMAL_SCALE == 10_000_000,
        ;
        assert(fval * scale_rest <= 10_000_000 * 10_000_000) by (nonlinear_arith)
            requires
                fval < 10_000_000,
                scale_rest <= 10_000_000,
        ;
    }
    let mag: u64 = ival * DECIMAL_SCALE + fval * scale_rest;
    proof {
        let frac = if fp.len() <= 7 {
            fp
        } else {
            fp.take(7)
        };
        assert(frac == fp.take(k as int));
        assert(spec_token_units(ip, fp) == digits_val(ip) * (DECIMAL_SCALE as nat) + digits_val(
            frac,
        ) * pow10((7 - frac.len()) as nat));
        assert(mag == spec_token_units(ip, fp));
    }
    let bound: u64 = if neg {
        9223372036854775808u64
    } else {
        9223372036854775807u64
    };
    if mag > bound {
        return None;
    }
    if neg {
        let units = (-(mag as i128)) as i64;
        assert(units as int == -(mag as int));
        Some(Decimal { units })
    } else {
        Some(Decimal { units: mag as i64 })
    }
}

/// Fraction digits read less than the power of ten of their count.
proof fn lemma_digits_val_lt(s: Seq<u8>)
    requires
        all_digits(s),
    ensures
        digits_val(s) < pow10(s.len()),
    decreases s.len(),
{
    if s.len() == 0 {
    } else {
        lemma_digits_val_lt(s.drop_last());
        assert(digits_val(s) == digits_val(s.drop_last()) * 10 + (s.last() - 48) as nat);
        assert(is_digit(s[s.len() - 1]));
        assert(digits_val(s.drop_last()) * 10 + 9 < pow10(s.len())) by (nonlinear_arith)
            requires
                digits_val(s.drop_last()) < pow10(s.drop_last().len()),
                pow10(s.len()) == 10 * pow10(s.drop_last().len()),
        ;
    }
}

/// If the integer digits cannot be read under the scaling bound, the whole
/// token is out of range whatever the sign.
proof fn lemma_reject_int_part(ip: Seq<u8>, fp: Seq<u8>, neg: bool)
    requires
        ip.len() > 0,
        spec_parse_bounded(ip, 922337203685u64) is None,
    ensures
        !(all_digits(ip) && spec_token_units(ip, fp) <= spec_mag_bound(neg)),
{
    if all_digits(ip) {
        assert(digits_val(ip) > 922337203685u64);
        assert(digits_val(ip) * (DECIMAL_SCALE as nat) >= 922337203686 * 10_000_000)
            by (nonlinear_arith)
            requires
                digits_val(ip) >= 922337203686,
        ;
        assert(spec_token_units(ip, fp) >= digits_val(ip) * (DECIMAL_SCALE as nat));
    }
}

/// `parse_bounded_from` on the window `[from, to)` of `s`.
fn parse_prefix_bounded(s: &Vec<u8>, from: usize, to: usize, bound: u64) -> (r: Option<u64>)
    requires
        from <= to <= s@.len(),
    ensures
        r == spec_parse_bounded(s@.subrange(from as int, to as int), bound),
{
    let mut window: Vec<u8> = Vec::new();
    let mut i: usize = from;
    while i < to
        invariant
            from <= i <= to <= s@.len(),
            window@ =~= s@.subrange(from as int, i as int),
        decreases to - i,
    {
        window.push(s[i]);
        assert(window@ =~= s@.subrange(from as int, i + 1));
        i = i + 1;
    }
    let r = parse_bounded_from(&window, 0, bound);
    assert(window@.skip(0) =~= window@);
    r
}

/// At most `k` digits are needed below ten to the `k`.
pub proof fn lemma_print_nat_len(n: nat, k: nat)
    requires
        k >= 1,
        n < pow10(k),
    ensures
        spec_print_nat(n).len() <= k,
    decreases n,
{
    if n < 10 {
    } else {
        assert(pow10(k) == 10 * pow10((k - 1) as nat));
        assert(n / 10 < pow10((k - 1) as nat)) by (nonlinear_arith)
            requires
                n < 10 * pow10((k - 1) as nat),
                n >= 10,
        ;
        assert(k >= 2) by {
            if k == 1 {
                lemma_pow10_values();
            }
        }
        lemma_print_nat_len(n / 10, (k - 1) as nat);
    }
}

/// Stripping trailing zeros keeps a prefix of digit bytes and keeps the
/// value once the removed places are scaled back in.
pub proof fn lemma_strip_zeros_props(s: Seq<u8>)
    ensures
        strip_zeros(s).len() <= s.len(),
        strip_zeros(s) == s.take(strip_zeros(s).len() as int),
        all_digits(s) ==> all_digits(strip_zeros(s)),
        digits_val(strip_zeros(s)) * pow10((s.len() - strip_zeros(s).len()) as nat) == digits_val(
            s,
        ),
        digits_val(s) > 0 ==> strip_zeros(s).len() > 0,
    decreases s.len(),
{
    if s.len() > 0 && s.last() == 48u8 {
        lemma_strip_zeros_props(s.drop_last());
        let t = s.drop_last();
        let r = strip_zeros(s);
        assert(r == strip_zeros(t));
        assert(t.take(r.len() as int) =~= s.take(r.len() as int));
        assert(digits_val(s) == digits_val(t) * 10);
        let p = pow10((t.len() - r.len()) as nat);
        assert(digits_val(r) * p == digits_val(t));
        assert(pow10((s.len() - r.len()) as nat) == 10 * p);
        assert(digits_val(r) * (10 * p) == (digits_val(r) * p) * 10) by (nonlinear_arith);
        assert(digits_val(r) * pow10((s.len() - r.len()) as nat) == digits_val(t) * 10);
        assert(digits_val(strip_zeros(s)) * pow10((s.len() - strip_zeros(s).len()) as nat)
            == digits_val(s));
        if all_digits(s) {
            assert forall|i: int| 0 <= i < t.len() implies is_digit(#[trigger] t[i]) by {
                assert(t[i] == s[i]);
            }
        }
    } else {
        assert(strip_zeros(s) == s);
        assert(s.take(s.len() as int) =~= s);
        assert(pow10(0) == 1);
        if s.len() == 0 {
            assert(digits_val(s) == 0);
        }
        assert((s.len() - strip_zeros(s).len()) as nat == 0);
        assert(digits_val(strip_zeros(s)) * pow10((s.len() - strip_zeros(s).len()) as nat)
            == digits_val(s));
    }
}

/// Append the canonical text of `d` to `out`.
pub fn push_decimal(d: &Decimal, out: &mut Vec<u8>)
    ensures
        final(out)@ == old(out)@ + spec_print_decimal(d.units as int),
{
    let units = d.units;
    let ghost su = units as int;
    if units < 0 {
        out.push(45u8);
    }
    let mag: u64 = if units >= 0 {
        units as u64
    } else {
        (-(units as i128)) as u64
    };
    assert(mag as int == if su >= 0 {
        su
    } else {
        -su
    });
    let ip = mag / DECIMAL_SCALE;
    let fp = mag % DECIMAL_SCALE;
    push_decimal_u64(ip, out);
    if fp != 0 {
        out.push(46u8);
        let mut digits: Vec<u8> = Vec::new();
        push_decimal_u64(fp, &mut digits);
        proof {
            lemma_pow10_values();
            lemma_print_nat_len(fp as nat, 7);
        }
        let mut padded: Vec<u8> = Vec::new();
        let pad = 7 - digits.len();
        let mut z: usize = 0;
        while z < pad
            invariant
                z <= pad,
                pad == 7 - digits@.len(),
                digits@.len() <= 7,
                padded@ =~= Seq::new(z as nat, |i: int| 48u8),
            decreases pad - z,
        {
            padded.push(48u8);
            assert(padded@ =~= Seq::new((z + 1) as nat, |i: int| 48u8));
            z = z + 1;
        }
        let mut q: usize = 0;
        while q < digits.len()
            invariant
                q <= digits@.len(),
                pad == 7 - digits@.len(),
                padded@ =~= Seq::new(pad as nat, |i: int| 48u8) + digits@.take(q as int),
            decreases digits@.len() - q,
        {
            padded.push(digits[q]);
            assert(padded@ =~= Seq::new(pad as nat, |i: int| 48u8) + digits@.take(q + 1));
            q = q + 1;
        }
        proof {
            assert(digits@.take(digits@.len() as int) =~= digits@);
            assert(padded@ =~= pad7(spec_print_nat(fp as nat)));
        }
        // Drop the trailing zeros of the seven-digit block.
        assert(padded@.take(padded@.len() as int) =~= padded@);
        let mut end: usize = padded.len();
        while end > 0 && padded[end - 1] == 48u8
            invariant
                0 <= end <= padded@.len(),
                strip_zeros(padded@) == strip_zeros(padded@.take(end as int)),
            decreases end,
        {
            proof {
                assert(padded@.take(end as int).last() == padded@[end - 1]);
                assert(padded@.take(end as int).drop_last() =~= padded@.take(end - 1));
            }
            end = end - 1;
        }
        proof {
            if end > 0 {
                assert(padded@.take(end as int).last() == padded@[end - 1]);
            }
            assert(strip_zeros(padded@.take(end as int)) == padded@.take(end as int));
        }
        let ghost mid = out@;
        let mut w: usize = 0;
        while w < end
            invariant
                w <= end <= padded@.len(),
                out@ =~= mid + padded@.take(w as int),
            decreases end - w,
        {
            out.push(padded[w]);
            assert(out@ =~= mid + padded@.take(w + 1));
            w = w + 1;
        }
        proof {
            assert(out@ =~= mid + padded@.take(end as int));
            assert(spec_frac_digits((mag % DECIMAL_SCALE) as nat) == padded@.take(end as int));
            assert(out@ =~= old(out)@ + spec_print_decimal(su));
        }
    } else {
        assert(final(out)@ =~= old(out)@ + spec_print_decimal(su));
    }
}

/// With no point in the text, the point position is the length.
proof fn lemma_first_dot_none(s: Seq<u8>)
    requires
        !s.contains(46u8),
    ensures
        first_dot(s) == s.len(),
{
    lemma_first_dot_bounds(s);
    if first_dot(s) < s.len() {
        assert(s[first_dot(s)] == 46u8);
        assert(s.contains(46u8));
    }
}

/// Canonical fixed-point text reads back as the value it was printed from.
#[verifier::rlimit(60)]
pub proof fn lemma_decimal_print_parse(d: Decimal)
    ensures
        spec_parse_decimal(spec_print_decimal(d.units as int)) == Some(d),
{
    let su = d.units as int;
    let mag = if su >= 0 {
        su as nat
    } else {
        (-su) as nat
    };
    let neg = su < 0;
    let scale = DECIMAL_SCALE as nat;
    let ip = mag / scale;
    let fp = mag % scale;
    let s = spec_print_decimal(su);
    let ipd = spec_print_nat(ip);
    lemma_print_nat(ip);
    lemma_pow10_values();
    assert(ip * scale + fp == mag) by (nonlinear_arith)
        requires
            scale == 10_000_000,
            ip == mag / scale,
            fp == mag % scale,
    ;
    // The sign strips back off: the first byte after it is always a digit.
    let body = if neg {
        s.skip(1)
    } else {
        s
    };
    if neg {
        assert(s[0] == 45u8);
    } else {
        assert(s[0] == ipd[0]);
        assert(is_digit(s[0]));
    }
    if fp == 0 {
        assert(body =~= ipd);
        crate::numtext::lemma_print_nat_no_byte(ip, 46u8);
        lemma_first_dot_none(body);
        let bip = body.take(first_dot(body));
        let rest = body.skip(first_dot(body));
        assert(bip =~= body);
        assert(rest.len() == 0);
        assert(spec_token_units(bip, rest) == digits_val(body) * scale + digits_val(
            rest,
        ) * pow10(7));
        assert(digits_val(rest) == 0);
        assert(digits_val(body) == ip);
        assert(0 * pow10(7) == 0);
        assert(spec_token_units(bip, rest) == mag);
        assert(mag <= spec_mag_bound(neg));
        if neg {
            assert(spec_parse_decimal(s) == Some(Decimal { units: (-(mag as int)) as i64 }));
            assert((-(mag as int)) as i64 == d.units);
        } else {
            assert(spec_parse_decimal(s) == Some(Decimal { units: mag as int as i64 }));
        }
    } else {
        let frac = spec_frac_digits(fp);
        let padded = pad7(spec_print_nat(fp));
        lemma_print_nat(fp);
        lemma_print_nat_len(fp, 7);
        assert(padded.len() == 7);
        lemma_digits_val_leading_zeros(
            Seq::new((7 - spec_print_nat(fp).len()) as nat, |i: int| 48u8),
            spec_print_nat(fp),
        );
        assert(digits_val(padded) == fp);
        lemma_strip_zeros_props(padded);
        assert(all_digits(padded)) by {
            assert(forall|i: int|
                0 <= i < padded.len() ==> padded[i] == 48u8 || spec_print_nat(fp).contains(
                    #[trigger] padded[i],
                ));
            assert forall|i: int| 0 <= i < padded.len() implies is_digit(#[trigger] padded[i]) by {
                if i >= 7 - spec_print_nat(fp).len() {
                    let j = i - (7 - spec_print_nat(fp).len());
                    assert(padded[i] == spec_print_nat(fp)[j]);
                }
            }
        }
        assert(frac.len() > 0);
        assert(frac.len() <= 7);
        assert(all_digits(frac));
        assert(digits_val(frac) * pow10((7 - frac.len()) as nat) == fp);
        assert(body =~= ipd + seq![46u8] + frac);
        // The point sits right after the integer digits.
        crate::numtext::lemma_print_nat_no_byte(ip, 46u8);
        assert forall|j: int| 0 <= j < ipd.len() implies body[j] != 46u8 by {
            assert(body[j] == ipd[j]);
            if body[j] == 46u8 {
                assert(ipd.contains(46u8));
            }
        }
        assert(body[ipd.len() as int] == 46u8);
        lemma_first_dot_at(body, ipd.len() as int);
        let bip = body.take(first_dot(body));
        let rest = body.skip(first_dot(body));
        let bfp = rest.skip(1);
        assert(bip =~= ipd);
        assert(rest.len() == frac.len() + 1);
        assert(bfp =~= frac);
        assert(spec_token_units(bip, bfp) == digits_val(ipd) * scale + digits_val(frac) * pow10(
            (7 - frac.len()) as nat,
        ));
        assert(spec_token_units(bip, bfp) == ip * scale + fp);
        assert(mag <= spec_mag_bound(neg));
        if neg {
            assert(spec_parse_decimal(s) == Some(Decimal { units: (-(mag as int)) as i64 }));
            assert((-(mag as int)) as i64 == d.units);
        } else {
            assert(spec_parse_decimal(s) == Some(Decimal { units: mag as int as i64 }));
        }
    }
}

/// Canonical fixed-point text holds only digits, the sign, and the point.
pub proof fn lemma_print_decimal_bytes(units: int)
    ensures
        forall|i: int|
            0 <= i < spec_print_decimal(units).len() ==> is_digit(
                #[trigger] spec_print_decimal(units)[i],
            ) || spec_print_decimal(units)[i] == 45u8 || spec_print_decimal(units)[i] == 46u8,
{
    let s = spec_print_decimal(units);
    let mag = if units >= 0 {
        units as nat
    } else {
        (-units) as nat
    };
    let scale = DECIMAL_SCALE as nat;
    let ip = mag / scale;
    let fp = mag % scale;
    lemma_print_nat(ip);
    let sign: Seq<u8> = if units < 0 {
        seq![45u8]
    } else {
        Seq::empty()
    };
    if fp == 0 {
        assert(s == sign + spec_print_nat(ip));
        assert forall|i: int| 0 <= i < s.len() implies is_digit(#[trigger] s[i]) || s[i] == 45u8
            || s[i] == 46u8 by {
            if i >= sign.len() {
                assert(s[i] == spec_print_nat(ip)[i - sign.len()]);
            }
        }
    } else {
        let frac = spec_frac_digits(fp);
        let padded = pad7(spec_print_nat(fp));
        lemma_print_nat(fp);
        lemma_pow10_values();
        lemma_print_nat_len(fp, 7);
        lemma_strip_zeros_props(padded);
        assert(all_digits(padded)) by {
            assert forall|m: int| 0 <= m < padded.len() implies is_digit(#[trigger] padded[m]) by {
                if m >= 7 - spec_print_nat(fp).len() {
                    let j = m - (7 - spec_print_nat(fp).len());
                    assert(padded[m] == spec_print_nat(fp)[j]);
                }
            }
        }
        assert(s == sign + spec_print_nat(ip) + seq![46u8] + frac);
        let iplen = spec_print_nat(ip).len() as int;
        assert forall|i: int| 0 <= i < s.len() implies is_digit(#[trigger] s[i]) || s[i] == 45u8
            || s[i] == 46u8 by {
            if i < sign.len() {
                assert(s[i] == 45u8);
            } else if i < sign.len() + iplen {
                assert(s[i] == spec_print_nat(ip)[i - sign.len()]);
            } else if i == sign.len() + iplen {
                assert(s[i] == 46u8);
            } else {
                assert(s[i] == frac[i - sign.len() - iplen - 1]);
                assert(is_digit(frac[i - sign.len() - iplen - 1]));
            }
        }
    }
}

/// Canonical fixed-point text never holds a given byte outside digits,
/// sign, and point.
pub proof fn lemma_print_decimal_no_byte(units: int, b: u8)
    requires
        !is_digit(b),
        b != 45u8,
        b != 46u8,
    ensures
        !spec_print_decimal(units).contains(b),
{
    lemma_print_decimal_bytes(units);
    if spec_print_decimal(units).contains(b) {
        let i = choose|i: int|
            0 <= i < spec_print_decimal(units).len() && spec_print_decimal(units)[i] == b;
        assert(is_digit(spec_print_decimal(units)[i]) || spec_print_decimal(units)[i] == 45u8
            || spec_print_decimal(units)[i] == 46u8);
    }
}

/// `first_dot` is the position of the point that no earlier byte matches.
proof fn lemma_first_dot_at(s: Seq<u8>, d: int)
    requires
        0 <= d < s.len(),
        s[d] == 46u8,
        forall|j: int| 0 <= j < d ==> s[j] != 46u8,
    ensures
        first_dot(s) == d,
    decreases s.len(),
{
    if d > 0 {
        assert(s.drop_first()[d - 1] == s[d]);
        assert forall|j: int| 0 <= j < d - 1 implies s.drop_first()[j] != 46u8 by {
            assert(s.drop_first()[j] == s[j + 1]);
        }
        lemma_first_dot_at(s.drop_first(), d - 1);
    }
}

} // verus!
