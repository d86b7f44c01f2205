//! Decimal text for the integers of the delimited mini-formats.
//!
//! The frame stream and the life bar carry numbers as ASCII decimal tokens.
//! This module gives the spec-level grammar (`digits_val`, `spec_print_nat`,
//! the `spec_parse_*` functions), executable printers and parsers proved
//! against it, and the round-trip lemmas the codec's laws build on.

use vstd::prelude::*;

verus! {

/// ASCII digit.
pub open spec fn is_digit(b: u8) -> bool {
    48 <= b <= 57
}

/// Every byte of `s` is an ASCII digit.
pub open spec fn all_digits(s: Seq<u8>) -> bool {
    forall|i: int| 0 <= i < s.len() ==> is_digit(#[trigger] s[i])
}

/// The value of a digit string, most significant digit first.
pub open spec fn digits_val(s: Seq<u8>) -> nat
    decreases s.len(),
{
    if s.len() == 0 {
        0
    } else {
        digits_val(s.drop_last()) * 10 + (s.last() - 48) as nat
    }
}

/// The canonical decimal digits of `n`: no sign, no leading zero except for
/// the single digit of zero itself.
pub open spec fn spec_print_nat(n: nat) -> Seq<u8>
    decreases n,
{
    if n < 10 {
        seq![(48 + n) as u8]
    } else {
        spec_print_nat(n / 10).push((48 + n % 10) as u8)
    }
}

/// The canonical digits are digits, non-empty, and read back as `n`.
pub proof fn lemma_print_nat(n: nat)
    ensures
        all_digits(spec_print_nat(n)),
        spec_print_nat(n).len() >= 1,
        digits_val(spec_print_nat(n)) == n,
    decreases n,
{
    if n < 10 {
        let s = spec_print_nat(n);
        assert(s.drop_last() =~= Seq::<u8>::empty());
        assert(digits_val(Seq::<u8>::empty()) == 0);
        assert(digits_val(s) == digits_val(s.drop_last()) * 10 + (s.last() - 48) as nat);
        assert(digits_val(s) == n);
    } else {
        lemma_print_nat(n / 10);
        let p = spec_print_nat(n / 10);
        let s = spec_print_nat(n);
        assert(s == p.push((48 + n % 10) as u8));
        assert(s.drop_last() =~= p);
        assert(s.last() == (48 + n % 10) as u8);
        assert(digits_val(s) == digits_val(p) * 10 + n % 10);
        assert(digits_val(s) == (n / 10) * 10 + n % 10);
        assert((n / 10) * 10 + n % 10 == n) by (nonlinear_arith);
        assert forall|i: int| 0 <= i < s.len() implies is_digit(#[trigger] s[i]) by {
            if i < p.len() {
                assert(s[i] == p[i]);
            }
        }
    }
}

/// Appending a digit multiplies the value by ten and adds the digit.
pub proof fn lemma_digits_val_push(s: Seq<u8>, d: u8)
    ensures
        digits_val(s.push(d)) == digits_val(s) * 10 + (d - 48) as nat,
{
    assert(s.push(d).drop_last() =~= s);
    assert(s.push(d).last() == d);
}

/// A prefix of a digit string never reads as more than the whole string.
pub proof fn lemma_digits_val_prefix_le(s: Seq<u8>, i: int)
    requires
        0 <= i <= s.len(),
    ensures
        digits_val(s.take(i)) <= digits_val(s),
    decreases s.len() - i,
{
    if i < s.len() {
        lemma_digits_val_prefix_le(s, i + 1);
        let t = s.take(i);
        let t1 = s.take(i + 1);
        assert(t1.drop_last() =~= t);
        assert(digits_val(t1) == digits_val(t) * 10 + (t1.last() - 48) as nat);
        assert(digits_val(t) <= digits_val(t) * 10) by (nonlinear_arith);
    } else {
        assert(s.take(i) =~= s);
    }
}

/// Leading zeros do not change the value of a digit string.
pub proof fn lemma_digits_val_leading_zeros(z: Seq<u8>, s: Seq<u8>)
    requires
        forall|i: int| 0 <= i < z.len() ==> z[i] == 48u8,
    ensures
        digits_val(z + s) == digits_val(s),
    decreases s.len(),
{
    if s.len() == 0 {
        assert(z + s =~= z);
        lemma_digits_val_zeros(z);
    } else {
        lemma_digits_val_leading_zeros(z, s.drop_last());
        assert((z + s).drop_last() =~= z + s.drop_last());
        assert((z + s).last() == s.last());
    }
}

/// A string of zero digits reads as zero.
pub proof fn lemma_digits_val_zeros(z: Seq<u8>)
    requires
        forall|i: int| 0 <= i < z.len() ==> z[i] == 48u8,
    ensures
        digits_val(z) == 0,
    decreases z.len(),
{
    if z.len() > 0 {
        lemma_digits_val_zeros(z.drop_last());
    }
}

/// Append the canonical decimal digits of `n` to `out`.
pub fn push_decimal_u64(n: u64, out: &mut Vec<u8>)
    ensures
        final(out)@ == old(out)@ + spec_print_nat(n as nat),
    decreases n,
{
    if n < 10 {
        out.push((48 + n) as u8);
        assert(out@ =~= old(out)@ + spec_print_nat(n as nat));
    } else {
        push_decimal_u64(n / 10, out);
        out.push((48 + n % 10) as u8);
        assert(out@ =~= old(out)@ + spec_print_nat(n as nat));
    }
}

/// The value of the digit string `s`, if `s` is one or more digits and the
/// value does not exceed `bound`; `None` otherwise.
pub open spec fn spec_parse_bounded(s: Seq<u8>, bound: u64) -> Option<u64> {
    if s.len() > 0 && all_digits(s) && digits_val(s) <= bound {
        Some(digits_val(s) as u64)
    } else {
        None
    }
}

/// Parse the digit bytes `s[from..]` as a decimal number of at most `bound`.
pub fn parse_bounded_from(s: &Vec<u8>, from: usize, bound: u64) -> (r: Option<u64>)
    requires
        from <= s@.len(),
    ensures
        r == spec_parse_bounded(s@.skip(from as int), bound),
{
    let ghost t = s@.skip(from as int);
    if from == s.len() {
        assert(t.len() == 0);
        return None;
    }
    let mut acc: u64 = 0;
    let mut i: usize = from;
    while i < s.len()
        invariant
            from <= i <= s@.len(),
            t == s@.skip(from as int),
            t.len() > 0,
            all_digits(t.take(i - from)),
            acc == digits_val(t.take(i - from)),
            acc <= bound,
        decreases s@.len() - i,
    {
        let b = s[i];
        assert(t[i - from] == s@[i as int]);
        if b < 48 || b > 57 {
            assert(!all_digits(t)) by {
                assert(t[i - from] == b);
            }
            return None;
        }
        let d = (b - 48) as u64;
        proof {
            assert(t.take(i + 1 - from).drop_last() =~= t.take(i - from));
            lemma_digits_val_push(t.take(i - from), b);
            assert(t.take(i + 1 - from) =~= t.take(i - from).push(b));
        }
        if d > bound {
            proof {
                assert(digits_val(t.take(i + 1 - from)) > bound);
                lemma_digits_val_prefix_le(t, i + 1 - from);
            }
            return None;
        }
        if acc > (bound - d) / 10 {
            // The prefix already exceeds the bound, so the whole string does.
            proof {
                assert(acc * 10 + d > bound) by (nonlinear_arith)
                    requires
                        acc > (bound - d) / 10,
                        d <= bound,
                        acc >= 0,
                ;
                assert(digits_val(t.take(i + 1 - from)) > bound);
                lemma_digits_val_prefix_le(t, i + 1 - from);
            }
            return None;
        }
        proof {
            assert(acc * 10 + d <= bound) by (nonlinear_arith)
                requires
                    acc <= (bound - d) / 10,
                    d <= bound,
                    acc >= 0,
            ;
        }
        acc = acc * 10 + d;
        i = i + 1;
    }
    assert(t.take(i - from) =~= t);
    Some(acc)
}

/// The value of `s` as `u32::from_str` reads it: an optional leading `+`,
/// then one or more digits, value at most `u32::MAX`.
pub open spec fn spec_parse_u32(s: Seq<u8>) -> Option<u32> {
    let body = if s.len() > 0 && s[0] == 43u8 {
        s.skip(1)
    } else {
        s
    };
    match spec_parse_bounded(body, u32::MAX as u64) {
        Some(v) => Some(v as u32),
        None => None,
    }
}

/// Parse a whole token as an unsigned 32-bit decimal number.
pub fn parse_u32_token(s: &Vec<u8>) -> (r: Option<u32>)
    ensures
        r == spec_parse_u32(s@),
{
    let from: usize = if s.len() > 0 && s[0] == 43u8 {
        1
    } else {
        0
    };
    proof {
        if s@.len() > 0 && s@[0] == 43u8 {
            assert(s@.skip(1) == s@.skip(from as int));
        } else {
            assert(s@.skip(0) =~= s@);
        }
    }
    match parse_bounded_from(s, from, u32::MAX as u64) {
        Some(v) => Some(v as u32),
        None => None,
    }
}

/// The value of `s` as `i64::from_str` reads it: an optional sign, then one
/// or more digits, value within the signed 64-bit range.
pub open spec fn spec_parse_i64(s: Seq<u8>) -> Option<i64> {
    if s.len() > 0 && s[0] == 45u8 {
        match spec_parse_bounded(s.skip(1), 9223372036854775808u64) {
            Some(v) => Some((-(v as int)) as i64),
            None => None,
        }
    } else {
        let body = if s.len() > 0 && s[0] == 43u8 {
            s.skip(1)
        } else {
            s
        };
        match spec_parse_bounded(body, i64::MAX as u64) {
            Some(v) => Some(v as i64),
            None => None,
        }
    }
}

/// Parse a whole token as a signed 64-bit decimal number.
pub fn parse_i64_token(s: &Vec<u8>) -> (r: Option<i64>)
    ensures
        r == spec_parse_i64(s@),
{
    if s.len() > 0 && s[0] == 45u8 {
        match parse_bounded_from(s, 1, 9223372036854775808u64) {
            Some(v) => {
                let r = (-(v as i128)) as i64;
                assert(r as int == -(v as int));
                Some(r)
            },
            None => None,
        }
    } else {
        let from: usize = if s.len() > 0 && s[0] == 43u8 {
            1
        } else {
            0
        };
        proof {
            if s@.len() > 0 && s@[0] == 43u8 {
                assert(s@.skip(1) == s@.skip(from as int));
            } else {
                assert(s@.skip(0) =~= s@);
            }
        }
        match parse_bounded_from(s, from, i64::MAX as u64) {
            Some(v) => Some(v as i64),
            None => None,
        }
    }
}

/// The canonical text of a signed value: a minus sign for negative values,
/// then the canonical digits of the magnitude.
pub open spec fn spec_print_int(n: int) -> Seq<u8> {
    if n >= 0 {
        spec_print_nat(n as nat)
    } else {
        seq![45u8] + spec_print_nat((-n) as nat)
    }
}

/// Append the canonical decimal text of `n` to `out`.
pub fn push_decimal_i64(n: i64, out: &mut Vec<u8>)
    ensures
        final(out)@ == old(out)@ + spec_print_int(n as int),
{
    if n >= 0 {
        push_decimal_u64(n as u64, out);
    } else {
        out.push(45u8);
        let mag = (-(n as i128)) as u64;
        assert(mag as nat == (-(n as int)) as nat);
        push_decimal_u64(mag, out);
        assert(out@ =~= old(out)@ + spec_print_int(n as int));
    }
}

/// Append the canonical decimal digits of `n` to `out`.
pub fn push_decimal_u32(n: u32, out: &mut Vec<u8>)
    ensures
        final(out)@ == old(out)@ + spec_print_nat(n as nat),
{
    push_decimal_u64(n as u64, out);
}

/// Canonical unsigned 32-bit text reads back as the value.
pub proof fn lemma_print_parse_u32(n: u32)
    ensures
        spec_parse_u32(spec_print_nat(n as nat)) == Some(n),
{
    lemma_print_nat(n as nat);
    let s = spec_print_nat(n as nat);
    assert(is_digit(s[0]));
    assert(s[0] != 43u8);
}

/// Canonical signed 64-bit text reads back as the value.
pub proof fn lemma_print_parse_i64(n: i64)
    ensures
        spec_parse_i64(spec_print_int(n as int)) == Some(n),
{
    let s = spec_print_int(n as int);
    if n >= 0 {
        lemma_print_nat(n as nat);
        assert(is_digit(s[0]));
        assert(s[0] != 45u8 && s[0] != 43u8);
    } else {
        let mag = (-(n as int)) as nat;
        lemma_print_nat(mag);
        assert(s[0] == 45u8);
        assert(s.skip(1) =~= spec_print_nat(mag));
        assert(mag <= 9223372036854775808u64);
    }
}

/// Canonical digits contain no byte outside the digit range; in particular
/// no delimiter of the frame or life-bar formats.
pub proof fn lemma_print_nat_no_byte(n: nat, b: u8)
    requires
        !is_digit(b),
    ensures
        !spec_print_nat(n).contains(b),
{
    lemma_print_nat(n);
    if spec_print_nat(n).contains(b) {
        let i = choose|i: int|
            0 <= i < spec_print_nat(n).len() && spec_print_nat(n)[i] == b;
        assert(is_digit(spec_print_nat(n)[i]));
    }
}

/// Canonical signed text contains no byte outside the digit range and the
/// minus sign.
pub proof fn lemma_print_int_no_byte(n: int, b: u8)
    requires
        !is_digit(b),
        b != 45u8,
    ensures
        !spec_print_int(n).contains(b),
{
    if n >= 0 {
        lemma_print_nat_no_byte(n as nat, b);
    } else {
        lemma_print_nat_no_byte((-n) as nat, b);
        let s = spec_print_int(n);
        if s.contains(b) {
            let i = choose|i: int| 0 <= i < s.len() && s[i] == b;
            assert(spec_print_nat((-n) as nat)[i - 1] == b);
            assert(spec_print_nat((-n) as nat).contains(b));
        }
    }
}

} // verus!
