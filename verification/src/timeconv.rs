//! The timestamp of a replay: 100-nanosecond ticks since a calendar epoch
//! that precedes the Unix epoch by 62,135,596,800 seconds.
//!
//! The conversion between ticks and Unix seconds is plain arithmetic and
//! proved here; the conversion between Unix seconds and calendar fields
//! (year, month, day, hour, minute, second) is chrono's and is taken on
//! trust behind two wrappers.

use vstd::prelude::*;

use chrono::Datelike;
use chrono::Timelike;

use crate::numtext::is_digit;
use crate::numtext::lemma_print_nat;
use crate::numtext::push_decimal_u64;
use crate::numtext::spec_print_nat;

verus! {

/// Ticks are 100-nanosecond units: ten million per second.
pub const TICKS_PER_SECOND: u64 = 10_000_000;

/// Seconds between the tick epoch and the Unix epoch.
pub const EPOCH_OFFSET_SECONDS: i64 = 62_135_596_800;

/// The latest Unix second whose tick count still fits 64 bits.
pub const MAX_TICK_SECONDS: i64 = 1_782_538_810_570;

/// The Unix seconds a tick count stands for, sub-second part dropped.
pub open spec fn spec_ticks_to_secs(ticks: u64) -> int {
    ticks as int / 10_000_000 - 62_135_596_800
}

/// Whether a Unix second count can be carried as 64-bit ticks.
pub open spec fn spec_secs_in_tick_range(secs: int) -> bool {
    -62_135_596_800 <= secs <= 1_782_538_810_570
}

/// The tick count of a Unix second count.
pub open spec fn spec_secs_to_ticks(secs: int) -> int
    recommends
        spec_secs_in_tick_range(secs),
{
    (secs + 62_135_596_800) * 10_000_000
}

/// The Unix seconds a tick count stands for.
pub fn ticks_to_unix_seconds(ticks: u64) -> (r: i64)
    ensures
        r == spec_ticks_to_secs(ticks),
        spec_secs_in_tick_range(r as int),
{
    let whole = ticks / TICKS_PER_SECOND;
    assert(whole <= 1_844_674_407_370);
    (whole as i64) - EPOCH_OFFSET_SECONDS
}

/// The tick count of a Unix second count, when it fits 64 bits.
pub fn unix_seconds_to_ticks(secs: i64) -> (r: Option<u64>)
    ensures
        r == if spec_secs_in_tick_range(secs as int) {
            Some(spec_secs_to_ticks(secs as int) as u64)
        } else {
            None::<u64>
        },
{
    if secs < -EPOCH_OFFSET_SECONDS || secs > MAX_TICK_SECONDS {
        None
    } else {
        let base = (secs + EPOCH_OFFSET_SECONDS) as u64;
        assert(base * TICKS_PER_SECOND <= 18_446_744_073_700_000_000) by (nonlinear_arith)
            requires
                base <= 1_844_674_407_370,
                TICKS_PER_SECOND == 10_000_000,
        ;
        Some(base * TICKS_PER_SECOND)
    }
}

/// Converting a timestamp at second granularity to ticks and back yields
/// the same timestamp, for every second that ticks can carry.
pub proof fn lemma_tick_conversion_round_trip(secs: int)
    requires
        spec_secs_in_tick_range(secs),
    ensures
        0 <= spec_secs_to_ticks(secs) <= u64::MAX,
        spec_ticks_to_secs(spec_secs_to_ticks(secs) as u64) == secs,
{
    let base = secs + 62_135_596_800;
    assert(0 <= base * 10_000_000 <= 18_446_744_073_700_000_000) by (nonlinear_arith)
        requires
            0 <= base <= 1_844_674_407_370,
    ;
    assert((base * 10_000_000) / 10_000_000 == base) by (nonlinear_arith);
}

/// A calendar timestamp at second granularity, as chrono reads it from
/// the Unix seconds: civil date and time of day, proleptic Gregorian.
#[derive(Clone, Copy, Debug, PartialEq, Eq, Structural)]
pub struct DateTime {
    pub year: i32,
    /// One through twelve.
    pub month: u8,
    /// One through the month's length.
    pub day: u8,
    pub hour: u8,
    pub minute: u8,
    pub second: u8,
}

/// The calendar fields of a Unix second count, if it is in chrono's
/// representable range; a name for what chrono computes.
pub uninterp spec fn civil_of_unix(secs: int) -> Option<(int, int, int, int, int, int)>;

/// The Unix second count of calendar fields, if they name a real calendar
/// time in chrono's range; a name for what chrono computes.
pub uninterp spec fn unix_of_civil(
    year: int,
    month: int,
    day: int,
    hour: int,
    minute: int,
    second: int,
) -> Option<int>;

/// Relies on chrono's `DateTime::<Utc>::from_timestamp`: the civil fields
/// of a second count depend on that count alone, `None` comes exactly on
/// out-of-range counts, and `timestamp` maps the fields back (the
/// documented round trip).
#[verifier::external_body]
fn civil_from_unix(secs: i64) -> (r: Option<DateTime>)
    ensures
        match r {
            Some(dt) => civil_of_unix(secs as int) == Some(
                (
                    dt.year as int,
                    dt.month as int,
                    dt.day as int,
                    dt.hour as int,
                    dt.minute as int,
                    dt.second as int,
                ),
            ) && unix_of_civil(
                dt.year as int,
                dt.month as int,
                dt.day as int,
                dt.hour as int,
                dt.minute as int,
                dt.second as int,
            ) == Some(secs as int),
            None => civil_of_unix(secs as int) == None::<(int, int, int, int, int, int)>,
        },
{
    match chrono::DateTime::<chrono::Utc>::from_timestamp(secs, 0) {
        Some(d) => Some(
            DateTime {
                year: d.year(),
                month: d.month() as u8,
                day: d.day() as u8,
                hour: d.hour() as u8,
                minute: d.minute() as u8,
                second: d.second() as u8,
            },
        ),
        None => None,
    }
}

/// Relies on chrono's `NaiveDate::from_ymd_opt`, `and_hms_opt` and
/// `timestamp`: the second count of civil fields depends on the fields
/// alone, `None` comes exactly on fields that name no calendar time, and
/// `from_timestamp` maps the count back to the fields (the documented
/// round trip).
#[verifier::external_body]
fn unix_from_civil(dt: &DateTime) -> (r: Option<i64>)
    ensures
        match r {
            Some(t) => unix_of_civil(
                dt.year as int,
                dt.month as int,
                dt.day as int,
                dt.hour as int,
                dt.minute as int,
                dt.second as int,
            ) == Some(t as int) && civil_of_unix(t as int) == Some(
                (
                    dt.year as int,
                    dt.month as int,
                    dt.day as int,
                    dt.hour as int,
                    dt.minute as int,
                    dt.second as int,
                ),
            ),
            None => unix_of_civil(
                dt.year as int,
                dt.month as int,
                dt.day as int,
                dt.hour as int,
                dt.minute as int,
                dt.second as int,
            ) == None::<int>,
        },
{
    let date = match chrono::NaiveDate::from_ymd_opt(dt.year, dt.month as u32, dt.day as u32) {
        Some(d) => d,
        None => return None,
    };
    let time = match date.and_hms_opt(dt.hour as u32, dt.minute as u32, dt.second as u32) {
        Some(t) => t,
        None => return None,
    };
    Some(time.and_utc().timestamp())
}

/// The calendar timestamp a tick count stands for.  The fields returned
/// map back to the tick count's epoch second, so converting them to ticks
/// again recovers the count rounded to its second.
pub fn ticks_to_datetime(ticks: u64) -> (r: Option<DateTime>)
    ensures
        match r {
            Some(dt) => civil_of_unix(spec_ticks_to_secs(ticks)) == Some(
                (
                    dt.year as int,
                    dt.month as int,
                    dt.day as int,
                    dt.hour as int,
                    dt.minute as int,
                    dt.second as int,
                ),
            ) && unix_of_civil(
                dt.year as int,
                dt.month as int,
                dt.day as int,
                dt.hour as int,
                dt.minute as int,
                dt.second as int,
            ) == Some(spec_ticks_to_secs(ticks)),
            None => civil_of_unix(spec_ticks_to_secs(ticks)) == None::<
                (int, int, int, int, int, int),
            >,
        },
{
    civil_from_unix(ticks_to_unix_seconds(ticks))
}

/// Converting a calendar timestamp at second granularity to ticks and
/// back yields the same timestamp: for fields that chrono maps to an
/// epoch second in the tick range and back — which is what being a
/// calendar timestamp at second granularity means — the tick count they
/// convert to stands for exactly those fields again.
pub proof fn lemma_calendar_tick_round_trip(
    year: int,
    month: int,
    day: int,
    hour: int,
    minute: int,
    second: int,
    u: int,
)
    requires
        unix_of_civil(year, month, day, hour, minute, second) == Some(u),
        civil_of_unix(u) == Some((year, month, day, hour, minute, second)),
        spec_secs_in_tick_range(u),
    ensures
        civil_of_unix(spec_ticks_to_secs(spec_secs_to_ticks(u) as u64)) == Some(
            (year, month, day, hour, minute, second),
        ),
{
    lemma_tick_conversion_round_trip(u);
}

/// The tick count of a calendar timestamp, when the fields name a real
/// calendar time whose tick count fits 64 bits.  The count returned
/// stands for exactly the given fields: converting it back to a calendar
/// timestamp recovers them, which is the round trip at second
/// granularity.
pub fn datetime_to_ticks(dt: &DateTime) -> (r: Option<u64>)
    ensures
        match unix_of_civil(
            dt.year as int,
            dt.month as int,
            dt.day as int,
            dt.hour as int,
            dt.minute as int,
            dt.second as int,
        ) {
            Some(u) => r == if spec_secs_in_tick_range(u) {
                Some(spec_secs_to_ticks(u) as u64)
            } else {
                None::<u64>
            },
            None => r is None,
        },
        match r {
            Some(t) => civil_of_unix(spec_ticks_to_secs(t)) == Some(
                (
                    dt.year as int,
                    dt.month as int,
                    dt.day as int,
                    dt.hour as int,
                    dt.minute as int,
                    dt.second as int,
                ),
            ),
            None => true,
        },
{
    match unix_from_civil(dt) {
        Some(u) => {
            let r = unix_seconds_to_ticks(u);
            proof {
                if spec_secs_in_tick_range(u as int) {
                    lemma_calendar_tick_round_trip(
                        dt.year as int,
                        dt.month as int,
                        dt.day as int,
                        dt.hour as int,
                        dt.minute as int,
                        dt.second as int,
                        u as int,
                    );
                }
            }
            r
        },
        None => None,
    }
}

/// `s` left-padded with zero digits to at least `w` bytes.
pub open spec fn spec_pad(s: Seq<u8>, w: nat) -> Seq<u8> {
    Seq::new(
        if s.len() >= w {
            0
        } else {
            (w - s.len()) as nat
        },
        |i: int| 48u8,
    ) + s
}

/// The text of `%Y-%m-%d %H:%M:%S`: the year zero-padded to four digits
/// (sign first when negative), the other fields to two.
pub open spec fn spec_format_datetime(dt: DateTime) -> Seq<u8> {
    let y: Seq<u8> = if dt.year >= 0 {
        spec_pad(spec_print_nat(dt.year as nat), 4)
    } else {
        seq![45u8] + spec_pad(spec_print_nat((-(dt.year as int)) as nat), 4)
    };
    y + seq![45u8] + spec_pad(spec_print_nat(dt.month as nat), 2) + seq![45u8] + spec_pad(
        spec_print_nat(dt.day as nat),
        2,
    ) + seq![32u8] + spec_pad(spec_print_nat(dt.hour as nat), 2) + seq![58u8] + spec_pad(
        spec_print_nat(dt.minute as nat),
        2,
    ) + seq![58u8] + spec_pad(spec_print_nat(dt.second as nat), 2)
}

/// Append the digits of `n`, zero-padded to at least `w` bytes.
fn push_padded(n: u64, w: usize, out: &mut Vec<u8>)
    ensures
        final(out)@ == old(out)@ + spec_pad(spec_print_nat(n as nat), w as nat),
{
    let mut digits: Vec<u8> = Vec::new();
    push_decimal_u64(n, &mut digits);
    let ghost pre = out@;
    let pad: usize = if digits.len() >= w {
        0
    } else {
        w - digits.len()
    };
    let mut z: usize = 0;
    while z < pad
        invariant
            z <= pad,
            out@ =~= pre + Seq::new(z as nat, |i: int| 48u8),
        decreases pad - z,
    {
        out.push(48u8);
        assert(out@ =~= pre + Seq::new((z + 1) as nat, |i: int| 48u8));
        z = z + 1;
    }
    let mut q: usize = 0;
    while q < digits.len()
        invariant
            q <= digits@.len(),
            out@ =~= pre + Seq::new(pad as nat, |i: int| 48u8) + digits@.take(q as int),
        decreases digits@.len() - q,
    {
        out.push(digits[q]);
        assert(out@ =~= pre + Seq::new(pad as nat, |i: int| 48u8) + digits@.take(q + 1));
        q = q + 1;
    }
    proof {
        assert(digits@.take(digits@.len() as int) =~= digits@);
        assert(out@ =~= pre + spec_pad(spec_print_nat(n as nat), w as nat));
    }
}

impl DateTime {
    /// The timestamp as `%Y-%m-%d %H:%M:%S` text.
    pub fn format_ymd_hms(&self) -> (r: String)
        ensures
            vstd::utf8::encode_utf8(r@) == spec_format_datetime(*self),
    {
        let mut out: Vec<u8> = Vec::new();
        if self.year >= 0 {
            push_padded(self.year as u64, 4, &mut out);
        } else {
            out.push(45u8);
            let mag = (-(self.year as i64)) as u64;
            assert(mag as nat == (-(self.year as int)) as nat);
            push_padded(mag, 4, &mut out);
        }
        out.push(45u8);
        push_padded(self.month as u64, 2, &mut out);
        out.push(45u8);
        push_padded(self.day as u64, 2, &mut out);
        out.push(32u8);
        push_padded(self.hour as u64, 2, &mut out);
        out.push(58u8);
        push_padded(self.minute as u64, 2, &mut out);
        out.push(58u8);
        push_padded(self.second as u64, 2, &mut out);
        assert(out@ =~= spec_format_datetime(*self));
        let ghost bv = out@;
        proof {
            lemma_format_datetime_ascii(*self);
            crate::reader::lemma_ascii_bytes_utf8(bv);
        }
        match crate::reader::string_from_utf8(out) {
            Ok(s) => {
                proof {
                    vstd::utf8::decode_utf8_encode_utf8(bv);
                }
                s
            },
            Err(_) => vstd::pervasive::unreached(),
        }
    }
}

/// Zero-padded digits stay digits.
proof fn lemma_pad_digits(n: nat, w: nat)
    ensures
        forall|i: int|
            0 <= i < spec_pad(spec_print_nat(n), w).len() ==> is_digit(
                #[trigger] spec_pad(spec_print_nat(n), w)[i],
            ),
{
    lemma_print_nat(n);
    let s = spec_pad(spec_print_nat(n), w);
    let z = if spec_print_nat(n).len() >= w {
        0
    } else {
        (w - spec_print_nat(n).len()) as nat
    };
    assert forall|i: int| 0 <= i < s.len() implies is_digit(#[trigger] s[i]) by {
        if i >= z {
            assert(s[i] == spec_print_nat(n)[i - z]);
        }
    }
}

/// The formatted timestamp stays within the ASCII range.
proof fn lemma_format_datetime_ascii(dt: DateTime)
    ensures
        forall|i: int|
            0 <= i < spec_format_datetime(dt).len() ==> (#[trigger] spec_format_datetime(dt)[i])
                < 128,
{
    let ymag: nat = if dt.year >= 0 {
        dt.year as nat
    } else {
        (-(dt.year as int)) as nat
    };
    lemma_pad_digits(ymag, 4);
    lemma_pad_digits(dt.month as nat, 2);
    lemma_pad_digits(dt.day as nat, 2);
    lemma_pad_digits(dt.hour as nat, 2);
    lemma_pad_digits(dt.minute as nat, 2);
    lemma_pad_digits(dt.second as nat, 2);
    let y: Seq<u8> = if dt.year >= 0 {
        spec_pad(spec_print_nat(dt.year as nat), 4)
    } else {
        seq![45u8] + spec_pad(spec_print_nat((-(dt.year as int)) as nat), 4)
    };
    let mo = spec_pad(spec_print_nat(dt.month as nat), 2);
    let da = spec_pad(spec_print_nat(dt.day as nat), 2);
    let ho = spec_pad(spec_print_nat(dt.hour as nat), 2);
    let mi = spec_pad(spec_print_nat(dt.minute as nat), 2);
    let se = spec_pad(spec_print_nat(dt.second as nat), 2);
    let s = spec_format_datetime(dt);
    assert forall|i: int| 0 <= i < s.len() implies (#[trigger] s[i]) < 128 by {
        let a = y.len() as int;
        let b = a + 1 + mo.len();
        let c = b + 1 + da.len();
        let d = c + 1 + ho.len();
        let e = d + 1 + mi.len();
        if i < a {
            if dt.year >= 0 {
                assert(s[i] == spec_pad(spec_print_nat(dt.year as nat), 4)[i]);
            } else {
                assert(s[i] == y[i]);
                if i > 0 {
                    assert(y[i] == spec_pad(spec_print_nat((-(dt.year as int)) as nat), 4)[i - 1]);
                }
            }
        } else if i == a {
            assert(s[i] == 45u8);
        } else if i < b {
            assert(s[i] == mo[i - a - 1]);
        } else if i == b {
            assert(s[i] == 45u8);
        } else if i < c {
            assert(s[i] == da[i - b - 1]);
        } else if i == c {
            assert(s[i] == 32u8);
        } else if i < d {
            assert(s[i] == ho[i - c - 1]);
        } else if i == d {
            assert(s[i] == 58u8);
        } else if i < e {
            assert(s[i] == mi[i - d - 1]);
        } else if i == e {
            assert(s[i] == 58u8);
        } else {
            assert(s[i] == se[i - e - 1]);
        }
    }
}

} // verus!
