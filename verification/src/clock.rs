//! Date and time stamps: the civil (UTC) date of a Unix time and its
//! `YYYY-MM-DD HH:MM` / `YYYYMMDD-HHMMSS` renderings.

use vstd::prelude::*;

verus! {

/// The civil date and time `(year, month, day, hour, minute, second)` of
/// `secs` seconds after 1970-01-01 00:00 UTC in the proleptic Gregorian
/// calendar (days counted in 400-year eras of 146097 days from 0000-03-01;
/// the year is clamped to `0..=65535`).
pub open spec fn civil_of(secs: int) -> (int, int, int, int, int, int) {
    let days = secs / 86400;
    let rem = secs % 86400;
    let z = days + 719468;
    let era = z / 146097;
    let doe = z - era * 146097;
    let yoe = (doe - doe / 1460 + doe / 36524 - doe / 146096) / 365;
    let y0 = yoe + era * 400;
    let doy = doe - (365 * yoe + yoe / 4 - yoe / 100);
    let mp = (5 * doy + 2) / 153;
    let d = doy - (153 * mp + 2) / 5 + 1;
    let m = if mp < 10 { mp + 3 } else { mp - 9 };
    let y = if m <= 2 { y0 + 1 } else { y0 };
    let yc = if y < 0 { 0 } else if y > 65535 { 65535 } else { y };
    (yc, m, d, rem / 3600, (rem % 3600) / 60, rem % 60)
}

/// Whether `y` is a leap year of the Gregorian calendar.
pub open spec fn is_leap(y: int) -> bool {
    y % 4 == 0 && (y % 100 != 0 || y % 400 == 0)
}

/// The number of days of month `m` (1..=12) of year `y`.
pub open spec fn month_len(y: int, m: int) -> int {
    if m == 2 {
        if is_leap(y) { 29 } else { 28 }
    } else if m == 4 || m == 6 || m == 9 || m == 11 {
        30
    } else {
        31
    }
}

/// Within a 400-year era, the year and the day of the (March-based) year
/// are in range.
proof fn lemma_doy_bounds(doe: int)
    requires
        0 <= doe < 146097,
    ensures
        ({
            let yoe = (doe - doe / 1460 + doe / 36524 - doe / 146096) / 365;
            let doy = doe - (365 * yoe + yoe / 4 - yoe / 100);
            0 <= yoe <= 399 && 0 <= doy <= 365
        }),
{
    assert(({
        let yoe = (doe - doe / 1460 + doe / 36524 - doe / 146096) / 365;
        let doy = doe - (365 * yoe + yoe / 4 - yoe / 100);
        0 <= yoe <= 399 && 0 <= doy <= 365
    })) by (nonlinear_arith)
        requires
            0 <= doe < 146097,
    ;
}

/// The last day of a March-based year falls in a leap year only.
proof fn lemma_leap_day(doe: int)
    requires
        0 <= doe < 146097,
        doe - (365 * ((doe - doe / 1460 + doe / 36524 - doe / 146096) / 365)
            + ((doe - doe / 1460 + doe / 36524 - doe / 146096) / 365) / 4
            - ((doe - doe / 1460 + doe / 36524 - doe / 146096) / 365) / 100) == 365,
    ensures
        ({
            let yoe = (doe - doe / 1460 + doe / 36524 - doe / 146096) / 365;
            (yoe + 1) % 4 == 0 && ((yoe + 1) % 100 != 0 || (yoe + 1) % 400 == 0)
        }),
{
    assert(({
        let yoe = (doe - doe / 1460 + doe / 36524 - doe / 146096) / 365;
        (yoe + 1) % 4 == 0 && ((yoe + 1) % 100 != 0 || (yoe + 1) % 400 == 0)
    })) by (nonlinear_arith)
        requires
            0 <= doe < 146097,
            doe - (365 * ((doe - doe / 1460 + doe / 36524 - doe / 146096) / 365)
                + ((doe - doe / 1460 + doe / 36524 - doe / 146096) / 365) / 4
                - ((doe - doe / 1460 + doe / 36524 - doe / 146096) / 365) / 100) == 365,
    ;
}

/// The fields of [`civil_of`] are a calendar date and a time of day: the
/// month is 1..=12, the day lies within the month (February 29 only in a
/// leap year, where the year is not clamped), the time fields are in range
/// and spell the seconds into the day.
pub proof fn law_civil_is_calendar(secs: int)
    ensures
        ({
            let (y, m, d, h, mi, s) = civil_of(secs);
            &&& 1 <= m <= 12
            &&& 1 <= d
            &&& m != 2 ==> d <= month_len(y, m)
            &&& m == 2 ==> d <= 29
            &&& m == 2 && 0 < y < 65535 ==> d <= month_len(y, m)
            &&& 0 <= h < 24 && 0 <= mi < 60 && 0 <= s < 60
            &&& h * 3600 + mi * 60 + s == secs % 86400
        }),
{
    let days = secs / 86400;
    let rem = secs % 86400;
    let z = days + 719468;
    let era = z / 146097;
    let doe = z - era * 146097;
    assert(0 <= doe < 146097) by (nonlinear_arith)
        requires
            era == z / 146097,
            doe == z - era * 146097,
    ;
    lemma_doy_bounds(doe);
    let yoe = (doe - doe / 1460 + doe / 36524 - doe / 146096) / 365;
    let doy = doe - (365 * yoe + yoe / 4 - yoe / 100);
    let mp = (5 * doy + 2) / 153;
    assert(0 <= mp <= 11);
    assert(153 * mp <= 5 * doy + 2 < 153 * mp + 153) by (nonlinear_arith)
        requires
            mp == (5 * doy + 2) / 153,
            0 <= doy,
    ;
    let y0 = yoe + era * 400;
    let mm = if mp < 10 { mp + 3 } else { mp - 9 };
    let y = if mm <= 2 { y0 + 1 } else { y0 };
    if mm == 2 && 0 < y < 65535 && doy - (153 * mp + 2) / 5 + 1 == 29 {
        assert(doy == 365);
        lemma_leap_day(doe);
        assert(is_leap(y)) by (nonlinear_arith)
            requires
                y == yoe + 1 + era * 400,
                (yoe + 1) % 4 == 0 && ((yoe + 1) % 100 != 0 || (yoe + 1) % 400 == 0),
        ;
    }
    assert(0 <= rem < 86400);
    assert(rem == (rem / 3600) * 3600 + (rem % 3600 / 60) * 60 + rem % 60) by (nonlinear_arith)
        requires
            0 <= rem,
    ;
    assert(rem / 3600 < 24) by (nonlinear_arith)
        requires
            0 <= rem < 86400,
    ;
}

/// Floor division by a positive divisor.
fn div_floor(a: i64, b: i64) -> (q: i64)
    requires
        b > 0,
    ensures
        q == a as int / b as int,
{
    if a >= 0 {
        a / b
    } else {
        let t: i64 = -(a + 1);
        let q0: i64 = t / b;
        assert(-(q0 as int) - 1 == a as int / b as int) by (nonlinear_arith)
            requires t == -(a + 1), a < 0, b > 0, q0 == t / b;
        -q0 - 1
    }
}

/// The civil fields of a Unix time (see [`civil_of`]).
pub fn civil_fields(secs: i64) -> (r: (u16, u16, u16, u16, u16, u16))
    ensures
        (r.0 as int, r.1 as int, r.2 as int, r.3 as int, r.4 as int, r.5 as int) == civil_of(secs as int),
{
    let days: i64 = div_floor(secs, 86400);
    assert(0 <= secs - days * 86400 < 86400 && secs - days * 86400 == secs as int % 86400) by (nonlinear_arith)
        requires days == secs as int / 86400;
    let rem128: i128 = (secs as i128) - (days as i128) * 86400;
    let rem: i64 = rem128 as i64;
    let z: i64 = days + 719468;
    let era: i64 = div_floor(z, 146097);
    assert(era == z as int / 146097);
    assert(0 <= z - era * 146097 < 146097) by (nonlinear_arith)
        requires era == z as int / 146097;
    let doe: i64 = z - era * 146097;
    let yoe: i64 = (doe - doe / 1460 + doe / 36524 - doe / 146096) / 365;
    assert(0 <= yoe <= 400) by (nonlinear_arith)
        requires 0 <= doe < 146097, yoe == (doe - doe / 1460 + doe / 36524 - doe / 146096) / 365;
    let y0: i64 = yoe + era * 400;
    let doy: i64 = doe - (365 * yoe + yoe / 4 - yoe / 100);
    assert(0 <= doy <= 366) by (nonlinear_arith)
        requires 0 <= doe < 146097, 0 <= yoe <= 400, yoe == (doe - doe / 1460 + doe / 36524 - doe / 146096) / 365,
            doy == doe - (365 * yoe + yoe / 4 - yoe / 100);
    let mp: i64 = (5 * doy + 2) / 153;
    let d: i64 = doy - (153 * mp + 2) / 5 + 1;
    let m: i64 = if mp < 10 { mp + 3 } else { mp - 9 };
    let y: i64 = if m <= 2 { y0 + 1 } else { y0 };
    let yc: i64 = if y < 0 { 0 } else if y > 65535 { 65535 } else { y };
    assert(1 <= d <= 31 && 1 <= m <= 12) by (nonlinear_arith)
        requires 0 <= doy <= 366, mp == (5 * doy + 2) / 153, d == doy - (153 * mp + 2) / 5 + 1,
            m == if mp < 10 { mp + 3 } else { mp - 9 };
    (yc as u16, m as u16, d as u16, (rem / 3600) as u16, ((rem % 3600) / 60) as u16, (rem % 60) as u16)
}

/// The character of decimal digit `d`.
pub open spec fn digit_char(d: nat) -> char {
    (48 + d) as char
}

/// The decimal digits of `n`.
pub open spec fn dec_digits(n: nat) -> Seq<char>
    decreases n,
{
    if n < 10 { seq![digit_char(n)] } else { dec_digits(n / 10).push(digit_char(n % 10)) }
}

/// `n` in decimal, zero-padded to at least `w` digits.
pub open spec fn dec_pad(n: nat, w: nat) -> Seq<char> {
    let ds = dec_digits(n);
    if ds.len() < w { Seq::new((w - ds.len()) as nat, |_i: int| '0') + ds } else { ds }
}

/// `10` to the power `k`.
pub open spec fn p10(k: nat) -> nat
    decreases k,
{
    if k == 0 { 1 } else { 10 * p10((k - 1) as nat) }
}

/// `c` is an ASCII decimal digit.
pub open spec fn is_dec_digit(c: char) -> bool {
    '0' <= c <= '9'
}

/// The decimal digits of a number below `10^k` are at most `k` digits.
proof fn lemma_dec_digits(n: nat, k: nat)
    requires
        k >= 1,
        n < p10(k),
    ensures
        1 <= dec_digits(n).len() <= k,
        forall|i: int| 0 <= i < dec_digits(n).len() ==> is_dec_digit(#[trigger] dec_digits(n)[i]),
    decreases k,
{
    if n >= 10 {
        assert(k >= 2) by {
            if k == 1 {
                assert(p10(1) == 10) by {
                    assert(p10(0) == 1);
                }
            }
        }
        assert(n / 10 < p10((k - 1) as nat)) by (nonlinear_arith)
            requires
                n < p10(k),
                p10(k) == 10 * p10((k - 1) as nat),
        ;
        lemma_dec_digits(n / 10, (k - 1) as nat);
        let d = dec_digits(n / 10);
        assert forall|i: int| 0 <= i < dec_digits(n).len() implies is_dec_digit(#[trigger] dec_digits(n)[i]) by {
            if i < d.len() {
                assert(dec_digits(n)[i] == d[i]);
            } else {
                assert(dec_digits(n)[i] == digit_char(n % 10));
            }
        }
    }
}

/// A padded number below `10^w` has exactly `w` digits.
proof fn lemma_dec_pad(n: nat, w: nat)
    requires
        w >= 1,
        n < p10(w),
    ensures
        dec_pad(n, w).len() == w,
        forall|i: int| 0 <= i < w ==> is_dec_digit(#[trigger] dec_pad(n, w)[i]),
{
    lemma_dec_digits(n, w);
    let ds = dec_digits(n);
    if ds.len() < w {
        let z = Seq::new((w - ds.len()) as nat, |_i: int| '0');
        assert forall|i: int| 0 <= i < w implies is_dec_digit(#[trigger] dec_pad(n, w)[i]) by {
            if i < z.len() {
                assert(dec_pad(n, w)[i] == '0');
            } else {
                assert(dec_pad(n, w)[i] == ds[i - z.len()]);
            }
        }
    }
}

/// The time stamp of a date with a year below 10000 is 16 characters:
/// digits, with `-`, `-`, a space and `:` at places 4, 7, 10 and 13; the
/// compact stamp is 15 characters, digits with `-` at place 8.
pub proof fn law_stamp_shape(f: (int, int, int, int, int, int))
    requires
        0 <= f.0 <= 9999,
        0 <= f.1 <= 99,
        0 <= f.2 <= 99,
        0 <= f.3 <= 99,
        0 <= f.4 <= 99,
        0 <= f.5 <= 99,
    ensures
        stamp_text(f).len() == 16,
        stamp_text(f)[4] == '-' && stamp_text(f)[7] == '-' && stamp_text(f)[10] == ' ' && stamp_text(f)[13] == ':',
        forall|i: int| 0 <= i < 16 && i != 4 && i != 7 && i != 10 && i != 13 ==> is_dec_digit(#[trigger] stamp_text(f)[i]),
        compact_stamp_text(f).len() == 15,
        compact_stamp_text(f)[8] == '-',
        forall|i: int| 0 <= i < 15 && i != 8 ==> is_dec_digit(#[trigger] compact_stamp_text(f)[i]),
{
    assert(p10(2) == 100) by {
        assert(p10(0) == 1);
        assert(p10(1) == 10);
    }
    assert(p10(4) == 10000) by {
        assert(p10(0) == 1);
        assert(p10(1) == 10);
        assert(p10(2) == 100);
        assert(p10(3) == 1000);
    }
    lemma_dec_pad(f.0 as nat, 4);
    lemma_dec_pad(f.1 as nat, 2);
    lemma_dec_pad(f.2 as nat, 2);
    lemma_dec_pad(f.3 as nat, 2);
    lemma_dec_pad(f.4 as nat, 2);
    lemma_dec_pad(f.5 as nat, 2);
    let y = dec_pad(f.0 as nat, 4);
    let mo = dec_pad(f.1 as nat, 2);
    let d = dec_pad(f.2 as nat, 2);
    let h = dec_pad(f.3 as nat, 2);
    let mi = dec_pad(f.4 as nat, 2);
    let sc = dec_pad(f.5 as nat, 2);
    let t = stamp_text(f);
    assert(t =~= seq![y[0], y[1], y[2], y[3], '-', mo[0], mo[1], '-', d[0], d[1], ' ', h[0], h[1], ':', mi[0], mi[1]]);
    let c = compact_stamp_text(f);
    assert(c =~= seq![y[0], y[1], y[2], y[3], mo[0], mo[1], d[0], d[1], '-', h[0], h[1], mi[0], mi[1], sc[0], sc[1]]);
    assert(is_dec_digit(y[0]) && is_dec_digit(y[1]) && is_dec_digit(y[2]) && is_dec_digit(y[3]));
    assert(is_dec_digit(mo[0]) && is_dec_digit(mo[1]) && is_dec_digit(d[0]) && is_dec_digit(d[1]));
    assert(is_dec_digit(h[0]) && is_dec_digit(h[1]) && is_dec_digit(mi[0]) && is_dec_digit(mi[1]));
    assert(is_dec_digit(sc[0]) && is_dec_digit(sc[1]));
}

/// `YYYY-MM-DD HH:MM`.
pub open spec fn stamp_text(f: (int, int, int, int, int, int)) -> Seq<char> {
    dec_pad(f.0 as nat, 4) + seq!['-'] + dec_pad(f.1 as nat, 2) + seq!['-'] + dec_pad(f.2 as nat, 2) + seq![' ']
        + dec_pad(f.3 as nat, 2) + seq![':'] + dec_pad(f.4 as nat, 2)
}

/// `YYYYMMDD-HHMMSS`.
pub open spec fn compact_stamp_text(f: (int, int, int, int, int, int)) -> Seq<char> {
    dec_pad(f.0 as nat, 4) + dec_pad(f.1 as nat, 2) + dec_pad(f.2 as nat, 2) + seq!['-']
        + dec_pad(f.3 as nat, 2) + dec_pad(f.4 as nat, 2) + dec_pad(f.5 as nat, 2)
}

/// The fields as integers.
pub open spec fn fields_int(f: (u16, u16, u16, u16, u16, u16)) -> (int, int, int, int, int, int) {
    (f.0 as int, f.1 as int, f.2 as int, f.3 as int, f.4 as int, f.5 as int)
}

/// The decimal digits of `n`.
fn dec_chars(n: u16) -> (r: Vec<char>)
    ensures
        r@ == dec_digits(n as nat),
    decreases n,
{
    if n < 10 {
        let mut v: Vec<char> = Vec::new();
        v.push(((n as u8) + 48u8) as char);
        assert(v@ =~= seq![digit_char(n as nat)]);
        v
    } else {
        let mut v = dec_chars(n / 10);
        v.push((((n % 10) as u8) + 48u8) as char);
        v
    }
}

/// Appends `n` in decimal, zero-padded to at least `w` digits.
fn push_dec(out: &mut Vec<char>, n: u16, w: usize)
    ensures
        final(out)@ == old(out)@ + dec_pad(n as nat, w as nat),
{
    let ds = dec_chars(n);
    let ghost start = out@;
    if ds.len() < w {
        let mut k: usize = 0;
        let pad = w - ds.len();
        while k < pad
            invariant
                k <= pad,
                out@ == start + Seq::new(k as nat, |_i: int| '0'),
            decreases pad - k,
        {
            out.push('0');
            k = k + 1;
            proof {
                assert(out@ =~= start + Seq::new(k as nat, |_i: int| '0'));
            }
        }
    }
    let ghost mid = out@;
    crate::document::append_chars(out, ds.as_slice());
    proof {
        assert(final(out)@ =~= old(out)@ + dec_pad(n as nat, w as nat));
    }
}

/// A zero-padded number has as many digits as it needs, at least `w`.
proof fn lemma_dec_len(n: nat)
    ensures
        n < 10 ==> dec_digits(n).len() == 1,
        n < 100 ==> dec_digits(n).len() <= 2,
        n < 1000 ==> dec_digits(n).len() <= 3,
        n < 10000 ==> dec_digits(n).len() <= 4,
        n < 100000 ==> dec_digits(n).len() <= 5,
    decreases n,
{
    if n >= 10 {
        lemma_dec_len(n / 10);
    }
}

/// A stamp of 16-bit fields is short.
pub proof fn lemma_stamp_len(f: (int, int, int, int, int, int))
    requires
        0 <= f.0 < 65536 && 0 <= f.1 < 65536 && 0 <= f.2 < 65536 && 0 <= f.3 < 65536 && 0 <= f.4 < 65536,
    ensures
        stamp_text(f).len() <= 40,
{
    lemma_dec_len(f.0 as nat);
    lemma_dec_len(f.1 as nat);
    lemma_dec_len(f.2 as nat);
    lemma_dec_len(f.3 as nat);
    lemma_dec_len(f.4 as nat);
}

/// `YYYY-MM-DD HH:MM` for the given fields.
pub fn stamp_from_fields(f: (u16, u16, u16, u16, u16, u16)) -> (r: String)
    ensures
        r@ == stamp_text(fields_int(f)),
{
    let mut v: Vec<char> = Vec::new();
    push_dec(&mut v, f.0, 4);
    v.push('-');
    push_dec(&mut v, f.1, 2);
    v.push('-');
    push_dec(&mut v, f.2, 2);
    v.push(' ');
    push_dec(&mut v, f.3, 2);
    v.push(':');
    push_dec(&mut v, f.4, 2);
    assert(v@ =~= stamp_text(fields_int(f)));
    crate::strs::string_of(v.as_slice())
}

/// `YYYYMMDD-HHMMSS` for the given fields.
pub fn compact_stamp_from_fields(f: (u16, u16, u16, u16, u16, u16)) -> (r: String)
    ensures
        r@ == compact_stamp_text(fields_int(f)),
{
    let mut v: Vec<char> = Vec::new();
    push_dec(&mut v, f.0, 4);
    push_dec(&mut v, f.1, 2);
    push_dec(&mut v, f.2, 2);
    v.push('-');
    push_dec(&mut v, f.3, 2);
    push_dec(&mut v, f.4, 2);
    push_dec(&mut v, f.5, 2);
    assert(v@ =~= compact_stamp_text(fields_int(f)));
    crate::strs::string_of(v.as_slice())
}

/// `SystemTime::elapsed` on the Unix epoch: the current time as whole
/// seconds after the epoch; none for a clock set before it. Nothing is
/// promised of the value (it is the time).
#[verifier::external_body]
fn unix_time_secs() -> Option<u64> {
    match std::time::UNIX_EPOCH.elapsed() {
        Ok(d) => Some(d.as_secs()),
        Err(_) => None,
    }
}

/// The Unix time a clock reading stands for: the seconds read (as an
/// `i64`), or the epoch for a clock set before it.
pub open spec fn clock_secs(t: Option<u64>) -> int {
    match t {
        Some(s) => (s as i64) as int,
        None => 0,
    }
}

/// The civil fields of a clock reading (see [`clock_secs`] and
/// [`civil_of`]).
pub fn civil_fields_of_clock(t: Option<u64>) -> (r: (u16, u16, u16, u16, u16, u16))
    ensures
        fields_int(r) == civil_of(clock_secs(t)),
{
    let secs: i64 = match t {
        Some(s) => s as i64,
        None => 0,
    };
    civil_fields(secs)
}

/// The current date and time (UTC) as civil fields; a clock before the
/// epoch counts as the epoch.
pub fn now_local_fields() -> (r: (u16, u16, u16, u16, u16, u16))
    ensures
        exists|t: Option<u64>| fields_int(r) == #[trigger] civil_of(clock_secs(t)),
{
    let t = unix_time_secs();
    let r = civil_fields_of_clock(t);
    assert(fields_int(r) == civil_of(clock_secs(t)));
    r
}

/// The current date and time as `YYYY-MM-DD HH:MM`.
pub fn local_datetime_stamp() -> (r: String)
    ensures
        exists|t: Option<u64>| r@ == #[trigger] stamp_text(civil_of(clock_secs(t))),
{
    let f = now_local_fields();
    stamp_from_fields(f)
}

/// The current date and time as `YYYYMMDD-HHMMSS`.
pub fn local_datetime_stamp_compact() -> (r: String)
    ensures
        exists|t: Option<u64>| r@ == #[trigger] compact_stamp_text(civil_of(clock_secs(t))),
{
    let f = now_local_fields();
    compact_stamp_from_fields(f)
}

} // verus!
