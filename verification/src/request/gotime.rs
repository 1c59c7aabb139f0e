//! Go's `time.Parse(time.RFC3339Nano, …)`, with the error text grpc-gateway
//! puts in its responses, and the protojson readers `runtime.Timestamp` and
//! `runtime.Duration` go through.
use vstd::prelude::*;
use vstd::string::StringSliceAdditionalSpecFns;
use crate::bytes::{copy_bytes, is_digit, push_all};
use crate::request::strconv::{decode_rune, hex_char, lemma_decode_width, spec_decode_rune};
use crate::service::metadata::{all_digits, decimal_value, parse_i64, spec_parse_i64};
use crate::request::strconv::{quote, spec_quote};
use crate::request::form::{encode_rune, push_rune};
use crate::bytes::{hex_value, is_hex_digit, ascii_hex_digit, hex_digit_value};

verus! {

/// Seconds since the Unix epoch and nanoseconds, as `t.Unix()` and
/// `t.Nanosecond()` give them.
#[derive(Debug, Clone, Copy, PartialEq, Eq, Structural)]
pub struct Instant {
    pub seconds: i64,
    pub nanos: i32,
}

/// `\xNN` for each byte.
pub open spec fn hex_bytes(s: Seq<u8>) -> Seq<u8>
    decreases s.len(),
{
    if s.len() == 0 {
        Seq::empty()
    } else {
        hex_bytes(s.drop_last()) + seq![92u8, 120u8, hex_char(s.last() as int / 16), hex_char(s.last() as int % 16)]
    }
}

/// What `time`'s own `quote` writes between the quotes: printable ASCII
/// as it is (`"` and `\` escaped), every byte of anything else as `\xNN`.
pub open spec fn time_quote_body(s: Seq<u8>) -> Seq<u8>
    decreases s.len(),
{
    if s.len() == 0 {
        Seq::empty()
    } else {
        let (r, w) = spec_decode_rune(s);
        proof {
            lemma_decode_width(s);
        }
        let piece = if 0x20 <= r < 0x80 {
            if r == 34 || r == 92 {
                seq![92u8, r as u8]
            } else {
                seq![r as u8]
            }
        } else {
            let n: int = if r == 0xfffd && 2 < s.len() {
                3
            } else if r == 0xfffd || r < 0 {
                1
            } else {
                w
            };
            hex_bytes(s.subrange(0, n))
        };
        piece + time_quote_body(s.subrange(w, s.len() as int))
    }
}

/// `time`'s `quote`.
pub open spec fn time_quote(s: Seq<u8>) -> Seq<u8> {
    seq![34u8] + time_quote_body(s) + seq![34u8]
}

fn push_hex_bytes(out: &mut Vec<u8>, s: &[u8])
    ensures
        final(out)@ == old(out)@ + hex_bytes(s@),
{
    let ghost o = out@;
    let mut i: usize = 0;
    while i < s.len()
        invariant
            i <= s@.len(),
            out@ == o + hex_bytes(s@.subrange(0, i as int)),
        decreases s@.len() - i,
    {
        let b = s[i];
        out.push(92);
        out.push(120);
        let hi = b / 16;
        let lo = b % 16;
        out.push(if hi < 10 { 48 + hi } else { 87 + hi });
        out.push(if lo < 10 { 48 + lo } else { 87 + lo });
        assert(s@.subrange(0, i + 1).drop_last() =~= s@.subrange(0, i as int));
        i = i + 1;
        assert(out@ =~= o + hex_bytes(s@.subrange(0, i as int)));
    }
    assert(s@.subrange(0, i as int) =~= s@);
}

/// `time`'s `quote`, used in its error messages.
pub fn quote_time(s: &[u8]) -> (r: Vec<u8>)
    ensures
        r@ == time_quote(s@),
{
    let mut out: Vec<u8> = Vec::new();
    out.push(34);
    let mut i: usize = 0;
    assert(s@.subrange(0, s@.len() as int) =~= s@);
    while i < s.len()
        invariant
            i <= s@.len(),
            out@ + time_quote_body(s@.subrange(i as int, s@.len() as int)) == seq![34u8] + time_quote_body(s@),
        decreases s@.len() - i,
    {
        let rest = vstd::slice::slice_subrange(s, i, s.len());
        proof {
            lemma_decode_width(rest@);
        }
        let (r, w) = decode_rune(rest);
        let ghost o = out@;
        let mut printable = false;
        match r {
            Some(c) => {
                if 0x20 <= c && c < 0x80 {
                    printable = true;
                    if c == 34 || c == 92 {
                        out.push(92);
                    }
                    out.push(c as u8);
                }
            },
            None => {},
        }
        if !printable {
            let n: usize = match r {
                Some(c) => if c == 0xfffd && 2 < rest.len() {
                    3
                } else if c == 0xfffd {
                    1
                } else {
                    w
                },
                None => 1,
            };
            push_hex_bytes(&mut out, vstd::slice::slice_subrange(rest, 0, n));
        }
        assert(rest@.subrange(w as int, rest@.len() as int) =~= s@.subrange(i + w, s@.len() as int));
        assert(out@ + time_quote_body(s@.subrange(i + w, s@.len() as int)) =~= o + time_quote_body(rest@));
        i = i + w;
    }
    assert(out@ + time_quote_body(s@.subrange(i as int, s@.len() as int)) =~= out@);
    out.push(34);
    out
}

pub open spec fn layout() -> Seq<u8> {
    "2006-01-02T15:04:05.999999999Z07:00".spec_bytes()
}

/// `parsing time "…" as "…": cannot parse "…" as "…"`.
pub open spec fn parse_error_text(value: Seq<u8>, layout_elem: Seq<u8>, value_elem: Seq<u8>) -> Seq<u8> {
    "parsing time ".spec_bytes() + time_quote(value) + " as ".spec_bytes() + time_quote(layout())
        + ": cannot parse ".spec_bytes() + time_quote(value_elem) + " as ".spec_bytes() + time_quote(layout_elem)
}

/// `parsing time "…": <what> out of range`.
pub open spec fn range_error_text(value: Seq<u8>, what: Seq<u8>) -> Seq<u8> {
    "parsing time ".spec_bytes() + time_quote(value) + ": ".spec_bytes() + what + " out of range".spec_bytes()
}

fn parse_error(value: &[u8], layout_elem: &[u8], value_elem: &[u8]) -> (r: Vec<u8>)
    ensures
        r@ == parse_error_text(value@, layout_elem@, value_elem@),
{
    let mut out = copy_bytes("parsing time ".as_bytes());
    push_all(&mut out, quote_time(value).as_slice());
    push_all(&mut out, " as ".as_bytes());
    push_all(&mut out, quote_time("2006-01-02T15:04:05.999999999Z07:00".as_bytes()).as_slice());
    push_all(&mut out, ": cannot parse ".as_bytes());
    push_all(&mut out, quote_time(value_elem).as_slice());
    push_all(&mut out, " as ".as_bytes());
    push_all(&mut out, quote_time(layout_elem).as_slice());
    out
}

fn range_error(value: &[u8], what: &str) -> (r: Vec<u8>)
    ensures
        r@ == range_error_text(value@, what.spec_bytes()),
{
    let mut out = copy_bytes("parsing time ".as_bytes());
    push_all(&mut out, quote_time(value).as_slice());
    push_all(&mut out, ": ".as_bytes());
    push_all(&mut out, what.as_bytes());
    push_all(&mut out, " out of range".as_bytes());
    out
}

/// `getnum`: one or two digits (two when `fixed`), and how many were read.
pub open spec fn spec_getnum(v: Seq<u8>, fixed: bool) -> Option<(int, int)> {
    if v.len() == 0 || !is_digit(v[0]) {
        None
    } else if v.len() < 2 || !is_digit(v[1]) {
        if fixed {
            None
        } else {
            Some(((v[0] - 48) as int, 1))
        }
    } else {
        Some(((v[0] - 48) * 10 + (v[1] - 48), 2))
    }
}

fn getnum(v: &[u8], fixed: bool) -> (r: Option<(i64, usize)>)
    ensures
        match r {
            Some((n, c)) => spec_getnum(v@, fixed) == Some((n as int, c as int)),
            None => spec_getnum(v@, fixed) is None,
        },
{
    if v.len() == 0 || !(48 <= v[0] && v[0] <= 57) {
        return None;
    }
    if v.len() < 2 || !(48 <= v[1] && v[1] <= 57) {
        if fixed {
            return None;
        }
        return Some(((v[0] - 48) as i64, 1));
    }
    Some((((v[0] - 48) as i64) * 10 + (v[1] - 48) as i64, 2))
}

/// A two-digit field after a one-byte separator (none for `0`): the new
/// position and the value, or the error text. `lo..=hi` is the range the
/// field must lie in, named `what`.
pub open spec fn field_stage(
    value: Seq<u8>,
    p: int,
    sep: u8,
    fixed: bool,
    std_text: Seq<u8>,
    lo: int,
    hi: int,
    what: Seq<u8>,
) -> Result<(int, int), Seq<u8>> {
    let v = value.subrange(p, value.len() as int);
    if sep != 0 && !(v.len() > 0 && v[0] == sep) {
        Err(parse_error_text(value, seq![sep], v))
    } else {
        let q = if sep != 0 { p + 1 } else { p };
        let hold = value.subrange(q, value.len() as int);
        match spec_getnum(hold, fixed) {
            None => Err(parse_error_text(value, std_text, hold)),
            Some((n, c)) => if n < lo || n > hi {
                Err(range_error_text(value, what))
            } else {
                Ok((q + c, n))
            },
        }
    }
}

fn field(
    value: &[u8],
    p: usize,
    sep: u8,
    fixed: bool,
    std_text: &str,
    lo: i64,
    hi: i64,
    what: &str,
) -> (r: Result<(usize, i64), Vec<u8>>)
    requires
        p <= value@.len(),
    ensures
        match r {
            Ok((q, n)) => field_stage(value@, p as int, sep, fixed, std_text.spec_bytes(), lo as int, hi as int, what.spec_bytes())
                == Ok::<(int, int), Seq<u8>>((q as int, n as int)) && q <= value@.len(),
            Err(m) => field_stage(value@, p as int, sep, fixed, std_text.spec_bytes(), lo as int, hi as int, what.spec_bytes())
                == Err::<(int, int), Seq<u8>>(m@),
        },
{
    let v = vstd::slice::slice_subrange(value, p, value.len());
    if sep != 0 && !(v.len() > 0 && v[0] == sep) {
        let sep_text = crate::bytes::one_byte(sep);
        return Err(parse_error(value, sep_text.as_slice(), v));
    }
    let q = if sep != 0 { p + 1 } else { p };
    let hold = vstd::slice::slice_subrange(value, q, value.len());
    match getnum(hold, fixed) {
        None => Err(parse_error(value, std_text.as_bytes(), hold)),
        Some((n, c)) => {
            if n < lo || n > hi {
                Err(range_error(value, what))
            } else {
                Ok((q + c, n))
            }
        },
    }
}

/// The year: four digits.
pub open spec fn year_stage(value: Seq<u8>) -> Result<(int, int), Seq<u8>> {
    if value.len() < 4 || !all_digits(value.subrange(0, 4)) {
        Err(parse_error_text(value, "2006".spec_bytes(), value))
    } else {
        Ok((4, decimal_value(value.subrange(0, 4))))
    }
}

/// How many digits follow position `i`.
pub open spec fn digits_from(v: Seq<u8>, i: int) -> int
    decreases v.len() - i,
{
    if 0 <= i && i + 1 < v.len() && is_digit(v[i + 1]) {
        digits_from(v, i + 1)
    } else {
        i
    }
}

pub open spec fn pow10(n: nat) -> int
    decreases n,
{
    if n == 0 {
        1
    } else {
        10 * pow10((n - 1) as nat)
    }
}

proof fn lemma_pow10_values()
    ensures
        pow10(0) == 1,
        pow10(1) == 10,
        pow10(2) == 100,
        pow10(3) == 1000,
        pow10(4) == 10000,
        pow10(5) == 100000,
        pow10(6) == 1000000,
        pow10(7) == 10000000,
        pow10(8) == 100000000,
        pow10(9) == 1000000000,
{
    reveal_with_fuel(pow10, 10);
}

proof fn lemma_pow10_at_most(n: nat)
    requires
        n <= 9,
    ensures
        1 <= pow10(n) <= 1000000000,
{
    lemma_pow10_values();
    assert(n == 0 || n == 1 || n == 2 || n == 3 || n == 4 || n == 5 || n == 6 || n == 7 || n == 8 || n == 9);
}

proof fn lemma_digits_from(v: Seq<u8>, i: int)
    requires
        0 <= i < v.len(),
    ensures
        i <= digits_from(v, i) < v.len(),
        forall|t: int| i < t <= digits_from(v, i) ==> is_digit(#[trigger] v[t]),
    decreases v.len() - i,
{
    if i + 1 < v.len() && is_digit(v[i + 1]) {
        lemma_digits_from(v, i + 1);
    }
}

/// The fraction: a `.` or `,` and digits, the first nine read as
/// nanoseconds; the new position and the nanoseconds (zero without one).
pub open spec fn frac_stage(value: Seq<u8>, p: int) -> (int, int) {
    let v = value.subrange(p, value.len() as int);
    if v.len() >= 2 && (v[0] == 46 || v[0] == 44) && is_digit(v[1]) {
        let i = digits_from(v, 0);
        let nbytes = if 1 + i < 10 { 1 + i } else { 10 };
        (p + 1 + i, decimal_value(v.subrange(1, nbytes)) * pow10((10 - nbytes) as nat))
    } else {
        (p, 0)
    }
}

/// The zone: `Z`, or a sign and `hh:mm`; the new position and the offset
/// in seconds, or the error text.
pub open spec fn zone_stage(value: Seq<u8>, p: int) -> Result<(int, int), Seq<u8>> {
    let v = value.subrange(p, value.len() as int);
    if v.len() > 0 && v[0] == 90 {
        Ok((p + 1, 0))
    } else if v.len() < 6 || v[3] != 58 {
        Err(parse_error_text(value, "Z07:00".spec_bytes(), v))
    } else {
        let hr = spec_getnum(v.subrange(1, 3), true);
        let mi = if hr is Some { spec_getnum(v.subrange(4, 6), true) } else { None };
        let bad = hr is None || mi is None || !(v[0] == 43 || v[0] == 45);
        let h: int = match hr {
            Some((x, _)) => x,
            None => 0,
        };
        let m: int = match mi {
            Some((x, _)) => x,
            None => 0,
        };
        if m > 60 {
            Err(range_error_text(value, "time zone offset minute".spec_bytes()))
        } else if h > 24 {
            Err(range_error_text(value, "time zone offset hour".spec_bytes()))
        } else if bad {
            Err(parse_error_text(value, "Z07:00".spec_bytes(), v))
        } else {
            let offset = (h * 60 + m) * 60;
            Ok((p + 6, if v[0] == 43 { offset } else { -offset }))
        }
    }
}

pub open spec fn is_leap(y: int) -> bool {
    y % 4 == 0 && (y % 100 != 0 || y % 400 == 0)
}

pub open spec fn days_in(month: int, year: int) -> int {
    if month == 2 {
        if is_leap(year) {
            29
        } else {
            28
        }
    } else if month == 4 || month == 6 || month == 9 || month == 11 {
        30
    } else {
        31
    }
}

/// Days from 1970-01-01 to a proleptic Gregorian date, Rust's truncating
/// division written out.
pub open spec fn spec_days_from_civil(y0: int, m: int, d: int) -> int {
    let y = if m <= 2 { y0 - 1 } else { y0 };
    let era = if y >= 0 { y / 400 } else { -((399 - y) / 400) };
    let yoe = y - era * 400;
    let mp = (m + 9) % 12;
    let doy = (153 * mp + 2) / 5 + d - 1;
    let doe = yoe * 365 + yoe / 4 - yoe / 100 + doy;
    era * 146097 + doe - 719468
}

/// The date: year, `-`, month, `-`, day; the position after it.
pub open spec fn date_stage(value: Seq<u8>) -> Result<(int, int, int, int), Seq<u8>> {
    match year_stage(value) {
        Err(e) => Err(e),
        Ok((p1, year)) => match field_stage(value, p1, 45, true, "01".spec_bytes(), 1, 12, "month".spec_bytes()) {
            Err(e) => Err(e),
            Ok((p2, month)) => match field_stage(value, p2, 45, true, "02".spec_bytes(), 0, 99, "day".spec_bytes()) {
                Err(e) => Err(e),
                Ok((p3, day)) => Ok((p3, year, month, day)),
            },
        },
    }
}

/// The clock: `T`, hour, `:`, minute, `:`, second; the position after it.
pub open spec fn clock_stage(value: Seq<u8>, p3: int) -> Result<(int, int, int, int), Seq<u8>> {
    match field_stage(value, p3, 84, false, "15".spec_bytes(), 0, 23, "hour".spec_bytes()) {
        Err(e) => Err(e),
        Ok((p4, hour)) => match field_stage(value, p4, 58, true, "04".spec_bytes(), 0, 59, "minute".spec_bytes()) {
            Err(e) => Err(e),
            Ok((p5, min)) => match field_stage(value, p5, 58, true, "05".spec_bytes(), 0, 59, "second".spec_bytes()) {
                Err(e) => Err(e),
                Ok((p6, sec)) => Ok((p6, hour, min, sec)),
            },
        },
    }
}

/// `time.Parse(time.RFC3339Nano, value)`: seconds and nanoseconds, or Go's
/// error text.
pub open spec fn spec_parse_rfc3339_nano(value: Seq<u8>) -> Result<(int, int), Seq<u8>> {
    match date_stage(value) {
        Err(e) => Err(e),
        Ok((p3, year, month, day)) => match clock_stage(value, p3) {
            Err(e) => Err(e),
            Ok((p6, hour, min, sec)) => {
                let (p7, nsec) = frac_stage(value, p6);
                match zone_stage(value, p7) {
                    Err(e) => Err(e),
                    Ok((p8, offset)) => if p8 < value.len() {
                        Err(
                            "parsing time ".spec_bytes() + time_quote(value) + ": extra text: ".spec_bytes() + time_quote(
                                value.subrange(p8, value.len() as int),
                            ),
                        )
                    } else if day < 1 || day > days_in(month, year) {
                        Err("parsing time ".spec_bytes() + time_quote(value) + ": day out of range".spec_bytes())
                    } else {
                        Ok((spec_days_from_civil(year, month, day) * 86400 + hour * 3600 + min * 60 + sec - offset, nsec))
                    },
                }
            },
        },
    }
}

fn days_from_civil(y0: i64, m: i64, d: i64) -> (r: i64)
    requires
        0 <= y0 <= 9999,
        1 <= m <= 12,
        1 <= d <= 31,
    ensures
        r == spec_days_from_civil(y0 as int, m as int, d as int),
{
    let y = if m <= 2 { y0 - 1 } else { y0 };
    let era = if y >= 0 { y / 400 } else { -((399 - y) / 400) };
    let yoe = y - era * 400;
    let mp = (m + 9) % 12;
    let doy = (153 * mp + 2) / 5 + d - 1;
    let doe = yoe * 365 + yoe / 4 - yoe / 100 + doy;
    era * 146097 + doe - 719468
}

fn is_leap_year(y: i64) -> (r: bool)
    ensures
        r == is_leap(y as int),
{
    y % 4 == 0 && (y % 100 != 0 || y % 400 == 0)
}

fn month_days(month: i64, year: i64) -> (r: i64)
    ensures
        r == days_in(month as int, year as int),
{
    if month == 2 {
        if is_leap_year(year) {
            29
        } else {
            28
        }
    } else if month == 4 || month == 6 || month == 9 || month == 11 {
        30
    } else {
        31
    }
}

fn year_field(value: &[u8]) -> (r: Result<(usize, i64), Vec<u8>>)
    ensures
        match r {
            Ok((q, n)) => year_stage(value@) == Ok::<(int, int), Seq<u8>>((q as int, n as int)) && q == 4 && 0 <= n <= 9999,
            Err(m) => year_stage(value@) == Err::<(int, int), Seq<u8>>(m@),
        },
{
    if value.len() < 4 {
        return Err(parse_error(value, "2006".as_bytes(), value));
    }
    let mut y: i64 = 0;
    let mut i: usize = 0;
    proof {
        lemma_pow10_values();
    }
    while i < 4
        invariant
            i <= 4 <= value@.len(),
            all_digits(value@.subrange(0, i as int)),
            y == decimal_value(value@.subrange(0, i as int)),
            0 <= y < pow10(i as nat),
            pow10(4) == 10000,
        decreases 4 - i,
    {
        let c = value[i];
        if !(48 <= c && c <= 57) {
            proof {
                assert(!is_digit(value@.subrange(0, 4)[i as int]));
            }
            return Err(parse_error(value, "2006".as_bytes(), value));
        }
        assert(value@.subrange(0, i + 1).drop_last() =~= value@.subrange(0, i as int));
        proof {
            lemma_pow10_values();
        }
        y = y * 10 + (c - 48) as i64;
        i = i + 1;
    }
    assert(value@.subrange(0, 4) == value@.subrange(0, i as int));
    Ok((4, y))
}

fn frac_field(value: &[u8], p: usize) -> (r: (usize, i64))
    requires
        p <= value@.len(),
    ensures
        frac_stage(value@, p as int) == (r.0 as int, r.1 as int),
        r.0 <= value@.len(),
        0 <= r.1 < 1_000_000_000,
{
    let v = vstd::slice::slice_subrange(value, p, value.len());
    if v.len() >= 2 && (v[0] == 46 || v[0] == 44) && 48 <= v[1] && v[1] <= 57 {
        let mut i: usize = 0;
        while i < v.len() - 1 && 48 <= v[i + 1] && v[i + 1] <= 57
            invariant
                i < v@.len(),
                digits_from(v@, i as int) == digits_from(v@, 0),
            decreases v@.len() - i,
        {
            i = i + 1;
        }
        proof {
            lemma_digits_from(v@, 0);
            lemma_pow10_values();
        }
        let nbytes: usize = if 1 + i < 10 { 1 + i } else { 10 };
        let mut ns: i64 = 0;
        let mut k: usize = 1;
        while k < nbytes
            invariant
                1 <= k <= nbytes <= 10,
                nbytes <= v@.len(),
                forall|t: int| 1 <= t < nbytes ==> is_digit(#[trigger] v@[t]),
                ns == decimal_value(v@.subrange(1, k as int)),
                0 <= ns < pow10((k - 1) as nat),
                pow10(9) == 1000000000,
            decreases nbytes - k,
        {
            proof {
                lemma_pow10_values();
            }
            assert(v@.subrange(1, k + 1).drop_last() =~= v@.subrange(1, k as int));
            ns = ns * 10 + (v[k] - 48) as i64;
            k = k + 1;
        }
        let ghost base = ns;
        let mut j: usize = nbytes;
        proof {
            lemma_pow10_values();
            assert(pow10((j - nbytes) as nat) == 1);
            assert(ns == base * pow10((j - nbytes) as nat)) by (nonlinear_arith)
                requires
                    ns == base,
                    pow10((j - nbytes) as nat) == 1,
            ;
        }
        while j < 10
            invariant
                1 <= nbytes <= j <= 10,
                ns == base * pow10((j - nbytes) as nat),
                0 <= ns < pow10((j - 1) as nat),
                pow10(9) == 1000000000,
            decreases 10 - j,
        {
            proof {
                lemma_pow10_values();
                lemma_pow10_at_most(j as nat);
                assert(pow10(j as nat) == 10 * pow10((j - 1) as nat));
                assert(pow10((j + 1 - nbytes) as nat) == 10 * pow10((j - nbytes) as nat));
                assert(base * (10 * pow10((j - nbytes) as nat)) == (base * pow10((j - nbytes) as nat)) * 10) by (nonlinear_arith);
            }
            ns = ns * 10;
            j = j + 1;
        }
        (p + 1 + i, ns)
    } else {
        (p, 0)
    }
}

fn zone_field(value: &[u8], p: usize) -> (r: Result<(usize, i64), Vec<u8>>)
    requires
        p <= value@.len(),
    ensures
        match r {
            Ok((q, n)) => zone_stage(value@, p as int) == Ok::<(int, int), Seq<u8>>((q as int, n as int)) && q <= value@.len()
                && -90000 <= n <= 90000,
            Err(m) => zone_stage(value@, p as int) == Err::<(int, int), Seq<u8>>(m@),
        },
{
    let v = vstd::slice::slice_subrange(value, p, value.len());
    if v.len() > 0 && v[0] == 90 {
        return Ok((p + 1, 0));
    }
    if v.len() < 6 || v[3] != 58 {
        return Err(parse_error(value, "Z07:00".as_bytes(), v));
    }
    let hr = getnum(vstd::slice::slice_subrange(v, 1, 3), true);
    let mi = match hr {
        Some(_) => getnum(vstd::slice::slice_subrange(v, 4, 6), true),
        None => None,
    };
    let bad = hr.is_none() || mi.is_none() || !(v[0] == 43 || v[0] == 45);
    let h: i64 = match hr {
        Some((x, _)) => x,
        None => 0,
    };
    let m: i64 = match mi {
        Some((x, _)) => x,
        None => 0,
    };
    if m > 60 {
        return Err(range_error(value, "time zone offset minute"));
    }
    if h > 24 {
        return Err(range_error(value, "time zone offset hour"));
    }
    if bad {
        return Err(parse_error(value, "Z07:00".as_bytes(), v));
    }
    let offset = (h * 60 + m) * 60;
    Ok((p + 6, if v[0] == 43 { offset } else { -offset }))
}

fn date_fields(value: &[u8]) -> (r: Result<(usize, i64, i64, i64), Vec<u8>>)
    ensures
        match r {
            Ok((p, y, m, d)) => date_stage(value@) == Ok::<(int, int, int, int), Seq<u8>>((p as int, y as int, m as int, d as int))
                && p <= value@.len() && 0 <= y <= 9999 && 1 <= m <= 12 && 0 <= d <= 99,
            Err(e) => date_stage(value@) == Err::<(int, int, int, int), Seq<u8>>(e@),
        },
{
    let (p1, year) = match year_field(value) {
        Ok(x) => x,
        Err(e) => return Err(e),
    };
    let (p2, month) = match field(value, p1, 45, true, "01", 1, 12, "month") {
        Ok(x) => x,
        Err(e) => return Err(e),
    };
    let (p3, day) = match field(value, p2, 45, true, "02", 0, 99, "day") {
        Ok(x) => x,
        Err(e) => return Err(e),
    };
    Ok((p3, year, month, day))
}

fn clock_fields(value: &[u8], p3: usize) -> (r: Result<(usize, i64, i64, i64), Vec<u8>>)
    requires
        p3 <= value@.len(),
    ensures
        match r {
            Ok((p, h, m, s)) => clock_stage(value@, p3 as int) == Ok::<(int, int, int, int), Seq<u8>>((p as int, h as int, m as int, s as int))
                && p <= value@.len() && 0 <= h <= 23 && 0 <= m <= 59 && 0 <= s <= 59,
            Err(e) => clock_stage(value@, p3 as int) == Err::<(int, int, int, int), Seq<u8>>(e@),
        },
{
    let (p4, hour) = match field(value, p3, 84, false, "15", 0, 23, "hour") {
        Ok(x) => x,
        Err(e) => return Err(e),
    };
    let (p5, min) = match field(value, p4, 58, true, "04", 0, 59, "minute") {
        Ok(x) => x,
        Err(e) => return Err(e),
    };
    let (p6, sec) = match field(value, p5, 58, true, "05", 0, 59, "second") {
        Ok(x) => x,
        Err(e) => return Err(e),
    };
    Ok((p6, hour, min, sec))
}

/// `time.Parse(time.RFC3339Nano, value)`.
pub fn parse_rfc3339_nano(value: &[u8]) -> (r: Result<Instant, Vec<u8>>)
    ensures
        match r {
            Ok(t) => spec_parse_rfc3339_nano(value@) == Ok::<(int, int), Seq<u8>>((t.seconds as int, t.nanos as int)),
            Err(m) => spec_parse_rfc3339_nano(value@) == Err::<(int, int), Seq<u8>>(m@),
        },
{
    let (p3, year, month, day) = match date_fields(value) {
        Ok(x) => x,
        Err(e) => return Err(e),
    };
    let (p6, hour, min, sec) = match clock_fields(value, p3) {
        Ok(x) => x,
        Err(e) => return Err(e),
    };
    let (p7, nsec) = frac_field(value, p6);
    let (p8, offset) = match zone_field(value, p7) {
        Ok(x) => x,
        Err(e) => return Err(e),
    };
    if p8 < value.len() {
        let mut out = copy_bytes("parsing time ".as_bytes());
        push_all(&mut out, quote_time(value).as_slice());
        push_all(&mut out, ": extra text: ".as_bytes());
        push_all(&mut out, quote_time(vstd::slice::slice_subrange(value, p8, value.len())).as_slice());
        return Err(out);
    }
    if day < 1 || day > month_days(month, year) {
        let mut out = copy_bytes("parsing time ".as_bytes());
        push_all(&mut out, quote_time(value).as_slice());
        push_all(&mut out, ": day out of range".as_bytes());
        return Err(out);
    }
    let days = days_from_civil(year, month, day);
    proof {
        assert(-800000 <= days <= 3000000) by {
            lemma_days_bound(year as int, month as int, day as int);
        }
    }
    let local = days * 86400 + hour * 3600 + min * 60 + sec;
    Ok(Instant { seconds: local - offset, nanos: nsec as i32 })
}

proof fn lemma_days_bound(y: int, m: int, d: int)
    requires
        0 <= y <= 9999,
        1 <= m <= 12,
        1 <= d <= 31,
    ensures
        -800000 <= spec_days_from_civil(y, m, d) <= 3000000,
{
    let y1 = if m <= 2 { y - 1 } else { y };
    let era = if y1 >= 0 { y1 / 400 } else { -((399 - y1) / 400) };
    assert(-1 <= era <= 24);
    let yoe = y1 - era * 400;
    assert(0 <= yoe < 400);
    let mp = (m + 9) % 12;
    let doy = (153 * mp + 2) / 5 + d - 1;
    assert(0 <= doy <= 400);
    let doe = yoe * 365 + yoe / 4 - yoe / 100 + doy;
    assert(0 <= doe <= 150000) by (nonlinear_arith)
        requires
            0 <= yoe < 400,
            0 <= doy <= 400,
            doe == yoe * 365 + yoe / 4 - yoe / 100 + doy,
    ;
}


pub const MIN_TIMESTAMP_SECONDS: i64 = -62135596800;
pub const MAX_TIMESTAMP_SECONDS: i64 = 253402300799;
pub const MAX_SECONDS_IN_DURATION: i64 = 315576000000;

/// `timestamppb.Timestamp.IsValid`.
pub fn timestamp_is_valid(t: Instant) -> (r: bool)
    ensures
        r == (MIN_TIMESTAMP_SECONDS <= t.seconds <= MAX_TIMESTAMP_SECONDS && 0 <= t.nanos < 1_000_000_000),
{
    MIN_TIMESTAMP_SECONDS <= t.seconds && t.seconds <= MAX_TIMESTAMP_SECONDS && 0 <= t.nanos && t.nanos < 1_000_000_000
}

/// The byte a one-letter JSON escape stands for.
pub open spec fn simple_escape(c: u8) -> Option<u8> {
    if c == 34 {
        Some(34)
    } else if c == 92 {
        Some(92)
    } else if c == 47 {
        Some(47)
    } else if c == 98 {
        Some(8)
    } else if c == 102 {
        Some(12)
    } else if c == 110 {
        Some(10)
    } else if c == 114 {
        Some(13)
    } else if c == 116 {
        Some(9)
    } else {
        None
    }
}

pub open spec fn hex4(b: Seq<u8>) -> int {
    ((hex_value(b[0]) * 16 + hex_value(b[1])) * 16 + hex_value(b[2])) * 16 + hex_value(b[3])
}

/// The rune a `\u` escape gives: U+FFFD for a surrogate.
pub open spec fn escaped_char(r: int) -> int {
    if 0xd800 <= r < 0xe000 {
        0xfffd
    } else {
        r
    }
}

pub open spec fn syntax_error_text(esc: Seq<u8>) -> Seq<u8> {
    "proto: syntax error (line 1:1): invalid escape code ".spec_bytes() + spec_quote(esc) + " in string".spec_bytes()
}

/// protojson's reading of the string between the quotes from `i` to
/// `b.len() - 1`: the unescaped bytes, or the error for an escape JSON lacks.
pub open spec fn unescape_from(b: Seq<u8>, i: int) -> Result<Seq<u8>, Seq<u8>>
    decreases b.len() - i,
{
    if i < 1 || i >= b.len() - 1 {
        Ok(Seq::empty())
    } else if b[i] != 92 {
        match unescape_from(b, i + 1) {
            Ok(r) => Ok(seq![b[i]] + r),
            Err(e) => Err(e),
        }
    } else {
        let esc = b[i + 1];
        match simple_escape(esc) {
            Some(c) => match unescape_from(b, i + 2) {
                Ok(r) => Ok(seq![c] + r),
                Err(e) => Err(e),
            },
            None => if esc == 117 && i + 6 <= b.len() && is_hex_digit(b[i + 2]) && is_hex_digit(b[i + 3]) && is_hex_digit(
                b[i + 4],
            ) && is_hex_digit(b[i + 5]) {
                match unescape_from(b, i + 6) {
                    Ok(r) => Ok(encode_rune(escaped_char(hex4(b.subrange(i + 2, i + 6)))) + r),
                    Err(e) => Err(e),
                }
            } else {
                Err(syntax_error_text(b.subrange(i, i + 2)))
            },
        }
    }
}

/// What protojson's JSON reader makes of a string `strconv.Quote` wrote: the
/// unescaped value, or the syntax error for an escape JSON lacks.
pub fn protojson_string(b: &[u8]) -> (r: Result<Vec<u8>, Vec<u8>>)
    requires
        b@.len() >= 2,
    ensures
        match r {
            Ok(v) => unescape_from(b@, 1) == Ok::<Seq<u8>, Seq<u8>>(v@),
            Err(e) => unescape_from(b@, 1) == Err::<Seq<u8>, Seq<u8>>(e@),
        },
{
    let mut out: Vec<u8> = Vec::new();
    let mut i: usize = 1;
    while i < b.len() - 1
        invariant
            1 <= i,
            b@.len() >= 2,
            unescape_from(b@, 1) == match unescape_from(b@, i as int) {
                Ok(r) => Ok::<Seq<u8>, Seq<u8>>(out@ + r),
                Err(e) => Err::<Seq<u8>, Seq<u8>>(e),
            },
        decreases b@.len() - i,
    {
        let ghost o = out@;
        if b[i] != 92 {
            out.push(b[i]);
            proof {
                match unescape_from(b@, i + 1) {
                    Ok(r) => assert(out@ + r =~= o + (seq![b@[i as int]] + r)),
                    Err(e) => {},
                }
            }
            i = i + 1;
            continue;
        }
        let esc = b[i + 1];
        let simple: Option<u8> = if esc == 34 {
            Some(34)
        } else if esc == 92 {
            Some(92)
        } else if esc == 47 {
            Some(47)
        } else if esc == 98 {
            Some(8)
        } else if esc == 102 {
            Some(12)
        } else if esc == 110 {
            Some(10)
        } else if esc == 114 {
            Some(13)
        } else if esc == 116 {
            Some(9)
        } else {
            None
        };
        match simple {
            Some(c) => {
                out.push(c);
                proof {
                    match unescape_from(b@, i + 2) {
                        Ok(r) => assert(out@ + r =~= o + (seq![c] + r)),
                        Err(e) => {},
                    }
                }
                i = i + 2;
                continue;
            },
            None => {},
        }
        if esc == 117 && b.len() - i >= 6 && ascii_hex_digit(b[i + 2]) && ascii_hex_digit(b[i + 3]) && ascii_hex_digit(
            b[i + 4],
        ) && ascii_hex_digit(b[i + 5]) {
            let r: u32 = ((hex_digit_value(b[i + 2]) as u32 * 16 + hex_digit_value(b[i + 3]) as u32) * 16
                + hex_digit_value(b[i + 4]) as u32) * 16 + hex_digit_value(b[i + 5]) as u32;
            assert(r == hex4(b@.subrange(i + 2, i + 6)));
            let c: u32 = if 0xd800 <= r && r < 0xe000 { 0xfffd } else { r };
            push_rune(&mut out, c);
            proof {
                match unescape_from(b@, i + 6) {
                    Ok(rest) => assert(out@ + rest =~= o + (encode_rune(c as int) + rest)),
                    Err(e) => {},
                }
            }
            i = i + 6;
            continue;
        }
        let pair = vstd::slice::slice_subrange(b, i, i + 2);
        let mut m = copy_bytes("proto: syntax error (line 1:1): invalid escape code ".as_bytes());
        push_all(&mut m, quote(pair).as_slice());
        push_all(&mut m, " in string".as_bytes());
        return Err(m);
    }
    assert(out@ + Seq::<u8>::empty() =~= out@);
    Ok(out)
}

/// The value with every leading and trailing `"` removed.
pub open spec fn spec_trim_quotes(v: Seq<u8>) -> Seq<u8> {
    let start = first_not_quote(v, 0);
    v.subrange(start, last_not_quote_end(v, start, v.len() as int))
}

pub open spec fn first_not_quote(v: Seq<u8>, i: int) -> int
    decreases v.len() - i,
{
    if 0 <= i < v.len() && v[i] == 34 {
        first_not_quote(v, i + 1)
    } else {
        i
    }
}

pub open spec fn last_not_quote_end(v: Seq<u8>, lo: int, j: int) -> int
    decreases j - lo,
{
    if lo < j && v[j - 1] == 34 {
        last_not_quote_end(v, lo, j - 1)
    } else {
        j
    }
}

fn trim_quotes(v: &[u8]) -> (r: &[u8])
    ensures
        r@ == spec_trim_quotes(v@),
{
    let mut a: usize = 0;
    while a < v.len() && v[a] == 34
        invariant
            a <= v@.len(),
            first_not_quote(v@, a as int) == first_not_quote(v@, 0),
        decreases v@.len() - a,
    {
        a = a + 1;
    }
    let mut e: usize = v.len();
    while e > a && v[e - 1] == 34
        invariant
            a <= e <= v@.len(),
            last_not_quote_end(v@, a as int, e as int) == last_not_quote_end(v@, a as int, v@.len() as int),
        decreases e - a,
    {
        e = e - 1;
    }
    vstd::slice::slice_subrange(v, a, e)
}

/// The last index holding one of the bytes, or -1.
pub open spec fn last_of(s: Seq<u8>, a: u8, b: u8, c: u8) -> int
    decreases s.len(),
{
    if s.len() == 0 {
        -1
    } else if s.last() == a || s.last() == b || s.last() == c {
        s.len() - 1
    } else {
        last_of(s.drop_last(), a, b, c)
    }
}

fn last_index_of(s: &[u8], a: u8, b: u8, c: u8) -> (r: Option<usize>)
    ensures
        match r {
            Some(i) => last_of(s@, a, b, c) == i as int,
            None => last_of(s@, a, b, c) == -1,
        },
{
    let mut i: usize = s.len();
    assert(s@.subrange(0, i as int) =~= s@);
    while i > 0
        invariant
            i <= s@.len(),
            last_of(s@, a, b, c) == last_of(s@.subrange(0, i as int), a, b, c),
        decreases i,
    {
        let x = s[i - 1];
        assert(s@.subrange(0, i as int).last() == x);
        if x == a || x == b || x == c {
            return Some(i - 1);
        }
        assert(s@.subrange(0, i as int).drop_last() =~= s@.subrange(0, i - 1));
        i = i - 1;
    }
    None
}

/// `runtime.Timestamp`: the value, quoted, read by protojson as a
/// `google.protobuf.Timestamp`.
pub open spec fn spec_runtime_timestamp(val: Seq<u8>) -> Result<(int, int), Seq<u8>> {
    let quoted = spec_quote(spec_trim_quotes(val));
    let invalid = "proto: (line 1:1): invalid google.protobuf.Timestamp value ".spec_bytes() + quoted;
    match unescape_from(quoted, 1) {
        Err(e) => Err(e),
        Ok(s) => match spec_parse_rfc3339_nano(s) {
            Err(_) => Err(invalid),
            Ok((secs, nanos)) => if secs < MIN_TIMESTAMP_SECONDS || secs > MAX_TIMESTAMP_SECONDS {
                Err("proto: (line 1:1): google.protobuf.Timestamp value out of range: ".spec_bytes() + quoted)
            } else {
                let dot = last_of(s, 46, 46, 46);
                let zone = last_of(s, 90, 45, 43);
                if dot >= 0 && zone >= 0 && zone >= dot && zone - dot > 10 {
                    Err(invalid)
                } else {
                    Ok((secs, nanos))
                }
            },
        },
    }
}

/// `runtime.Timestamp`.
pub fn runtime_timestamp(val: &[u8]) -> (r: Result<Instant, Vec<u8>>)
    ensures
        match r {
            Ok(t) => spec_runtime_timestamp(val@) == Ok::<(int, int), Seq<u8>>((t.seconds as int, t.nanos as int)),
            Err(e) => spec_runtime_timestamp(val@) == Err::<(int, int), Seq<u8>>(e@),
        },
{
    let quoted = quote(trim_quotes(val));
    let s = match protojson_string(quoted.as_slice()) {
        Ok(s) => s,
        Err(e) => return Err(e),
    };
    let mut invalid = copy_bytes("proto: (line 1:1): invalid google.protobuf.Timestamp value ".as_bytes());
    push_all(&mut invalid, quoted.as_slice());
    let t = match parse_rfc3339_nano(s.as_slice()) {
        Ok(t) => t,
        Err(_) => return Err(invalid),
    };
    if t.seconds < MIN_TIMESTAMP_SECONDS || t.seconds > MAX_TIMESTAMP_SECONDS {
        let mut m = copy_bytes("proto: (line 1:1): google.protobuf.Timestamp value out of range: ".as_bytes());
        push_all(&mut m, quoted.as_slice());
        return Err(m);
    }
    let dot = last_index_of(s.as_slice(), 46, 46, 46);
    let zone = last_index_of(s.as_slice(), 90, 45, 43);
    match (dot, zone) {
        (Some(i), Some(j)) => {
            if j >= i && j - i > 10 {
                return Err(invalid);
            }
        },
        _ => {},
    }
    Ok(t)
}

/// The digits `protojson` reads before a duration's fraction.
pub open spec fn digit_run(b: Seq<u8>, i: int) -> int
    decreases b.len() - i,
{
    if 0 <= i < b.len() && is_digit(b[i]) {
        digit_run(b, i + 1)
    } else {
        i
    }
}

/// `protojson`'s reading of a `google.protobuf.Duration` string: seconds and
/// nanoseconds, both carrying the sign.
pub open spec fn spec_protojson_duration(input: Seq<u8>) -> Option<(int, int)> {
    if input.len() < 2 || input.last() != 115 {
        None
    } else {
        let b0 = input.drop_last();
        let neg = b0[0] == 45;
        let b = if b0[0] == 45 || b0[0] == 43 { b0.subrange(1, b0.len() as int) } else { b0 };
        if b.len() == 0 {
            None
        } else if !(is_digit(b[0]) || b[0] == 46) {
            None
        } else {
            let n = if b[0] == 48 { 0 } else if is_digit(b[0]) { digit_run(b, 0) } else { 0 };
            let intp = b.subrange(0, n);
            let b2 = if b[0] == 48 { b.subrange(1, b.len() as int) } else { b.subrange(n, b.len() as int) };
            let fr = if b2.len() > 0 { b2.subrange(1, b2.len() as int) } else { Seq::empty() };
            let k = digit_run(fr, 0);
            let taken = if k < 9 { k } else { 9 };
            if b2.len() > 0 && (b2[0] != 46 || taken < fr.len()) {
                None
            } else {
                let secs = if intp.len() > 0 { spec_parse_i64(intp) } else { Some(0int) };
                let nanos = decimal_value(fr.subrange(0, taken)) * pow10((9 - taken) as nat);
                match secs {
                    None => None,
                    Some(s) => Some((if neg && s > 0 { -s } else { s }, if neg && nanos > 0 { -nanos } else { nanos })),
                }
            }
        }
    }
}

proof fn lemma_digit_run(b: Seq<u8>, i: int)
    requires
        0 <= i <= b.len(),
    ensures
        i <= digit_run(b, i) <= b.len(),
        forall|t: int| i <= t < digit_run(b, i) ==> is_digit(#[trigger] b[t]),
        digit_run(b, i) < b.len() ==> !is_digit(b[digit_run(b, i)]),
    decreases b.len() - i,
{
    if i < b.len() && is_digit(b[i]) {
        lemma_digit_run(b, i + 1);
    }
}

fn digit_run_end(b: &[u8], i: usize) -> (r: usize)
    requires
        i <= b@.len(),
    ensures
        r == digit_run(b@, i as int),
        i <= r <= b@.len(),
{
    let mut k = i;
    while k < b.len() && 48 <= b[k] && b[k] <= 57
        invariant
            i <= k <= b@.len(),
            digit_run(b@, k as int) == digit_run(b@, i as int),
        decreases b@.len() - k,
    {
        k = k + 1;
    }
    k
}

/// `protojson`'s reading of a `google.protobuf.Duration` string.
pub fn protojson_parse_duration(input: &[u8]) -> (r: Option<(i64, i32)>)
    ensures
        match r {
            Some((s, n)) => spec_protojson_duration(input@) == Some((s as int, n as int)),
            None => spec_protojson_duration(input@) is None,
        },
{
    if input.len() < 2 || input[input.len() - 1] != 115 {
        return None;
    }
    let b0 = vstd::slice::slice_subrange(input, 0, input.len() - 1);
    assert(b0@ == input@.drop_last());
    let neg = b0[0] == 45;
    let b: &[u8] = if b0[0] == 45 || b0[0] == 43 { vstd::slice::slice_subrange(b0, 1, b0.len()) } else { b0 };
    if b.len() == 0 {
        return None;
    }
    if !((48 <= b[0] && b[0] <= 57) || b[0] == 46) {
        return None;
    }
    let n: usize = if b[0] == 48 {
        0
    } else if 48 <= b[0] && b[0] <= 57 {
        digit_run_end(b, 0)
    } else {
        0
    };
    let intp = vstd::slice::slice_subrange(b, 0, n);
    let b2: &[u8] = if b[0] == 48 { vstd::slice::slice_subrange(b, 1, b.len()) } else { vstd::slice::slice_subrange(b, n, b.len()) };
    let fr: &[u8] = if b2.len() > 0 { vstd::slice::slice_subrange(b2, 1, b2.len()) } else { vstd::slice::slice_subrange(b2, 0, 0) };
    let k = digit_run_end(fr, 0);
    let taken: usize = if k < 9 { k } else { 9 };
    if b2.len() > 0 && (b2[0] != 46 || taken < fr.len()) {
        return None;
    }
    let secs: i64 = if intp.len() > 0 {
        match parse_i64(intp) {
            Some(v) => v,
            None => return None,
        }
    } else {
        0
    };
    proof {
        lemma_digit_run(fr@, 0);
        lemma_pow10_values();
    }
    let mut nanos: i64 = 0;
    let mut j: usize = 0;
    while j < taken
        invariant
            j <= taken <= 9,
            taken <= fr@.len(),
            forall|t: int| 0 <= t < taken ==> is_digit(#[trigger] fr@[t]),
            nanos == decimal_value(fr@.subrange(0, j as int)),
            0 <= nanos < pow10(j as nat),
        decreases taken - j,
    {
        proof {
            lemma_pow10_at_most(j as nat);
        }
        assert(fr@.subrange(0, j + 1).drop_last() =~= fr@.subrange(0, j as int));
        nanos = nanos * 10 + (fr[j] - 48) as i64;
        j = j + 1;
    }
    let ghost base = nanos;
    let mut z: usize = taken;
    proof {
        lemma_pow10_values();
        assert((z - taken) as nat == 0);
        assert(pow10((z - taken) as nat) == 1);
        assert(nanos == base * pow10((z - taken) as nat)) by (nonlinear_arith)
            requires
                nanos == base,
                pow10((z - taken) as nat) == 1,
        ;
    }
    while z < 9
        invariant
            taken <= z <= 9,
            nanos == base * pow10((z - taken) as nat),
            0 <= nanos < pow10(z as nat),
        decreases 9 - z,
    {
        proof {
            lemma_pow10_at_most(z as nat);
            assert(pow10((z + 1) as nat) == 10 * pow10(z as nat));
            assert(pow10((z + 1 - taken) as nat) == 10 * pow10((z - taken) as nat));
            assert(base * (10 * pow10((z - taken) as nat)) == (base * pow10((z - taken) as nat)) * 10) by (nonlinear_arith);
        }
        nanos = nanos * 10;
        z = z + 1;
    }
    proof {
        lemma_pow10_at_most(9);
    }
    let s_out: i64 = if neg && secs > 0 { -secs } else { secs };
    let n_out: i64 = if neg && nanos > 0 { -nanos } else { nanos };
    Some((s_out, n_out as i32))
}

/// `runtime.Duration`: the value, quoted, read by protojson as a
/// `google.protobuf.Duration`.
pub open spec fn spec_runtime_duration(val: Seq<u8>) -> Result<(int, int), Seq<u8>> {
    let quoted = spec_quote(spec_trim_quotes(val));
    match unescape_from(quoted, 1) {
        Err(e) => Err(e),
        Ok(s) => match spec_protojson_duration(s) {
            None => Err("proto: (line 1:1): invalid google.protobuf.Duration value ".spec_bytes() + quoted),
            Some((secs, nanos)) => if secs < -MAX_SECONDS_IN_DURATION || secs > MAX_SECONDS_IN_DURATION {
                Err("proto: (line 1:1): google.protobuf.Duration value out of range: ".spec_bytes() + quoted)
            } else {
                Ok((secs, nanos))
            },
        },
    }
}

/// `runtime.Duration`, as seconds and nanoseconds.
pub fn runtime_duration(val: &[u8]) -> (r: Result<(i64, i32), Vec<u8>>)
    ensures
        match r {
            Ok((s, n)) => spec_runtime_duration(val@) == Ok::<(int, int), Seq<u8>>((s as int, n as int)),
            Err(e) => spec_runtime_duration(val@) == Err::<(int, int), Seq<u8>>(e@),
        },
{
    let quoted = quote(trim_quotes(val));
    let s = match protojson_string(quoted.as_slice()) {
        Ok(s) => s,
        Err(e) => return Err(e),
    };
    let (secs, nanos) = match protojson_parse_duration(s.as_slice()) {
        Some(x) => x,
        None => {
            let mut m = copy_bytes("proto: (line 1:1): invalid google.protobuf.Duration value ".as_bytes());
            push_all(&mut m, quoted.as_slice());
            return Err(m);
        },
    };
    if secs < -MAX_SECONDS_IN_DURATION || secs > MAX_SECONDS_IN_DURATION {
        let mut m = copy_bytes("proto: (line 1:1): google.protobuf.Duration value out of range: ".as_bytes());
        push_all(&mut m, quoted.as_slice());
        return Err(m);
    }
    Ok((secs, nanos))
}

/// Days before March 1st of March-based year `y` (whose February ends in
/// calendar year `y + 1`), counted from March 1st of year 0.
spec fn march_years(y: int) -> int {
    let era = if y >= 0 { y / 400 } else { -((399 - y) / 400) };
    let yoe = y - era * 400;
    era * 146097 + yoe * 365 + yoe / 4 - yoe / 100
}

proof fn lemma_march_years_step(z: int)
    requires
        z >= -1,
    ensures
        march_years(z + 1) == march_years(z) + 365 + if is_leap(z + 1) { 1int } else { 0int },
{
    if z == -1 {
        assert(march_years(-1) == -146097 + 399 * 365 + 99 - 3);
        assert(march_years(0) == 0);
        assert(is_leap(0));
    } else {
        let e = z / 400;
        let yo = z % 400;
        vstd::arithmetic::div_mod::lemma_fundamental_div_mod(z, 400);
        assert(z == 400 * e + yo && 0 <= yo < 400);
        if yo < 399 {
            vstd::arithmetic::div_mod::lemma_fundamental_div_mod_converse(z + 1, 400, e, yo + 1);
            assert((z + 1) / 400 == e);
            assert(march_years(z) == e * 146097 + yo * 365 + yo / 4 - yo / 100);
            assert(march_years(z + 1) == e * 146097 + (yo + 1) * 365 + (yo + 1) / 4 - (yo + 1) / 100);
            vstd::arithmetic::div_mod::lemma_fundamental_div_mod_converse(z + 1, 4, 100 * e + (yo + 1) / 4, (yo + 1) % 4);
            vstd::arithmetic::div_mod::lemma_fundamental_div_mod_converse(z + 1, 100, 4 * e + (yo + 1) / 100, (yo + 1) % 100);
            vstd::arithmetic::div_mod::lemma_fundamental_div_mod_converse(z + 1, 400, e, yo + 1);
            assert((yo + 1) / 4 - yo / 4 == if (yo + 1) % 4 == 0 { 1int } else { 0int }) by (nonlinear_arith)
                requires
                    0 <= yo < 399,
            ;
            assert((yo + 1) / 100 - yo / 100 == if (yo + 1) % 100 == 0 { 1int } else { 0int }) by (nonlinear_arith)
                requires
                    0 <= yo < 399,
            ;
            assert((yo + 1) % 100 == 0 ==> (yo + 1) % 4 == 0) by (nonlinear_arith)
                requires
                    0 <= yo < 399,
            ;
        } else {
            vstd::arithmetic::div_mod::lemma_fundamental_div_mod_converse(z + 1, 400, e + 1, 0);
            vstd::arithmetic::div_mod::lemma_fundamental_div_mod_converse(z + 1, 4, 100 * e + 100, 0);
            vstd::arithmetic::div_mod::lemma_fundamental_div_mod_converse(z + 1, 100, 4 * e + 4, 0);
            assert(march_years(z + 1) == (e + 1) * 146097);
            assert(march_years(z) == e * 146097 + 399 * 365 + 99 - 3);
        }
    }
}

/// The calendar: 1970-01-01 is day zero; a date is the first of its month
/// plus its day less one; each month starts where the one before it ends,
/// that month's length later; a year starts 31 days after its December 1st.
pub proof fn lemma_days_from_civil(y: int, m: int, d: int)
    requires
        y >= 0,
        1 <= m <= 12,
    ensures
        spec_days_from_civil(1970, 1, 1) == 0,
        spec_days_from_civil(y, m, d) == spec_days_from_civil(y, m, 1) + d - 1,
        m <= 11 ==> spec_days_from_civil(y, m + 1, 1) == spec_days_from_civil(y, m, 1) + if m == 2 {
            if y % 4 == 0 && (y % 100 != 0 || y % 400 == 0) {
                29int
            } else {
                28int
            }
        } else if m == 4 || m == 6 || m == 9 || m == 11 {
            30int
        } else {
            31int
        },
        spec_days_from_civil(y + 1, 1, 1) == spec_days_from_civil(y, 12, 1) + 31,
{
    assert(spec_days_from_civil(1970, 1, 1) == 0) by {
        assert(1969int / 400 == 4);
        assert(369int / 4 == 92);
        assert(369int / 100 == 3);
        assert((1int + 9) % 12 == 10);
        assert((153int * 10 + 2) / 5 == 306);
    }
    assert(forall|yy: int, mm: int, dd: int| #![trigger spec_days_from_civil(yy, mm, dd)]
        spec_days_from_civil(yy, mm, dd) == march_years(if mm <= 2 { yy - 1 } else { yy })
            + (153 * ((mm + 9) % 12) + 2) / 5 + dd - 1 - 719468);
    if m == 2 {
        lemma_march_years_step(y - 1);
    }
}

} // verus!
