//! `time.ParseDuration` up to its one floating-point step: the components of
//! a duration, each checked and scaled to its unit, and the first error.
//! Adding a component's fraction (`f * (unit / 10^digits)`, in `float64`)
//! is left to the caller.
use vstd::prelude::*;
use vstd::string::StringSliceAdditionalSpecFns;
use crate::bytes::{ascii_digit, copy_bytes, is_digit, push_all};
use crate::request::gotime::{quote_time, time_quote};
use crate::service::metadata::{all_digits, decimal_value};

verus! {

/// `1 << 63`, the bound Go checks durations against.
pub const DURATION_LIMIT: u64 = 9223372036854775808;

/// The integer digits of a component from `p`, added to `v`: the value and
/// where the digits end, or `None` past `1 << 63`.
pub open spec fn lead(s: Seq<u8>, p: int, v: int) -> Option<(int, int)>
    decreases s.len() - p,
{
    if 0 <= p < s.len() && is_digit(s[p]) {
        if v > (DURATION_LIMIT as int) / 10 {
            None
        } else {
            let w = v * 10 + (s[p] - 48);
            if w > DURATION_LIMIT {
                None
            } else {
                lead(s, p + 1, w)
            }
        }
    } else {
        Some((v, p))
    }
}

/// The fraction digits from `p`: the value of those that fit, how many of
/// them there are, and where the digits end. Digits past the first that
/// would overflow are read and ignored.
pub open spec fn frac(s: Seq<u8>, p: int, f: int, k: int, overflow: bool) -> (int, int, int)
    decreases s.len() - p,
{
    if 0 <= p < s.len() && is_digit(s[p]) {
        if overflow || f > (DURATION_LIMIT as int - 1) / 10 {
            frac(s, p + 1, f, k, true)
        } else {
            let y = f * 10 + (s[p] - 48);
            if y > DURATION_LIMIT {
                frac(s, p + 1, f, k, true)
            } else {
                frac(s, p + 1, y, k + 1, false)
            }
        }
    } else {
        (f, k, p)
    }
}

/// The end of a unit from `p`: the next `.` or digit, or the end.
pub open spec fn unit_end(s: Seq<u8>, p: int) -> int
    decreases s.len() - p,
{
    if 0 <= p < s.len() && !(s[p] == 46 || is_digit(s[p])) {
        unit_end(s, p + 1)
    } else {
        p
    }
}

/// Nanoseconds in a unit, or 0 for one Go does not know.
pub open spec fn unit_value(u: Seq<u8>) -> int {
    if u == seq![110u8, 115u8] {
        1
    } else if u == seq![117u8, 115u8] || u == seq![0xc2u8, 0xb5u8, 115u8] || u == seq![0xceu8, 0xbcu8, 115u8] {
        1000
    } else if u == seq![109u8, 115u8] {
        1000000
    } else if u == seq![115u8] {
        1000000000
    } else if u == seq![109u8] {
        60000000000
    } else if u == seq![104u8] {
        3600000000000
    } else {
        0
    }
}

/// Why a duration is refused.
pub enum DurErr {
    Invalid,
    MissingUnit,
    UnknownUnit(Seq<u8>),
}

/// One component: its whole part already in nanoseconds, its fraction as
/// digits and their count, and its unit.
pub struct PartV {
    pub whole: int,
    pub frac: int,
    pub digits: int,
    pub unit: int,
}

/// The component at `p`, and where the next one starts.
pub open spec fn component(s: Seq<u8>, p: int) -> Result<(PartV, int), DurErr> {
    if !(0 <= p < s.len() && (s[p] == 46 || is_digit(s[p]))) {
        Err(DurErr::Invalid)
    } else {
        match lead(s, p, 0) {
            None => Err(DurErr::Invalid),
            Some((v, q)) => {
                let dot = q < s.len() && s[q] == 46;
                let (f, k, r) = if dot { frac(s, q + 1, 0, 0, false) } else { (0, 0, q) };
                let pre = q != p;
                let post = dot && r != q + 1;
                if !pre && !post {
                    Err(DurErr::Invalid)
                } else {
                    let i = unit_end(s, r);
                    if i == r {
                        Err(DurErr::MissingUnit)
                    } else {
                        let u = s.subrange(r, i);
                        let unit = unit_value(u);
                        if unit == 0 {
                            Err(DurErr::UnknownUnit(u))
                        } else if v > (DURATION_LIMIT as int) / unit {
                            Err(DurErr::Invalid)
                        } else {
                            Ok((PartV { whole: v * unit, frac: f, digits: k, unit }, i))
                        }
                    }
                }
            },
        }
    }
}

/// The components from `p` on, and the error that ended them, if any.
pub open spec fn components(s: Seq<u8>, p: int) -> (Seq<PartV>, Option<DurErr>)
    decreases s.len() - p,
{
    if p < 0 || p >= s.len() {
        (Seq::empty(), None)
    } else {
        match component(s, p) {
            Err(e) => (Seq::empty(), Some(e)),
            Ok((c, next)) => if next <= p || next > s.len() {
                (Seq::empty(), Some(DurErr::Invalid))
            } else {
                let (rest, e) = components(s, next);
                (seq![c] + rest, e)
            },
        }
    }
}

/// The text of a refusal of `orig`.
pub open spec fn duration_error_text(orig: Seq<u8>, e: DurErr) -> Seq<u8> {
    match e {
        DurErr::Invalid => "time: invalid duration ".spec_bytes() + time_quote(orig),
        DurErr::MissingUnit => "time: missing unit in duration ".spec_bytes() + time_quote(orig),
        DurErr::UnknownUnit(u) => "time: unknown unit ".spec_bytes() + time_quote(u) + " in duration ".spec_bytes()
            + time_quote(orig),
    }
}

/// The text after the sign.
pub open spec fn unsigned(orig: Seq<u8>) -> Seq<u8> {
    if orig.len() > 0 && (orig[0] == 45 || orig[0] == 43) {
        orig.subrange(1, orig.len() as int)
    } else {
        orig
    }
}

/// A component, as the caller gets it.
#[derive(Debug, Clone, Copy, PartialEq, Eq)]
pub struct DurationPart {
    /// The integer part, in nanoseconds (at most `1 << 63`).
    pub whole: u64,
    /// The fraction's digits that fit, as an integer.
    pub frac: u64,
    /// How many digits `frac` has: the fraction is `frac / 10^digits`.
    pub digits: usize,
    /// Nanoseconds in the unit.
    pub unit: u64,
}

pub open spec fn part_v(p: DurationPart) -> PartV {
    PartV { whole: p.whole as int, frac: p.frac as int, digits: p.digits as int, unit: p.unit as int }
}

/// `time.ParseDuration` up to the fractions: the sign, whether the text is
/// `0`, the components in order, the refusal that ended them (its text), and
/// the text of the refusal an overflow gets.
#[derive(Debug, Clone, PartialEq, Eq)]
pub struct DurationScan {
    pub neg: bool,
    pub zero: bool,
    pub parts: Vec<DurationPart>,
    pub error: Option<Vec<u8>>,
    pub invalid: Vec<u8>,
}

fn lead_at(s: &[u8], p: usize) -> (r: Option<(u64, usize)>)
    requires
        p <= s@.len(),
    ensures
        match r {
            Some((v, q)) => lead(s@, p as int, 0) == Some((v as int, q as int)) && p <= q <= s@.len(),
            None => lead(s@, p as int, 0) is None,
        },
{
    let mut v: u64 = 0;
    let mut i = p;
    while i < s.len() && ascii_digit(s[i])
        invariant
            p <= i <= s@.len(),
            v <= DURATION_LIMIT,
            lead(s@, p as int, 0) == lead(s@, i as int, v as int),
        decreases s@.len() - i,
    {
        if v > DURATION_LIMIT / 10 {
            return None;
        }
        v = v * 10 + (s[i] - 48) as u64;
        if v > DURATION_LIMIT {
            return None;
        }
        i = i + 1;
    }
    Some((v, i))
}

fn frac_at(s: &[u8], p: usize) -> (r: (u64, usize, usize))
    requires
        p <= s@.len(),
    ensures
        frac(s@, p as int, 0, 0, false) == (r.0 as int, r.1 as int, r.2 as int),
        p <= r.2 <= s@.len(),
{
    let mut f: u64 = 0;
    let mut k: usize = 0;
    let mut overflow = false;
    let mut i = p;
    while i < s.len() && ascii_digit(s[i])
        invariant
            p <= i <= s@.len(),
            f <= DURATION_LIMIT,
            k <= i - p,
            frac(s@, p as int, 0, 0, false) == frac(s@, i as int, f as int, k as int, overflow),
        decreases s@.len() - i,
    {
        if !overflow {
            if f > (DURATION_LIMIT - 1) / 10 {
                overflow = true;
            } else {
                let y = f * 10 + (s[i] - 48) as u64;
                if y > DURATION_LIMIT {
                    overflow = true;
                } else {
                    f = y;
                    k = k + 1;
                }
            }
        }
        i = i + 1;
    }
    (f, k, i)
}

fn unit_end_at(s: &[u8], p: usize) -> (r: usize)
    requires
        p <= s@.len(),
    ensures
        r == unit_end(s@, p as int),
        p <= r <= s@.len(),
{
    let mut i = p;
    while i < s.len() && !(s[i] == 46 || ascii_digit(s[i]))
        invariant
            p <= i <= s@.len(),
            unit_end(s@, p as int) == unit_end(s@, i as int),
        decreases s@.len() - i,
    {
        i = i + 1;
    }
    i
}

fn unit_of(u: &[u8]) -> (r: u64)
    ensures
        r == unit_value(u@),
{
    let n = u.len();
    if n == 2 && u[0] == 110 && u[1] == 115 {
        assert(u@ =~= seq![110u8, 115u8]);
        return 1;
    }
    if n == 2 && u[0] == 117 && u[1] == 115 {
        assert(u@ =~= seq![117u8, 115u8]);
        return 1000;
    }
    if n == 3 && u[0] == 0xc2 && u[1] == 0xb5 && u[2] == 115 {
        assert(u@ =~= seq![0xc2u8, 0xb5u8, 115u8]);
        return 1000;
    }
    if n == 3 && u[0] == 0xce && u[1] == 0xbc && u[2] == 115 {
        assert(u@ =~= seq![0xceu8, 0xbcu8, 115u8]);
        return 1000;
    }
    if n == 2 && u[0] == 109 && u[1] == 115 {
        assert(u@ =~= seq![109u8, 115u8]);
        return 1000000;
    }
    if n == 1 && u[0] == 115 {
        assert(u@ =~= seq![115u8]);
        return 1000000000;
    }
    if n == 1 && u[0] == 109 {
        assert(u@ =~= seq![109u8]);
        return 60000000000;
    }
    if n == 1 && u[0] == 104 {
        assert(u@ =~= seq![104u8]);
        return 3600000000000;
    }
    proof {
        if u@.len() == 2 {
            assert(u@ != seq![110u8, 115u8] && u@ != seq![117u8, 115u8] && u@ != seq![109u8, 115u8]) by {
                if u@ == seq![110u8, 115u8] {
                    assert(u@[0] == 110 && u@[1] == 115);
                }
                if u@ == seq![117u8, 115u8] {
                    assert(u@[0] == 117 && u@[1] == 115);
                }
                if u@ == seq![109u8, 115u8] {
                    assert(u@[0] == 109 && u@[1] == 115);
                }
            }
        }
        if u@.len() == 3 {
            assert(u@ != seq![0xc2u8, 0xb5u8, 115u8] && u@ != seq![0xceu8, 0xbcu8, 115u8]) by {
                if u@ == seq![0xc2u8, 0xb5u8, 115u8] {
                    assert(u@[0] == 0xc2 && u@[1] == 0xb5 && u@[2] == 115);
                }
                if u@ == seq![0xceu8, 0xbcu8, 115u8] {
                    assert(u@[0] == 0xce && u@[1] == 0xbc && u@[2] == 115);
                }
            }
        }
        if u@.len() == 1 {
            assert(u@ != seq![115u8] && u@ != seq![109u8] && u@ != seq![104u8]) by {
                if u@ == seq![115u8] {
                    assert(u@[0] == 115);
                }
                if u@ == seq![109u8] {
                    assert(u@[0] == 109);
                }
                if u@ == seq![104u8] {
                    assert(u@[0] == 104);
                }
            }
        }
    }
    0
}

/// A refusal as the scanner carries it.
enum DurFail {
    Invalid,
    MissingUnit,
    UnknownUnit(Vec<u8>),
}

spec fn fail_v(f: DurFail) -> DurErr {
    match f {
        DurFail::Invalid => DurErr::Invalid,
        DurFail::MissingUnit => DurErr::MissingUnit,
        DurFail::UnknownUnit(u) => DurErr::UnknownUnit(u@),
    }
}

fn component_at(s: &[u8], p: usize) -> (r: Result<(DurationPart, usize), DurFail>)
    requires
        p <= s@.len(),
    ensures
        match r {
            Ok((c, next)) => component(s@, p as int) == Ok::<(PartV, int), DurErr>((part_v(c), next as int)) && p
                < next <= s@.len() && c.whole <= DURATION_LIMIT,
            Err(f) => component(s@, p as int) == Err::<(PartV, int), DurErr>(fail_v(f)),
        },
{
    if !(p < s.len() && (s[p] == 46 || ascii_digit(s[p]))) {
        return Err(DurFail::Invalid);
    }
    let (v, q) = match lead_at(s, p) {
        Some(x) => x,
        None => {
            return Err(DurFail::Invalid);
        },
    };
    let dot = q < s.len() && s[q] == 46;
    let (f, k, r) = if dot { frac_at(s, q + 1) } else { (0, 0, q) };
    let pre = q != p;
    let post = dot && r != q + 1;
    if !pre && !post {
        return Err(DurFail::Invalid);
    }
    let i = unit_end_at(s, r);
    if i == r {
        return Err(DurFail::MissingUnit);
    }
    let u = vstd::slice::slice_subrange(s, r, i);
    let unit = unit_of(u);
    if unit == 0 {
        return Err(DurFail::UnknownUnit(copy_bytes(u)));
    }
    if v > DURATION_LIMIT / unit {
        return Err(DurFail::Invalid);
    }
    assert(v * unit <= DURATION_LIMIT) by (nonlinear_arith)
        requires
            v <= DURATION_LIMIT / unit,
            unit > 0,
    ;
    Ok((DurationPart { whole: v * unit, frac: f, digits: k, unit }, i))
}

fn error_text(orig: &[u8], f: DurFail) -> (m: Vec<u8>)
    ensures
        m@ == duration_error_text(orig@, fail_v(f)),
{
    match f {
        DurFail::Invalid => {
            let mut m = copy_bytes("time: invalid duration ".as_bytes());
            push_all(&mut m, quote_time(orig).as_slice());
            m
        },
        DurFail::MissingUnit => {
            let mut m = copy_bytes("time: missing unit in duration ".as_bytes());
            push_all(&mut m, quote_time(orig).as_slice());
            m
        },
        DurFail::UnknownUnit(u) => {
            let mut m = copy_bytes("time: unknown unit ".as_bytes());
            push_all(&mut m, quote_time(u.as_slice()).as_slice());
            push_all(&mut m, " in duration ".as_bytes());
            push_all(&mut m, quote_time(orig).as_slice());
            m
        },
    }
}

/// What the scan of `orig` holds: see [`duration_scan`].
pub open spec fn scan_is(orig: Seq<u8>, r: DurationScan) -> bool {
        ({
            let s = unsigned(orig);
            &&& r.neg == (orig.len() > 0 && orig[0] == 45)
            &&& r.zero == (s == seq![48u8])
            &&& r.invalid@ == duration_error_text(orig, DurErr::Invalid)
            &&& !r.zero ==> if s.len() == 0 {
                r.parts@.len() == 0 && (r.error matches Some(m) && m@ == duration_error_text(orig, DurErr::Invalid))
            } else {
                let (ps, e) = components(s, 0);
                &&& r.parts@.map_values(|p: DurationPart| part_v(p)) == ps
                &&& match e {
                    None => r.error is None,
                    Some(x) => r.error matches Some(m) && m@ == duration_error_text(orig, x),
                }
            }
            &&& r.zero ==> r.parts@.len() == 0 && r.error is None
            &&& forall|q: int| 0 <= q < r.parts@.len() ==> #[trigger] r.parts@[q].whole <= DURATION_LIMIT
        })
}

/// `time.ParseDuration` of `orig`, all but the fractions: see
/// [`DurationScan`]. With no error and no fraction, the duration is the sum
/// of the wholes, negated for a `-`; past `1 << 63` it is refused with
/// `invalid`.
pub fn duration_scan(orig: &[u8]) -> (r: DurationScan)
    ensures
        scan_is(orig@, r),
{
    let neg = orig.len() > 0 && orig[0] == 45;
    let signed = orig.len() > 0 && (orig[0] == 45 || orig[0] == 43);
    let s = if signed { vstd::slice::slice_subrange(orig, 1, orig.len()) } else { orig };
    assert(s@ == unsigned(orig@));
    let invalid = error_text(orig, DurFail::Invalid);
    let zero = s.len() == 1 && s[0] == 48;
    assert(zero == (s@ == seq![48u8])) by {
        if s@ == seq![48u8] {
            assert(s@[0] == 48);
        }
        if zero {
            assert(s@ =~= seq![48u8]);
        }
    }
    if zero {
        return DurationScan { neg, zero, parts: Vec::new(), error: None, invalid };
    }
    if s.len() == 0 {
        return DurationScan { neg, zero, parts: Vec::new(), error: Some(error_text(orig, DurFail::Invalid)), invalid };
    }
    let mut parts: Vec<DurationPart> = Vec::new();
    let mut p: usize = 0;
    assert(parts@.map_values(|c: DurationPart| part_v(c)) =~= Seq::<PartV>::empty());
    loop
        invariant
            p <= s@.len(),
            s@ == unsigned(orig@),
            s@.len() > 0,
            !zero,
            zero == (s@ == seq![48u8]),
            neg == (orig@.len() > 0 && orig@[0] == 45),
            invalid@ == duration_error_text(orig@, DurErr::Invalid),
            forall|q: int| 0 <= q < parts@.len() ==> #[trigger] parts@[q].whole <= DURATION_LIMIT,
            ({
                let (ps, e) = components(s@, 0);
                let (rest, e2) = components(s@, p as int);
                ps == parts@.map_values(|c: DurationPart| part_v(c)) + rest && e == e2
            }),
        decreases s@.len() - p,
    {
        if p >= s.len() {
            assert(parts@.map_values(|c: DurationPart| part_v(c)) + Seq::<PartV>::empty() =~= parts@.map_values(
                |c: DurationPart| part_v(c),
            ));
            return DurationScan { neg, zero, parts, error: None, invalid };
        }
        match component_at(s, p) {
            Err(f) => {
                assert(parts@.map_values(|c: DurationPart| part_v(c)) + Seq::<PartV>::empty() =~= parts@.map_values(
                    |c: DurationPart| part_v(c),
                ));
                let m = error_text(orig, f);
                return DurationScan { neg, zero, parts, error: Some(m), invalid };
            },
            Ok((c, next)) => {
                let ghost before = parts@.map_values(|x: DurationPart| part_v(x));
                let ghost rest = components(s@, next as int).0;
                parts.push(c);
                assert(parts@.map_values(|x: DurationPart| part_v(x)) =~= before.push(part_v(c)));
                assert(before + (seq![part_v(c)] + rest) =~= before.push(part_v(c)) + rest);
                p = next;
            },
        }
    }
}


/// A sum of two 64-bit values, wrapped.
pub open spec fn wrap64(x: int) -> int {
    if x > u64::MAX {
        x - 0x1_0000_0000_0000_0000
    } else {
        x
    }
}

/// The components from the `q`-th on added to `d` as Go adds them, in
/// wrapping 64-bit arithmetic: a component with a fraction gets `fracs[q]`
/// (its fraction in nanoseconds, worked out in `float64` by the caller).
/// `None` once a component or the sum passes `1 << 63`.
pub open spec fn duration_sum(parts: Seq<PartV>, fracs: Seq<int>, q: int, d: int) -> Option<int>
    decreases parts.len() - q,
{
    if q < 0 || q >= parts.len() {
        Some(d)
    } else {
        let p = parts[q];
        let v = if p.frac > 0 {
            wrap64(p.whole + fracs[q])
        } else {
            p.whole
        };
        if p.frac > 0 && v > DURATION_LIMIT {
            None
        } else {
            let d2 = wrap64(d + v);
            if d2 > DURATION_LIMIT {
                None
            } else {
                duration_sum(parts, fracs, q + 1, d2)
            }
        }
    }
}

/// `time.ParseDuration` after its scan: the components summed, the scan's
/// error, the sign. The error text is the scan's.
pub open spec fn spec_duration_total(
    neg: bool,
    zero: bool,
    parts: Seq<PartV>,
    error: Option<Seq<u8>>,
    invalid: Seq<u8>,
    fracs: Seq<int>,
) -> Result<int, Seq<u8>> {
    if zero {
        Ok(0)
    } else {
        match duration_sum(parts, fracs, 0, 0) {
            None => Err(invalid),
            Some(d) => match error {
                Some(e) => Err(e),
                None => if neg {
                    Ok(-d)
                } else if d > DURATION_LIMIT - 1 {
                    Err(invalid)
                } else {
                    Ok(d)
                },
            },
        }
    }
}

/// The duration a scan comes to, with the fractions `fracs`.
pub open spec fn total_of(scan: DurationScan, fracs: Seq<u64>) -> Result<int, Seq<u8>> {
    spec_duration_total(
        scan.neg,
        scan.zero,
        scan.parts@.map_values(|p: DurationPart| part_v(p)),
        match scan.error {
            Some(e) => Some(e@),
            None => None,
        },
        scan.invalid@,
        fracs.map_values(|f: u64| f as int),
    )
}

/// A leading `-` negates a duration: scanned and summed with the same
/// fractions, `-s` comes to minus what `s` comes to.
pub proof fn lemma_minus_negates(s: Seq<u8>, plain: DurationScan, minus: DurationScan, fracs: Seq<u64>, d: int)
    requires
        s.len() > 0,
        s[0] != 45,
        s[0] != 43,
        scan_is(s, plain),
        scan_is(seq![45u8] + s, minus),
        total_of(plain, fracs) == Ok::<int, Seq<u8>>(d),
    ensures
        total_of(minus, fracs) == Ok::<int, Seq<u8>>(-d),
{
    let m = seq![45u8] + s;
    assert(m.subrange(1, m.len() as int) =~= s);
    assert(unsigned(m) == s);
    assert(unsigned(s) == s);
    assert(plain.parts@ =~= minus.parts@) by {
        let pv = plain.parts@.map_values(|p: DurationPart| part_v(p));
        let mv = minus.parts@.map_values(|p: DurationPart| part_v(p));
        assert(pv == mv);
        assert forall|q: int| 0 <= q < plain.parts@.len() implies plain.parts@[q] == minus.parts@[q] by {
            assert(pv[q] == mv[q]);
        }
    }
}

/// `time.ParseDuration` from its scan: `fracs[q]` is what the `q`-th
/// component's fraction adds, in nanoseconds.
pub fn duration_total(scan: &DurationScan, fracs: &Vec<u64>) -> (r: Result<i64, Vec<u8>>)
    requires
        fracs@.len() == scan.parts@.len(),
        forall|q: int| 0 <= q < scan.parts@.len() ==> #[trigger] scan.parts@[q].whole <= DURATION_LIMIT,
    ensures
        match r {
            Ok(v) => total_of(*scan, fracs@) == Ok::<int, Seq<u8>>(v as int),
            Err(m) => total_of(*scan, fracs@) == Err::<int, Seq<u8>>(m@),
        },
{
    let ghost ps = scan.parts@.map_values(|p: DurationPart| part_v(p));
    let ghost fs = fracs@.map_values(|f: u64| f as int);
    if scan.zero {
        return Ok(0);
    }
    let mut d: u64 = 0;
    let mut q: usize = 0;
    while q < scan.parts.len()
        invariant
            q <= scan.parts@.len(),
            fracs@.len() == scan.parts@.len(),
            ps == scan.parts@.map_values(|p: DurationPart| part_v(p)),
            fs == fracs@.map_values(|f: u64| f as int),
            forall|k: int| 0 <= k < scan.parts@.len() ==> #[trigger] scan.parts@[k].whole <= DURATION_LIMIT,
            d <= DURATION_LIMIT,
            !scan.zero,
            duration_sum(ps, fs, 0, 0) == duration_sum(ps, fs, q as int, d as int),
        decreases scan.parts@.len() - q,
    {
        let part = &scan.parts[q];
        assert(ps[q as int] == part_v(*part));
        assert(fs[q as int] == fracs@[q as int] as int);
        let mut v = part.whole;
        if part.frac > 0 {
            v = v.wrapping_add(fracs[q]);
            if v > DURATION_LIMIT {
                return Err(copy_bytes(scan.invalid.as_slice()));
            }
        }
        d = d.wrapping_add(v);
        if d > DURATION_LIMIT {
            return Err(copy_bytes(scan.invalid.as_slice()));
        }
        q = q + 1;
    }
    match &scan.error {
        Some(e) => {
            return Err(copy_bytes(e.as_slice()));
        },
        None => {},
    }
    if scan.neg {
        if d == DURATION_LIMIT {
            return Ok(i64::MIN);
        }
        let n = d as i64;
        return Ok(-n);
    }
    if d > DURATION_LIMIT - 1 {
        return Err(copy_bytes(scan.invalid.as_slice()));
    }
    Ok(d as i64)
}

/// The number of components the scan of `orig` gives: how many fractions
/// [`parse_duration_with`] takes.
pub open spec fn component_count(orig: Seq<u8>) -> int {
    let s = unsigned(orig);
    if s == seq![48u8] || s.len() == 0 {
        0
    } else {
        components(s, 0).0.len() as int
    }
}

/// `time.ParseDuration` of `orig`, in nanoseconds, with the fractions
/// `fracs`: the sign, the components, the first refusal, the sum.
pub open spec fn spec_parse_duration(orig: Seq<u8>, fracs: Seq<u64>) -> Result<int, Seq<u8>> {
    let s = unsigned(orig);
    let zero = s == seq![48u8];
    let (parts, error): (Seq<PartV>, Option<Seq<u8>>) = if zero {
        (Seq::empty(), None)
    } else if s.len() == 0 {
        (Seq::empty(), Some(duration_error_text(orig, DurErr::Invalid)))
    } else {
        let (ps, e) = components(s, 0);
        (ps, match e {
            None => None,
            Some(x) => Some(duration_error_text(orig, x)),
        })
    };
    spec_duration_total(
        orig.len() > 0 && orig[0] == 45,
        zero,
        parts,
        error,
        duration_error_text(orig, DurErr::Invalid),
        fracs.map_values(|f: u64| f as int),
    )
}

/// `time.ParseDuration` of `orig`, in nanoseconds: `fracs[q]` is what the
/// `q`-th component's fraction adds, worked out in `float64` by the caller.
pub fn parse_duration_with(orig: &[u8], fracs: &Vec<u64>) -> (r: Result<i64, Vec<u8>>)
    requires
        fracs@.len() == component_count(orig@),
    ensures
        match r {
            Ok(v) => spec_parse_duration(orig@, fracs@) == Ok::<int, Seq<u8>>(v as int),
            Err(m) => spec_parse_duration(orig@, fracs@) == Err::<int, Seq<u8>>(m@),
        },
{
    let scan = duration_scan(orig);
    proof {
        assert(scan.parts@.len() == scan.parts@.map_values(|p: DurationPart| part_v(p)).len());
        let s = unsigned(orig@);
        if s == seq![48u8] {
            assert(scan.parts@.map_values(|p: DurationPart| part_v(p)) =~= Seq::<PartV>::empty());
        } else if s.len() == 0 {
            assert(scan.parts@.map_values(|p: DurationPart| part_v(p)) =~= Seq::<PartV>::empty());
        }
        assert(total_of(scan, fracs@) == spec_parse_duration(orig@, fracs@));
    }
    duration_total(&scan, fracs)
}

proof fn lemma_decimal_nonneg(d: Seq<u8>)
    requires
        all_digits(d),
    ensures
        decimal_value(d) >= 0,
    decreases d.len(),
{
    if d.len() > 0 {
        assert(all_digits(d.drop_last()));
        lemma_decimal_nonneg(d.drop_last());
        assert(is_digit(d[d.len() - 1]));
    }
}

/// A prefix of digits is worth no more than the whole.
proof fn lemma_decimal_prefix(d: Seq<u8>, q: int)
    requires
        all_digits(d),
        0 <= q <= d.len(),
    ensures
        0 <= decimal_value(d.take(q)) <= decimal_value(d),
    decreases d.len(),
{
    lemma_decimal_nonneg(d);
    if q == d.len() {
        assert(d.take(q) =~= d);
    } else {
        let e = d.drop_last();
        assert(all_digits(e));
        assert(e.take(q) =~= d.take(q));
        lemma_decimal_prefix(e, q);
        lemma_decimal_nonneg(e);
        assert(is_digit(d[d.len() - 1]));
    }
}

/// The integer digits `d` of a component, followed by `s[d.len()]` that is
/// not a digit, are read as their decimal value.
proof fn lemma_lead_digits(s: Seq<u8>, d: Seq<u8>, p: int)
    requires
        all_digits(d),
        d.len() <= s.len(),
        s.subrange(0, d.len() as int) == d,
        d.len() < s.len() ==> !is_digit(s[d.len() as int]),
        decimal_value(d) <= DURATION_LIMIT,
        0 <= p <= d.len(),
    ensures
        lead(s, p, decimal_value(d.take(p))) == Some((decimal_value(d), d.len() as int)),
    decreases d.len() - p,
{
    if p == d.len() {
        assert(d.take(p) =~= d);
    } else {
        assert(s[p] == d[p]);
        assert(d.take(p + 1).drop_last() =~= d.take(p));
        lemma_decimal_prefix(d, p + 1);
        lemma_decimal_prefix(d, p);
        let v = decimal_value(d.take(p));
        assert(decimal_value(d.take(p + 1)) == v * 10 + (d[p] - 48));
        assert(is_digit(d[p]));
        assert(v <= (DURATION_LIMIT as int) / 10);
        lemma_lead_digits(s, d, p + 1);
    }
}

/// A duration of digits and one unit is the digits' value times the unit's
/// nanoseconds: 1 for `ns`, 1000 for `us`, `µs` and `μs`, a million for
/// `ms`, a thousand million for `s`, sixty times that for `m` and 3600 times
/// that for `h`.
pub proof fn lemma_duration_units(d: Seq<u8>, u: Seq<u8>, n: int, fracs: Seq<u64>)
    requires
        d.len() > 0,
        all_digits(d),
        (u == seq![110u8, 115u8] && n == 1) || (u == seq![117u8, 115u8] && n == 1000) || (u == seq![0xc2u8, 0xb5u8, 115u8]
            && n == 1000) || (u == seq![0xceu8, 0xbcu8, 115u8] && n == 1000) || (u == seq![109u8, 115u8] && n == 1_000_000)
            || (u == seq![115u8] && n == 1_000_000_000) || (u == seq![109u8] && n == 60_000_000_000) || (u == seq![104u8]
            && n == 3_600_000_000_000),
        decimal_value(d) * n < DURATION_LIMIT,
    ensures
        spec_parse_duration(d + u, fracs) == Ok::<int, Seq<u8>>(decimal_value(d) * n),
{
    let s = d + u;
    let v = decimal_value(d);
    lemma_decimal_nonneg(d);
    assert(v <= DURATION_LIMIT) by (nonlinear_arith)
        requires
            v * n < DURATION_LIMIT,
            v >= 0,
            n >= 1,
    ;
    assert(s.subrange(0, d.len() as int) =~= d);
    assert(!is_digit(s[d.len() as int]));
    assert(d.take(0) =~= Seq::<u8>::empty());
    lemma_lead_digits(s, d, 0);
    assert(is_digit(s[0])) by {
        assert(s[0] == d[0]);
    }
    let q = d.len() as int;
    assert(lead(s, 0, 0) == Some((v, q)));
    assert(unit_end(s, q) == s.len()) by {
        reveal_with_fuel(unit_end, 4);
        assert(forall|k: int| q <= k < s.len() ==> s[k] == u[k - q]);
    }
    assert(s.subrange(q, s.len() as int) =~= u);
    assert(unit_value(u) == n);
    assert(v <= (DURATION_LIMIT as int) / n) by (nonlinear_arith)
        requires
            v * n < DURATION_LIMIT,
            v >= 0,
            n >= 1,
    ;
    let c = PartV { whole: v * n, frac: 0, digits: 0, unit: n };
    assert(component(s, 0) == Ok::<(PartV, int), DurErr>((c, s.len() as int)));
    assert(components(s, s.len() as int) == (Seq::<PartV>::empty(), None::<DurErr>));
    assert(components(s, 0) == (seq![c], None::<DurErr>)) by {
        assert(seq![c] + Seq::<PartV>::empty() =~= seq![c]);
    }
    assert(unsigned(s) == s);
    assert(s != seq![48u8]);
    let fs = fracs.map_values(|f: u64| f as int);
    assert(duration_sum(seq![c], fs, 1, v * n) == Some(v * n));
    assert(duration_sum(seq![c], fs, 0, 0) == Some(v * n));
}

proof fn lemma_unit_end_all(s: Seq<u8>, p: int)
    requires
        0 <= p <= s.len(),
        forall|k: int| p <= k < s.len() ==> !(s[k] == 46 || is_digit(#[trigger] s[k])),
    ensures
        unit_end(s, p) == s.len(),
    decreases s.len() - p,
{
    if p < s.len() {
        lemma_unit_end_all(s, p + 1);
    }
}

/// Digits and a unit Go does not know are refused, naming the unit.
pub proof fn lemma_duration_unknown_unit(d: Seq<u8>, u: Seq<u8>, fracs: Seq<u64>)
    requires
        d.len() > 0,
        all_digits(d),
        decimal_value(d) <= DURATION_LIMIT,
        u.len() > 0,
        forall|k: int| 0 <= k < u.len() ==> !(u[k] == 46 || is_digit(#[trigger] u[k])),
        u != seq![110u8, 115u8],
        u != seq![117u8, 115u8],
        u != seq![0xc2u8, 0xb5u8, 115u8],
        u != seq![0xceu8, 0xbcu8, 115u8],
        u != seq![109u8, 115u8],
        u != seq![115u8],
        u != seq![109u8],
        u != seq![104u8],
    ensures
        spec_parse_duration(d + u, fracs) == Err::<int, Seq<u8>>(
            "time: unknown unit ".spec_bytes() + time_quote(u) + " in duration ".spec_bytes() + time_quote(d + u),
        ),
{
    let s = d + u;
    let q = d.len() as int;
    lemma_decimal_nonneg(d);
    assert(s.subrange(0, q) =~= d);
    assert(s[q] == u[0]);
    assert(d.take(0) =~= Seq::<u8>::empty());
    lemma_lead_digits(s, d, 0);
    assert(s[0] == d[0]);
    assert forall|k: int| q <= k < s.len() implies !(s[k] == 46 || is_digit(#[trigger] s[k])) by {
        assert(s[k] == u[k - q]);
    }
    lemma_unit_end_all(s, q);
    assert(s.subrange(q, s.len() as int) =~= u);
    assert(unit_value(u) == 0);
    assert(components(s, 0) == (Seq::<PartV>::empty(), Some(DurErr::UnknownUnit(u))));
    assert(unsigned(s) == s);
    assert(s != seq![48u8]);
}

} // verus!
