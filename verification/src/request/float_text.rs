//! The reading half of `strconv.ParseFloat` (`readFloat`): the sign, the
//! mantissa digits that fit, the decimal (or binary) exponent, and where
//! the number ends. Turning that into a `float64` is floating-point work
//! and is left to the caller.
use vstd::prelude::*;
use crate::bytes::{ascii_digit, ascii_to_lower, is_digit, to_lower};
use crate::request::strconv::{spec_underscore_ok, underscore_ok};

verus! {

/// What `readFloat` gathers as it goes.
pub struct Mant {
    pub mantissa: int,
    pub nd: int,
    pub nd_mant: int,
    pub dp: int,
    pub sawdot: bool,
    pub sawdigits: bool,
    pub trunc: bool,
    pub underscores: bool,
    pub i: int,
}

pub open spec fn hex_letter(c: u8) -> bool {
    97 <= to_lower(c) <= 102
}

/// The mantissa loop of `readFloat` from state `m`, in `base` (10 or 16),
/// keeping at most `max` digits.
pub open spec fn mant_loop(s: Seq<u8>, base: int, max: int, m: Mant) -> Mant
    decreases s.len() - m.i,
{
    if m.i < 0 || m.i >= s.len() {
        m
    } else {
        let c = s[m.i];
        let next = m.i + 1;
        if c == 95 {
            mant_loop(s, base, max, Mant { underscores: true, i: next, ..m })
        } else if c == 46 {
            if m.sawdot {
                m
            } else {
                mant_loop(s, base, max, Mant { sawdot: true, dp: m.nd, i: next, ..m })
            }
        } else if is_digit(c) {
            if c == 48 && m.nd == 0 {
                mant_loop(s, base, max, Mant { sawdigits: true, dp: m.dp - 1, i: next, ..m })
            } else if m.nd_mant < max {
                mant_loop(
                    s,
                    base,
                    max,
                    Mant {
                        sawdigits: true,
                        nd: m.nd + 1,
                        mantissa: m.mantissa * base + (c - 48),
                        nd_mant: m.nd_mant + 1,
                        i: next,
                        ..m
                    },
                )
            } else {
                mant_loop(s, base, max, Mant { sawdigits: true, nd: m.nd + 1, trunc: m.trunc || c != 48, i: next, ..m })
            }
        } else if base == 16 && hex_letter(c) {
            if m.nd_mant < max {
                mant_loop(
                    s,
                    base,
                    max,
                    Mant {
                        sawdigits: true,
                        nd: m.nd + 1,
                        mantissa: m.mantissa * 16 + (to_lower(c) - 87),
                        nd_mant: m.nd_mant + 1,
                        i: next,
                        ..m
                    },
                )
            } else {
                mant_loop(s, base, max, Mant { sawdigits: true, nd: m.nd + 1, trunc: true, i: next, ..m })
            }
        } else {
            m
        }
    }
}

/// The exponent digits from `i`: the value (digits past 10000 are read and
/// ignored), whether an underscore was seen, and where they end.
pub open spec fn exp_loop(s: Seq<u8>, i: int, e: int, underscores: bool) -> (int, bool, int)
    decreases s.len() - i,
{
    if 0 <= i < s.len() && (is_digit(s[i]) || s[i] == 95) {
        if s[i] == 95 {
            exp_loop(s, i + 1, e, true)
        } else if e < 10000 {
            exp_loop(s, i + 1, e * 10 + (s[i] - 48), underscores)
        } else {
            exp_loop(s, i + 1, e, underscores)
        }
    } else {
        (e, underscores, i)
    }
}

/// What `readFloat` returns: mantissa, exponent (of 10, or of 2 for hex),
/// sign, whether digits were dropped, hex or not, and where it stopped.
pub struct FloatV {
    pub mantissa: int,
    pub exp: int,
    pub neg: bool,
    pub trunc: bool,
    pub hex: bool,
    pub end: int,
}

pub open spec fn start_state(i: int) -> Mant {
    Mant {
        mantissa: 0,
        nd: 0,
        nd_mant: 0,
        dp: 0,
        sawdot: false,
        sawdigits: false,
        trunc: false,
        underscores: false,
        i,
    }
}

/// `readFloat`.
pub open spec fn spec_read_float(s: Seq<u8>) -> Option<FloatV> {
    if s.len() == 0 {
        None
    } else {
        let neg = s[0] == 45;
        let i0: int = if s[0] == 43 || s[0] == 45 { 1 } else { 0 };
        let hex = i0 + 2 < s.len() && s[i0] == 48 && to_lower(s[i0 + 1]) == 120;
        let base: int = if hex { 16 } else { 10 };
        let max: int = if hex { 16 } else { 19 };
        let exp_char: u8 = if hex { 112 } else { 101 };
        let m = mant_loop(s, base, max, start_state(if hex { i0 + 2 } else { i0 }));
        if !m.sawdigits {
            None
        } else {
            let dp0 = if m.sawdot { m.dp } else { m.nd };
            let dp1 = if hex { dp0 * 4 } else { dp0 };
            let ndm = if hex { m.nd_mant * 4 } else { m.nd_mant };
            let i = m.i;
            let tail: Option<(int, bool, int)> = if i < s.len() && to_lower(s[i]) == exp_char {
                let j = i + 1;
                if j >= s.len() {
                    None
                } else {
                    let esign: int = if s[j] == 45 { -1 } else { 1 };
                    let k = if s[j] == 43 || s[j] == 45 { j + 1 } else { j };
                    if k >= s.len() || !is_digit(s[k]) {
                        None
                    } else {
                        let (e, u, end) = exp_loop(s, k, 0, m.underscores);
                        Some((dp1 + e * esign, u, end))
                    }
                }
            } else if hex {
                None
            } else {
                Some((dp1, m.underscores, i))
            };
            match tail {
                None => None,
                Some((dp, u, end)) => if u && !spec_underscore_ok(s.subrange(0, end)) {
                    None
                } else {
                    Some(
                        FloatV {
                            mantissa: m.mantissa,
                            exp: if m.mantissa != 0 { dp - ndm } else { 0 },
                            neg,
                            trunc: m.trunc,
                            hex,
                            end,
                        },
                    )
                },
            }
        }
    }
}

/// What `readFloat` returns.
#[derive(Debug, Clone, Copy, PartialEq, Eq)]
pub struct ReadFloat {
    pub mantissa: u64,
    pub exp: i64,
    pub neg: bool,
    pub trunc: bool,
    pub hex: bool,
    pub end: usize,
}

pub open spec fn read_float_v(r: ReadFloat) -> FloatV {
    FloatV {
        mantissa: r.mantissa as int,
        exp: r.exp as int,
        neg: r.neg,
        trunc: r.trunc,
        hex: r.hex,
        end: r.end as int,
    }
}

/// `base` to the power `k`.
pub open spec fn power(base: int, k: nat) -> int
    decreases k,
{
    if k == 0 {
        1
    } else {
        base * power(base, (k - 1) as nat)
    }
}

proof fn lemma_power_bounds()
    ensures
        power(10, 19) == 10000000000000000000,
        power(16, 16) == 0x1_0000_0000_0000_0000,
{
    reveal_with_fuel(power, 20);
}

/// The mantissa loop.
fn mant_at(s: &[u8], base: u64, max: i64, start: usize) -> (r: (u64, i64, i64, i64, bool, bool, bool, bool, usize))
    requires
        base == 10 || base == 16,
        max == (if base == 16 { 16int } else { 19int }),
        start <= s@.len(),
        s@.len() < 0x1000_0000_0000_0000,
    ensures
        mant_loop(s@, base as int, max as int, start_state(start as int)) == (Mant {
            mantissa: r.0 as int,
            nd: r.1 as int,
            nd_mant: r.2 as int,
            dp: r.3 as int,
            sawdot: r.4,
            sawdigits: r.5,
            trunc: r.6,
            underscores: r.7,
            i: r.8 as int,
        }),
        start <= r.8 <= s@.len(),
        0 <= r.2 <= max,
        -(s@.len() as int) <= r.3 <= s@.len(),
        0 <= r.1 <= s@.len(),
{
    let mut mantissa: u64 = 0;
    let mut nd: i64 = 0;
    let mut nd_mant: i64 = 0;
    let mut dp: i64 = 0;
    let mut sawdot = false;
    let mut sawdigits = false;
    let mut trunc = false;
    let mut underscores = false;
    let mut i = start;
    proof {
        lemma_power_bounds();
    }
    while i < s.len()
        invariant_except_break
            start <= i <= s@.len(),
            s@.len() < 0x1000_0000_0000_0000,
            base == 10 || base == 16,
            max == (if base == 16 { 16int } else { 19int }),
            power(10, 19) == 10000000000000000000,
            power(16, 16) == 0x1_0000_0000_0000_0000,
            0 <= nd_mant <= max,
            mantissa < power(base as int, nd_mant as nat),
            0 <= nd <= i,
            -(i as int) <= dp <= i,
            mant_loop(s@, base as int, max as int, start_state(start as int)) == mant_loop(
                s@,
                base as int,
                max as int,
                Mant { mantissa: mantissa as int, nd: nd as int, nd_mant: nd_mant as int, dp: dp as int, sawdot, sawdigits, trunc, underscores, i: i as int },
            ),
        ensures
            start <= i <= s@.len(),
            0 <= nd_mant <= max,
            0 <= nd <= i,
            -(i as int) <= dp <= i,
            mant_loop(s@, base as int, max as int, start_state(start as int)) == (Mant {
                mantissa: mantissa as int,
                nd: nd as int,
                nd_mant: nd_mant as int,
                dp: dp as int,
                sawdot,
                sawdigits,
                trunc,
                underscores,
                i: i as int,
            }),
        decreases s@.len() - i,
    {
        let c = s[i];
        if c == 95 {
            underscores = true;
        } else if c == 46 {
            if sawdot {
                break;
            }
            sawdot = true;
            dp = nd;
        } else if ascii_digit(c) {
            sawdigits = true;
            if c == 48 && nd == 0 {
                dp = dp - 1;
            } else {
                nd = nd + 1;
                if nd_mant < max {
                    let d = (c - 48) as u64;
                    proof {
                        lemma_mantissa_step(base as int, nd_mant as nat, mantissa as int, d as int, max as int);
                    }
                    mantissa = mantissa * base + d;
                    nd_mant = nd_mant + 1;
                } else if c != 48 {
                    trunc = true;
                }
            }
        } else if base == 16 && 97 <= ascii_to_lower(c) && ascii_to_lower(c) <= 102 {
            sawdigits = true;
            nd = nd + 1;
            if nd_mant < max {
                let d = (ascii_to_lower(c) - 87) as u64;
                proof {
                    lemma_mantissa_step(base as int, nd_mant as nat, mantissa as int, d as int, max as int);
                }
                mantissa = mantissa * 16 + d;
                nd_mant = nd_mant + 1;
            } else {
                trunc = true;
            }
        } else {
            break;
        }
        i = i + 1;
    }
    (mantissa, nd, nd_mant, dp, sawdot, sawdigits, trunc, underscores, i)
}

proof fn lemma_mantissa_step(base: int, k: nat, m: int, d: int, max: int)
    requires
        base == 10 || base == 16,
        max == (if base == 16 { 16int } else { 19int }),
        k < max,
        0 <= m < power(base, k),
        0 <= d < base,
        power(10, 19) == 10000000000000000000,
        power(16, 16) == 0x1_0000_0000_0000_0000,
    ensures
        m * base + d < power(base, k + 1),
        power(base, k + 1) <= 0x1_0000_0000_0000_0000,
{
    assert(power(base, k + 1) == base * power(base, k));
    assert(m * base + d < base * power(base, k)) by (nonlinear_arith)
        requires
            0 <= m < power(base, k),
            0 <= d < base,
            base > 0,
    ;
    lemma_power_monotone(base, k + 1, max as nat);
}

proof fn lemma_power_pos(base: int, a: nat)
    requires
        base >= 1,
    ensures
        power(base, a) >= 1,
    decreases a,
{
    if a > 0 {
        lemma_power_pos(base, (a - 1) as nat);
        assert(base * power(base, (a - 1) as nat) >= 1) by (nonlinear_arith)
            requires
                base >= 1,
                power(base, (a - 1) as nat) >= 1,
        ;
    }
}

proof fn lemma_power_monotone(base: int, a: nat, b: nat)
    requires
        base >= 1,
        a <= b,
    ensures
        power(base, a) <= power(base, b),
        power(base, a) >= 1,
    decreases b,
{
    lemma_power_pos(base, a);
    if a < b {
        lemma_power_monotone(base, a, (b - 1) as nat);
        lemma_power_pos(base, (b - 1) as nat);
        assert(power(base, b) == base * power(base, (b - 1) as nat));
        assert(base * power(base, (b - 1) as nat) >= power(base, (b - 1) as nat)) by (nonlinear_arith)
            requires
                base >= 1,
                power(base, (b - 1) as nat) >= 1,
        ;
    }
}

/// The exponent digits from `i`.
fn exp_at(s: &[u8], i0: usize, underscores0: bool) -> (r: (i64, bool, usize))
    requires
        i0 <= s@.len(),
    ensures
        exp_loop(s@, i0 as int, 0, underscores0) == (r.0 as int, r.1, r.2 as int),
        0 <= r.0 < 100000,
        i0 <= r.2 <= s@.len(),
{
    let mut e: i64 = 0;
    let mut u = underscores0;
    let mut i = i0;
    while i < s.len() && (ascii_digit(s[i]) || s[i] == 95)
        invariant
            i0 <= i <= s@.len(),
            0 <= e < 100000,
            exp_loop(s@, i0 as int, 0, underscores0) == exp_loop(s@, i as int, e as int, u),
        decreases s@.len() - i,
    {
        if s[i] == 95 {
            u = true;
        } else if e < 10000 {
            e = e * 10 + (s[i] - 48) as i64;
        }
        i = i + 1;
    }
    (e, u, i)
}

/// `readFloat`: the parts of a decimal or hex float literal at the start of
/// `s`, and where it ends; `None` where Go's reader gives up.
pub fn read_float(s: &[u8]) -> (r: Option<ReadFloat>)
    requires
        s@.len() < 0x1000_0000_0000_0000,
    ensures
        match r {
            Some(f) => spec_read_float(s@) == Some(read_float_v(f)),
            None => spec_read_float(s@) is None,
        },
{
    if s.len() == 0 {
        return None;
    }
    let neg = s[0] == 45;
    let i0: usize = if s[0] == 43 || s[0] == 45 { 1 } else { 0 };
    let hex = i0 + 2 < s.len() && s[i0] == 48 && ascii_to_lower(s[i0 + 1]) == 120;
    let base: u64 = if hex { 16 } else { 10 };
    let max: i64 = if hex { 16 } else { 19 };
    let exp_char: u8 = if hex { 112 } else { 101 };
    let (mantissa, nd, nd_mant, dp, sawdot, sawdigits, trunc, underscores, i) = mant_at(
        s,
        base,
        max,
        if hex { i0 + 2 } else { i0 },
    );
    if !sawdigits {
        return None;
    }
    let dp0 = if sawdot { dp } else { nd };
    let dp1 = if hex { dp0 * 4 } else { dp0 };
    let ndm = if hex { nd_mant * 4 } else { nd_mant };
    let (dp, u, end) = if i < s.len() && ascii_to_lower(s[i]) == exp_char {
        let j = i + 1;
        if j >= s.len() {
            return None;
        }
        let esign: i64 = if s[j] == 45 { -1 } else { 1 };
        let k = if s[j] == 43 || s[j] == 45 { j + 1 } else { j };
        if k >= s.len() || !ascii_digit(s[k]) {
            return None;
        }
        let (e, u, end) = exp_at(s, k, underscores);
        (dp1 + e * esign, u, end)
    } else if hex {
        return None;
    } else {
        (dp1, underscores, i)
    };
    if u && !underscore_ok(vstd::slice::slice_subrange(s, 0, end)) {
        return None;
    }
    let exp = if mantissa != 0 { dp - ndm } else { 0 };
    Some(ReadFloat { mantissa, exp, neg, trunc, hex, end })
}

} // verus!
