//! Go's `strconv` integer grammar and `encoding/base64` decoding, with Go's
//! error values. Values are bytes: a Go string need not be UTF-8.
use vstd::prelude::*;
use vstd::string::StringSliceAdditionalSpecFns;
use crate::bytes::{ascii_digit, ascii_to_lower, is_digit, is_lower, is_upper, to_lower};
use crate::error::{in_ranges, not_printable_2byte, not_printable_ranges};

verus! {

pub const UNDERSCORE: u8 = 95;
pub const PLUS: u8 = 43;
pub const MINUS: u8 = 45;
pub const ZERO: u8 = 48;

/// Which `strconv` function refused.
#[derive(Debug, Clone, Copy, PartialEq, Eq, Structural)]
pub enum NumFunc {
    ParseUint,
    ParseInt,
    ParseBool,
    ParseFloat,
}

/// `strconv.ErrSyntax` or `strconv.ErrRange`.
#[derive(Debug, Clone, Copy, PartialEq, Eq, Structural)]
pub enum NumErrorKind {
    Syntax,
    Range,
}

/// `strconv.NumError`: the function, the whole input, and why.
#[derive(Debug, Clone, PartialEq, Eq)]
pub struct NumError {
    pub func: NumFunc,
    pub num: Vec<u8>,
    pub kind: NumErrorKind,
}

/// The value of one digit in bases up to 36, or 36 for any other byte.
pub open spec fn digit_value(c: u8) -> int {
    if is_digit(c) {
        c - 48
    } else if is_lower(c) {
        c - 87
    } else if is_upper(c) {
        c - 55
    } else {
        36
    }
}

/// A byte the digit loop accepts: a digit of the base, or `_` under base 0.
pub open spec fn accepted(c: u8, base: int, base0: bool) -> bool {
    (c == UNDERSCORE && base0) || digit_value(c) < base
}

/// The base and where its digits start, as base 0 reads a prefix.
pub open spec fn base_and_start(s: Seq<u8>, base0: bool) -> (int, int) {
    if base0 && s.len() > 0 && s[0] == ZERO {
        if s.len() >= 3 && to_lower(s[1]) == 98 {
            (2, 2)
        } else if s.len() >= 3 && to_lower(s[1]) == 111 {
            (8, 2)
        } else if s.len() >= 3 && to_lower(s[1]) == 120 {
            (16, 2)
        } else {
            (8, 1)
        }
    } else {
        (10, 0)
    }
}

/// The value of accepted bytes, underscores skipped.
pub open spec fn digits_value(t: Seq<u8>, base: int) -> int
    decreases t.len(),
{
    if t.len() == 0 {
        0
    } else if t.last() == UNDERSCORE {
        digits_value(t.drop_last(), base)
    } else {
        digits_value(t.drop_last(), base) * base + digit_value(t.last())
    }
}

/// The index of the first byte from `i` that the digit loop refuses, or the length.
pub open spec fn first_refused(t: Seq<u8>, i: int, base: int, base0: bool) -> int
    decreases t.len() - i,
{
    if i < 0 || i >= t.len() {
        t.len() as int
    } else if !accepted(t[i], base, base0) {
        i
    } else {
        first_refused(t, i + 1, base, base0)
    }
}

/// `2^bits - 1`.
pub open spec fn all_ones(bits: nat) -> nat
    decreases bits,
{
    if bits == 0 {
        0
    } else {
        2 * all_ones((bits - 1) as nat) + 1
    }
}

/// Whether a byte counts as a digit for the underscore rule.
pub open spec fn digit_class(t: Seq<u8>, j: int, prefixed: bool, hex: bool) -> bool {
    (prefixed && j < 2) || is_digit(t[j]) || (hex && 97 <= to_lower(t[j]) <= 102)
}

/// The body after an optional sign.
pub open spec fn unsigned_part(s: Seq<u8>) -> Seq<u8> {
    if s.len() > 0 && (s[0] == MINUS || s[0] == PLUS) {
        s.subrange(1, s.len() as int)
    } else {
        s
    }
}

pub open spec fn has_base_prefix(t: Seq<u8>) -> bool {
    t.len() >= 2 && t[0] == ZERO && (to_lower(t[1]) == 98 || to_lower(t[1]) == 111 || to_lower(t[1]) == 120)
}

/// Go's `underscoreOK`: each `_` stands between two digits (a base prefix
/// counting as a digit).
pub open spec fn spec_underscore_ok(s: Seq<u8>) -> bool {
    let t = unsigned_part(s);
    let prefixed = has_base_prefix(t);
    let hex = prefixed && to_lower(t[1]) == 120;
    forall|j: int|
        #![trigger t[j]]
        (if prefixed { 2int } else { 0int }) <= j < t.len() && t[j] == UNDERSCORE ==> 0 < j && j + 1 < t.len()
            && digit_class(t, j - 1, prefixed, hex) && digit_class(t, j + 1, prefixed, hex)
}

/// `strconv.ParseUint(s, base, bits)` for base 0 (`base0`) or base 10: the
/// value, or why not.
pub open spec fn spec_parse_uint(s: Seq<u8>, base0: bool, bits: nat) -> Result<int, NumErrorKind> {
    if s.len() == 0 {
        Err(NumErrorKind::Syntax)
    } else {
        let (base, start) = base_and_start(s, base0);
        let t = s.subrange(start, s.len() as int);
        let k = first_refused(t, 0, base, base0);
        let v = digits_value(t.subrange(0, k), base);
        if v > all_ones(bits) {
            Err(NumErrorKind::Range)
        } else if k < t.len() {
            Err(NumErrorKind::Syntax)
        } else if base0 && t.contains(UNDERSCORE) && !spec_underscore_ok(s) {
            Err(NumErrorKind::Syntax)
        } else {
            Ok(v)
        }
    }
}

/// `strconv.ParseInt(s, base, bits)` for base 0 (`base0`) or base 10.
pub open spec fn spec_parse_int(s: Seq<u8>, base0: bool, bits: nat) -> Result<int, NumErrorKind> {
    if s.len() == 0 {
        Err(NumErrorKind::Syntax)
    } else {
        let neg = s[0] == MINUS;
        let body = unsigned_part(s);
        let cutoff = all_ones((bits - 1) as nat) + 1;
        match spec_parse_uint(body, base0, bits) {
            Err(NumErrorKind::Syntax) => Err(NumErrorKind::Syntax),
            r => {
                let un = match r {
                    Ok(v) => v,
                    _ => u64::MAX as int,
                };
                if !neg && un >= cutoff {
                    Err(NumErrorKind::Range)
                } else if neg && un > cutoff {
                    Err(NumErrorKind::Range)
                } else if neg {
                    Ok(-un)
                } else {
                    Ok(un)
                }
            },
        }
    }
}

proof fn lemma_digits_value_nonneg(t: Seq<u8>, base: int)
    requires
        base >= 2,
        forall|j: int| 0 <= j < t.len() ==> digit_value(#[trigger] t[j]) >= 0,
    ensures
        digits_value(t, base) >= 0,
    decreases t.len(),
{
    if t.len() > 0 {
        lemma_digits_value_nonneg(t.drop_last(), base);
        let v = digits_value(t.drop_last(), base);
        assert(t[t.len() - 1] == t.last());
        assert(v * base >= 0) by (nonlinear_arith)
            requires
                v >= 0,
                base >= 2,
        ;
    }
}

proof fn lemma_digit_value_nonneg(c: u8)
    ensures
        digit_value(c) >= 0,
{
}

/// Appending accepted bytes never lowers the value.
proof fn lemma_digits_value_monotone(t: Seq<u8>, i: int, k: int, base: int, base0: bool)
    requires
        0 <= i <= k <= t.len(),
        base >= 2,
        forall|j: int| i <= j < k ==> accepted(#[trigger] t[j], base, base0),
    ensures
        digits_value(t.subrange(0, i), base) <= digits_value(t.subrange(0, k), base),
    decreases k - i,
{
    if i < k {
        lemma_digits_value_monotone(t, i, k - 1, base, base0);
        let p = t.subrange(0, k);
        assert(p.drop_last() =~= t.subrange(0, k - 1));
        let v = digits_value(t.subrange(0, k - 1), base);
        assert forall|j: int| 0 <= j < t.subrange(0, k - 1).len() implies digit_value(#[trigger] t.subrange(0, k - 1)[j]) >= 0 by {
            lemma_digit_value_nonneg(t.subrange(0, k - 1)[j]);
        }
        lemma_digits_value_nonneg(t.subrange(0, k - 1), base);
        lemma_digit_value_nonneg(p.last());
        assert(v * base >= v) by (nonlinear_arith)
            requires
                v >= 0,
                base >= 2,
        ;
    }
}

proof fn lemma_first_refused(t: Seq<u8>, i: int, base: int, base0: bool)
    requires
        0 <= i <= t.len(),
    ensures
        i <= first_refused(t, i, base, base0) <= t.len(),
        forall|j: int| i <= j < first_refused(t, i, base, base0) ==> accepted(#[trigger] t[j], base, base0),
        first_refused(t, i, base, base0) < t.len() ==> !accepted(t[first_refused(t, i, base, base0)], base, base0),
    decreases t.len() - i,
{
    if i < t.len() && accepted(t[i], base, base0) {
        lemma_first_refused(t, i + 1, base, base0);
    }
}

proof fn lemma_first_refused_at(t: Seq<u8>, i: int, k: int, base: int, base0: bool)
    requires
        0 <= i <= k <= t.len(),
        forall|j: int| i <= j < k ==> accepted(#[trigger] t[j], base, base0),
        k == t.len() || !accepted(t[k], base, base0),
    ensures
        first_refused(t, i, base, base0) == k,
    decreases k - i,
{
    if i < k {
        lemma_first_refused_at(t, i + 1, k, base, base0);
    }
}

/// `2^bits - 1` for `bits` up to 64.
fn max_value(bits: u32) -> (r: u64)
    requires
        bits <= 64,
    ensures
        r == all_ones(bits as nat),
{
    let mut m: u64 = 0;
    let mut i: u32 = 0;
    while i < bits
        invariant
            i <= bits <= 64,
            m == all_ones(i as nat),
            m < pow2_bound(i as nat),
        decreases bits - i,
    {
        proof {
            lemma_all_ones_bound(i as nat);
        }
        m = m * 2 + 1;
        i = i + 1;
    }
    m
}

pub open spec fn pow2_bound(bits: nat) -> nat
    decreases bits,
{
    if bits == 0 {
        1
    } else {
        2 * pow2_bound((bits - 1) as nat)
    }
}

proof fn lemma_pow2_bound_monotone(i: nat, j: nat)
    requires
        i <= j,
    ensures
        pow2_bound(i) <= pow2_bound(j),
    decreases j,
{
    if i < j {
        lemma_pow2_bound_monotone(i, (j - 1) as nat);
    }
}

proof fn lemma_pow2_bound_is_pow2(n: nat)
    ensures
        pow2_bound(n) == vstd::arithmetic::power2::pow2(n),
    decreases n,
{
    if n > 0 {
        lemma_pow2_bound_is_pow2((n - 1) as nat);
        vstd::arithmetic::power2::lemma_pow2_unfold(n);
    } else {
        vstd::arithmetic::power2::lemma2_to64();
    }
}

proof fn lemma_pow2_bound_64()
    ensures
        pow2_bound(64) == 0x1_0000_0000_0000_0000,
        pow2_bound(63) == 0x8000_0000_0000_0000,
{
    lemma_pow2_bound_is_pow2(64);
    lemma_pow2_bound_is_pow2(63);
    vstd::arithmetic::power2::lemma2_to64();
}

proof fn lemma_all_ones_bound(bits: nat)
    ensures
        all_ones(bits) + 1 == pow2_bound(bits),
        bits <= 63 ==> pow2_bound(bits) <= 0x8000_0000_0000_0000,
        bits <= 64 ==> all_ones(bits) <= u64::MAX,
    decreases bits,
{
    if bits > 0 {
        lemma_all_ones_bound((bits - 1) as nat);
    }
    lemma_pow2_bound_64();
    if bits <= 63 {
        lemma_pow2_bound_monotone(bits, 63);
    }
    if bits <= 64 {
        lemma_pow2_bound_monotone(bits, 64);
    }
}

/// `pow2_bound` at 31 and 32 bits.
pub proof fn lemma_pow2_bound_32()
    ensures
        pow2_bound(31) == 0x8000_0000,
        pow2_bound(32) == 0x1_0000_0000,
{
    lemma_pow2_bound_is_pow2(31);
    lemma_pow2_bound_is_pow2(32);
    vstd::arithmetic::power2::lemma2_to64();
}

/// What `strconv.ParseUint` accepts fits in `bits` bits.
pub proof fn lemma_parse_uint_range(s: Seq<u8>, base0: bool, bits: nat)
    requires
        1 <= bits <= 64,
    ensures
        spec_parse_uint(s, base0, bits) matches Ok(v) ==> 0 <= v < pow2_bound(bits),
{
    lemma_all_ones_bound(bits);
    if s.len() > 0 {
        let (base, start) = base_and_start(s, base0);
        let t = s.subrange(start, s.len() as int);
        let k = first_refused(t, 0, base, base0);
        lemma_first_refused(t, 0, base, base0);
        lemma_digits_value_nonneg(t.subrange(0, k), base);
    }
}

/// What `strconv.ParseInt` accepts fits in `bits` bits, two's complement.
pub proof fn lemma_parse_int_range(s: Seq<u8>, base0: bool, bits: nat)
    requires
        1 <= bits <= 64,
    ensures
        spec_parse_int(s, base0, bits) matches Ok(n) ==> -pow2_bound((bits - 1) as nat) <= n < pow2_bound(
            (bits - 1) as nat,
        ),
{
    lemma_all_ones_bound((bits - 1) as nat);
    lemma_parse_uint_range(unsigned_part(s), base0, bits);
}

/// `strconv.ParseUint(s, base, bits)` for base 0 (`base0`) or base 10.
pub fn parse_uint(s: &[u8], base0: bool, bits: u32) -> (r: Result<u64, NumError>)
    requires
        1 <= bits <= 64,
    ensures
        match r {
            Ok(v) => spec_parse_uint(s@, base0, bits as nat) == Ok::<int, NumErrorKind>(v as int),
            Err(e) => spec_parse_uint(s@, base0, bits as nat) == Err::<int, NumErrorKind>(e.kind) && e.num@ == s@
                && e.func == NumFunc::ParseUint,
        },
{
    parse_uint_as(NumFunc::ParseUint, s, s, base0, bits)
}

fn num_error(func: NumFunc, s0: &[u8], kind: NumErrorKind) -> (e: NumError)
    ensures
        e.func == func,
        e.num@ == s0@,
        e.kind == kind,
{
    NumError { func, num: crate::bytes::copy_bytes(s0), kind }
}

/// The unsigned grammar, with errors naming `func` and `s0`.
fn parse_uint_as(func: NumFunc, s0: &[u8], s: &[u8], base0: bool, bits: u32) -> (r: Result<u64, NumError>)
    requires
        1 <= bits <= 64,
    ensures
        match r {
            Ok(v) => spec_parse_uint(s@, base0, bits as nat) == Ok::<int, NumErrorKind>(v as int),
            Err(e) => spec_parse_uint(s@, base0, bits as nat) == Err::<int, NumErrorKind>(e.kind) && e.num@ == s0@
                && e.func == func,
        },
{
    if s.len() == 0 {
        return Err(num_error(func, s0, NumErrorKind::Syntax));
    }
    let mut base: u64 = 10;
    let mut start: usize = 0;
    if base0 && s[0] == ZERO {
        if s.len() >= 3 && ascii_to_lower(s[1]) == 98 {
            base = 2;
            start = 2;
        } else if s.len() >= 3 && ascii_to_lower(s[1]) == 111 {
            base = 8;
            start = 2;
        } else if s.len() >= 3 && ascii_to_lower(s[1]) == 120 {
            base = 16;
            start = 2;
        } else {
            base = 8;
            start = 1;
        }
    }
    let ghost t = s@.subrange(start as int, s@.len() as int);
    assert(base_and_start(s@, base0) == (base as int, start as int));
    let cutoff: u64 = u64::MAX / base + 1;
    let max_val = max_value(bits);
    proof {
        lemma_all_ones_bound(bits as nat);
        let b = base as int;
        assert((u64::MAX as int / b + 1) * b > u64::MAX) by (nonlinear_arith)
            requires
                b >= 2,
        ;
    }
    let mut underscores = false;
    let mut n: u64 = 0;
    let mut i: usize = start;
    while i < s.len()
        invariant
            start <= i <= s@.len(),
            s@.len() > 0,
            t == s@.subrange(start as int, s@.len() as int),
            2 <= base <= 16,
            base_and_start(s@, base0) == (base as int, start as int),
            cutoff == u64::MAX / base + 1,
            (cutoff as int) * (base as int) > u64::MAX,
            max_val == all_ones(bits as nat),
            forall|j: int| 0 <= j < i - start ==> accepted(#[trigger] t[j], base as int, base0),
            n == digits_value(t.subrange(0, i - start), base as int),
            n <= max_val,
            underscores == (base0 && t.subrange(0, i - start).contains(UNDERSCORE)),
        decreases s@.len() - i,
    {
        let c = s[i];
        let ghost j = i - start;
        assert(t[j] == c);
        assert(t.subrange(0, j + 1).drop_last() =~= t.subrange(0, j));
        assert(t.subrange(0, j + 1).last() == c);
        if c == UNDERSCORE && base0 {
            underscores = true;
            assert(t.subrange(0, j + 1)[j] == UNDERSCORE);
            i = i + 1;
            continue;
        }
        let d: u64;
        if ascii_digit(c) {
            d = (c - 48) as u64;
        } else {
            let lc = ascii_to_lower(c);
            if 97 <= lc && lc <= 122 {
                d = (lc - 87) as u64;
            } else {
                proof {
                    lemma_first_refused(t, 0, base as int, base0);
                    lemma_first_refused_at(t, 0, j, base as int, base0);
                }
                return Err(num_error(func, s0, NumErrorKind::Syntax));
            }
        }
        assert(d == digit_value(c));
        if d >= base {
            proof {
                lemma_first_refused_at(t, 0, j, base as int, base0);
            }
            return Err(num_error(func, s0, NumErrorKind::Syntax));
        }
        if n >= cutoff {
            proof {
                lemma_first_refused(t, 0, base as int, base0);
                let k = first_refused(t, 0, base as int, base0);
                assert(k > j) by {
                    if k <= j {
                        assert(accepted(t[k], base as int, base0));
                    }
                }
                lemma_digits_value_monotone(t, j + 1, k, base as int, base0);
                let nb = n as int;
                let bb = base as int;
                let cb = cutoff as int;
                assert(nb * bb + d >= cb * bb) by (nonlinear_arith)
                    requires
                        nb >= cb,
                        bb >= 2,
                        d >= 0,
                ;
            }
            return Err(num_error(func, s0, NumErrorKind::Range));
        }
        proof {
            let nb = n as int;
            let bb = base as int;
            let cb = cutoff as int;
            assert(nb * bb <= u64::MAX) by (nonlinear_arith)
                requires
                    nb < cb,
                    cb == u64::MAX as int / bb + 1,
                    bb >= 2,
            ;
        }
        let nb = n * base;
        match nb.checked_add(d) {
            Some(n1) if n1 <= max_val => {
                n = n1;
                proof {
                    assert(t.subrange(0, j + 1).contains(UNDERSCORE) == t.subrange(0, j).contains(UNDERSCORE)) by {
                        if t.subrange(0, j + 1).contains(UNDERSCORE) {
                            let w = choose|w: int| 0 <= w < j + 1 && #[trigger] t.subrange(0, j + 1)[w] == UNDERSCORE;
                            assert(w != j);
                            assert(t.subrange(0, j)[w] == UNDERSCORE);
                        }
                        if t.subrange(0, j).contains(UNDERSCORE) {
                            let w = choose|w: int| 0 <= w < j && #[trigger] t.subrange(0, j)[w] == UNDERSCORE;
                            assert(t.subrange(0, j + 1)[w] == UNDERSCORE);
                        }
                    }
                }
            },
            _ => {
                proof {
                    lemma_first_refused(t, 0, base as int, base0);
                    let k = first_refused(t, 0, base as int, base0);
                    assert(k > j) by {
                        if k <= j {
                            assert(accepted(t[k], base as int, base0));
                        }
                    }
                    lemma_digits_value_monotone(t, j + 1, k, base as int, base0);
                }
                return Err(num_error(func, s0, NumErrorKind::Range));
            },
        }
        i = i + 1;
        proof {
            assert(t.subrange(0, i - start) =~= t.subrange(0, j + 1));
        }
    }
    proof {
        let k = (s@.len() - start) as int;
        assert(t.subrange(0, k) =~= t);
        lemma_first_refused_at(t, 0, k, base as int, base0);
    }
    if underscores && !underscore_ok(s) {
        return Err(num_error(func, s0, NumErrorKind::Syntax));
    }
    Ok(n)
}

/// Go's `underscoreOK`.
pub(crate) fn underscore_ok(s: &[u8]) -> (r: bool)
    ensures
        r == spec_underscore_ok(s@),
{
    let mut from: usize = 0;
    if s.len() > 0 && (s[0] == MINUS || s[0] == PLUS) {
        from = 1;
    }
    let ghost t = unsigned_part(s@);
    assert(t =~= s@.subrange(from as int, s@.len() as int));
    let mut prefixed = false;
    let mut hex = false;
    let mut i: usize = from;
    if s.len() >= from + 2 && s[from] == ZERO {
        let l = ascii_to_lower(s[from + 1]);
        if l == 98 || l == 111 || l == 120 {
            prefixed = true;
            hex = l == 120;
            i = from + 2;
        }
    }
    assert(prefixed == has_base_prefix(t));
    assert(prefixed ==> (hex == (to_lower(t[1]) == 120)));
    // 0: nothing yet, 1: a digit, 2: an underscore, 3: anything else.
    let mut saw: u8 = if prefixed { 1 } else { 0 };
    let ghost p: int = if prefixed { 2 } else { 0 };
    while i < s.len()
        invariant
            from <= i <= s@.len(),
            t == s@.subrange(from as int, s@.len() as int),
            t == unsigned_part(s@),
            prefixed == has_base_prefix(t),
            prefixed ==> (hex == (to_lower(t[1]) == 120)),
            !prefixed ==> !hex,
            p == if prefixed { 2int } else { 0int },
            p <= i - from,
            saw <= 3,
            (saw == 0) == (i - from == 0),
            i - from > 0 ==> ((saw == 1) == digit_class(t, i - from - 1, prefixed, hex)),
            i - from > 0 ==> ((saw == 2) == (t[i - from - 1] == UNDERSCORE && !(prefixed && i - from - 1 < 2))),
            forall|j: int|
                #![trigger t[j]]
                p <= j < i - from - 1 && t[j] == UNDERSCORE ==> 0 < j && digit_class(t, j - 1, prefixed, hex)
                    && digit_class(t, j + 1, prefixed, hex),
            i - from > 0 && saw == 2 ==> (i - from - 1 > 0 && digit_class(t, i - from - 2, prefixed, hex)),
        decreases s@.len() - i,
    {
        let c = s[i];
        let ghost j = i - from;
        assert(t[j] == c);
        let lc = ascii_to_lower(c);
        if ascii_digit(c) || (hex && 97 <= lc && lc <= 102) {
            saw = 1;
        } else if c == UNDERSCORE {
            if saw != 1 {
                proof {
                    assert(!(0 < j && digit_class(t, j - 1, prefixed, hex)));
                    assert(t[j] == UNDERSCORE && p <= j < t.len());
                    assert(hex == (prefixed && to_lower(t[1]) == 120));
                    if spec_underscore_ok(s@) {
                        assert(0 < j && digit_class(t, j - 1, prefixed, hex));
                    }
                }
                return false;
            }
            saw = 2;
        } else {
            if saw == 2 {
                proof {
                    assert(t[j - 1] == UNDERSCORE);
                    assert(!digit_class(t, j, prefixed, hex));
                    assert(p <= j - 1 < t.len());
                    assert(hex == (prefixed && to_lower(t[1]) == 120));
                    if spec_underscore_ok(s@) {
                        assert(t[j - 1] == UNDERSCORE);
                        assert(digit_class(t, j, prefixed, hex));
                    }
                }
                return false;
            }
            saw = 3;
        }
        i = i + 1;
    }
    if saw == 2 {
        proof {
            let j = (s@.len() - from - 1) as int;
            assert(t[j] == UNDERSCORE);
        }
        return false;
    }
    true
}

/// `strconv.ParseInt(s, base, bits)` for base 0 (`base0`) or base 10.
pub fn parse_int(s0: &[u8], base0: bool, bits: u32) -> (r: Result<i64, NumError>)
    requires
        1 <= bits <= 64,
    ensures
        match r {
            Ok(v) => spec_parse_int(s0@, base0, bits as nat) == Ok::<int, NumErrorKind>(v as int),
            Err(e) => spec_parse_int(s0@, base0, bits as nat) == Err::<int, NumErrorKind>(e.kind) && e.num@ == s0@
                && e.func == NumFunc::ParseInt,
        },
{
    if s0.len() == 0 {
        return Err(num_error(NumFunc::ParseInt, s0, NumErrorKind::Syntax));
    }
    let neg = s0[0] == MINUS;
    let s: &[u8] = if s0[0] == MINUS || s0[0] == PLUS {
        vstd::slice::slice_subrange(s0, 1, s0.len())
    } else {
        s0
    };
    assert(s@ == unsigned_part(s0@));
    let un: u64 = match parse_uint_as(NumFunc::ParseInt, s0, s, base0, bits) {
        Ok(v) => v,
        Err(e) => {
            if e.kind == NumErrorKind::Range {
                u64::MAX
            } else {
                return Err(e);
            }
        },
    };
    proof {
        lemma_all_ones_bound((bits - 1) as nat);
    }
    let cutoff: u64 = max_value(bits - 1) + 1;
    if !neg && un >= cutoff {
        return Err(num_error(NumFunc::ParseInt, s0, NumErrorKind::Range));
    }
    if neg && un > cutoff {
        return Err(num_error(NumFunc::ParseInt, s0, NumErrorKind::Range));
    }
    if neg {
        if un == cutoff && cutoff == 0x8000_0000_0000_0000 {
            Ok(i64::MIN)
        } else {
            Ok(-(un as i64))
        }
    } else {
        Ok(un as i64)
    }
}

/// `strconv.Atoi`: base 10, the platform's 64-bit int.
pub fn atoi(s: &[u8]) -> (r: Option<i64>)
    ensures
        match r {
            Some(v) => spec_parse_int(s@, false, 64) == Ok::<int, NumErrorKind>(v as int),
            None => spec_parse_int(s@, false, 64) is Err,
        },
{
    match parse_int(s, false, 64) {
        Ok(v) => Some(v),
        Err(_) => None,
    }
}


/// The words `strconv.ParseBool` accepts.
pub open spec fn spec_parse_bool(s: Seq<u8>) -> Option<bool> {
    if s == seq![49u8] || s == seq![116u8] || s == seq![84u8] || s == seq![116u8, 114, 117, 101]
        || s == seq![84u8, 82, 85, 69] || s == seq![84u8, 114, 117, 101] {
        Some(true)
    } else if s == seq![48u8] || s == seq![102u8] || s == seq![70u8] || s == seq![102u8, 97, 108, 115, 101]
        || s == seq![70u8, 65, 76, 83, 69] || s == seq![70u8, 97, 108, 115, 101] {
        Some(false)
    } else {
        None
    }
}

/// `strconv.ParseBool`.
pub fn parse_bool(s: &[u8]) -> (r: Result<bool, NumError>)
    ensures
        match r {
            Ok(b) => spec_parse_bool(s@) == Some(b),
            Err(e) => spec_parse_bool(s@) is None && e.func == NumFunc::ParseBool && e.kind == NumErrorKind::Syntax
                && e.num@ == s@,
        },
{
    let n = s.len();
    if n == 1 {
        assert(s@ =~= seq![s[0]]);
        if s[0] == 49 || s[0] == 116 || s[0] == 84 {
            return Ok(true);
        }
        if s[0] == 48 || s[0] == 102 || s[0] == 70 {
            return Ok(false);
        }
    } else if n == 4 {
        assert(s@ =~= seq![s[0], s[1], s[2], s[3]]);
        if (s[0] == 116 && s[1] == 114 && s[2] == 117 && s[3] == 101) || (s[0] == 84 && s[1] == 82 && s[2] == 85
            && s[3] == 69) || (s[0] == 84 && s[1] == 114 && s[2] == 117 && s[3] == 101) {
            return Ok(true);
        }
    } else if n == 5 {
        assert(s@ =~= seq![s[0], s[1], s[2], s[3], s[4]]);
        if (s[0] == 102 && s[1] == 97 && s[2] == 108 && s[3] == 115 && s[4] == 101) || (s[0] == 70 && s[1] == 65
            && s[2] == 76 && s[3] == 83 && s[4] == 69) || (s[0] == 70 && s[1] == 97 && s[2] == 108 && s[3] == 115
            && s[4] == 101) {
            return Ok(false);
        }
    }
    Err(num_error(NumFunc::ParseBool, s, NumErrorKind::Syntax))
}

pub open spec fn cont_byte(b: u8) -> bool {
    0x80 <= b <= 0xbf
}

/// One UTF-8 sequence as Go's `utf8.DecodeRune` reads it: the rune, or -1
/// with width 1 for anything invalid (surrogates and overlong forms
/// included), and width 0 at the end.
pub open spec fn spec_decode_rune(s: Seq<u8>) -> (int, int) {
    if s.len() == 0 {
        (-1, 0)
    } else {
        let b0 = s[0];
        if b0 < 0x80 {
            (b0 as int, 1)
        } else if 0xc2 <= b0 <= 0xdf {
            if s.len() >= 2 && cont_byte(s[1]) {
                ((b0 - 0xc0) * 64 + (s[1] - 0x80), 2)
            } else {
                (-1, 1)
            }
        } else if 0xe0 <= b0 <= 0xef {
            let lo: u8 = if b0 == 0xe0 { 0xa0 } else { 0x80 };
            let hi: u8 = if b0 == 0xed { 0x9f } else { 0xbf };
            if s.len() >= 3 && lo <= s[1] <= hi && cont_byte(s[2]) {
                (((b0 - 0xe0) * 64 + (s[1] - 0x80)) * 64 + (s[2] - 0x80), 3)
            } else {
                (-1, 1)
            }
        } else if 0xf0 <= b0 <= 0xf4 {
            let lo: u8 = if b0 == 0xf0 { 0x90 } else { 0x80 };
            let hi: u8 = if b0 == 0xf4 { 0x8f } else { 0xbf };
            if s.len() >= 4 && lo <= s[1] <= hi && cont_byte(s[2]) && cont_byte(s[3]) {
                ((((b0 - 0xf0) * 64 + (s[1] - 0x80)) * 64 + (s[2] - 0x80)) * 64 + (s[3] - 0x80), 4)
            } else {
                (-1, 1)
            }
        } else {
            (-1, 1)
        }
    }
}

/// Decodes one UTF-8 sequence the way Go's `utf8.DecodeRune` does: `None`
/// with width 1 for anything invalid.
pub fn decode_rune(s: &[u8]) -> (r: (Option<u32>, usize))
    ensures
        ({
            let (c, w) = spec_decode_rune(s@);
            &&& r.1 == w
            &&& match r.0 {
                Some(x) => c == x as int && 0 <= c,
                None => c == -1,
            }
        }),
        s@.len() > 0 ==> 1 <= r.1 <= s@.len(),
        s@.len() == 0 ==> r.1 == 0,
        r.0 matches Some(x) ==> x < 0x110000,
{
    if s.len() == 0 {
        return (None, 0);
    }
    let b0 = s[0];
    if b0 < 0x80 {
        return (Some(b0 as u32), 1);
    }
    if 0xc2 <= b0 && b0 <= 0xdf {
        if s.len() >= 2 && 0x80 <= s[1] && s[1] <= 0xbf {
            return (Some((b0 as u32 - 0xc0) * 64 + (s[1] as u32 - 0x80)), 2);
        }
        return (None, 1);
    }
    if 0xe0 <= b0 && b0 <= 0xef {
        let lo: u8 = if b0 == 0xe0 { 0xa0 } else { 0x80 };
        let hi: u8 = if b0 == 0xed { 0x9f } else { 0xbf };
        if s.len() >= 3 && lo <= s[1] && s[1] <= hi && 0x80 <= s[2] && s[2] <= 0xbf {
            let r = ((b0 as u32 - 0xe0) * 64 + (s[1] as u32 - 0x80)) * 64 + (s[2] as u32 - 0x80);
            return (Some(r), 3);
        }
        return (None, 1);
    }
    if 0xf0 <= b0 && b0 <= 0xf4 {
        let lo: u8 = if b0 == 0xf0 { 0x90 } else { 0x80 };
        let hi: u8 = if b0 == 0xf4 { 0x8f } else { 0xbf };
        if s.len() >= 4 && lo <= s[1] && s[1] <= hi && 0x80 <= s[2] && s[2] <= 0xbf && 0x80 <= s[3] && s[3] <= 0xbf {
            let r = (((b0 as u32 - 0xf0) * 64 + (s[1] as u32 - 0x80)) * 64 + (s[2] as u32 - 0x80)) * 64 + (s[3] as u32
                - 0x80);
            return (Some(r), 4);
        }
        return (None, 1);
    }
    (None, 1)
}


/// A rune read from a non-empty input is one to four of its bytes wide.
pub proof fn lemma_decode_width(s: Seq<u8>)
    ensures
        s.len() > 0 ==> 1 <= spec_decode_rune(s).1 <= s.len(),
        spec_decode_rune(s).0 >= 0 ==> spec_decode_rune(s).0 < 0x110000,
{
}

/// `strconv.IsPrint` as far as this library knows it: printable ASCII, the
/// two-byte runes outside the table, and every longer rune.
pub open spec fn is_print(r: int) -> bool {
    if r < 0x80 {
        0x20 <= r <= 0x7e
    } else if r < 0x800 {
        !in_ranges(not_printable_ranges(), r)
    } else {
        true
    }
}

pub open spec fn hex_char(n: int) -> u8 {
    if n < 10 {
        (48 + n) as u8
    } else {
        (87 + n) as u8
    }
}

/// `\xNN` for one byte.
pub open spec fn hex_escape(b: int) -> Seq<u8> {
    seq![92u8, 120u8, hex_char(b / 16 % 16), hex_char(b % 16)]
}

/// How `strconv.Quote` writes one decoded rune, `raw` being its bytes.
pub open spec fn escaped_rune(r: int, raw: Seq<u8>) -> Seq<u8> {
    if r == 34 || r == 92 {
        seq![92u8, r as u8]
    } else if is_print(r) {
        raw
    } else if r == 7 {
        seq![92u8, 97u8]
    } else if r == 8 {
        seq![92u8, 98u8]
    } else if r == 12 {
        seq![92u8, 102u8]
    } else if r == 10 {
        seq![92u8, 110u8]
    } else if r == 13 {
        seq![92u8, 114u8]
    } else if r == 9 {
        seq![92u8, 116u8]
    } else if r == 11 {
        seq![92u8, 118u8]
    } else if r < 0x20 || r == 0x7f {
        hex_escape(r)
    } else if r < 0x10000 {
        seq![92u8, 117u8, hex_char(r / 4096 % 16), hex_char(r / 256 % 16), hex_char(r / 16 % 16), hex_char(r % 16)]
    } else {
        seq![
            92u8,
            85u8,
            hex_char(r / 0x1000_0000 % 16),
            hex_char(r / 0x100_0000 % 16),
            hex_char(r / 0x10_0000 % 16),
            hex_char(r / 0x1_0000 % 16),
            hex_char(r / 4096 % 16),
            hex_char(r / 256 % 16),
            hex_char(r / 16 % 16),
            hex_char(r % 16),
        ]
    }
}

/// What `strconv.Quote` writes between the quotes.
pub open spec fn quote_body(s: Seq<u8>) -> Seq<u8>
    decreases s.len(),
{
    if s.len() == 0 {
        Seq::empty()
    } else {
        let (r, w) = spec_decode_rune(s);
        proof {
            lemma_decode_width(s);
        }
        if r < 0 {
            hex_escape(s[0] as int) + quote_body(s.subrange(1, s.len() as int))
        } else {
            escaped_rune(r, s.subrange(0, w)) + quote_body(s.subrange(w, s.len() as int))
        }
    }
}

/// `strconv.Quote`.
pub open spec fn spec_quote(s: Seq<u8>) -> Seq<u8> {
    seq![34u8] + quote_body(s) + seq![34u8]
}

fn hex_digit_char(n: u32) -> (c: u8)
    requires
        n < 16,
    ensures
        c == hex_char(n as int),
{
    if n < 10 {
        (48 + n) as u8
    } else {
        (87 + n) as u8
    }
}

/// Whether the rune is printable, by the table for two-byte runes.
pub fn is_printable(r: u32) -> (b: bool)
    ensures
        b == is_print(r as int),
{
    if r < 0x80 {
        return 0x20 <= r && r <= 0x7e;
    }
    if r >= 0x800 {
        return true;
    }
    let table = not_printable_2byte();
    let mut i: usize = 0;
    while i < table.len()
        invariant
            i <= table@.len(),
            table@ == not_printable_ranges(),
            forall|j: int| 0 <= j < i ==> !(#[trigger] table@[j].0 <= r && r <= table@[j].1),
        decreases table@.len() - i,
    {
        let (lo, hi) = table[i];
        if lo <= r && r <= hi {
            assert(table@[i as int].0 <= r && r <= table@[i as int].1);
            return false;
        }
        i = i + 1;
    }
    true
}

fn push_hex_digits(out: &mut Vec<u8>, r: u32, digits: u32)
    requires
        digits == 2 || digits == 4 || digits == 8,
    ensures
        digits == 2 ==> final(out)@ == old(out)@ + seq![hex_char(r as int / 16 % 16), hex_char(r as int % 16)],
        digits == 4 ==> final(out)@ == old(out)@ + seq![hex_char(r as int / 4096 % 16), hex_char(r as int / 256 % 16),
            hex_char(r as int / 16 % 16), hex_char(r as int % 16)],
        digits == 8 ==> final(out)@ == old(out)@ + seq![
            hex_char(r as int / 0x1000_0000 % 16),
            hex_char(r as int / 0x100_0000 % 16),
            hex_char(r as int / 0x10_0000 % 16),
            hex_char(r as int / 0x1_0000 % 16),
            hex_char(r as int / 4096 % 16),
            hex_char(r as int / 256 % 16),
            hex_char(r as int / 16 % 16),
            hex_char(r as int % 16),
        ],
{
    let ghost o = out@;
    if digits == 8 {
        out.push(hex_digit_char(r / 0x1000_0000 % 16));
        out.push(hex_digit_char(r / 0x100_0000 % 16));
        out.push(hex_digit_char(r / 0x10_0000 % 16));
        out.push(hex_digit_char(r / 0x1_0000 % 16));
    }
    if digits >= 4 {
        out.push(hex_digit_char(r / 4096 % 16));
        out.push(hex_digit_char(r / 256 % 16));
    }
    out.push(hex_digit_char(r / 16 % 16));
    out.push(hex_digit_char(r % 16));
}

/// Appends how `strconv.Quote` writes the rune `r` whose bytes are `raw`.
fn escape_rune(r: u32, raw: &[u8], out: &mut Vec<u8>)
    ensures
        final(out)@ == old(out)@ + escaped_rune(r as int, raw@),
{
    let ghost o = out@;
    if r == 34 || r == 92 {
        out.push(92);
        out.push(r as u8);
        assert(out@ =~= o + seq![92u8, r as u8]);
        return;
    }
    if is_printable(r) {
        crate::bytes::push_all(out, raw);
        return;
    }
    let letter: u8 = if r == 7 {
        97
    } else if r == 8 {
        98
    } else if r == 12 {
        102
    } else if r == 10 {
        110
    } else if r == 13 {
        114
    } else if r == 9 {
        116
    } else if r == 11 {
        118
    } else {
        0
    };
    if letter != 0 {
        out.push(92);
        out.push(letter);
        assert(out@ =~= o + escaped_rune(r as int, raw@));
        return;
    }
    out.push(92);
    if r < 0x20 || r == 0x7f {
        out.push(120);
        push_hex_digits(out, r, 2);
    } else if r < 0x10000 {
        out.push(117);
        push_hex_digits(out, r, 4);
    } else {
        out.push(85);
        push_hex_digits(out, r, 8);
    }
    assert(out@ =~= o + escaped_rune(r as int, raw@));
}

/// `strconv.Quote`.
pub fn quote(s: &[u8]) -> (r: Vec<u8>)
    ensures
        r@ == spec_quote(s@),
{
    let mut out: Vec<u8> = Vec::new();
    out.push(34);
    let mut i: usize = 0;
    assert(s@.subrange(0, s@.len() as int) =~= s@);
    while i < s.len()
        invariant
            i <= s@.len(),
            out@ + quote_body(s@.subrange(i as int, s@.len() as int)) == seq![34u8] + quote_body(s@),
        decreases s@.len() - i,
    {
        let rest = vstd::slice::slice_subrange(s, i, s.len());
        let (r, w) = decode_rune(rest);
        let ghost o = out@;
        proof {
            lemma_decode_width(rest@);
        }
        match r {
            None => {
                out.push(92);
                out.push(120);
                push_hex_digits(&mut out, rest[0] as u32, 2);
                assert(out@ =~= o + hex_escape(rest@[0] as int));
                assert(rest@.subrange(1, rest@.len() as int) =~= s@.subrange(i + 1, s@.len() as int));
            },
            Some(c) => {
                let raw = vstd::slice::slice_subrange(rest, 0, w);
                escape_rune(c, raw, &mut out);
                assert(rest@.subrange(w as int, rest@.len() as int) =~= s@.subrange(i + w, s@.len() as int));
            },
        }
        assert(out@ + quote_body(s@.subrange(i + w, s@.len() as int)) =~= o + quote_body(rest@));
        i = i + w;
    }
    assert(quote_body(s@.subrange(i as int, s@.len() as int)) =~= Seq::<u8>::empty());
    assert(out@ =~= seq![34u8] + quote_body(s@));
    out.push(34);
    out
}


pub open spec fn func_name(f: NumFunc) -> Seq<u8> {
    match f {
        NumFunc::ParseUint => "ParseUint".spec_bytes(),
        NumFunc::ParseInt => "ParseInt".spec_bytes(),
        NumFunc::ParseBool => "ParseBool".spec_bytes(),
        NumFunc::ParseFloat => "ParseFloat".spec_bytes(),
    }
}

pub open spec fn kind_text(k: NumErrorKind) -> Seq<u8> {
    match k {
        NumErrorKind::Syntax => "invalid syntax".spec_bytes(),
        NumErrorKind::Range => "value out of range".spec_bytes(),
    }
}

/// The text of a `strconv.NumError`.
pub open spec fn num_error_text(f: NumFunc, num: Seq<u8>, k: NumErrorKind) -> Seq<u8> {
    "strconv.".spec_bytes() + func_name(f) + ": parsing ".spec_bytes() + spec_quote(num) + ": ".spec_bytes()
        + kind_text(k)
}

impl NumError {
    /// The error's text, as Go's `Error()` gives it.
    pub fn message(&self) -> (r: Vec<u8>)
        ensures
            r@ == num_error_text(self.func, self.num@, self.kind),
    {
        let mut out: Vec<u8> = Vec::new();
        crate::bytes::push_all(&mut out, "strconv.".as_bytes());
        match self.func {
            NumFunc::ParseUint => crate::bytes::push_all(&mut out, "ParseUint".as_bytes()),
            NumFunc::ParseInt => crate::bytes::push_all(&mut out, "ParseInt".as_bytes()),
            NumFunc::ParseBool => crate::bytes::push_all(&mut out, "ParseBool".as_bytes()),
            NumFunc::ParseFloat => crate::bytes::push_all(&mut out, "ParseFloat".as_bytes()),
        }
        crate::bytes::push_all(&mut out, ": parsing ".as_bytes());
        let q = quote(self.num.as_slice());
        crate::bytes::push_all(&mut out, q.as_slice());
        crate::bytes::push_all(&mut out, ": ".as_bytes());
        match self.kind {
            NumErrorKind::Syntax => crate::bytes::push_all(&mut out, "invalid syntax".as_bytes()),
            NumErrorKind::Range => crate::bytes::push_all(&mut out, "value out of range".as_bytes()),
        }
        out
    }
}

/// `base64.CorruptInputError`: the offset Go reports.
#[derive(Debug, Clone, Copy, PartialEq, Eq, Structural)]
pub struct CorruptInput(pub usize);

impl CorruptInput {
    /// The error's text, as Go's `Error()` gives it.
    pub fn message(&self) -> (r: Vec<u8>)
        ensures
            r@ == "illegal base64 data at input byte ".spec_bytes() + crate::bytes::spec_decimal(self.0 as nat),
    {
        let mut out: Vec<u8> = Vec::new();
        crate::bytes::push_all(&mut out, "illegal base64 data at input byte ".as_bytes());
        let d = crate::bytes::decimal(self.0 as u64);
        crate::bytes::push_all(&mut out, d.as_slice());
        out
    }
}

/// The two alphabets of `encoding/base64`.
#[derive(Debug, Clone, Copy, PartialEq, Eq, Structural)]
pub enum Alphabet {
    Std,
    Url,
}

/// The six-bit value of an alphabet character, or -1.
pub open spec fn b64_value(a: Alphabet, c: u8) -> int {
    if is_upper(c) {
        c - 65
    } else if is_lower(c) {
        c - 71
    } else if is_digit(c) {
        c + 4
    } else if (c == 43 && a == Alphabet::Std) || (c == 45 && a == Alphabet::Url) {
        62
    } else if (c == 47 && a == Alphabet::Std) || (c == 95 && a == Alphabet::Url) {
        63
    } else {
        -1
    }
}

pub open spec fn is_newline(c: u8) -> bool {
    c == 10 || c == 13
}

/// The first index from `i` that is not a newline.
pub open spec fn skip_newlines(src: Seq<u8>, i: int) -> int
    decreases src.len() - i,
{
    if 0 <= i < src.len() && is_newline(src[i]) {
        skip_newlines(src, i + 1)
    } else {
        i
    }
}

/// The first `n` bytes that four six-bit values (missing ones zero) pack into.
pub open spec fn packed(vals: Seq<u8>, n: int) -> Seq<u8> {
    let v0: int = if vals.len() > 0 { vals[0] as int } else { 0 };
    let v1: int = if vals.len() > 1 { vals[1] as int } else { 0 };
    let v2: int = if vals.len() > 2 { vals[2] as int } else { 0 };
    let v3: int = if vals.len() > 3 { vals[3] as int } else { 0 };
    seq![(v0 * 4 + v1 / 16) as u8, ((v1 % 16) * 16 + v2 / 4) as u8, ((v2 % 4) * 64 + v3) as u8].subrange(0, n)
}

/// One quantum of input, as Go reads it.
pub enum Quantum {
    /// Four characters: three bytes, and where the next quantum starts.
    Full(Seq<u8>, int),
    /// Padding closed the input: the bytes, and an offset if anything but
    /// newlines follows.
    Padded(Seq<u8>, Option<int>),
    /// Only newlines were left.
    End,
    Corrupt(int),
}

/// Reads the rest of a quantum from `si`, `vals` holding the values read.
pub open spec fn gather(a: Alphabet, src: Seq<u8>, si: int, vals: Seq<u8>) -> Quantum
    decreases src.len() - si,
{
    if vals.len() >= 4 {
        Quantum::Full(packed(vals, 3), si)
    } else if si < 0 || si >= src.len() {
        if vals.len() == 0 {
            Quantum::End
        } else {
            Quantum::Corrupt(si - vals.len())
        }
    } else {
        let c = src[si];
        if b64_value(a, c) >= 0 {
            gather(a, src, si + 1, vals.push(b64_value(a, c) as u8))
        } else if is_newline(c) {
            gather(a, src, si + 1, vals)
        } else if c != 61 || vals.len() < 2 {
            Quantum::Corrupt(si)
        } else {
            let k = skip_newlines(src, si + 1);
            if vals.len() == 2 && k >= src.len() {
                Quantum::Corrupt(src.len() as int)
            } else if vals.len() == 2 && src[k] != 61 {
                Quantum::Corrupt(k - 1)
            } else {
                let after = if vals.len() == 2 { k + 1 } else { si + 1 };
                let e = skip_newlines(src, after);
                Quantum::Padded(packed(vals, vals.len() - 1), if e < src.len() { Some(e) } else { None })
            }
        }
    }
}

/// `base64.Encoding.DecodeString` from offset `si`: padded, not strict,
/// newlines skipped.
pub open spec fn decode_from(a: Alphabet, src: Seq<u8>, si: int) -> Result<Seq<u8>, int>
    decreases src.len() - si,
{
    if si < 0 || si >= src.len() {
        Ok(Seq::empty())
    } else {
        match gather(a, src, si, Seq::empty()) {
            Quantum::Full(b, next) => if si < next <= src.len() {
                match decode_from(a, src, next) {
                    Ok(rest) => Ok(b + rest),
                    Err(e) => Err(e),
                }
            } else {
                Err(-1)
            },
            Quantum::Padded(b, trailing) => match trailing {
                Some(e) => Err(e),
                None => Ok(b),
            },
            Quantum::End => Ok(Seq::empty()),
            Quantum::Corrupt(e) => Err(e),
        }
    }
}

/// Skipping newlines stays within the input and stops at a non-newline.
pub proof fn lemma_skip_newlines(src: Seq<u8>, i: int)
    requires
        0 <= i,
    ensures
        i <= skip_newlines(src, i),
        i <= src.len() ==> skip_newlines(src, i) <= src.len(),
        skip_newlines(src, i) < src.len() ==> !is_newline(src[skip_newlines(src, i)]),
    decreases src.len() - i,
{
    if 0 <= i < src.len() && is_newline(src[i]) {
        lemma_skip_newlines(src, i + 1);
    }
}

proof fn lemma_gather_full(a: Alphabet, src: Seq<u8>, si: int, vals: Seq<u8>)
    requires
        0 <= si <= src.len(),
        vals.len() <= 4,
    ensures
        gather(a, src, si, vals) matches Quantum::Full(_, next) ==> si + 4 - vals.len() <= next <= src.len(),
    decreases src.len() - si,
{
    if vals.len() < 4 && si < src.len() {
        let c = src[si];
        if b64_value(a, c) >= 0 {
            lemma_gather_full(a, src, si + 1, vals.push(b64_value(a, c) as u8));
        } else if is_newline(c) {
            lemma_gather_full(a, src, si + 1, vals);
        }
    }
}

fn decode_char(a: Alphabet, c: u8) -> (r: Option<u8>)
    ensures
        match r {
            Some(v) => b64_value(a, c) == v as int && v < 64,
            None => b64_value(a, c) == -1,
        },
{
    if 65 <= c && c <= 90 {
        Some(c - 65)
    } else if 97 <= c && c <= 122 {
        Some(c - 71)
    } else if 48 <= c && c <= 57 {
        Some(c + 4)
    } else if (c == 43 && a == Alphabet::Std) || (c == 45 && a == Alphabet::Url) {
        Some(62)
    } else if (c == 47 && a == Alphabet::Std) || (c == 95 && a == Alphabet::Url) {
        Some(63)
    } else {
        None
    }
}

fn skip_nl(src: &[u8], i: usize) -> (k: usize)
    requires
        i <= src@.len(),
    ensures
        k == skip_newlines(src@, i as int),
        i <= k <= src@.len(),
{
    let mut k = i;
    while k < src.len() && (src[k] == 10 || src[k] == 13)
        invariant
            i <= k <= src@.len(),
            skip_newlines(src@, k as int) == skip_newlines(src@, i as int),
        decreases src@.len() - k,
    {
        k = k + 1;
    }
    k
}

pub(crate) fn push_packed(out: &mut Vec<u8>, vals: &Vec<u8>, n: usize)
    requires
        n <= 3,
        vals@.len() <= 4,
        forall|j: int| 0 <= j < vals@.len() ==> #[trigger] vals@[j] < 64,
    ensures
        final(out)@ == old(out)@ + packed(vals@, n as int),
{
    let v0: u32 = if vals.len() > 0 { vals[0] as u32 } else { 0 };
    let v1: u32 = if vals.len() > 1 { vals[1] as u32 } else { 0 };
    let v2: u32 = if vals.len() > 2 { vals[2] as u32 } else { 0 };
    let v3: u32 = if vals.len() > 3 { vals[3] as u32 } else { 0 };
    let ghost o = out@;
    let b0 = (v0 * 4 + v1 / 16) as u8;
    let b1 = ((v1 % 16) * 16 + v2 / 4) as u8;
    let b2 = ((v2 % 4) * 64 + v3) as u8;
    if n > 0 {
        out.push(b0);
    }
    if n > 1 {
        out.push(b1);
    }
    if n > 2 {
        out.push(b2);
    }
    assert(out@ =~= o + packed(vals@, n as int));
}

/// `base64.StdEncoding.DecodeString` / `URLEncoding.DecodeString`: padded,
/// not strict, `\r` and `\n` skipped.
pub fn base64_decode(alphabet: Alphabet, src: &[u8]) -> (r: Result<Vec<u8>, CorruptInput>)
    ensures
        match r {
            Ok(v) => decode_from(alphabet, src@, 0) == Ok::<Seq<u8>, int>(v@),
            Err(e) => decode_from(alphabet, src@, 0) == Err::<Seq<u8>, int>(e.0 as int),
        },
{
    let mut out: Vec<u8> = Vec::new();
    let mut si: usize = 0;
    while si < src.len()
        invariant
            si <= src@.len(),
            decode_from(alphabet, src@, 0) == match decode_from(alphabet, src@, si as int) {
                Ok(rest) => Ok::<Seq<u8>, int>(out@ + rest),
                Err(e) => Err::<Seq<u8>, int>(e),
            },
        decreases src@.len() - si,
    {
        let si0 = si;
        let mut vals: Vec<u8> = Vec::new();
        proof {
            lemma_gather_full(alphabet, src@, si as int, Seq::empty());
        }
        // Reads up to four values; a quantum that pads or fails ends the input.
        while vals.len() < 4
            invariant
                si0 <= si <= src@.len(),
                si0 < src@.len(),
                vals@.len() <= 4,
                vals@.len() <= si - si0,
                forall|j: int| 0 <= j < vals@.len() ==> #[trigger] vals@[j] < 64,
                gather(alphabet, src@, si0 as int, Seq::empty()) == gather(alphabet, src@, si as int, vals@),
                decode_from(alphabet, src@, 0) == match decode_from(alphabet, src@, si0 as int) {
                    Ok(rest) => Ok::<Seq<u8>, int>(out@ + rest),
                    Err(e) => Err::<Seq<u8>, int>(e),
                },
            decreases src@.len() - si, 4 - vals@.len(),
        {
            if si == src.len() {
                if vals.len() == 0 {
                    return Ok(out);
                }
                return Err(CorruptInput(si - vals.len()));
            }
            let c = src[si];
            match decode_char(alphabet, c) {
                Some(v) => {
                    vals.push(v);
                    si = si + 1;
                    continue;
                },
                None => {},
            }
            if c == 10 || c == 13 {
                si = si + 1;
                continue;
            }
            if c != 61 || vals.len() < 2 {
                return Err(CorruptInput(si));
            }
            let mut after: usize = si + 1;
            if vals.len() == 2 {
                let k = skip_nl(src, si + 1);
                if k == src.len() {
                    return Err(CorruptInput(src.len()));
                }
                if src[k] != 61 {
                    return Err(CorruptInput(k - 1));
                }
                after = k + 1;
            }
            let e = skip_nl(src, after);
            let n = vals.len() - 1;
            push_packed(&mut out, &vals, n);
            if e < src.len() {
                return Err(CorruptInput(e));
            }
            return Ok(out);
        }
        let ghost o = out@;
        push_packed(&mut out, &vals, 3);
        proof {
            let b = packed(vals@, 3);
            assert(gather(alphabet, src@, si as int, vals@) == Quantum::Full(b, si as int));
            assert(si0 < si);
            match decode_from(alphabet, src@, si as int) {
                Ok(rest) => {
                    assert(o + (b + rest) =~= (o + b) + rest);
                },
                Err(e) => {},
            }
        }
    }
    proof {
        assert(decode_from(alphabet, src@, si as int) == Ok::<Seq<u8>, int>(Seq::empty()));
        assert(out@ + Seq::<u8>::empty() =~= out@);
    }
    Ok(out)
}

/// `runtime.Bytes`: the standard encoding, then the URL-safe one; the
/// URL-safe error wins.
pub fn runtime_bytes(val: &[u8]) -> (r: Result<Vec<u8>, CorruptInput>)
    ensures
        match decode_from(Alphabet::Std, val@, 0) {
            Ok(v) => r matches Ok(w) && w@ == v,
            Err(_) => match r {
                Ok(w) => decode_from(Alphabet::Url, val@, 0) == Ok::<Seq<u8>, int>(w@),
                Err(e) => decode_from(Alphabet::Url, val@, 0) == Err::<Seq<u8>, int>(e.0 as int),
            },
        },
{
    match base64_decode(Alphabet::Std, val) {
        Ok(v) => Ok(v),
        Err(_) => base64_decode(Alphabet::Url, val),
    }
}

} // verus!
