//! What grpc-gateway's `runtime.JSONPb` does around protojson with the
//! `encoding/json` `Decoder` that reads a request body: the first JSON value
//! of the body, checked by `encoding/json`'s scanner (which allows 10 000
//! levels of nesting), and the elements and members of a value that passed
//! it.
use vstd::prelude::*;
use vstd::string::StringSliceAdditionalSpecFns;
use crate::bytes::{ascii_digit, ascii_hex_digit, copy_bytes, decimal, push_all, spec_decimal, is_digit, is_hex_digit};
use crate::json::{JsonError, JsonErrorKind};
use crate::request::json::{lemma_skip_digits, lemma_skip_ws, skip_digit_run, skip_digits, skip_space, skip_ws};

verus! {

/// The deepest nesting of arrays and objects the scanner accepts.
pub const MAX_NESTING: usize = 10_000;

/// Why scanning stopped: the input ended, or a byte at an offset that cannot
/// stand there, with the words that say so.
pub enum StreamErr {
    Eof,
    Syntax(int, Seq<u8>),
}

/// The text of a scanner error, as the `JsonError` carries it.
pub open spec fn stream_error_text(e: StreamErr) -> Seq<u8> {
    match e {
        StreamErr::Eof => "unexpected EOF".spec_bytes(),
        StreamErr::Syntax(o, w) => w + " (offset ".spec_bytes() + spec_decimal(o as nat) + ")".spec_bytes(),
    }
}

pub open spec fn is_simple_escape(e: u8) -> bool {
    e == 98 || e == 102 || e == 110 || e == 114 || e == 116 || e == 92 || e == 47 || e == 34
}

/// The four hex digits of a `\u` escape whose backslash is at `k`, from the
/// `m`-th on: what stops them, if anything.
pub open spec fn u_check(t: Seq<u8>, k: int, m: int) -> Option<StreamErr>
    decreases 4 - m,
{
    if m >= 4 || m < 0 {
        None
    } else if k + 2 + m >= t.len() {
        Some(StreamErr::Eof)
    } else if !is_hex_digit(t[k + 2 + m]) {
        Some(StreamErr::Syntax(k, "invalid character in \\u escape".spec_bytes()))
    } else {
        u_check(t, k, m + 1)
    }
}

pub proof fn lemma_u_check(t: Seq<u8>, k: int, m: int)
    requires
        0 <= m <= 3,
    ensures
        u_check(t, k, m) is None ==> k + 6 <= t.len(),
    decreases 3 - m,
{
    if m < 3 {
        lemma_u_check(t, k, m + 1);
    }
}

/// A string from `k`, inside its quotes: the position after the closing
/// quote.
pub open spec fn str_from(t: Seq<u8>, k: int) -> Result<int, StreamErr>
    decreases t.len() - k,
{
    if k < 0 || k >= t.len() {
        Err(StreamErr::Eof)
    } else if t[k] == 34 {
        Ok(k + 1)
    } else if t[k] == 92 {
        if k + 1 >= t.len() {
            Err(StreamErr::Eof)
        } else if is_simple_escape(t[k + 1]) {
            str_from(t, k + 2)
        } else if t[k + 1] == 117 {
            match u_check(t, k, 0) {
                Some(e) => Err(e),
                None => {
                    proof {
                        lemma_u_check(t, k, 0);
                    }
                    str_from(t, k + 6)
                },
            }
        } else {
            Err(StreamErr::Syntax(k, "invalid character in string escape code".spec_bytes()))
        }
    } else if t[k] < 0x20 {
        Err(StreamErr::Syntax(k, "invalid character in string literal".spec_bytes()))
    } else {
        str_from(t, k + 1)
    }
}

/// Where a number cannot end: at the end of the input it is cut short,
/// anywhere else it is invalid.
pub open spec fn need(t: Seq<u8>, p: int) -> StreamErr {
    if p >= t.len() {
        StreamErr::Eof
    } else {
        StreamErr::Syntax(p, "invalid character in numeric literal".spec_bytes())
    }
}

pub open spec fn digit_at(t: Seq<u8>, p: int) -> bool {
    0 <= p < t.len() && is_digit(t[p])
}

/// A number from `i`: where it ends.
pub open spec fn num_from(t: Seq<u8>, i: int) -> Result<int, StreamErr> {
    let a = if 0 <= i < t.len() && t[i] == 45 {
        i + 1
    } else {
        i
    };
    if !(0 <= a < t.len()) || !is_digit(t[a]) {
        Err(need(t, a))
    } else {
        let b = if t[a] == 48 {
            a + 1
        } else {
            skip_digits(t, a)
        };
        let fr: Result<int, StreamErr> = if b < t.len() && t[b] == 46 {
            if !digit_at(t, b + 1) {
                Err(need(t, b + 1))
            } else {
                Ok(skip_digits(t, b + 1))
            }
        } else {
            Ok(b)
        };
        match fr {
            Err(e) => Err(e),
            Ok(c) => if c < t.len() && (t[c] == 101 || t[c] == 69) {
                let d = if c + 1 < t.len() && (t[c + 1] == 43 || t[c + 1] == 45) {
                    c + 2
                } else {
                    c + 1
                };
                if !digit_at(t, d) {
                    Err(need(t, d))
                } else {
                    Ok(skip_digits(t, d))
                }
            } else {
                Ok(c)
            },
        }
    }
}

/// The literal `lit` at `i`, from its `k`-th byte on.
pub open spec fn lit_from(t: Seq<u8>, i: int, lit: Seq<u8>, k: int) -> Result<int, StreamErr>
    decreases lit.len() - k,
{
    if k >= lit.len() || k < 0 {
        Ok(i + lit.len())
    } else if i + k >= t.len() {
        Err(StreamErr::Eof)
    } else if t[i + k] != lit[k] {
        Err(StreamErr::Syntax(i + k, "invalid character in literal".spec_bytes()))
    } else {
        lit_from(t, i, lit, k + 1)
    }
}

/// An object key at `k` and its colon: the position of the value.
pub open spec fn key_at(t: Seq<u8>, k: int) -> Result<int, StreamErr> {
    if k < 0 || k >= t.len() {
        Err(StreamErr::Eof)
    } else if t[k] != 34 {
        Err(StreamErr::Syntax(k, "invalid character looking for beginning of object key".spec_bytes()))
    } else {
        match str_from(t, k + 1) {
            Err(e) => Err(e),
            Ok(e) => {
                let p = skip_ws(t, e);
                if p >= t.len() {
                    Err(StreamErr::Eof)
                } else if t[p] == 58 {
                    Ok(p + 1)
                } else {
                    Err(StreamErr::Syntax(p, "invalid character after object key".spec_bytes()))
                }
            },
        }
    }
}

pub open spec fn literal_of(c: u8) -> Seq<u8> {
    if c == 116 {
        "true".spec_bytes()
    } else if c == 102 {
        "false".spec_bytes()
    } else {
        "null".spec_bytes()
    }
}

/// One value from `i`, white space first, with `d` containers open around
/// it: the position after it.
pub open spec fn sv(t: Seq<u8>, i: int, d: int) -> Result<int, StreamErr>
    decreases t.len() - i, 1int,
{
    if i < 0 {
        Err(StreamErr::Eof)
    } else {
        let j = skip_ws(t, i);
        proof {
            lemma_skip_ws(t, i);
        }
        if j >= t.len() {
            Err(StreamErr::Eof)
        } else {
            let c = t[j];
            if c == 123 || c == 91 {
                if d + 1 > MAX_NESTING {
                    Err(StreamErr::Syntax(j, "exceeded max depth".spec_bytes()))
                } else {
                    let k = skip_ws(t, j + 1);
                    proof {
                        lemma_skip_ws(t, j + 1);
                    }
                    if k >= t.len() {
                        Err(StreamErr::Eof)
                    } else if (c == 123 && t[k] == 125) || (c == 91 && t[k] == 93) {
                        Ok(k + 1)
                    } else if c == 123 {
                        obj_members(t, k, d + 1)
                    } else {
                        arr_elements(t, k, d + 1)
                    }
                }
            } else if c == 34 {
                str_from(t, j + 1)
            } else if c == 45 || is_digit(c) {
                num_from(t, j)
            } else if c == 116 || c == 102 || c == 110 {
                lit_from(t, j, literal_of(c), 0)
            } else {
                Err(StreamErr::Syntax(j, "invalid character looking for beginning of value".spec_bytes()))
            }
        }
    }
}

/// The members of an object from the key at `k`, `d` containers deep.
pub open spec fn obj_members(t: Seq<u8>, k: int, d: int) -> Result<int, StreamErr>
    decreases t.len() - k, 2int,
{
    if k < 0 {
        Err(StreamErr::Eof)
    } else {
        match key_at(t, k) {
            Err(e) => Err(e),
            Ok(v) => if v <= k || v > t.len() {
                Err(StreamErr::Eof)
            } else {
                match sv(t, v, d) {
                    Err(e) => Err(e),
                    Ok(e) => if e <= k || e > t.len() {
                        Err(StreamErr::Eof)
                    } else {
                        obj_after(t, e, d)
                    },
                }
            },
        }
    }
}

/// After a member's value at `e`: the next member, or the end of the
/// object.
pub open spec fn obj_after(t: Seq<u8>, e: int, d: int) -> Result<int, StreamErr>
    decreases t.len() - e, 3int,
{
    if e < 0 {
        Err(StreamErr::Eof)
    } else {
        let p = skip_ws(t, e);
        proof {
            lemma_skip_ws(t, e);
        }
        if p >= t.len() {
            Err(StreamErr::Eof)
        } else if t[p] == 125 {
            Ok(p + 1)
        } else if t[p] == 44 {
            proof {
                lemma_skip_ws(t, p + 1);
            }
            obj_members(t, skip_ws(t, p + 1), d)
        } else {
            Err(StreamErr::Syntax(p, "invalid character after value".spec_bytes()))
        }
    }
}

/// The elements of an array from `k`, `d` containers deep.
pub open spec fn arr_elements(t: Seq<u8>, k: int, d: int) -> Result<int, StreamErr>
    decreases t.len() - k, 2int,
{
    if k < 0 {
        Err(StreamErr::Eof)
    } else {
        match sv(t, k, d) {
            Err(e) => Err(e),
            Ok(e) => if e <= k || e > t.len() {
                Err(StreamErr::Eof)
            } else {
                arr_after(t, e, d)
            },
        }
    }
}

/// After an element at `e`: the next element, or the end of the array.
pub open spec fn arr_after(t: Seq<u8>, e: int, d: int) -> Result<int, StreamErr>
    decreases t.len() - e, 3int,
{
    if e < 0 {
        Err(StreamErr::Eof)
    } else {
        let p = skip_ws(t, e);
        proof {
            lemma_skip_ws(t, e);
        }
        if p >= t.len() {
            Err(StreamErr::Eof)
        } else if t[p] == 93 {
            Ok(p + 1)
        } else if t[p] == 44 {
            arr_elements(t, p + 1, d)
        } else {
            Err(StreamErr::Syntax(p, "invalid character after value".spec_bytes()))
        }
    }
}

pub proof fn lemma_str_progress(t: Seq<u8>, k: int)
    ensures
        str_from(t, k) matches Ok(e) ==> k < e <= t.len(),
    decreases t.len() - k,
{
    if 0 <= k < t.len() && t[k] != 34 {
        if t[k] == 92 {
            if k + 1 < t.len() {
                if is_simple_escape(t[k + 1]) {
                    lemma_str_progress(t, k + 2);
                } else if t[k + 1] == 117 && u_check(t, k, 0) is None {
                    lemma_u_check(t, k, 0);
                    lemma_str_progress(t, k + 6);
                }
            }
        } else if t[k] >= 0x20 {
            lemma_str_progress(t, k + 1);
        }
    }
}

pub proof fn lemma_num_progress(t: Seq<u8>, i: int)
    requires
        0 <= i < t.len(),
    ensures
        num_from(t, i) matches Ok(e) ==> i < e <= t.len(),
{
    let a = if t[i] == 45 {
        i + 1
    } else {
        i
    };
    if 0 <= a < t.len() && is_digit(t[a]) {
        lemma_skip_digits(t, a);
        let b = if t[a] == 48 {
            a + 1
        } else {
            skip_digits(t, a)
        };
        if b < t.len() && t[b] == 46 && digit_at(t, b + 1) {
            lemma_skip_digits(t, b + 1);
        }
        let c = if b < t.len() && t[b] == 46 {
            skip_digits(t, b + 1)
        } else {
            b
        };
        if c < t.len() {
            let d = if c + 1 < t.len() && (t[c + 1] == 43 || t[c + 1] == 45) {
                c + 2
            } else {
                c + 1
            };
            if digit_at(t, d) {
                lemma_skip_digits(t, d);
            }
        }
    }
}

pub proof fn lemma_lit(t: Seq<u8>, i: int, lit: Seq<u8>, k: int)
    requires
        0 <= k <= lit.len(),
        0 <= i,
        i + k <= t.len(),
    ensures
        lit_from(t, i, lit, k) matches Ok(e) ==> e == i + lit.len() && e <= t.len(),
    decreases lit.len() - k,
{
    if k < lit.len() && i + k < t.len() {
        lemma_lit(t, i, lit, k + 1);
    }
}

pub proof fn lemma_key_progress(t: Seq<u8>, k: int)
    ensures
        key_at(t, k) matches Ok(v) ==> k < v <= t.len(),
{
    if 0 <= k < t.len() && t[k] == 34 {
        lemma_str_progress(t, k + 1);
        if let Ok(e) = str_from(t, k + 1) {
            lemma_skip_ws(t, e);
        }
    }
}

pub proof fn lemma_sv_progress(t: Seq<u8>, i: int, d: int)
    ensures
        sv(t, i, d) matches Ok(e) ==> i < e <= t.len() && skip_ws(t, i) < e,
    decreases t.len() - i, 1int,
{
    if i >= 0 {
        let j = skip_ws(t, i);
        lemma_skip_ws(t, i);
        if j < t.len() {
            let c = t[j];
            if (c == 123 || c == 91) && d + 1 <= MAX_NESTING {
                let k = skip_ws(t, j + 1);
                lemma_skip_ws(t, j + 1);
                if k < t.len() && !((c == 123 && t[k] == 125) || (c == 91 && t[k] == 93)) {
                    if c == 123 {
                        lemma_members_progress(t, k, d + 1);
                    } else {
                        lemma_elements_progress(t, k, d + 1);
                    }
                }
            } else if c == 34 {
                lemma_str_progress(t, j + 1);
            } else if c == 45 || is_digit(c) {
                lemma_num_progress(t, j);
            } else if c == 116 || c == 102 || c == 110 {
                lemma_lit(t, j, literal_of(c), 0);
                reveal_strlit("true");
                reveal_strlit("false");
                reveal_strlit("null");
            }
        }
    }
}

pub proof fn lemma_members_progress(t: Seq<u8>, k: int, d: int)
    ensures
        obj_members(t, k, d) matches Ok(e) ==> k < e <= t.len(),
    decreases t.len() - k, 2int,
{
    if k >= 0 {
        if let Ok(v) = key_at(t, k) {
            if k < v <= t.len() {
                if let Ok(e) = sv(t, v, d) {
                    if k < e <= t.len() {
                        lemma_obj_after_progress(t, e, d);
                    }
                }
            }
        }
    }
}

pub proof fn lemma_obj_after_progress(t: Seq<u8>, e: int, d: int)
    ensures
        obj_after(t, e, d) matches Ok(x) ==> e < x <= t.len(),
    decreases t.len() - e, 3int,
{
    if e >= 0 {
        let p = skip_ws(t, e);
        lemma_skip_ws(t, e);
        if p < t.len() && t[p] == 44 {
            lemma_skip_ws(t, p + 1);
            lemma_members_progress(t, skip_ws(t, p + 1), d);
        }
    }
}

pub proof fn lemma_elements_progress(t: Seq<u8>, k: int, d: int)
    ensures
        arr_elements(t, k, d) matches Ok(e) ==> k < e <= t.len(),
    decreases t.len() - k, 2int,
{
    if k >= 0 {
        if let Ok(e) = sv(t, k, d) {
            if k < e <= t.len() {
                lemma_arr_after_progress(t, e, d);
            }
        }
    }
}

pub proof fn lemma_arr_after_progress(t: Seq<u8>, e: int, d: int)
    ensures
        arr_after(t, e, d) matches Ok(x) ==> e < x <= t.len(),
    decreases t.len() - e, 3int,
{
    if e >= 0 {
        let p = skip_ws(t, e);
        lemma_skip_ws(t, e);
        if p < t.len() && t[p] == 44 {
            lemma_elements_progress(t, p + 1, d);
        }
    }
}

/// What the scan of the whole value comes to once the innermost value being
/// read came to `r`, with the containers of `stack` open around it, the
/// innermost last, inside `base` containers outside the scan.
pub open spec fn cont(t: Seq<u8>, r: Result<int, StreamErr>, stack: Seq<u8>, base: int) -> Result<int, StreamErr>
    decreases stack.len(),
{
    match r {
        Err(e) => Err(e),
        Ok(e) => if stack.len() == 0 {
            Ok(e)
        } else {
            let d = base + stack.len();
            let next = if stack.last() == 123 {
                obj_after(t, e, d)
            } else {
                arr_after(t, e, d)
            };
            cont(t, next, stack.drop_last(), base)
        },
    }
}

/// Opening an object whose first key ends at `v`: the rest of the scan is
/// the value at `v` with the object pushed.
proof fn lemma_open_object(t: Seq<u8>, k: int, stack: Seq<u8>, base: int, v: int)
    requires
        key_at(t, k) == Ok::<int, StreamErr>(v),
    ensures
        cont(t, obj_members(t, k, base + stack.len() + 1), stack, base) == cont(
            t,
            sv(t, v, base + stack.len() + 1),
            stack.push(123),
            base,
        ),
{
    let d = base + stack.len() + 1;
    lemma_key_progress(t, k);
    lemma_sv_progress(t, v, d);
    assert(stack.push(123).drop_last() =~= stack);
    assert(stack.push(123).last() == 123);
    assert(stack.push(123).len() == stack.len() + 1);
}

/// Opening an array whose first element is at `k`.
proof fn lemma_open_array(t: Seq<u8>, k: int, stack: Seq<u8>, base: int, x: u8)
    requires
        k >= 0,
        x != 123,
    ensures
        cont(t, arr_elements(t, k, base + stack.len() + 1), stack, base) == cont(
            t,
            sv(t, k, base + stack.len() + 1),
            stack.push(x),
            base,
        ),
{
    let d = base + stack.len() + 1;
    lemma_sv_progress(t, k, d);
    assert(stack.push(x).drop_last() =~= stack);
    assert(stack.push(x).last() == x);
    assert(stack.push(x).len() == stack.len() + 1);
}

/// A scanner failure as the scanner carries it.
enum Fail {
    Eof,
    Syntax(usize, Vec<u8>),
}

impl Fail {
    spec fn v(&self) -> StreamErr {
        match self {
            Fail::Eof => StreamErr::Eof,
            Fail::Syntax(o, w) => StreamErr::Syntax(*o as int, w@),
        }
    }
}

fn fail(offset: usize, what: &str) -> (f: Fail)
    ensures
        f.v() == StreamErr::Syntax(offset as int, what.spec_bytes()),
{
    Fail::Syntax(offset, copy_bytes(what.as_bytes()))
}

/// The scanner's answer agrees with the scan: the same end, or the same
/// failure.
spec fn agrees(spec: Result<int, StreamErr>, r: Result<usize, Fail>) -> bool {
    match r {
        Ok(e) => spec == Ok::<int, StreamErr>(e as int),
        Err(x) => spec == Err::<int, StreamErr>(x.v()),
    }
}

fn str_end(s: &[u8], k: usize) -> (r: Result<usize, Fail>)
    requires
        k <= s@.len(),
    ensures
        agrees(str_from(s@, k as int), r),
{
    let mut i = k;
    while i < s.len() && s[i] != 34
        invariant
            k <= i <= s@.len(),
            str_from(s@, k as int) == str_from(s@, i as int),
        decreases s@.len() - i,
    {
        let c = s[i];
        if c == 92 {
            if i + 1 >= s.len() {
                return Err(Fail::Eof);
            }
            let e = s[i + 1];
            if e == 98 || e == 102 || e == 110 || e == 114 || e == 116 || e == 92 || e == 47 || e
                == 34 {
                i = i + 2;
            } else if e == 117 {
                let mut m: usize = 0;
                while m < 4
                    invariant
                        m <= 4,
                        k <= i,
                        i + 1 < s@.len(),
                        s@[i as int] == 92,
                        s@[i + 1] == 117,
                        str_from(s@, k as int) == str_from(s@, i as int),
                        u_check(s@, i as int, 0) == u_check(s@, i as int, m as int),
                    decreases 4 - m,
                {
                    if m >= s.len() - i - 2 {
                        return Err(Fail::Eof);
                    }
                    if !ascii_hex_digit(s[i + 2 + m]) {
                        return Err(fail(i, "invalid character in \\u escape"));
                    }
                    m = m + 1;
                }
                proof {
                    lemma_u_check(s@, i as int, 0);
                }
                i = i + 6;
            } else {
                return Err(fail(i, "invalid character in string escape code"));
            }
        } else if c < 0x20 {
            return Err(fail(i, "invalid character in string literal"));
        } else {
            i = i + 1;
        }
    }
    if i >= s.len() {
        return Err(Fail::Eof);
    }
    Ok(i + 1)
}

fn need_at(s: &[u8], p: usize) -> (f: Fail)
    ensures
        f.v() == need(s@, p as int),
{
    if p >= s.len() {
        Fail::Eof
    } else {
        fail(p, "invalid character in numeric literal")
    }
}

fn num_end(s: &[u8], i: usize) -> (r: Result<usize, Fail>)
    requires
        i < s@.len(),
    ensures
        agrees(num_from(s@, i as int), r),
{
    let a = if s[i] == 45 {
        i + 1
    } else {
        i
    };
    if a >= s.len() || !ascii_digit(s[a]) {
        return Err(need_at(s, a));
    }
    let b = if s[a] == 48 {
        a + 1
    } else {
        skip_digit_run(s, a)
    };
    let c = if b < s.len() && s[b] == 46 {
        if b + 1 >= s.len() || !ascii_digit(s[b + 1]) {
            return Err(need_at(s, b + 1));
        }
        skip_digit_run(s, b + 1)
    } else {
        b
    };
    if c < s.len() && (s[c] == 101 || s[c] == 69) {
        let d = if c + 1 < s.len() && (s[c + 1] == 43 || s[c + 1] == 45) {
            c + 2
        } else {
            c + 1
        };
        if d >= s.len() || !ascii_digit(s[d]) {
            return Err(need_at(s, d));
        }
        Ok(skip_digit_run(s, d))
    } else {
        Ok(c)
    }
}

fn lit_end(s: &[u8], i: usize, lit: &[u8]) -> (r: Result<usize, Fail>)
    requires
        i <= s@.len(),
    ensures
        agrees(lit_from(s@, i as int, lit@, 0), r),
{
    let mut k: usize = 0;
    while k < lit.len()
        invariant
            k <= lit@.len(),
            i + k <= s@.len(),
            lit_from(s@, i as int, lit@, 0) == lit_from(s@, i as int, lit@, k as int),
        decreases lit@.len() - k,
    {
        if k >= s.len() - i {
            return Err(Fail::Eof);
        }
        if s[i + k] != lit[k] {
            return Err(fail(i + k, "invalid character in literal"));
        }
        k = k + 1;
    }
    let n = s.len();
    assert(i + k <= n);
    Ok(i + k)
}

fn key_end(s: &[u8], k: usize) -> (r: Result<usize, Fail>)
    requires
        k <= s@.len(),
    ensures
        agrees(key_at(s@, k as int), r),
{
    if k >= s.len() {
        return Err(Fail::Eof);
    }
    if s[k] != 34 {
        return Err(fail(k, "invalid character looking for beginning of object key"));
    }
    let e = match str_end(s, k + 1) {
        Ok(e) => e,
        Err(x) => {
            return Err(x);
        },
    };
    proof {
        lemma_str_progress(s@, k + 1);
    }
    let p = skip_space(s, e);
    if p >= s.len() {
        return Err(Fail::Eof);
    }
    if s[p] == 58 {
        Ok(p + 1)
    } else {
        Err(fail(p, "invalid character after object key"))
    }
}

/// The end of the value from `start`, white space first. Containers are
/// kept on a stack of their opening bytes rather than on the call stack, so
/// that the ten thousand levels the scanner allows fit.
fn scan_at(s: &[u8], start: usize, base: usize) -> (r: Result<usize, Fail>)
    requires
        start <= s@.len(),
        base <= MAX_NESTING,
    ensures
        agrees(sv(s@, start as int, base as int), r),
{
    let ghost goal = sv(s@, start as int, base as int);
    let mut stack: Vec<u8> = Vec::new();
    let mut i = start;
    let mut in_value = true;
    assert(cont(s@, goal, stack@, base as int) == goal);
    loop
        invariant
            i <= s@.len(),
            base + stack@.len() <= MAX_NESTING,
            goal == sv(s@, start as int, base as int),
            in_value ==> cont(s@, sv(s@, i as int, base + stack@.len()), stack@, base as int) == goal,
            !in_value ==> cont(s@, Ok(i as int), stack@, base as int) == goal,
        decreases s@.len() - i,
    {
        if in_value {
            let ghost d = base + stack@.len();
            let j = skip_space(s, i);
            if j >= s.len() {
                return Err(Fail::Eof);
            }
            let c = s[j];
            if c == 123 || c == 91 {
                if base + stack.len() + 1 > MAX_NESTING {
                    return Err(fail(j, "exceeded max depth"));
                }
                let k = skip_space(s, j + 1);
                if k >= s.len() {
                    return Err(Fail::Eof);
                }
                if (c == 123 && s[k] == 125) || (c == 91 && s[k] == 93) {
                    i = k + 1;
                    in_value = false;
                } else if c == 123 {
                    let v = match key_end(s, k) {
                        Ok(v) => v,
                        Err(x) => {
                            return Err(x);
                        },
                    };
                    proof {
                        lemma_open_object(s@, k as int, stack@, base as int, v as int);
                        lemma_key_progress(s@, k as int);
                    }
                    stack.push(123);
                    i = v;
                } else {
                    proof {
                        lemma_open_array(s@, k as int, stack@, base as int, 91);
                    }
                    stack.push(91);
                    i = k;
                }
            } else {
                let e = if c == 34 {
                    str_end(s, j + 1)
                } else if c == 45 || ascii_digit(c) {
                    num_end(s, j)
                } else if c == 116 {
                    lit_end(s, j, "true".as_bytes())
                } else if c == 102 {
                    lit_end(s, j, "false".as_bytes())
                } else if c == 110 {
                    lit_end(s, j, "null".as_bytes())
                } else {
                    Err(fail(j, "invalid character looking for beginning of value"))
                };
                match e {
                    Ok(e) => {
                        proof {
                            lemma_sv_progress(s@, i as int, d);
                        }
                        i = e;
                        in_value = false;
                    },
                    Err(x) => {
                        return Err(x);
                    },
                }
            }
        } else {
            if stack.len() == 0 {
                return Ok(i);
            }
            let top = stack[stack.len() - 1];
            let ghost outer = stack@.drop_last();
            assert(stack@ =~= outer.push(top));
            let p = skip_space(s, i);
            proof {
                lemma_skip_ws(s@, i as int);
            }
            if p >= s.len() {
                assert(cont(s@, Err(StreamErr::Eof), outer, base as int) == Err::<int, StreamErr>(StreamErr::Eof));
                return Err(Fail::Eof);
            }
            let c = s[p];
            if (top == 123 && c == 125) || (top != 123 && c == 93) {
                stack.pop();
                assert(stack@ =~= outer);
                i = p + 1;
            } else if c == 44 {
                if top == 123 {
                    let k = skip_space(s, p + 1);
                    let v = match key_end(s, k) {
                        Ok(v) => v,
                        Err(x) => {
                            return Err(x);
                        },
                    };
                    proof {
                        lemma_open_object(s@, k as int, outer, base as int, v as int);
                        lemma_key_progress(s@, k as int);
                    }
                    i = v;
                } else {
                    proof {
                        lemma_open_array(s@, p + 1, outer, base as int, top);
                    }
                    i = p + 1;
                }
                in_value = true;
            } else {
                let f = fail(p, "invalid character after value");
                assert(cont(s@, Err(f.v()), outer, base as int) == Err::<int, StreamErr>(f.v()));
                return Err(f);
            }
        }
    }
}

/// The class of a scanner error.
pub open spec fn stream_error_kind(e: StreamErr) -> JsonErrorKind {
    match e {
        StreamErr::Eof => JsonErrorKind::UnexpectedEof,
        StreamErr::Syntax(_, _) => JsonErrorKind::Syntax,
    }
}

fn to_json_error(f: Fail) -> (e: JsonError)
    ensures
        e.kind_v() == stream_error_kind(f.v()),
        e.message_v() == stream_error_text(f.v()),
{
    match f {
        Fail::Eof => JsonError::eof(),
        Fail::Syntax(o, w) => {
            let mut m = w;
            push_all(&mut m, " (offset ".as_bytes());
            let n = decimal(o as u64);
            push_all(&mut m, n.as_slice());
            push_all(&mut m, ")".as_bytes());
            JsonError::new(JsonErrorKind::Syntax, m)
        },
    }
}

/// The first JSON value of `body`, as `json.Decoder.Decode` reads it into a
/// `json.RawMessage`: leading white space skipped, the value checked by the
/// scanner, whatever follows it ignored. `None` for a body that is empty or
/// only white space (`io.EOF`).
pub fn first_value(body: &[u8]) -> (r: Result<Option<&[u8]>, JsonError>)
    ensures
        ({
            let j = skip_ws(body@, 0);
            if j >= body@.len() {
                r matches Ok(None)
            } else {
                match sv(body@, j, 0) {
                    Ok(e) => r matches Ok(Some(v)) && v@ == body@.subrange(j, e),
                    Err(x) => r matches Err(err) && err.kind_v() == stream_error_kind(x)
                        && err.message_v() == stream_error_text(x),
                }
            }
        }),
{
    let j = skip_space(body, 0);
    if j >= body.len() {
        return Ok(None);
    }
    match scan_at(body, j, 0) {
        Ok(e) => {
            proof {
                lemma_sv_progress(body@, j as int, 0);
            }
            Ok(Some(vstd::slice::slice_subrange(body, j, e)))
        },
        Err(f) => Err(to_json_error(f)),
    }
}

/// A value's scan does not depend on the white space before it.
proof fn lemma_sv_skip(t: Seq<u8>, k: int, d: int)
    requires
        k >= 0,
    ensures
        sv(t, k, d) == sv(t, skip_ws(t, k), d),
{
    lemma_skip_ws(t, k);
}

/// The elements of an array from `k`, `d` containers deep, as spans: where
/// each starts, after its white space, and where it ends.
pub open spec fn arr_spans(t: Seq<u8>, k: int, d: int) -> Seq<(int, int)>
    decreases t.len() - k,
{
    if k < 0 {
        Seq::empty()
    } else {
        match sv(t, k, d) {
            Err(_) => Seq::empty(),
            Ok(e) => if e <= k || e > t.len() {
                Seq::empty()
            } else {
                let p = skip_ws(t, e);
                proof {
                    lemma_skip_ws(t, e);
                }
                let rest = if p < t.len() && t[p] == 44 {
                    arr_spans(t, p + 1, d)
                } else {
                    Seq::empty()
                };
                seq![(skip_ws(t, k), e)] + rest
            },
        }
    }
}

/// The spans of the elements of the array `t`.
pub open spec fn array_spans(t: Seq<u8>) -> Seq<(int, int)> {
    let k = skip_ws(t, 1);
    if k < t.len() && t[k] == 93 {
        Seq::empty()
    } else {
        arr_spans(t, k, 1)
    }
}

/// The elements of an array that already passed the scanner.
pub fn array_items(raw: &[u8]) -> (items: Vec<&[u8]>)
    requires
        raw@.len() > 0,
        raw@[0] == 91,
        sv(raw@, 0, 0) == Ok::<int, StreamErr>(raw@.len() as int),
    ensures
        items@.len() == array_spans(raw@).len(),
        forall|q: int|
            0 <= q < items@.len() ==> items@[q]@ == raw@.subrange(
                array_spans(raw@)[q].0,
                array_spans(raw@)[q].1,
            ),
{
    let ghost t = raw@;
    let ghost len = raw@.len() as int;
    let mut items: Vec<&[u8]> = Vec::new();
    let mut i = skip_space(raw, 1);
    proof {
        lemma_skip_ws(t, 1);
        assert(skip_ws(t, 0) == 0);
    }
    if raw[i] == 93 {
        return items;
    }
    let ghost mut k: int = i as int;
    let ghost mut done: Seq<(int, int)> = Seq::empty();
    proof {
        lemma_skip_ws(t, k);
        assert(array_spans(t) =~= done + arr_spans(t, k, 1));
    }
    loop
        invariant
            t == raw@,
            len == t.len(),
            0 <= k <= i < len,
            i == skip_ws(t, k),
            arr_elements(t, k, 1) == Ok::<int, StreamErr>(len),
            array_spans(t) == done + arr_spans(t, k, 1),
            items@.len() == done.len(),
            forall|q: int|
                0 <= q < items@.len() ==> items@[q]@ == t.subrange(done[q].0, done[q].1),
        decreases len - k,
    {
        proof {
            lemma_sv_skip(t, k, 1);
            lemma_sv_progress(t, k, 1);
        }
        let end = match scan_at(raw, i, 1) {
            Ok(e) => e,
            Err(_) => {
                proof {
                    assert(false);
                }
                return items;
            },
        };
        let ghost old_items = items@;
        items.push(vstd::slice::slice_subrange(raw, i, end));
        proof {
            done = done.push((i as int, end as int));
            assert forall|q: int| 0 <= q < items@.len() implies items@[q]@ == t.subrange(
                done[q].0,
                done[q].1,
            ) by {
                if q < old_items.len() {
                    assert(items@[q] == old_items[q]);
                }
            }
        }
        let p = skip_space(raw, end);
        proof {
            lemma_skip_ws(t, end as int);
        }
        if raw[p] == 93 {
            proof {
                assert(arr_spans(t, k, 1) =~= seq![(i as int, end as int)]);
                assert(array_spans(t) =~= done);
            }
            return items;
        }
        proof {
            assert(arr_spans(t, k, 1) =~= seq![(i as int, end as int)] + arr_spans(t, p + 1, 1));
            assert(array_spans(t) =~= done + arr_spans(t, p + 1, 1));
            k = p + 1;
            lemma_skip_ws(t, k);
        }
        i = skip_space(raw, p + 1);
    }
}

/// The members of an object from the key at `k`, `d` containers deep, as
/// spans: the key literal with its quotes, and the value after its white
/// space.
pub open spec fn obj_spans(t: Seq<u8>, k: int, d: int) -> Seq<(int, int, int, int)>
    decreases t.len() - k,
{
    if k < 0 {
        Seq::empty()
    } else {
        match key_at(t, k) {
            Err(_) => Seq::empty(),
            Ok(v) => if v <= k || v > t.len() {
                Seq::empty()
            } else {
                match sv(t, v, d) {
                    Err(_) => Seq::empty(),
                    Ok(e) => if e <= k || e > t.len() {
                        Seq::empty()
                    } else {
                        let ke = match str_from(t, k + 1) {
                            Ok(x) => x,
                            Err(_) => k,
                        };
                        let p = skip_ws(t, e);
                        proof {
                            lemma_skip_ws(t, e);
                        }
                        let rest = if p < t.len() && t[p] == 44 {
                            proof {
                                lemma_skip_ws(t, p + 1);
                            }
                            obj_spans(t, skip_ws(t, p + 1), d)
                        } else {
                            Seq::empty()
                        };
                        seq![(k, ke, skip_ws(t, v), e)] + rest
                    },
                }
            },
        }
    }
}

/// The spans of the members of the object `t`.
pub open spec fn object_spans(t: Seq<u8>) -> Seq<(int, int, int, int)> {
    let k = skip_ws(t, 1);
    if k < t.len() && t[k] == 125 {
        Seq::empty()
    } else {
        obj_spans(t, k, 1)
    }
}

/// The members of an object that already passed the scanner: each key
/// literal, with its quotes, and its value.
pub fn object_members(raw: &[u8]) -> (members: Vec<(&[u8], &[u8])>)
    requires
        raw@.len() > 0,
        raw@[0] == 123,
        sv(raw@, 0, 0) == Ok::<int, StreamErr>(raw@.len() as int),
    ensures
        members@.len() == object_spans(raw@).len(),
        forall|q: int|
            0 <= q < members@.len() ==> {
                let sp = #[trigger] object_spans(raw@)[q];
                &&& members@[q].0@ == raw@.subrange(sp.0, sp.1)
                &&& members@[q].1@ == raw@.subrange(sp.2, sp.3)
            },
{
    let ghost t = raw@;
    let ghost len = raw@.len() as int;
    let mut members: Vec<(&[u8], &[u8])> = Vec::new();
    let mut i = skip_space(raw, 1);
    proof {
        lemma_skip_ws(t, 1);
        assert(skip_ws(t, 0) == 0);
    }
    if raw[i] == 125 {
        return members;
    }
    let ghost mut done: Seq<(int, int, int, int)> = Seq::empty();
    proof {
        assert(object_spans(t) =~= done + obj_spans(t, i as int, 1));
    }
    loop
        invariant
            t == raw@,
            len == t.len(),
            0 <= i < len,
            obj_members(t, i as int, 1) == Ok::<int, StreamErr>(len),
            object_spans(t) == done + obj_spans(t, i as int, 1),
            members@.len() == done.len(),
            forall|q: int|
                0 <= q < members@.len() ==> {
                    let sp = #[trigger] done[q];
                    &&& members@[q].0@ == t.subrange(sp.0, sp.1)
                    &&& members@[q].1@ == t.subrange(sp.2, sp.3)
                },
        decreases len - i,
    {
        let n = raw.len();
        proof {
            lemma_key_progress(t, i as int);
            lemma_str_progress(t, i + 1);
        }
        let key_end = match str_end(raw, i + 1) {
            Ok(e) => e,
            Err(_) => {
                proof {
                    assert(false);
                }
                return members;
            },
        };
        let colon = skip_space(raw, key_end);
        proof {
            lemma_skip_ws(t, key_end as int);
        }
        let v = skip_space(raw, colon + 1);
        proof {
            lemma_sv_skip(t, colon + 1, 1);
            lemma_sv_progress(t, colon + 1, 1);
        }
        let end = match scan_at(raw, v, 1) {
            Ok(e) => e,
            Err(_) => {
                proof {
                    assert(false);
                }
                return members;
            },
        };
        let ghost old_members = members@;
        members.push((vstd::slice::slice_subrange(raw, i, key_end), vstd::slice::slice_subrange(raw, v, end)));
        let ghost here = (i as int, key_end as int, v as int, end as int);
        proof {
            done = done.push(here);
            assert forall|q: int| 0 <= q < members@.len() implies {
                let sp = #[trigger] done[q];
                &&& members@[q].0@ == t.subrange(sp.0, sp.1)
                &&& members@[q].1@ == t.subrange(sp.2, sp.3)
            } by {
                if q < old_members.len() {
                    assert(members@[q] == old_members[q]);
                }
            }
        }
        let p = skip_space(raw, end);
        proof {
            lemma_skip_ws(t, end as int);
        }
        if raw[p] == 125 {
            proof {
                assert(obj_spans(t, i as int, 1) =~= seq![here]);
                assert(object_spans(t) =~= done);
            }
            return members;
        }
        let k = skip_space(raw, p + 1);
        proof {
            lemma_skip_ws(t, p + 1);
            assert(obj_spans(t, i as int, 1) =~= seq![here] + obj_spans(t, k as int, 1));
            assert(object_spans(t) =~= done + obj_spans(t, k as int, 1));
        }
        i = k;
    }
}

} // verus!
