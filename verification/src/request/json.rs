//! What `encoding/json` does before the proto3 JSON codec in the generated
//! handlers: `json.Decoder.Decode` reads the first JSON value of the body
//! (the rest is never read), and plain Go values are decoded with its rules.
use vstd::prelude::*;
use vstd::string::StringSliceAdditionalSpecFns;
use crate::bytes::{ascii_digit, ascii_hex_digit, bytes_eq, copy_bytes, copy_range, hex_digit_value, is_digit, is_hex_digit, push_all};
use crate::request::form::{encode_rune, push_rune};
use crate::request::gotime::{escaped_char, hex4, simple_escape};
use crate::request::strconv::{decode_rune, lemma_decode_width, quote, quote_body, spec_decode_rune};

verus! {

pub open spec fn is_space(c: u8) -> bool {
    c == 32 || c == 9 || c == 13 || c == 10
}

/// The first position from `i` on that is not white space.
pub open spec fn skip_ws(t: Seq<u8>, i: int) -> int
    decreases t.len() - i,
{
    if 0 <= i < t.len() && is_space(t[i]) {
        skip_ws(t, i + 1)
    } else {
        i
    }
}

/// The first position from `i` on that is not a digit.
pub open spec fn skip_digits(t: Seq<u8>, i: int) -> int
    decreases t.len() - i,
{
    if 0 <= i < t.len() && is_digit(t[i]) {
        skip_digits(t, i + 1)
    } else {
        i
    }
}

pub proof fn lemma_skip_ws(t: Seq<u8>, i: int)
    requires
        0 <= i,
    ensures
        i <= skip_ws(t, i),
        i <= t.len() ==> skip_ws(t, i) <= t.len(),
        !(skip_ws(t, i) < t.len() && is_space(t[skip_ws(t, i)])),
        skip_ws(t, skip_ws(t, i)) == skip_ws(t, i),
    decreases t.len() - i,
{
    if 0 <= i < t.len() && is_space(t[i]) {
        lemma_skip_ws(t, i + 1);
    }
}

pub proof fn lemma_skip_digits(t: Seq<u8>, i: int)
    requires
        0 <= i,
    ensures
        i <= skip_digits(t, i),
        i <= t.len() ==> skip_digits(t, i) <= t.len(),
        !(skip_digits(t, i) < t.len() && is_digit(t[skip_digits(t, i)])),
    decreases t.len() - i,
{
    if 0 <= i < t.len() && is_digit(t[i]) {
        lemma_skip_digits(t, i + 1);
    }
}

/// Why scanning stopped: the input ended, or a byte that cannot stand where
/// it stands, with the words that say where.
pub enum ScanErr {
    Eof,
    Syntax(u8, Seq<u8>),
}

pub open spec fn is_simple_escape(e: u8) -> bool {
    e == 98 || e == 102 || e == 110 || e == 114 || e == 116 || e == 92 || e == 47 || e == 34
}

/// A string literal from `i`, just after its opening quote: the position
/// after its closing quote.
pub open spec fn scan_string(t: Seq<u8>, i: int) -> Result<int, ScanErr>
    decreases t.len() - i,
{
    if i < 0 || i >= t.len() {
        Err(ScanErr::Eof)
    } else if t[i] == 34 {
        Ok(i + 1)
    } else if t[i] == 92 {
        if i + 1 >= t.len() {
            Err(ScanErr::Eof)
        } else {
            let e = t[i + 1];
            if is_simple_escape(e) {
                scan_string(t, i + 2)
            } else if e == 117 {
                match hex4_check(t, i + 2) {
                    Some(x) => Err(x),
                    None => scan_string(t, i + 6),
                }
            } else {
                Err(ScanErr::Syntax(e, "in string escape code".spec_bytes()))
            }
        }
    } else if t[i] < 0x20 {
        Err(ScanErr::Syntax(t[i], "in string literal".spec_bytes()))
    } else {
        scan_string(t, i + 1)
    }
}

/// The four hex digits of a `\u` escape at `k`: what stops them, if anything.
pub open spec fn hex4_check(t: Seq<u8>, k: int) -> Option<ScanErr> {
    if t.len() <= k {
        Some(ScanErr::Eof)
    } else if !is_hex_digit(t[k]) {
        Some(ScanErr::Syntax(t[k], "in \\u hexadecimal character escape".spec_bytes()))
    } else if t.len() <= k + 1 {
        Some(ScanErr::Eof)
    } else if !is_hex_digit(t[k + 1]) {
        Some(ScanErr::Syntax(t[k + 1], "in \\u hexadecimal character escape".spec_bytes()))
    } else if t.len() <= k + 2 {
        Some(ScanErr::Eof)
    } else if !is_hex_digit(t[k + 2]) {
        Some(ScanErr::Syntax(t[k + 2], "in \\u hexadecimal character escape".spec_bytes()))
    } else if t.len() <= k + 3 {
        Some(ScanErr::Eof)
    } else if !is_hex_digit(t[k + 3]) {
        Some(ScanErr::Syntax(t[k + 3], "in \\u hexadecimal character escape".spec_bytes()))
    } else {
        None
    }
}

pub proof fn lemma_scan_string_end(t: Seq<u8>, i: int)
    ensures
        scan_string(t, i) matches Ok(e) ==> i < e <= t.len(),
    decreases t.len() - i,
{
    if 0 <= i < t.len() && t[i] != 34 {
        if t[i] == 92 {
            if i + 1 < t.len() {
                lemma_scan_string_end(t, i + 2);
                if i + 6 <= t.len() {
                    lemma_scan_string_end(t, i + 6);
                }
            }
        } else {
            lemma_scan_string_end(t, i + 1);
        }
    }
}

/// A number literal from `i`: the position of the first byte that cannot
/// continue it.
pub open spec fn scan_number(t: Seq<u8>, i: int) -> Result<int, ScanErr> {
    let a: int = if 0 <= i < t.len() && t[i] == 45 { i + 1 } else { i };
    if a < 0 || a >= t.len() {
        Err(ScanErr::Eof)
    } else if a > i && !is_digit(t[a]) {
        Err(ScanErr::Syntax(t[a], "in numeric literal".spec_bytes()))
    } else {
        let b: int = if t[a] == 48 { a + 1 } else { skip_digits(t, a) };
        if b < t.len() && t[b] == 46 {
            if t.len() <= b + 1 {
                Err(ScanErr::Eof)
            } else if !is_digit(t[b + 1]) {
                Err(ScanErr::Syntax(t[b + 1], "after decimal point in numeric literal".spec_bytes()))
            } else {
                scan_exponent(t, skip_digits(t, b + 1))
            }
        } else {
            scan_exponent(t, b)
        }
    }
}

/// The exponent part of a number from `c`, and where the number ends.
pub open spec fn scan_exponent(t: Seq<u8>, c: int) -> Result<int, ScanErr> {
    if 0 <= c < t.len() && (t[c] == 101 || t[c] == 69) {
        let d: int = if c + 1 < t.len() && (t[c + 1] == 43 || t[c + 1] == 45) { c + 2 } else { c + 1 };
        if t.len() <= d {
            Err(ScanErr::Eof)
        } else if !is_digit(t[d]) {
            Err(ScanErr::Syntax(t[d], "in exponent of numeric literal".spec_bytes()))
        } else {
            Ok(skip_digits(t, d))
        }
    } else {
        Ok(c)
    }
}

/// The literal `word` at `i`, checked from its `k`-th byte on: where it ends,
/// or where it went wrong.
pub open spec fn scan_literal(t: Seq<u8>, i: int, word: Seq<u8>, k: int) -> Result<int, ScanErr>
    decreases word.len() - k,
{
    if k >= word.len() || k < 0 {
        Ok(i + word.len())
    } else if t.len() <= i + k {
        Err(ScanErr::Eof)
    } else if t[i + k] != word[k] {
        if k == 0 {
            Err(ScanErr::Syntax(t[i + k], "looking for beginning of value".spec_bytes()))
        } else {
            Err(
                ScanErr::Syntax(
                    t[i + k],
                    "in literal ".spec_bytes() + word + " (expecting ".spec_bytes() + quote_char(word[k])
                        + ")".spec_bytes(),
                ),
            )
        }
    } else {
        scan_literal(t, i, word, k + 1)
    }
}

/// `encoding/json`'s `quoteChar`: a byte in single quotes, as a rune.
pub open spec fn quote_char(c: u8) -> Seq<u8> {
    if c == 39 {
        seq![39u8, 92u8, 39u8, 39u8]
    } else if c == 34 {
        seq![39u8, 34u8, 39u8]
    } else {
        seq![39u8] + quote_body(encode_rune(c as int)) + seq![39u8]
    }
}

/// The literal that starts with `c`: `true`, `false` or `null`.
pub open spec fn literal_word(c: u8) -> Seq<u8> {
    if c == 116 {
        seq![116u8, 114u8, 117u8, 101u8]
    } else if c == 102 {
        seq![102u8, 97u8, 108u8, 115u8, 101u8]
    } else {
        seq![110u8, 117u8, 108u8, 108u8]
    }
}

/// One JSON value from `i`, white space first: the position after it.
pub open spec fn scan_value(t: Seq<u8>, i: int) -> Result<int, ScanErr>
    decreases t.len() - i, 1int,
{
    if i < 0 {
        Err(ScanErr::Eof)
    } else {
        let j = skip_ws(t, i);
        proof {
            lemma_skip_ws(t, i);
        }
        if j >= t.len() {
            Err(ScanErr::Eof)
        } else {
            let c = t[j];
            if c == 123 || c == 91 {
                let k = skip_ws(t, j + 1);
                if k >= t.len() {
                    Err(ScanErr::Eof)
                } else if c == 123 && t[k] == 125 {
                    Ok(k + 1)
                } else if c == 91 && t[k] == 93 {
                    Ok(k + 1)
                } else if c == 123 {
                    scan_members(t, j + 1)
                } else {
                    scan_elements(t, j + 1)
                }
            } else if c == 34 {
                scan_string(t, j + 1)
            } else if c == 116 {
                scan_literal(t, j, literal_word(c), 0)
            } else if c == 102 {
                scan_literal(t, j, literal_word(c), 0)
            } else if c == 110 {
                scan_literal(t, j, literal_word(c), 0)
            } else if c == 45 || is_digit(c) {
                scan_number(t, j)
            } else {
                Err(ScanErr::Syntax(c, "looking for beginning of value".spec_bytes()))
            }
        }
    }
}

/// Object members from `i`, after `{` or `,`: the position after the `}`.
pub open spec fn scan_members(t: Seq<u8>, i: int) -> Result<int, ScanErr>
    decreases t.len() - i, 2int,
{
    if i < 0 {
        Err(ScanErr::Eof)
    } else {
        let k = skip_ws(t, i);
        proof {
            lemma_skip_ws(t, i);
        }
        if k >= t.len() {
            Err(ScanErr::Eof)
        } else if t[k] != 34 {
            Err(ScanErr::Syntax(t[k], "looking for beginning of object key string".spec_bytes()))
        } else {
            proof {
                lemma_scan_string_end(t, k + 1);
            }
            match scan_string(t, k + 1) {
                Err(x) => Err(x),
                Ok(k2) => {
                    let k3 = skip_ws(t, k2);
                    proof {
                        lemma_skip_ws(t, k2);
                    }
                    if k3 >= t.len() {
                        Err(ScanErr::Eof)
                    } else if t[k3] != 58 {
                        Err(ScanErr::Syntax(t[k3], "after object key".spec_bytes()))
                    } else {
                        match scan_value(t, k3 + 1) {
                            Err(x) => Err(x),
                            Ok(k4) => {
                                if k4 <= k3 || k4 > t.len() {
                                    Err(ScanErr::Eof)
                                } else {
                                    let k5 = skip_ws(t, k4);
                                    proof {
                                        lemma_skip_ws(t, k4);
                                    }
                                    if k5 >= t.len() {
                                        Err(ScanErr::Eof)
                                    } else if t[k5] == 44 {
                                        scan_members(t, k5 + 1)
                                    } else if t[k5] == 125 {
                                        Ok(k5 + 1)
                                    } else {
                                        Err(ScanErr::Syntax(t[k5], "after object key:value pair".spec_bytes()))
                                    }
                                }
                            },
                        }
                    }
                },
            }
        }
    }
}

/// Array elements from `i`, after `[` or `,`: the position after the `]`.
pub open spec fn scan_elements(t: Seq<u8>, i: int) -> Result<int, ScanErr>
    decreases t.len() - i, 2int,
{
    if i < 0 {
        Err(ScanErr::Eof)
    } else {
    match scan_value(t, i) {
        Err(x) => Err(x),
        Ok(k4) => {
            if k4 <= i || k4 > t.len() {
                Err(ScanErr::Eof)
            } else {
                let k5 = skip_ws(t, k4);
                proof {
                    lemma_skip_ws(t, k4);
                }
                if k5 >= t.len() {
                    Err(ScanErr::Eof)
                } else if t[k5] == 44 {
                    scan_elements(t, k5 + 1)
                } else if t[k5] == 93 {
                    Ok(k5 + 1)
                } else {
                    Err(ScanErr::Syntax(t[k5], "after array element".spec_bytes()))
                }
            }
        },
    }
    }
}


/// The words `json.Decoder` answers a scan error with.
pub open spec fn scan_message(x: ScanErr) -> Seq<u8> {
    match x {
        ScanErr::Eof => "unexpected EOF".spec_bytes(),
        ScanErr::Syntax(c, context) => "invalid character ".spec_bytes() + quote_char(c) + " ".spec_bytes() + context,
    }
}

/// A scan error as the scanner carries it.
enum ScanError {
    Eof,
    Syntax(u8, Vec<u8>),
}

impl ScanError {
    spec fn v(&self) -> ScanErr {
        match self {
            ScanError::Eof => ScanErr::Eof,
            ScanError::Syntax(c, m) => ScanErr::Syntax(*c, m@),
        }
    }
}

/// What the scanner returned agrees with the scan from `i`: the same end,
/// after `i` and within the input, or the same error.
spec fn agrees(spec: Result<int, ScanErr>, r: Result<usize, ScanError>, i: int, len: int) -> bool {
    match r {
        Ok(e) => spec == Ok::<int, ScanErr>(e as int) && i < e <= len,
        Err(x) => spec == Err::<int, ScanErr>(x.v()),
    }
}

pub(crate) fn skip_space(s: &[u8], i: usize) -> (j: usize)
    requires
        i <= s@.len(),
    ensures
        j == skip_ws(s@, i as int),
        i <= j <= s@.len(),
{
    let mut j = i;
    while j < s.len() && (s[j] == 32 || s[j] == 9 || s[j] == 13 || s[j] == 10)
        invariant
            i <= j <= s@.len(),
            skip_ws(s@, i as int) == skip_ws(s@, j as int),
        decreases s@.len() - j,
    {
        j = j + 1;
    }
    j
}

pub(crate) fn skip_digit_run(s: &[u8], i: usize) -> (j: usize)
    requires
        i <= s@.len(),
    ensures
        j == skip_digits(s@, i as int),
        i <= j <= s@.len(),
{
    let mut j = i;
    while j < s.len() && ascii_digit(s[j])
        invariant
            i <= j <= s@.len(),
            skip_digits(s@, i as int) == skip_digits(s@, j as int),
        decreases s@.len() - j,
    {
        j = j + 1;
    }
    j
}

fn syntax(c: u8, context: &str) -> (e: ScanError)
    ensures
        e.v() == ScanErr::Syntax(c, context.spec_bytes()),
{
    ScanError::Syntax(c, copy_bytes(context.as_bytes()))
}

/// `quoteChar`.
fn quote_char_bytes(c: u8) -> (r: Vec<u8>)
    ensures
        r@ == quote_char(c),
{
    let mut out: Vec<u8> = Vec::new();
    out.push(39);
    if c == 39 {
        out.push(92);
        out.push(39);
        out.push(39);
        assert(out@ =~= quote_char(c));
        return out;
    }
    if c == 34 {
        out.push(34);
        out.push(39);
        assert(out@ =~= quote_char(c));
        return out;
    }
    let mut raw: Vec<u8> = Vec::new();
    push_rune(&mut raw, c as u32);
    assert(raw@ =~= encode_rune(c as int));
    let q = quote(raw.as_slice());
    let n = q.len();
    assert(n >= 2);
    let body = vstd::slice::slice_subrange(q.as_slice(), 1, n - 1);
    assert(body@ =~= quote_body(encode_rune(c as int)));
    push_all(&mut out, body);
    out.push(39);
    assert(out@ =~= quote_char(c));
    out
}

/// One hex digit of a `\u` escape at `p`.
fn hex_at(s: &[u8], p: usize) -> (r: Option<ScanError>)
    ensures
        match r {
            Some(x) => (p >= s@.len() && x.v() == ScanErr::Eof) || (p < s@.len() && !is_hex_digit(s@[p as int])
                && x.v() == ScanErr::Syntax(s@[p as int], "in \\u hexadecimal character escape".spec_bytes())),
            None => p < s@.len() && is_hex_digit(s@[p as int]),
        },
{
    if p >= s.len() {
        return Some(ScanError::Eof);
    }
    if !ascii_hex_digit(s[p]) {
        return Some(syntax(s[p], "in \\u hexadecimal character escape"));
    }
    None
}

fn hex4_at(s: &[u8], k: usize) -> (r: Option<ScanError>)
    ensures
        match r {
            Some(x) => hex4_check(s@, k as int) == Some(x.v()),
            None => hex4_check(s@, k as int) is None,
        },
{
    let n = s.len();
    if let Some(x) = hex_at(s, k) {
        return Some(x);
    }
    if let Some(x) = hex_at(s, k + 1) {
        return Some(x);
    }
    if let Some(x) = hex_at(s, k + 2) {
        return Some(x);
    }
    hex_at(s, k + 3)
}

fn scan_string_at(s: &[u8], i0: usize) -> (r: Result<usize, ScanError>)
    requires
        i0 <= s@.len(),
    ensures
        agrees(scan_string(s@, i0 as int), r, i0 as int, s@.len() as int),
{
    let mut i = i0;
    loop
        invariant
            i0 <= i <= s@.len(),
            scan_string(s@, i0 as int) == scan_string(s@, i as int),
        decreases s@.len() - i,
    {
        if i >= s.len() {
            return Err(ScanError::Eof);
        }
        let c = s[i];
        if c == 34 {
            return Ok(i + 1);
        }
        if c == 92 {
            if i + 1 >= s.len() {
                return Err(ScanError::Eof);
            }
            let e = s[i + 1];
            if e == 98 || e == 102 || e == 110 || e == 114 || e == 116 || e == 92 || e == 47 || e == 34 {
                i = i + 2;
                continue;
            }
            if e == 117 {
                if let Some(x) = hex4_at(s, i + 2) {
                    return Err(x);
                }
                i = i + 6;
                continue;
            }
            return Err(syntax(e, "in string escape code"));
        }
        if c < 0x20 {
            return Err(syntax(c, "in string literal"));
        }
        i = i + 1;
    }
}

fn scan_number_at(s: &[u8], i: usize) -> (r: Result<usize, ScanError>)
    requires
        i < s@.len(),
        s@[i as int] == 45 || is_digit(s@[i as int]),
    ensures
        agrees(scan_number(s@, i as int), r, i as int, s@.len() as int),
{
    let a = if s[i] == 45 { i + 1 } else { i };
    if a >= s.len() {
        return Err(ScanError::Eof);
    }
    if a > i && !ascii_digit(s[a]) {
        return Err(syntax(s[a], "in numeric literal"));
    }
    let b = if s[a] == 48 { a + 1 } else { skip_digit_run(s, a) };
    proof {
        lemma_skip_digits(s@, a as int);
    }
    let c = if b < s.len() && s[b] == 46 {
        if s.len() <= b + 1 {
            return Err(ScanError::Eof);
        }
        if !ascii_digit(s[b + 1]) {
            return Err(syntax(s[b + 1], "after decimal point in numeric literal"));
        }
        skip_digit_run(s, b + 1)
    } else {
        b
    };
    if c < s.len() && (s[c] == 101 || s[c] == 69) {
        let d = if c + 1 < s.len() && (s[c + 1] == 43 || s[c + 1] == 45) { c + 2 } else { c + 1 };
        if s.len() <= d {
            return Err(ScanError::Eof);
        }
        if !ascii_digit(s[d]) {
            return Err(syntax(s[d], "in exponent of numeric literal"));
        }
        return Ok(skip_digit_run(s, d));
    }
    Ok(c)
}

fn scan_literal_at(s: &[u8], i: usize, word: &[u8]) -> (r: Result<usize, ScanError>)
    requires
        i <= s@.len(),
        0 < word@.len() <= 5,
    ensures
        agrees(scan_literal(s@, i as int, word@, 0), r, i as int, s@.len() as int),
{
    let n = s.len();
    let mut k: usize = 0;
    while k < word.len()
        invariant
            n == s@.len(),
            k <= word@.len() <= 5,
            i <= s@.len(),
            i + k <= s@.len(),
            scan_literal(s@, i as int, word@, 0) == scan_literal(s@, i as int, word@, k as int),
        decreases word@.len() - k,
    {
        if s.len() <= i + k {
            return Err(ScanError::Eof);
        }
        if s[i + k] != word[k] {
            if k == 0 {
                return Err(syntax(s[i + k], "looking for beginning of value"));
            }
            let mut m = copy_bytes("in literal ".as_bytes());
            push_all(&mut m, word);
            push_all(&mut m, " (expecting ".as_bytes());
            push_all(&mut m, quote_char_bytes(word[k]).as_slice());
            push_all(&mut m, ")".as_bytes());
            return Err(ScanError::Syntax(s[i + k], m));
        }
        k = k + 1;
    }
    Ok(i + k)
}

pub(crate) fn literal_bytes(c: u8) -> (r: Vec<u8>)
    ensures
        r@ == literal_word(c),
{
    let mut w: Vec<u8> = Vec::new();
    if c == 116 {
        w.push(116);
        w.push(114);
        w.push(117);
        w.push(101);
    } else if c == 102 {
        w.push(102);
        w.push(97);
        w.push(108);
        w.push(115);
        w.push(101);
    } else {
        w.push(110);
        w.push(117);
        w.push(108);
        w.push(108);
    }
    assert(w@ =~= literal_word(c));
    w
}

fn scan_value_at(s: &[u8], i: usize) -> (r: Result<usize, ScanError>)
    requires
        i <= s@.len(),
    ensures
        agrees(scan_value(s@, i as int), r, i as int, s@.len() as int),
    decreases s@.len() - i, 1int,
{
    let j = skip_space(s, i);
    if j >= s.len() {
        return Err(ScanError::Eof);
    }
    let c = s[j];
    if c == 123 || c == 91 {
        let k = skip_space(s, j + 1);
        if k >= s.len() {
            return Err(ScanError::Eof);
        }
        if c == 123 && s[k] == 125 {
            return Ok(k + 1);
        }
        if c == 91 && s[k] == 93 {
            return Ok(k + 1);
        }
        if c == 123 {
            return scan_members_at(s, j + 1);
        }
        return scan_elements_at(s, j + 1);
    }
    if c == 34 {
        return scan_string_at(s, j + 1);
    }
    if c == 116 || c == 102 || c == 110 {
        let word = literal_bytes(c);
        return scan_literal_at(s, j, word.as_slice());
    }
    if c == 45 || ascii_digit(c) {
        return scan_number_at(s, j);
    }
    Err(syntax(c, "looking for beginning of value"))
}

fn scan_members_at(s: &[u8], i: usize) -> (r: Result<usize, ScanError>)
    requires
        i <= s@.len(),
    ensures
        agrees(scan_members(s@, i as int), r, i as int, s@.len() as int),
    decreases s@.len() - i, 2int,
{
    let k = skip_space(s, i);
    if k >= s.len() {
        return Err(ScanError::Eof);
    }
    if s[k] != 34 {
        return Err(syntax(s[k], "looking for beginning of object key string"));
    }
    let k2 = match scan_string_at(s, k + 1) {
        Ok(e) => e,
        Err(x) => {
            return Err(x);
        },
    };
    let k3 = skip_space(s, k2);
    if k3 >= s.len() {
        return Err(ScanError::Eof);
    }
    if s[k3] != 58 {
        return Err(syntax(s[k3], "after object key"));
    }
    let k4 = match scan_value_at(s, k3 + 1) {
        Ok(e) => e,
        Err(x) => {
            return Err(x);
        },
    };
    let k5 = skip_space(s, k4);
    if k5 >= s.len() {
        return Err(ScanError::Eof);
    }
    if s[k5] == 44 {
        return scan_members_at(s, k5 + 1);
    }
    if s[k5] == 125 {
        return Ok(k5 + 1);
    }
    Err(syntax(s[k5], "after object key:value pair"))
}

fn scan_elements_at(s: &[u8], i: usize) -> (r: Result<usize, ScanError>)
    requires
        i <= s@.len(),
    ensures
        agrees(scan_elements(s@, i as int), r, i as int, s@.len() as int),
    decreases s@.len() - i, 2int,
{
    let k4 = match scan_value_at(s, i) {
        Ok(e) => e,
        Err(x) => {
            return Err(x);
        },
    };
    let k5 = skip_space(s, k4);
    if k5 >= s.len() {
        return Err(ScanError::Eof);
    }
    if s[k5] == 44 {
        return scan_elements_at(s, k5 + 1);
    }
    if s[k5] == 93 {
        return Ok(k5 + 1);
    }
    Err(syntax(s[k5], "after array element"))
}

/// The outcome of `json.Decoder.Decode(&json.RawMessage)` on a body.
#[derive(Debug, PartialEq)]
pub enum FirstValue<'a> {
    /// Only white space: `io.EOF`, which every generated handler ignores.
    Eof,
    Value(&'a [u8]),
    /// `io.ErrUnexpectedEOF` or a `json.SyntaxError`, by its text.
    Error(Vec<u8>),
}

/// `json.NewDecoder(body).Decode(&raw)`: the first value after white space,
/// and nothing after it.
pub fn first_value(body: &[u8]) -> (r: FirstValue<'_>)
    ensures
        ({
            let j = skip_ws(body@, 0);
            if j >= body@.len() {
                r is Eof
            } else {
                match scan_value(body@, j) {
                    Ok(e) => r matches FirstValue::Value(v) && v@ == body@.subrange(j, e),
                    Err(x) => r matches FirstValue::Error(m) && m@ == scan_message(x),
                }
            }
        }),
{
    let j = skip_space(body, 0);
    if j == body.len() {
        return FirstValue::Eof;
    }
    match scan_value_at(body, j) {
        Ok(e) => FirstValue::Value(vstd::slice::slice_subrange(body, j, e)),
        Err(ScanError::Eof) => FirstValue::Error(copy_bytes("unexpected EOF".as_bytes())),
        Err(ScanError::Syntax(c, context)) => {
            let mut m = copy_bytes("invalid character ".as_bytes());
            push_all(&mut m, quote_char_bytes(c).as_slice());
            push_all(&mut m, " ".as_bytes());
            push_all(&mut m, context.as_slice());
            FirstValue::Error(m)
        },
    }
}


/// A decoded JSON value, as a value of the logic. Numbers keep their
/// literal; object members keep their order.
pub enum JsonV {
    Null,
    Bool(bool),
    Number(Seq<u8>),
    Str(Seq<u8>),
    Array(Seq<NodeV>),
    Object(Seq<(Seq<u8>, NodeV)>),
}

/// A value and where its text is in the input.
pub struct NodeV {
    pub json: JsonV,
    pub start: int,
    pub end: int,
}

/// A decoded JSON value. Numbers keep their literal, because Go parses the
/// literal for the target type; object members keep their order, and a
/// repeated key keeps its last value in the first position it took.
#[derive(Debug, PartialEq)]
pub enum Json {
    Null,
    Bool(bool),
    Number(Vec<u8>),
    String(Vec<u8>),
    Array(Vec<Node>),
    Object(Vec<(Vec<u8>, Node)>),
}

/// A value and where its text is in the input, for the parts Go hands on as
/// a `json.RawMessage`.
#[derive(Debug, PartialEq)]
pub struct Node {
    pub json: Json,
    pub start: usize,
    pub end: usize,
}

pub open spec fn node_v(n: Node) -> NodeV
    decreases n,
{
    NodeV { json: json_v(n.json), start: n.start as int, end: n.end as int }
}

pub open spec fn json_v(j: Json) -> JsonV
    decreases j,
{
    match j {
        Json::Null => JsonV::Null,
        Json::Bool(b) => JsonV::Bool(b),
        Json::Number(v) => JsonV::Number(v@),
        Json::String(v) => JsonV::Str(v@),
        Json::Array(items) => JsonV::Array(nodes_v(items@)),
        Json::Object(members) => JsonV::Object(members_v(members@)),
    }
}

pub open spec fn nodes_v(s: Seq<Node>) -> Seq<NodeV>
    decreases s,
{
    Seq::new(s.len(), |k: int| if 0 <= k < s.len() { node_v(s[k]) } else { NodeV { json: JsonV::Null, start: 0, end: 0 } })
}

pub open spec fn members_v(s: Seq<(Vec<u8>, Node)>) -> Seq<(Seq<u8>, NodeV)>
    decreases s,
{
    Seq::new(
        s.len(),
        |k: int|
            if 0 <= k < s.len() {
                (s[k].0@, node_v(s[k].1))
            } else {
                (Seq::empty(), NodeV { json: JsonV::Null, start: 0, end: 0 })
            },
    )
}


/// What a one-letter escape stands for; any other byte after `\` stands for
/// itself, as a rune.
pub open spec fn unescaped(e: u8) -> Seq<u8> {
    match simple_escape(e) {
        Some(b) => seq![b],
        None => encode_rune(e as int),
    }
}

/// A `\u` escape at `i` whose high surrogate `r` a low one follows.
pub open spec fn pairs_with_low(t: Seq<u8>, i: int, r: int) -> bool {
    &&& 0xd800 <= r < 0xdc00
    &&& i + 12 <= t.len()
    &&& t[i + 6] == 92
    &&& t[i + 7] == 117
    &&& 0xdc00 <= hex4(t.subrange(i + 8, i + 12)) < 0xe000
}

/// `encoding/json`'s `unquote` of the string from `i`, just after its
/// opening quote: the bytes, invalid UTF-8 and unpaired surrogates as
/// U+FFFD, and the position after the closing quote.
pub open spec fn unquote(t: Seq<u8>, i: int) -> (Seq<u8>, int)
    decreases t.len() - i,
{
    if i < 0 || i >= t.len() {
        (Seq::empty(), i)
    } else if t[i] == 34 {
        (Seq::empty(), i + 1)
    } else if t[i] == 92 {
        if i + 1 >= t.len() {
            (Seq::empty(), i)
        } else if t[i + 1] != 117 {
            let rest = unquote(t, i + 2);
            (unescaped(t[i + 1]) + rest.0, rest.1)
        } else if i + 6 > t.len() {
            (Seq::empty(), i)
        } else {
            let r = hex4(t.subrange(i + 2, i + 6));
            if pairs_with_low(t, i, r) {
                let r2 = hex4(t.subrange(i + 8, i + 12));
                let rest = unquote(t, i + 12);
                (encode_rune(0x10000 + (r - 0xd800) * 1024 + (r2 - 0xdc00)) + rest.0, rest.1)
            } else {
                let rest = unquote(t, i + 6);
                (encode_rune(escaped_char(r)) + rest.0, rest.1)
            }
        }
    } else {
        let (c, w) = spec_decode_rune(t.subrange(i, t.len() as int));
        proof {
            lemma_decode_width(t.subrange(i, t.len() as int));
        }
        let rest = unquote(t, i + w);
        (encode_rune(if c < 0 { 0xfffd } else { c }) + rest.0, rest.1)
    }
}

pub proof fn lemma_unquote_end(t: Seq<u8>, i: int)
    requires
        0 <= i,
    ensures
        unquote(t, i).1 >= i,
    decreases t.len() - i,
{
    if i < t.len() && t[i] != 34 {
        if t[i] == 92 {
            if i + 1 < t.len() {
                if t[i + 1] != 117 {
                    lemma_unquote_end(t, i + 2);
                } else if i + 6 <= t.len() {
                    if i + 12 <= t.len() {
                        lemma_unquote_end(t, i + 12);
                    }
                    lemma_unquote_end(t, i + 6);
                }
            }
        } else {
            lemma_decode_width(t.subrange(i, t.len() as int));
            lemma_unquote_end(t, i + spec_decode_rune(t.subrange(i, t.len() as int)).1);
        }
    }
}

/// The first member from `i` on whose key is `key`, or the number of members.
pub open spec fn key_index(ms: Seq<(Seq<u8>, NodeV)>, key: Seq<u8>, i: int) -> int
    decreases ms.len() - i,
{
    if i < 0 || i >= ms.len() {
        ms.len() as int
    } else if ms[i].0 == key {
        i
    } else {
        key_index(ms, key, i + 1)
    }
}

/// A member added to an object: a repeated key keeps its first position and
/// takes the new value.
pub open spec fn upsert(ms: Seq<(Seq<u8>, NodeV)>, key: Seq<u8>, v: NodeV) -> Seq<(Seq<u8>, NodeV)> {
    let f = key_index(ms, key, 0);
    if f < ms.len() {
        ms.update(f, (key, v))
    } else {
        ms.push((key, v))
    }
}

pub open spec fn junk_node(i: int) -> NodeV {
    NodeV { json: JsonV::Null, start: i, end: i }
}

/// The value from `i`, white space first, as `encoding/json` decodes it.
pub open spec fn parse_value(t: Seq<u8>, i: int) -> NodeV
    decreases t.len() - i, 1int,
{
    if i < 0 {
        junk_node(i)
    } else {
        let j = skip_ws(t, i);
        proof {
            lemma_skip_ws(t, i);
        }
        if j >= t.len() {
            junk_node(j)
        } else {
            let c = t[j];
            if c == 123 {
                let (ms, e) = parse_members(t, j + 1, Seq::empty());
                NodeV { json: JsonV::Object(ms), start: j, end: e }
            } else if c == 91 {
                let (xs, e) = parse_elements(t, j + 1, Seq::empty());
                NodeV { json: JsonV::Array(xs), start: j, end: e }
            } else if c == 34 {
                let (b, e) = unquote(t, j + 1);
                NodeV { json: JsonV::Str(b), start: j, end: e }
            } else if c == 116 {
                NodeV { json: JsonV::Bool(true), start: j, end: j + 4 }
            } else if c == 102 {
                NodeV { json: JsonV::Bool(false), start: j, end: j + 5 }
            } else if c == 110 {
                NodeV { json: JsonV::Null, start: j, end: j + 4 }
            } else {
                let e = match scan_number(t, j) {
                    Ok(e) => e,
                    Err(_) => j,
                };
                NodeV { json: JsonV::Number(t.subrange(j, e)), start: j, end: e }
            }
        }
    }
}

/// The members of an object from `i`, added to `acc`, and the position
/// after its `}`.
pub open spec fn parse_members(t: Seq<u8>, i: int, acc: Seq<(Seq<u8>, NodeV)>) -> (Seq<(Seq<u8>, NodeV)>, int)
    decreases t.len() - i, 2int,
{
    if i < 0 {
        (acc, i)
    } else {
        let k = skip_ws(t, i);
        proof {
            lemma_skip_ws(t, i);
        }
        if k >= t.len() {
            (acc, k)
        } else if t[k] == 125 {
            (acc, k + 1)
        } else if t[k] == 44 {
            parse_members(t, k + 1, acc)
        } else {
            let (key, k2) = unquote(t, k + 1);
            proof {
                lemma_unquote_end(t, k + 1);
                lemma_skip_ws(t, k2);
            }
            let k3 = skip_ws(t, k2);
            if k3 >= t.len() {
                (acc, k3)
            } else {
                let v = parse_value(t, k3 + 1);
                if v.end <= k3 || v.end > t.len() {
                    (acc, k3)
                } else {
                    parse_members(t, v.end, upsert(acc, key, v))
                }
            }
        }
    }
}

/// The elements of an array from `i`, added to `acc`, and the position
/// after its `]`.
pub open spec fn parse_elements(t: Seq<u8>, i: int, acc: Seq<NodeV>) -> (Seq<NodeV>, int)
    decreases t.len() - i, 2int,
{
    if i < 0 {
        (acc, i)
    } else {
        let k = skip_ws(t, i);
        proof {
            lemma_skip_ws(t, i);
        }
        if k >= t.len() {
            (acc, k)
        } else if t[k] == 93 {
            (acc, k + 1)
        } else if t[k] == 44 {
            parse_elements(t, k + 1, acc)
        } else {
            let v = parse_value(t, k);
            if v.end <= k || v.end > t.len() {
                (acc, k)
            } else {
                parse_elements(t, v.end, acc.push(v))
            }
        }
    }
}


/// Bytes that a string literal passes over one by one.
proof fn lemma_scan_string_skip(t: Seq<u8>, i: int, w: int)
    requires
        0 <= i,
        0 <= w,
        i + w <= t.len(),
        forall|m: int| i <= m < i + w ==> t[m] != 34 && t[m] != 92 && t[m] >= 0x20,
    ensures
        scan_string(t, i) == scan_string(t, i + w),
    decreases w,
{
    if w > 0 {
        lemma_scan_string_skip(t, i + 1, w - 1);
    }
}

/// The bytes after the first of a rune that decodes are continuation bytes.
proof fn lemma_decoded_bytes(s: Seq<u8>)
    ensures
        spec_decode_rune(s).1 >= 2 ==> s[0] >= 0xc2,
        forall|m: int| 1 <= m < spec_decode_rune(s).1 ==> s[m] >= 0x80,
{
}

fn hex4_value(s: &[u8], k: usize) -> (r: u32)
    requires
        k + 4 <= s@.len(),
        is_hex_digit(s@[k as int]),
        is_hex_digit(s@[k + 1]),
        is_hex_digit(s@[k + 2]),
        is_hex_digit(s@[k + 3]),
    ensures
        r == hex4(s@.subrange(k as int, k + 4)),
        r < 0x10000,
{
    let r: u32 = ((hex_digit_value(s[k]) as u32 * 16 + hex_digit_value(s[k + 1]) as u32) * 16
        + hex_digit_value(s[k + 2]) as u32) * 16 + hex_digit_value(s[k + 3]) as u32;
    r
}

fn push_unescaped(out: &mut Vec<u8>, e: u8)
    ensures
        final(out)@ == old(out)@ + unescaped(e),
{
    let ghost o = out@;
    let b: u8 = if e == 34 {
        34
    } else if e == 92 {
        92
    } else if e == 47 {
        47
    } else if e == 98 {
        8
    } else if e == 102 {
        12
    } else if e == 110 {
        10
    } else if e == 114 {
        13
    } else if e == 116 {
        9
    } else {
        push_rune(out, e as u32);
        return;
    };
    out.push(b);
    assert(out@ =~= o + unescaped(e));
}

/// One escape of a string literal at `i`: what it adds, and where the
/// string goes on.
fn unquote_escape(s: &[u8], i: usize, out: &mut Vec<u8>) -> (r: usize)
    requires
        i < s@.len(),
        s@[i as int] == 92,
        scan_string(s@, i as int) is Ok,
    ensures
        i < r <= s@.len(),
        scan_string(s@, r as int) == scan_string(s@, i as int),
        final(out)@ + unquote(s@, r as int).0 == old(out)@ + unquote(s@, i as int).0,
        unquote(s@, r as int).1 == unquote(s@, i as int).1,
{
    let ghost o = out@;
    let n = s.len();
    let e = s[i + 1];
    if e != 117 {
        push_unescaped(out, e);
        proof {
            let rest = unquote(s@, i + 2);
            assert(o + (unescaped(e) + rest.0) =~= out@ + rest.0);
        }
        return i + 2;
    }
    assert(hex4_check(s@, i + 2) is None);
    let r = hex4_value(s, i + 2);
    assert(scan_string(s@, i + 6) == scan_string(s@, i as int));
    if 0xd800 <= r && r < 0xdc00 && s.len() - i >= 12 && s[i + 6] == 92 && s[i + 7] == 117 {
        assert(hex4_check(s@, i + 8) is None);
        let r2 = hex4_value(s, i + 8);
        if 0xdc00 <= r2 && r2 < 0xe000 {
            let c2: u32 = 0x10000 + (r - 0xd800) * 1024 + (r2 - 0xdc00);
            push_rune(out, c2);
            proof {
                assert(pairs_with_low(s@, i as int, r as int));
                let rest = unquote(s@, i + 12);
                assert(o + (encode_rune(c2 as int) + rest.0) =~= out@ + rest.0);
            }
            return i + 12;
        }
    }
    let c1: u32 = if 0xd800 <= r && r < 0xe000 { 0xfffd } else { r };
    push_rune(out, c1);
    proof {
        assert(!pairs_with_low(s@, i as int, r as int));
        let rest = unquote(s@, i + 6);
        assert(o + (encode_rune(c1 as int) + rest.0) =~= out@ + rest.0);
    }
    i + 6
}

/// One rune of a string literal at `i`, as UTF-8 reads it.
fn unquote_rune(s: &[u8], i: usize, out: &mut Vec<u8>) -> (r: usize)
    requires
        i < s@.len(),
        s@[i as int] != 92,
        s@[i as int] != 34,
        scan_string(s@, i as int) is Ok,
    ensures
        i < r <= s@.len(),
        scan_string(s@, r as int) == scan_string(s@, i as int),
        final(out)@ + unquote(s@, r as int).0 == old(out)@ + unquote(s@, i as int).0,
        unquote(s@, r as int).1 == unquote(s@, i as int).1,
{
    let ghost o = out@;
    let rest_bytes = vstd::slice::slice_subrange(s, i, s.len());
    let (rr, w) = decode_rune(rest_bytes);
    let c1: u32 = match rr {
        Some(x) => x,
        None => 0xfffd,
    };
    push_rune(out, c1);
    proof {
        lemma_decoded_bytes(rest_bytes@);
        assert(s@[i as int] >= 0x20);
        assert forall|m: int| i <= m < i + w implies s@[m] != 34 && s@[m] != 92 && s@[m] >= 0x20 by {
            assert(s@[m] == rest_bytes@[m - i]);
        }
        lemma_scan_string_skip(s@, i as int, w as int);
        let rest = unquote(s@, i + w);
        assert(o + (encode_rune(c1 as int) + rest.0) =~= out@ + rest.0);
    }
    i + w
}

fn unquote_at(s: &[u8], i0: usize) -> (r: (Vec<u8>, usize))
    requires
        i0 <= s@.len(),
        scan_string(s@, i0 as int) is Ok,
    ensures
        (r.0@, r.1 as int) == unquote(s@, i0 as int),
        scan_string(s@, i0 as int) == Ok::<int, ScanErr>(r.1 as int),
        i0 < r.1 <= s@.len(),
{
    let ghost e_end = match scan_string(s@, i0 as int) {
        Ok(e) => e,
        Err(_) => 0,
    };
    let mut out: Vec<u8> = Vec::new();
    let mut i = i0;
    assert(unquote(s@, i0 as int).0 =~= out@ + unquote(s@, i0 as int).0);
    loop
        invariant
            i0 <= i <= s@.len(),
            scan_string(s@, i as int) == Ok::<int, ScanErr>(e_end),
            scan_string(s@, i0 as int) == Ok::<int, ScanErr>(e_end),
            unquote(s@, i0 as int) == (out@ + unquote(s@, i as int).0, unquote(s@, i as int).1),
        decreases s@.len() - i,
    {
        let c = s[i];
        if c == 34 {
            assert(out@ + Seq::<u8>::empty() =~= out@);
            return (out, i + 1);
        }
        if c == 92 {
            i = unquote_escape(s, i, &mut out);
        } else {
            i = unquote_rune(s, i, &mut out);
        }
    }
}


fn upsert_member(members: &mut Vec<(Vec<u8>, Node)>, key: Vec<u8>, v: Node)
    ensures
        members_v(final(members)@) == upsert(members_v(old(members)@), key@, node_v(v)),
{
    let ghost mv = members_v(members@);
    let mut idx: usize = 0;
    while idx < members.len()
        invariant
            idx <= members@.len(),
            members@ == old(members)@,
            mv == members_v(members@),
            key_index(mv, key@, 0) == key_index(mv, key@, idx as int),
        decreases members@.len() - idx,
    {
        if bytes_eq(members[idx].0.as_slice(), key.as_slice()) {
            let ghost kv = key@;
            let ghost nv = node_v(v);
            members.set(idx, (key, v));
            assert(members_v(members@) =~= mv.update(idx as int, (kv, nv)));
            return;
        }
        idx = idx + 1;
    }
    let ghost kv = key@;
    let ghost nv = node_v(v);
    members.push((key, v));
    assert(members_v(members@) =~= mv.push((kv, nv)));
}

/// A literal that scans ends after its last byte, within the input.
proof fn lemma_scan_literal_ok(t: Seq<u8>, i: int, word: Seq<u8>, k: int)
    requires
        0 <= k,
        scan_literal(t, i, word, k) is Ok,
    ensures
        scan_literal(t, i, word, k) == Ok::<int, ScanErr>(i + word.len()),
        k < word.len() ==> i + word.len() <= t.len(),
    decreases word.len() - k,
{
    if k < word.len() {
        lemma_scan_literal_ok(t, i, word, k + 1);
    }
}

/// Elements that scan start with a value, not with `]` or `,`.
proof fn lemma_elements_start(t: Seq<u8>, i: int)
    requires
        0 <= i,
        scan_elements(t, i) is Ok,
    ensures
        skip_ws(t, i) < t.len(),
        t[skip_ws(t, i)] != 93,
        t[skip_ws(t, i)] != 44,
{
    assert(scan_value(t, i) is Ok);
}

/// White space before a value changes nothing.
proof fn lemma_scan_value_ws(t: Seq<u8>, i: int)
    requires
        0 <= i,
    ensures
        scan_value(t, skip_ws(t, i)) == scan_value(t, i),
{
    lemma_skip_ws(t, i);
}

pub open spec fn ok_end(r: Result<int, ScanErr>) -> int {
    match r {
        Ok(e) => e,
        Err(_) => -1,
    }
}

/// Where the object parser stands at `i`: before its `}`, before a `,` and
/// more members, or before members that scan.
pub open spec fn members_state(t: Seq<u8>, i: int) -> bool {
    let k = skip_ws(t, i);
    &&& k < t.len()
    &&& (t[k] == 125 || (t[k] == 44 && scan_members(t, k + 1) is Ok) || scan_members(t, i) is Ok)
}

/// The position after the `}` that closes the object from `i`.
pub open spec fn members_end(t: Seq<u8>, i: int) -> int {
    let k = skip_ws(t, i);
    if t[k] == 125 {
        k + 1
    } else if t[k] == 44 {
        ok_end(scan_members(t, k + 1))
    } else {
        ok_end(scan_members(t, i))
    }
}

/// Where the array parser stands at `i`, as for objects.
pub open spec fn elements_state(t: Seq<u8>, i: int) -> bool {
    let k = skip_ws(t, i);
    &&& k < t.len()
    &&& (t[k] == 93 || (t[k] == 44 && scan_elements(t, k + 1) is Ok) || scan_elements(t, i) is Ok)
}

/// The position after the `]` that closes the array from `i`.
pub open spec fn elements_end(t: Seq<u8>, i: int) -> int {
    let k = skip_ws(t, i);
    if t[k] == 93 {
        k + 1
    } else if t[k] == 44 {
        ok_end(scan_elements(t, k + 1))
    } else {
        ok_end(scan_elements(t, i))
    }
}

fn parse_value_at(s: &[u8], i: usize) -> (n: Node)
    requires
        i <= s@.len(),
        scan_value(s@, i as int) is Ok,
    ensures
        node_v(n) == parse_value(s@, i as int),
        scan_value(s@, i as int) == Ok::<int, ScanErr>(n.end as int),
        i < n.end <= s@.len(),
    decreases s@.len() - i, 1int,
{
    let j = skip_space(s, i);
    proof {
        lemma_skip_ws(s@, i as int);
    }
    let c = s[j];
    if c == 123 {
        let (members, e) = parse_members_at(s, j + 1);
        return Node { json: Json::Object(members), start: j, end: e };
    }
    if c == 91 {
        proof {
            let k = skip_ws(s@, j + 1);
            if !(k < s@.len() && s@[k] == 93) {
                lemma_elements_start(s@, j + 1);
            }
        }
        let (items, e) = parse_elements_at(s, j + 1);
        return Node { json: Json::Array(items), start: j, end: e };
    }
    if c == 34 {
        let (b, e) = unquote_at(s, j + 1);
        return Node { json: Json::String(b), start: j, end: e };
    }
    if c == 116 || c == 102 || c == 110 {
        proof {
            lemma_scan_literal_ok(s@, j as int, literal_word(c), 0);
        }
        if c == 116 {
            return Node { json: Json::Bool(true), start: j, end: j + 4 };
        }
        if c == 102 {
            return Node { json: Json::Bool(false), start: j, end: j + 5 };
        }
        return Node { json: Json::Null, start: j, end: j + 4 };
    }
    let e = match scan_number_at(s, j) {
        Ok(e) => e,
        Err(_) => j,
    };
    Node { json: Json::Number(copy_range(s, j, e)), start: j, end: e }
}

fn parse_members_at(s: &[u8], i0: usize) -> (r: (Vec<(Vec<u8>, Node)>, usize))
    requires
        i0 <= s@.len(),
        members_state(s@, i0 as int),
    ensures
        (members_v(r.0@), r.1 as int) == parse_members(s@, i0 as int, Seq::empty()),
        r.1 == members_end(s@, i0 as int),
        i0 < r.1 <= s@.len(),
    decreases s@.len() - i0, 2int,
{
    let ghost end = members_end(s@, i0 as int);
    let mut members: Vec<(Vec<u8>, Node)> = Vec::new();
    let mut i = i0;
    assert(members_v(members@) =~= Seq::empty());
    loop
        invariant
            i0 <= i <= s@.len(),
            members_state(s@, i as int),
            members_end(s@, i as int) == end,
            end == members_end(s@, i0 as int),
            parse_members(s@, i0 as int, Seq::empty()) == parse_members(s@, i as int, members_v(members@)),
        decreases s@.len() - i,
    {
        let k = skip_space(s, i);
        proof {
            lemma_skip_ws(s@, i as int);
        }
        if s[k] == 125 {
            return (members, k + 1);
        }
        if s[k] == 44 {
            i = k + 1;
            continue;
        }
        let (key, k2) = unquote_at(s, k + 1);
        let k3 = skip_space(s, k2);
        let v = parse_value_at(s, k3 + 1);
        let vend = v.end;
        upsert_member(&mut members, key, v);
        i = vend;
    }
}

fn parse_elements_at(s: &[u8], i0: usize) -> (r: (Vec<Node>, usize))
    requires
        i0 <= s@.len(),
        elements_state(s@, i0 as int),
    ensures
        (nodes_v(r.0@), r.1 as int) == parse_elements(s@, i0 as int, Seq::empty()),
        r.1 == elements_end(s@, i0 as int),
        i0 < r.1 <= s@.len(),
    decreases s@.len() - i0, 2int,
{
    let ghost end = elements_end(s@, i0 as int);
    let mut items: Vec<Node> = Vec::new();
    let mut i = i0;
    assert(nodes_v(items@) =~= Seq::empty());
    loop
        invariant
            i0 <= i <= s@.len(),
            elements_state(s@, i as int),
            elements_end(s@, i as int) == end,
            end == elements_end(s@, i0 as int),
            parse_elements(s@, i0 as int, Seq::empty()) == parse_elements(s@, i as int, nodes_v(items@)),
        decreases s@.len() - i,
    {
        let k = skip_space(s, i);
        proof {
            lemma_skip_ws(s@, i as int);
        }
        if s[k] == 93 {
            return (items, k + 1);
        }
        if s[k] == 44 {
            proof {
                if scan_elements(s@, i as int) is Ok {
                    lemma_elements_start(s@, i as int);
                }
                lemma_elements_start(s@, k + 1);
            }
            i = k + 1;
            continue;
        }
        proof {
            lemma_scan_value_ws(s@, i as int);
        }
        let v = parse_value_at(s, k);
        let vend = v.end;
        let ghost before = nodes_v(items@);
        let ghost nv = node_v(v);
        items.push(v);
        assert(nodes_v(items@) =~= before.push(nv));
        i = vend;
    }
}

/// `encoding/json`'s decoding of a value that [`first_value`] accepted.
pub fn parse(value: &[u8]) -> (n: Node)
    requires
        scan_value(value@, 0) is Ok,
    ensures
        node_v(n) == parse_value(value@, 0),
        scan_value(value@, 0) == Ok::<int, ScanErr>(n.end as int),
{
    parse_value_at(value, 0)
}

/// The first value of a body, decoded where it stands: `None` for a body of
/// white space only, the scanner's message when the value is not JSON.
pub fn first_node(body: &[u8]) -> (r: Result<Option<Node>, Vec<u8>>)
    ensures
        ({
            let j = skip_ws(body@, 0);
            if j >= body@.len() {
                r matches Ok(None)
            } else {
                match scan_value(body@, j) {
                    Ok(e) => r matches Ok(Some(n)) && node_v(n) == parse_value(body@, j) && n.end == e,
                    Err(x) => r matches Err(m) && m@ == scan_message(x),
                }
            }
        }),
{
    let j = skip_space(body, 0);
    if j == body.len() {
        return Ok(None);
    }
    match first_value(body) {
        FirstValue::Value(_) => Ok(Some(parse_value_at(body, j))),
        FirstValue::Error(m) => Err(m),
        FirstValue::Eof => Ok(None),
    }
}

/// No two members have the same key.
pub open spec fn distinct_keys(ms: Seq<(Seq<u8>, NodeV)>) -> bool {
    forall|a: int, b: int| 0 <= a < b < ms.len() ==> ms[a].0 != ms[b].0
}

proof fn lemma_key_index(ms: Seq<(Seq<u8>, NodeV)>, key: Seq<u8>, i: int)
    requires
        0 <= i <= ms.len(),
    ensures
        i <= key_index(ms, key, i) <= ms.len(),
        key_index(ms, key, i) < ms.len() ==> ms[key_index(ms, key, i)].0 == key,
        forall|m: int| i <= m < key_index(ms, key, i) ==> ms[m].0 != key,
    decreases ms.len() - i,
{
    if i < ms.len() && ms[i].0 != key {
        lemma_key_index(ms, key, i + 1);
    }
}

proof fn lemma_upsert_distinct(ms: Seq<(Seq<u8>, NodeV)>, key: Seq<u8>, v: NodeV)
    requires
        distinct_keys(ms),
    ensures
        distinct_keys(upsert(ms, key, v)),
{
    lemma_key_index(ms, key, 0);
}

proof fn lemma_members_distinct(t: Seq<u8>, i: int, acc: Seq<(Seq<u8>, NodeV)>)
    requires
        distinct_keys(acc),
    ensures
        distinct_keys(parse_members(t, i, acc).0),
    decreases t.len() - i,
{
    if i >= 0 {
        let k = skip_ws(t, i);
        lemma_skip_ws(t, i);
        if k < t.len() && t[k] != 125 {
            if t[k] == 44 {
                lemma_members_distinct(t, k + 1, acc);
            } else {
                let (key, k2) = unquote(t, k + 1);
                lemma_unquote_end(t, k + 1);
                lemma_skip_ws(t, k2);
                let k3 = skip_ws(t, k2);
                if k3 < t.len() {
                    let v = parse_value(t, k3 + 1);
                    if k3 < v.end <= t.len() {
                        lemma_upsert_distinct(acc, key, v);
                        lemma_members_distinct(t, v.end, upsert(acc, key, v));
                    }
                }
            }
        }
    }
}

/// A decoded object never holds a key twice: a repeated key keeps one place,
/// and the value that came last.
pub proof fn lemma_object_keys_distinct(t: Seq<u8>, i: int)
    ensures
        parse_value(t, i).json matches JsonV::Object(ms) ==> distinct_keys(ms),
{
    if i >= 0 {
        let j = skip_ws(t, i);
        lemma_skip_ws(t, i);
        if j < t.len() && t[j] == 123 {
            lemma_members_distinct(t, j + 1, Seq::empty());
        }
    }
}

} // verus!
