//! protojson's tokenizer (`google.golang.org/protobuf/internal/encoding/json`
//! `Decoder`), token for token: what it accepts decides what a request body
//! may contain, including its quirks (a number read out of a JSON string
//! stops at the first delimiter).
use vstd::prelude::*;
use vstd::string::StringSliceAdditionalSpecFns;
use crate::bytes::{ascii_alnum, ascii_digit, ascii_hex_digit, copy_bytes, copy_range, hex_digit_value, is_alnum, is_digit, is_hex_digit, push_all};
use crate::request::form::{encode_rune, encode_runes, lossy, lossy_runes, push_rune};
use crate::request::gotime::{hex4, simple_escape};
use crate::request::strconv::{decode_rune, lemma_decode_width, spec_decode_rune};
use crate::json::go::parse_int;
use crate::json::go::parse_uint;
use crate::bytes::{decimal, spec_decimal};
use crate::json::{JsonError, JsonErrorKind};
use crate::bytes::{has_prefix, starts_with};
use crate::request::json::{
    lemma_skip_digits, lemma_skip_ws, literal_bytes, literal_word, skip_digit_run, skip_digits, skip_space, skip_ws,
};
use crate::request::strconv::{spec_parse_int, spec_parse_uint, NumErrorKind};

verus! {

/// What a token is.
#[derive(Clone, Copy, Debug, PartialEq, Eq, Structural)]
pub enum Kind {
    Eof,
    Null,
    Bool,
    Number,
    String,
    Name,
    ObjectOpen,
    ObjectClose,
    ArrayOpen,
    ArrayClose,
    Comma,
}

impl Kind {
    pub open spec fn scalar(self) -> bool {
        self == Kind::Null || self == Kind::Bool || self == Kind::Number || self == Kind::String
    }

    /// A value that needs no closing token.
    pub fn is_scalar(self) -> (r: bool)
        ensures
            r == self.scalar(),
    {
        self == Kind::Null || self == Kind::Bool || self == Kind::Number || self == Kind::String
    }
}

/// A byte that may continue a bare word or number, so it cannot end one.
pub open spec fn not_delim(c: u8) -> bool {
    c == 45 || c == 43 || c == 46 || c == 95 || is_alnum(c)
}

pub fn is_not_delim(c: u8) -> (r: bool)
    ensures
        r == not_delim(c),
{
    c == 45 || c == 43 || c == 46 || c == 95 || ascii_alnum(c)
}

/// The exponent of a number at `c`, and where the number ends; `None` for a
/// sign with nothing after it.
pub open spec fn number_exponent_end(s: Seq<u8>, c: int) -> Option<int> {
    if c + 2 <= s.len() && (s[c] == 101 || s[c] == 69) {
        if s[c + 1] == 43 || s[c + 1] == 45 {
            if c + 2 >= s.len() {
                None
            } else {
                Some(skip_digits(s, c + 2))
            }
        } else {
            Some(skip_digits(s, c + 1))
        }
    } else {
        Some(c)
    }
}

/// Where the integer part of a number that starts at `a` ends.
pub open spec fn int_part_end(s: Seq<u8>, a: int) -> int {
    if s[a] == 48 {
        a + 1
    } else {
        skip_digits(s, a + 1)
    }
}

/// Where the fraction of a number after its integer part at `b` ends.
pub open spec fn fraction_end(s: Seq<u8>, b: int) -> int {
    if b + 1 < s.len() && s[b] == 46 && is_digit(s[b + 1]) {
        skip_digits(s, b + 2)
    } else {
        b
    }
}

/// `parseNumber`: the length of the JSON number at the start of `s`, which a
/// delimiter or the end must follow.
pub open spec fn spec_parse_number(s: Seq<u8>) -> Option<int> {
    let a: int = if s.len() > 0 && s[0] == 45 { 1 } else { 0 };
    if a >= s.len() || !is_digit(s[a]) {
        None
    } else {
        match number_exponent_end(s, fraction_end(s, int_part_end(s, a))) {
            None => None,
            Some(n) => if n < s.len() && not_delim(s[n]) {
                None
            } else {
                Some(n)
            },
        }
    }
}

/// `parseNumber`.
pub fn parse_number(input: &[u8]) -> (r: Option<usize>)
    ensures
        match r {
            Some(n) => spec_parse_number(input@) == Some(n as int) && 0 < n <= input@.len(),
            None => spec_parse_number(input@) is None,
        },
{
    let len = input.len();
    let a: usize = if len > 0 && input[0] == 45 { 1 } else { 0 };
    if a >= len || !ascii_digit(input[a]) {
        return None;
    }
    let b = if input[a] == 48 { a + 1 } else { skip_digit_run(input, a + 1) };
    proof {
        lemma_skip_digits(input@, a + 1);
    }
    let c = if len - b >= 2 && input[b] == 46 && ascii_digit(input[b + 1]) {
        proof {
            lemma_skip_digits(input@, b + 2);
        }
        skip_digit_run(input, b + 2)
    } else {
        b
    };
    let n = if len >= 2 && c <= len - 2 && (input[c] == 101 || input[c] == 69) {
        if input[c + 1] == 43 || input[c + 1] == 45 {
            if c + 2 >= len {
                return None;
            }
            proof {
                lemma_skip_digits(input@, c + 2);
            }
            skip_digit_run(input, c + 2)
        } else {
            proof {
                lemma_skip_digits(input@, c + 1);
            }
            skip_digit_run(input, c + 1)
        }
    } else {
        c
    };
    if n < len && is_not_delim(input[n]) {
        return None;
    }
    Some(n)
}

pub open spec fn all_digits(s: Seq<u8>) -> bool {
    forall|k: int| 0 <= k < s.len() ==> is_digit(s[k])
}

/// A number token `normalizeToIntString` would leave as it is: an optional
/// `-`, then `0` or digits without a leading zero, and nothing else.
pub open spec fn spec_plain_integer(raw: Seq<u8>) -> bool {
    let d = if raw.len() > 0 && raw[0] == 45 { raw.subrange(1, raw.len() as int) } else { raw };
    &&& d.len() > 0
    &&& all_digits(d)
    &&& (d[0] != 48 || d.len() == 1)
    &&& raw != seq![45u8, 48u8]
}

pub fn plain_integer(raw: &[u8]) -> (r: bool)
    ensures
        r == spec_plain_integer(raw@),
{
    let start: usize = if raw.len() > 0 && raw[0] == 45 { 1 } else { 0 };
    let ghost d = if raw@.len() > 0 && raw@[0] == 45 { raw@.subrange(1, raw@.len() as int) } else { raw@ };
    assert(d =~= raw@.subrange(start as int, raw@.len() as int));
    if start >= raw.len() {
        assert(d.len() == 0);
        return false;
    }
    let mut k = start;
    while k < raw.len() && ascii_digit(raw[k])
        invariant
            start <= k <= raw@.len(),
            forall|m: int| start <= m < k ==> is_digit(raw@[m]),
        decreases raw@.len() - k,
    {
        k = k + 1;
    }
    if k < raw.len() {
        assert(!is_digit(d[k - start]));
        return false;
    }
    assert(all_digits(d));
    if raw[start] == 48 && raw.len() - start != 1 {
        return false;
    }
    if raw.len() == 2 && raw[0] == 45 && raw[1] == 48 {
        assert(raw@ =~= seq![45u8, 48u8]);
        return false;
    }
    assert(raw@ != seq![45u8, 48u8]) by {
        if raw@ == seq![45u8, 48u8] {
            assert(raw@[0] == 45 && raw@[1] == 48 && raw@.len() == 2);
        }
    }
    true
}

/// A number token taken apart: sign, integer digits (none for `0`), the
/// fraction without its trailing zeros, and the exponent as written.
pub struct Parts {
    pub neg: bool,
    pub intp: Seq<u8>,
    pub frac: Seq<u8>,
    pub exp: Seq<u8>,
}

/// `s` without its trailing `0`s.
pub open spec fn trim_zeros(s: Seq<u8>) -> Seq<u8>
    decreases s.len(),
{
    if s.len() > 0 && s.last() == 48 {
        trim_zeros(s.drop_last())
    } else {
        s
    }
}

/// `parseNumberParts`.
pub open spec fn spec_number_parts(s: Seq<u8>) -> Option<Parts> {
    let neg = s.len() > 0 && s[0] == 45;
    let a: int = if neg { 1 } else { 0 };
    if a >= s.len() || !is_digit(s[a]) {
        None
    } else {
        let b = int_part_end(s, a);
        let intp = if s[a] == 48 { Seq::empty() } else { s.subrange(a, b) };
        let c = fraction_end(s, b);
        let frac = if c > b { trim_zeros(s.subrange(b + 1, c)) } else { Seq::empty() };
        if c + 2 <= s.len() && (s[c] == 101 || s[c] == 69) {
            let sign: int = if s[c + 1] == 43 || s[c + 1] == 45 { 1 } else { 0 };
            if sign == 1 && c + 2 == s.len() {
                None
            } else {
                Some(Parts { neg, intp, frac, exp: s.subrange(c + 1, skip_digits(s, c + 1 + sign)) })
            }
        } else {
            Some(Parts { neg, intp, frac, exp: Seq::empty() })
        }
    }
}

pub open spec fn all_zeros(s: Seq<u8>) -> bool {
    forall|k: int| 0 <= k < s.len() ==> s[k] == 48
}

pub open spec fn zeros(n: nat) -> Seq<u8> {
    Seq::new(n, |_k: int| 48u8)
}

/// `normalizeToIntString`: the integer a number spells, without E-notation,
/// or `None` when it is not an integer (or has more than 20 digits).
pub open spec fn spec_normalize(p: Parts) -> Option<Seq<u8>> {
    if p.intp.len() == 0 && p.frac.len() == 0 {
        Some(seq![48u8])
    } else {
        let e: Option<int> = if p.exp.len() == 0 {
            Some(0)
        } else {
            match spec_parse_int(p.exp, false, 32) {
                Ok(v) => Some(v),
                Err(_) => None,
            }
        };
        let sign = if p.neg { seq![45u8] } else { Seq::empty() };
        match e {
            None => None,
            Some(exp) => if exp >= 0 {
                if p.frac.len() > exp || p.intp.len() + exp > 20 {
                    None
                } else {
                    Some(sign + p.intp + p.frac + zeros((exp - p.frac.len()) as nat))
                }
            } else if p.frac.len() > 0 {
                None
            } else {
                let index = p.intp.len() + exp;
                if index < 0 || !all_zeros(p.intp.subrange(index, p.intp.len() as int)) {
                    None
                } else {
                    Some(sign + p.intp.subrange(0, index))
                }
            },
        }
    }
}

/// A number's parts, as slices of it.
struct PartsAt<'a> {
    neg: bool,
    intp: &'a [u8],
    frac: &'a [u8],
    exp: &'a [u8],
}

spec fn parts_v(p: PartsAt) -> Parts {
    Parts { neg: p.neg, intp: p.intp@, frac: p.frac@, exp: p.exp@ }
}

fn trim_trailing_zeros(s: &[u8]) -> (r: &[u8])
    ensures
        r@ == trim_zeros(s@),
{
    let mut n = s.len();
    assert(s@.subrange(0, n as int) =~= s@);
    while n > 0 && s[n - 1] == 48
        invariant
            n <= s@.len(),
            trim_zeros(s@) == trim_zeros(s@.subrange(0, n as int)),
        decreases n,
    {
        assert(s@.subrange(0, n as int).drop_last() =~= s@.subrange(0, n - 1));
        n = n - 1;
    }
    vstd::slice::slice_subrange(s, 0, n)
}

/// `parseNumberParts`.
fn number_parts(input: &[u8]) -> (r: Option<PartsAt<'_>>)
    ensures
        match r {
            Some(p) => spec_number_parts(input@) == Some(parts_v(p)),
            None => spec_number_parts(input@) is None,
        },
{
    let len = input.len();
    let neg = len > 0 && input[0] == 45;
    let a: usize = if neg { 1 } else { 0 };
    if a >= len || !ascii_digit(input[a]) {
        return None;
    }
    let b = if input[a] == 48 { a + 1 } else { skip_digit_run(input, a + 1) };
    proof {
        lemma_skip_digits(input@, a + 1);
    }
    let intp: &[u8] = if input[a] == 48 {
        vstd::slice::slice_subrange(input, a, a)
    } else {
        vstd::slice::slice_subrange(input, a, b)
    };
    let c = if len - b >= 2 && input[b] == 46 && ascii_digit(input[b + 1]) {
        proof {
            lemma_skip_digits(input@, b + 2);
        }
        skip_digit_run(input, b + 2)
    } else {
        b
    };
    let frac: &[u8] = if c > b {
        trim_trailing_zeros(vstd::slice::slice_subrange(input, b + 1, c))
    } else {
        vstd::slice::slice_subrange(input, b, b)
    };
    if len >= 2 && c <= len - 2 && (input[c] == 101 || input[c] == 69) {
        let sign: usize = if input[c + 1] == 43 || input[c + 1] == 45 { 1 } else { 0 };
        if sign == 1 && c + 2 == len {
            return None;
        }
        proof {
            lemma_skip_digits(input@, c + 1 + sign);
        }
        let e = skip_digit_run(input, c + 1 + sign);
        let exp = vstd::slice::slice_subrange(input, c + 1, e);
        proof {
            assert(intp@ =~= (if input@[a as int] == 48 { Seq::empty() } else { input@.subrange(a as int, b as int) }));
            assert(frac@ =~= (if c > b { trim_zeros(input@.subrange(b + 1, c as int)) } else { Seq::empty() }));
        }
        return Some(PartsAt { neg, intp, frac, exp });
    }
    let exp = vstd::slice::slice_subrange(input, c, c);
    proof {
        assert(intp@ =~= (if input@[a as int] == 48 { Seq::empty() } else { input@.subrange(a as int, b as int) }));
        assert(frac@ =~= (if c > b { trim_zeros(input@.subrange(b + 1, c as int)) } else { Seq::empty() }));
        assert(exp@ =~= Seq::<u8>::empty());
    }
    Some(PartsAt { neg, intp, frac, exp })
}

/// `normalizeToIntString`.
fn normalize_to_int_string(p: &PartsAt) -> (r: Option<Vec<u8>>)
    ensures
        match r {
            Some(v) => spec_normalize(parts_v(*p)) == Some(v@),
            None => spec_normalize(parts_v(*p)) is None,
        },
{
    if p.intp.len() == 0 && p.frac.len() == 0 {
        let mut z: Vec<u8> = Vec::new();
        z.push(48);
        assert(z@ =~= seq![48u8]);
        return Some(z);
    }
    let mut exp: i64 = 0;
    if p.exp.len() > 0 {
        match parse_int(p.exp, 10, 32) {
            Some(v) => {
                exp = v;
            },
            None => {
                return None;
            },
        }
    }
    let mut num: Vec<u8> = Vec::new();
    if p.neg {
        num.push(45);
    }
    let ghost sign = num@;
    if exp >= 0 {
        if p.frac.len() as i128 > exp as i128 || p.intp.len() as i128 + exp as i128 > 20 {
            return None;
        }
        push_all(&mut num, p.intp);
        push_all(&mut num, p.frac);
        let n_zeros = exp as usize - p.frac.len();
        let ghost before = num@;
        let mut k: usize = 0;
        while k < n_zeros
            invariant
                k <= n_zeros,
                num@ == before + zeros(k as nat),
            decreases n_zeros - k,
        {
            num.push(48);
            k = k + 1;
            assert(num@ =~= before + zeros(k as nat));
        }
        assert(num@ =~= sign + p.intp@ + p.frac@ + zeros((exp - p.frac@.len()) as nat));
        Some(num)
    } else {
        if p.frac.len() > 0 {
            return None;
        }
        let idx: i128 = p.intp.len() as i128 + exp as i128;
        if idx < 0 {
            return None;
        }
        let index = idx as usize;
        let mut k = index;
        while k < p.intp.len() && p.intp[k] == 48
            invariant
                index <= k <= p.intp@.len(),
                forall|m: int| index <= m < k ==> p.intp@[m] == 48,
            decreases p.intp@.len() - k,
        {
            k = k + 1;
        }
        if k < p.intp.len() {
            assert(!all_zeros(p.intp@.subrange(index as int, p.intp@.len() as int))) by {
                assert(p.intp@.subrange(index as int, p.intp@.len() as int)[k - index] != 48);
            }
            return None;
        }
        assert(all_zeros(p.intp@.subrange(index as int, p.intp@.len() as int)));
        push_all(&mut num, vstd::slice::slice_subrange(p.intp, 0, index));
        Some(num)
    }
}


/// A token: its kind, where it starts, its bytes, and for a string or a
/// name the text it spells.
#[derive(Debug)]
pub struct Token<'a> {
    pub kind: Kind,
    pub pos: usize,
    pub raw: &'a [u8],
    pub boolean: bool,
    /// The decoded string, for `String` and `Name`.
    pub text: Vec<u8>,
}

pub open spec fn ok_int(r: Result<int, NumErrorKind>) -> Option<int> {
    match r {
        Ok(v) => Some(v),
        Err(_) => None,
    }
}

/// `Token.Int(bits)`.
pub open spec fn spec_token_int(kind: Kind, raw: Seq<u8>, bits: nat) -> Option<int> {
    if kind != Kind::Number {
        None
    } else if spec_plain_integer(raw) {
        ok_int(spec_parse_int(raw, false, bits))
    } else {
        match spec_number_parts(raw) {
            None => None,
            Some(p) => match spec_normalize(p) {
                None => None,
                Some(t) => ok_int(spec_parse_int(t, false, bits)),
            },
        }
    }
}

/// `Token.Uint(bits)`.
pub open spec fn spec_token_uint(kind: Kind, raw: Seq<u8>, bits: nat) -> Option<int> {
    if kind != Kind::Number {
        None
    } else if spec_plain_integer(raw) {
        ok_int(spec_parse_uint(raw, false, bits))
    } else {
        match spec_number_parts(raw) {
            None => None,
            Some(p) => match spec_normalize(p) {
                None => None,
                Some(t) => ok_int(spec_parse_uint(t, false, bits)),
            },
        }
    }
}

impl<'a> Token<'a> {
    /// `Token.Int(bits)`: the integer a number token spells, E-notation
    /// included, when it fits.
    pub fn int_value(&self, bits: u32) -> (r: Option<i64>)
        requires
            1 <= bits <= 64,
        ensures
            match r {
                Some(v) => spec_token_int(self.kind, self.raw@, bits as nat) == Some(v as int),
                None => spec_token_int(self.kind, self.raw@, bits as nat) is None,
            },
    {
        if self.kind != Kind::Number {
            return None;
        }
        if plain_integer(self.raw) {
            return parse_int(self.raw, 10, bits);
        }
        let p = match number_parts(self.raw) {
            Some(p) => p,
            None => {
                return None;
            },
        };
        match normalize_to_int_string(&p) {
            Some(t) => parse_int(t.as_slice(), 10, bits),
            None => None,
        }
    }

    /// `Token.Uint(bits)`.
    pub fn uint(&self, bits: u32) -> (r: Option<u64>)
        requires
            1 <= bits <= 64,
        ensures
            match r {
                Some(v) => spec_token_uint(self.kind, self.raw@, bits as nat) == Some(v as int),
                None => spec_token_uint(self.kind, self.raw@, bits as nat) is None,
            },
    {
        if self.kind != Kind::Number {
            return None;
        }
        if plain_integer(self.raw) {
            return parse_uint(self.raw, 10, bits);
        }
        let p = match number_parts(self.raw) {
            Some(p) => p,
            None => {
                return None;
            },
        };
        match normalize_to_int_string(&p) {
            Some(t) => parse_uint(t.as_slice(), 10, bits),
            None => None,
        }
    }

    /// The token's bytes as text, invalid UTF-8 replaced.
    pub fn raw_str(&self) -> (r: Vec<u8>)
        ensures
            r@ == encode_runes(lossy_runes(self.raw@)),
    {
        lossy(self.raw)
    }
}

/// Whether `s` is UTF-8 throughout.
pub open spec fn utf8_valid(s: Seq<u8>) -> bool
    decreases s.len(),
{
    if s.len() == 0 {
        true
    } else {
        let (r, w) = spec_decode_rune(s);
        proof {
            lemma_decode_width(s);
        }
        r >= 0 && utf8_valid(s.subrange(w, s.len() as int))
    }
}

pub(crate) fn valid_utf8(s: &[u8]) -> (r: bool)
    ensures
        r == utf8_valid(s@),
{
    let mut k: usize = 0;
    assert(s@.subrange(0, s@.len() as int) =~= s@);
    while k < s.len()
        invariant
            k <= s@.len(),
            utf8_valid(s@) == utf8_valid(s@.subrange(k as int, s@.len() as int)),
        decreases s@.len() - k,
    {
        let rest = vstd::slice::slice_subrange(s, k, s.len());
        let (rr, w) = decode_rune(rest);
        if rr.is_none() {
            return false;
        }
        assert(rest@.subrange(w as int, rest@.len() as int) =~= s@.subrange(k + w, s@.len() as int));
        k = k + w;
    }
    true
}

/// The first position from `i` holding `"`, `\` or a control byte.
pub open spec fn run_end(b: Seq<u8>, i: int) -> int
    decreases b.len() - i,
{
    if 0 <= i < b.len() && b[i] != 34 && b[i] != 92 && b[i] >= 0x20 {
        run_end(b, i + 1)
    } else {
        i
    }
}

pub proof fn lemma_run_end(b: Seq<u8>, i: int)
    requires
        0 <= i <= b.len(),
    ensures
        i <= run_end(b, i) <= b.len(),
        run_end(b, i) < b.len() ==> (b[run_end(b, i)] == 34 || b[run_end(b, i)] == 92 || b[run_end(b, i)] < 0x20),
    decreases b.len() - i,
{
    if i < b.len() && b[i] != 34 && b[i] != 92 && b[i] >= 0x20 {
        lemma_run_end(b, i + 1);
    }
}

pub open spec fn all_hex(s: Seq<u8>) -> bool {
    forall|k: int| 0 <= k < s.len() ==> is_hex_digit(s[k])
}

/// Why a string literal is refused: the input ended, or the words that say
/// what is wrong.
pub enum StrErr {
    Eof,
    Bad(Seq<u8>),
}

pub open spec fn prepend(p: Seq<u8>, r: Result<(Seq<u8>, int), StrErr>) -> Result<(Seq<u8>, int), StrErr> {
    match r {
        Ok((t, n)) => Ok((p + t, n)),
        Err(e) => Err(e),
    }
}

/// A `\u` escape at `j` holding the high surrogate `r`, followed by a `\u`
/// escape holding a low one.
pub open spec fn low_follows(b: Seq<u8>, j: int, r: int) -> bool {
    &&& r < 0xdc00
    &&& b[j + 6] == 92
    &&& b[j + 7] == 117
    &&& all_hex(b.subrange(j + 8, j + 12))
    &&& 0xdc00 <= hex4(b.subrange(j + 8, j + 12)) < 0xe000
}

/// One escape at `j`: the text it stands for and where the string goes on.
pub open spec fn escape_at(b: Seq<u8>, j: int) -> Result<(Seq<u8>, int), StrErr> {
    if j + 1 >= b.len() {
        Err(StrErr::Eof)
    } else {
        let esc = b[j + 1];
        match simple_escape(esc) {
            Some(ch) => Ok((seq![ch], j + 2)),
            None => if esc != 117 {
                Err(StrErr::Bad("invalid escape code in string".spec_bytes()))
            } else if j + 6 > b.len() {
                Err(StrErr::Eof)
            } else if !all_hex(b.subrange(j + 2, j + 6)) {
                Err(StrErr::Bad("invalid escape code in string".spec_bytes()))
            } else {
                let r = hex4(b.subrange(j + 2, j + 6));
                if 0xd800 <= r < 0xe000 {
                    if j + 12 > b.len() {
                        Err(StrErr::Eof)
                    } else if low_follows(b, j, r) {
                        let c = 0x10000 + (r - 0xd800) * 1024 + (hex4(b.subrange(j + 8, j + 12)) - 0xdc00);
                        Ok((encode_rune(c), j + 12))
                    } else {
                        Err(StrErr::Bad("invalid escape code in string".spec_bytes()))
                    }
                } else {
                    Ok((encode_rune(r), j + 6))
                }
            },
        }
    }
}

pub proof fn lemma_escape_end(b: Seq<u8>, j: int)
    ensures
        escape_at(b, j) matches Ok((_, k)) ==> j + 2 <= k <= b.len(),
{
}

/// `parseString` from `i` in the body of a string literal (what follows its
/// opening quote): the text, and the length of the whole literal.
pub open spec fn string_from(b: Seq<u8>, i: int) -> Result<(Seq<u8>, int), StrErr>
    decreases b.len() - i,
{
    if i < 0 || i > b.len() {
        Err(StrErr::Eof)
    } else {
        let j = run_end(b, i);
        proof {
            lemma_run_end(b, i);
            lemma_escape_end(b, j);
        }
        let run = b.subrange(i, j);
        if !utf8_valid(run) {
            Err(StrErr::Bad("invalid UTF-8 in string".spec_bytes()))
        } else if j >= b.len() {
            Err(StrErr::Eof)
        } else if b[j] == 34 {
            Ok((run, j + 2))
        } else if b[j] != 92 {
            Err(StrErr::Bad("invalid character in string".spec_bytes()))
        } else {
            match escape_at(b, j) {
                Err(e) => Err(e),
                Ok((x, k)) => prepend(run + x, string_from(b, k)),
            }
        }
    }
}

proof fn lemma_string_step(b: Seq<u8>, i: int, j: int, x: Seq<u8>, k: int)
    requires
        0 <= i <= b.len(),
        run_end(b, i) == j,
        j < b.len(),
        b[j] == 92,
        utf8_valid(b.subrange(i, j)),
        escape_at(b, j) == Ok::<(Seq<u8>, int), StrErr>((x, k)),
    ensures
        string_from(b, i) == prepend(b.subrange(i, j) + x, string_from(b, k)),
{
}

proof fn lemma_prepend_twice(o: Seq<u8>, p: Seq<u8>, r: Result<(Seq<u8>, int), StrErr>)
    ensures
        prepend(o, prepend(p, r)) == prepend(o + p, r),
{
    match r {
        Ok((t, n)) => assert(o + (p + t) =~= (o + p) + t),
        Err(_) => {},
    }
}

/// A refused string literal, as the tokenizer carries it.
enum StrFail {
    Eof,
    Bad(Vec<u8>),
}

spec fn fail_v(f: StrFail) -> StrErr {
    match f {
        StrFail::Eof => StrErr::Eof,
        StrFail::Bad(m) => StrErr::Bad(m@),
    }
}

fn bad(what: &str) -> (f: StrFail)
    ensures
        fail_v(f) == StrErr::Bad(what.spec_bytes()),
{
    StrFail::Bad(copy_bytes(what.as_bytes()))
}

fn hex4_digits(b: &[u8], k: usize) -> (r: Option<u32>)
    requires
        k + 4 <= b@.len(),
    ensures
        match r {
            Some(v) => all_hex(b@.subrange(k as int, k + 4)) && v == hex4(b@.subrange(k as int, k + 4)) && v < 0x10000,
            None => !all_hex(b@.subrange(k as int, k + 4)),
        },
{
    if !(ascii_hex_digit(b[k]) && ascii_hex_digit(b[k + 1]) && ascii_hex_digit(b[k + 2]) && ascii_hex_digit(b[k + 3])) {
        proof {
            let h = b@.subrange(k as int, k + 4);
            assert(!(is_hex_digit(h[0]) && is_hex_digit(h[1]) && is_hex_digit(h[2]) && is_hex_digit(h[3])));
        }
        return None;
    }
    let v: u32 = ((hex_digit_value(b[k]) as u32 * 16 + hex_digit_value(b[k + 1]) as u32) * 16
        + hex_digit_value(b[k + 2]) as u32) * 16 + hex_digit_value(b[k + 3]) as u32;
    Some(v)
}

/// One escape at `j`, its text added to `out`.
fn string_escape(b: &[u8], j: usize, out: &mut Vec<u8>) -> (r: Result<usize, StrFail>)
    requires
        j < b@.len(),
        b@.len() < usize::MAX,
    ensures
        match r {
            Ok(k) => escape_at(b@, j as int) matches Ok((x, k2)) && k2 == k && final(out)@ == old(out)@ + x,
            Err(f) => escape_at(b@, j as int) == Err::<(Seq<u8>, int), StrErr>(fail_v(f)),
        },
{
    let n = b.len();
    if j + 1 >= n {
        return Err(StrFail::Eof);
    }
    let esc = b[j + 1];
    let simple: Option<u8> = if esc == 34 {
        Some(34)
    } else if esc == 92 {
        Some(92)
    } else if esc == 47 {
        Some(47)
    } else if esc == 98 {
        Some(8)
    } else if esc == 102 {
        Some(12)
    } else if esc == 110 {
        Some(10)
    } else if esc == 114 {
        Some(13)
    } else if esc == 116 {
        Some(9)
    } else {
        None
    };
    if let Some(ch) = simple {
        out.push(ch);
        return Ok(j + 2);
    }
    if esc != 117 {
        return Err(bad("invalid escape code in string"));
    }
    if n - j < 6 {
        return Err(StrFail::Eof);
    }
    let r = match hex4_digits(b, j + 2) {
        Some(r) => r,
        None => {
            return Err(bad("invalid escape code in string"));
        },
    };
    if 0xd800 <= r && r < 0xe000 {
        if n - j < 12 {
            return Err(StrFail::Eof);
        }
        let low = hex4_digits(b, j + 8);
        if let Some(lo) = low {
            if b[j + 6] == 92 && b[j + 7] == 117 && r < 0xdc00 && 0xdc00 <= lo && lo < 0xe000 {
                let c: u32 = 0x10000 + (r - 0xd800) * 1024 + (lo - 0xdc00);
                push_rune(out, c);
                return Ok(j + 12);
            }
        }
        return Err(bad("invalid escape code in string"));
    }
    push_rune(out, r);
    Ok(j + 6)
}

/// `parseString` on a literal that starts at `input[0]`, a `"`: the text and
/// the literal's length.
fn string_literal(input: &[u8]) -> (r: Result<(Vec<u8>, usize), StrFail>)
    requires
        input@.len() >= 1,
    ensures
        match r {
            Ok((t, n)) => string_from(input@.subrange(1, input@.len() as int), 0) == Ok::<(Seq<u8>, int), StrErr>(
                (t@, n as int),
            ) && n <= input@.len(),
            Err(f) => string_from(input@.subrange(1, input@.len() as int), 0) == Err::<(Seq<u8>, int), StrErr>(
                fail_v(f),
            ),
        },
{
    let total = input.len();
    let b = vstd::slice::slice_subrange(input, 1, total);
    let n = b.len();
    let mut out: Vec<u8> = Vec::new();
    let mut i: usize = 0;
    assert(prepend(out@, string_from(b@, 0)) == string_from(b@, 0)) by {
        match string_from(b@, 0) {
            Ok((t, m)) => assert(out@ + t =~= t),
            Err(_) => {},
        }
    }
    loop
        invariant
            n == b@.len(),
            n + 1 == total,
            total == input@.len(),
            b@ == input@.subrange(1, input@.len() as int),
            i <= n,
            string_from(b@, 0) == prepend(out@, string_from(b@, i as int)),
        decreases n - i,
    {
        let mut j = i;
        while j < n && b[j] != 34 && b[j] != 92 && b[j] >= 0x20
            invariant
                i <= j <= n,
                n == b@.len(),
                run_end(b@, i as int) == run_end(b@, j as int),
            decreases n - j,
        {
            j = j + 1;
        }
        let run = vstd::slice::slice_subrange(b, i, j);
        let ghost o = out@;
        if !valid_utf8(run) {
            return Err(bad("invalid UTF-8 in string"));
        }
        push_all(&mut out, run);
        if j >= n {
            return Err(StrFail::Eof);
        }
        if b[j] == 34 {
            return Ok((out, j + 2));
        }
        if b[j] != 92 {
            return Err(bad("invalid character in string"));
        }
        let ghost x = match escape_at(b@, j as int) {
            Ok((x, _)) => x,
            Err(_) => Seq::empty(),
        };
        match string_escape(b, j, &mut out) {
            Ok(k) => {
                proof {
                    lemma_escape_end(b@, j as int);
                    lemma_string_step(b@, i as int, j as int, x, k as int);
                    lemma_prepend_twice(o, run@ + x, string_from(b@, k as int));
                    assert(out@ =~= o + (run@ + x));
                }
                i = k;
            },
            Err(f) => {
                return Err(f);
            },
        }
    }
}


/// A token, as a value of the logic.
pub struct TokenV {
    pub kind: Kind,
    pub pos: int,
    pub raw: Seq<u8>,
    pub boolean: bool,
    pub text: Seq<u8>,
}

/// An error, as a value of the logic.
pub struct ErrV {
    pub kind: JsonErrorKind,
    pub message: Seq<u8>,
}

pub open spec fn token_v(t: &Token) -> TokenV {
    TokenV { kind: t.kind, pos: t.pos as int, raw: t.raw@, boolean: t.boolean, text: t.text@ }
}

pub open spec fn err_v(e: &JsonError) -> ErrV {
    ErrV { kind: e.kind_v(), message: e.message_v() }
}

pub open spec fn result_v(r: &Result<Token, JsonError>) -> Result<TokenV, ErrV> {
    match r {
        Ok(t) => Ok(token_v(t)),
        Err(e) => Err(err_v(e)),
    }
}

/// protojson's syntax error at an offset.
pub open spec fn syntax_at(pos: int, what: Seq<u8>) -> ErrV {
    ErrV {
        kind: JsonErrorKind::Syntax,
        message: "syntax error (offset ".spec_bytes() + spec_decimal(pos as nat) + "): ".spec_bytes() + what,
    }
}

pub open spec fn eof_err() -> ErrV {
    ErrV { kind: JsonErrorKind::UnexpectedEof, message: "unexpected EOF".spec_bytes() }
}

/// `input` starts with the word `lit`, and no byte that could continue it
/// follows.
pub open spec fn with_delim(input: Seq<u8>, lit: Seq<u8>) -> bool {
    &&& input.len() >= lit.len()
    &&& input.subrange(0, lit.len() as int) == lit
    &&& !(input.len() > lit.len() && not_delim(input[lit.len() as int]))
}

/// A number protojson takes: one `parseNumber` reads, unless exponents
/// without digits are refused and this is one.
pub open spec fn number_token_len(input: Seq<u8>, strict: bool) -> Option<int> {
    match spec_parse_number(input) {
        None => None,
        Some(n) => {
            let last = input[n - 1];
            if strict && (last == 101 || last == 69 || last == 43 || last == 45) {
                None
            } else {
                Some(n)
            }
        },
    }
}

pub open spec fn tok(kind: Kind, orig: Seq<u8>, at: int, size: int, boolean: bool, text: Seq<u8>) -> TokenV {
    TokenV { kind, pos: at, raw: orig.subrange(at, at + size), boolean, text }
}

/// `parseNext` at `at`, after white space: the token there, or why there is
/// none.
pub open spec fn next_token(orig: Seq<u8>, at: int, strict: bool) -> Result<TokenV, ErrV> {
    let input = orig.subrange(at, orig.len() as int);
    if input.len() == 0 {
        Ok(tok(Kind::Eof, orig, at, 0, false, Seq::empty()))
    } else {
        let first = input[0];
        if first == 110 && with_delim(input, literal_word(110)) {
            Ok(tok(Kind::Null, orig, at, 4, false, Seq::empty()))
        } else if first == 116 && with_delim(input, literal_word(116)) {
            Ok(tok(Kind::Bool, orig, at, 4, true, Seq::empty()))
        } else if first == 102 && with_delim(input, literal_word(102)) {
            Ok(tok(Kind::Bool, orig, at, 5, false, Seq::empty()))
        } else if (first == 45 || is_digit(first)) && number_token_len(input, strict) is Some {
            Ok(tok(Kind::Number, orig, at, number_token_len(input, strict)->0, false, Seq::empty()))
        } else if first == 34 {
            match string_from(input.subrange(1, input.len() as int), 0) {
                Ok((t, n)) => Ok(tok(Kind::String, orig, at, n, false, t)),
                Err(StrErr::Eof) => Err(eof_err()),
                Err(StrErr::Bad(what)) => Err(syntax_at(at, what)),
            }
        } else if first == 123 {
            Ok(tok(Kind::ObjectOpen, orig, at, 1, false, Seq::empty()))
        } else if first == 125 {
            Ok(tok(Kind::ObjectClose, orig, at, 1, false, Seq::empty()))
        } else if first == 91 {
            Ok(tok(Kind::ArrayOpen, orig, at, 1, false, Seq::empty()))
        } else if first == 93 {
            Ok(tok(Kind::ArrayClose, orig, at, 1, false, Seq::empty()))
        } else if first == 44 {
            Ok(tok(Kind::Comma, orig, at, 1, false, Seq::empty()))
        } else {
            Err(syntax_at(at, "invalid value".spec_bytes()))
        }
    }
}

/// Where the tokenizer stands: its position, the kind of the last token it
/// returned, and the objects and arrays open around it.
pub struct StateV {
    pub at: int,
    pub last_kind: Option<Kind>,
    pub open: Seq<Kind>,
}

/// Whether a value may come next.
pub open spec fn value_next(open: Seq<Kind>, last: Option<Kind>) -> bool {
    if open.len() == 0 {
        last is None
    } else if open.last() == Kind::ObjectOpen {
        last == Some(Kind::Name)
    } else {
        last == Some(Kind::ArrayOpen) || last == Some(Kind::Comma)
    }
}

/// Whether the last token ended a value, so that a comma may follow.
pub open spec fn after_value(last: Option<Kind>) -> bool {
    match last {
        Some(k) => k.scalar() || k == Kind::ObjectClose || k == Kind::ArrayClose,
        None => false,
    }
}

pub open spec fn unexpected_token(t: TokenV) -> ErrV {
    syntax_at(t.pos, "unexpected token ".spec_bytes() + encode_runes(lossy_runes(t.raw)))
}

pub open spec fn missing_colon(at: int, c: u8) -> ErrV {
    syntax_at(
        at,
        "unexpected character ".spec_bytes() + encode_rune(c as int) + ", missing \":\" after field name".spec_bytes(),
    )
}

pub open spec fn done(t: TokenV, at: int, open: Seq<Kind>) -> (Result<TokenV, ErrV>, StateV) {
    (Ok(t), StateV { at, last_kind: Some(t.kind), open })
}

pub proof fn lemma_next_token(orig: Seq<u8>, at: int, strict: bool)
    requires
        0 <= at <= orig.len(),
    ensures
        next_token(orig, at, strict) matches Ok(t) ==> (t.kind == Kind::Comma ==> t.raw.len() == 1) && t.kind
            != Kind::Name,
{
}

/// `read`, from the state `st`: the next token that is not a comma, or the
/// error, and the state after it.
pub open spec fn read_step(orig: Seq<u8>, strict: bool, st: StateV) -> (Result<TokenV, ErrV>, StateV)
    decreases orig.len() - st.at,
{
    if st.at < 0 || st.at > orig.len() {
        (Err(eof_err()), st)
    } else {
        let a0 = skip_ws(orig, st.at);
        proof {
            lemma_skip_ws(orig, st.at);
        }
        let open = st.open;
        let last = st.last_kind;
        match next_token(orig, a0, strict) {
            Err(e) => (Err(e), StateV { at: a0, last_kind: last, open }),
            Ok(t) => {
                let a1 = skip_ws(orig, a0 + t.raw.len());
                let st1 = StateV { at: a1, last_kind: last, open };
                if t.kind == Kind::Eof {
                    if open.len() > 0 {
                        (Err(eof_err()), st1)
                    } else {
                        done(t, a1, open)
                    }
                } else if t.kind == Kind::Null || t.kind == Kind::Bool || t.kind == Kind::Number {
                    if !value_next(open, last) {
                        (Err(unexpected_token(t)), st1)
                    } else {
                        done(t, a1, open)
                    }
                } else if t.kind == Kind::String {
                    if value_next(open, last) {
                        done(t, a1, open)
                    } else if !(last == Some(Kind::ObjectOpen) || last == Some(Kind::Comma)) {
                        (Err(unexpected_token(t)), st1)
                    } else if a1 >= orig.len() {
                        (Err(eof_err()), st1)
                    } else if orig[a1] != 58 {
                        (Err(missing_colon(a1, orig[a1])), st1)
                    } else {
                        done(TokenV { kind: Kind::Name, pos: t.pos, raw: t.raw, boolean: t.boolean, text: t.text },
                            skip_ws(orig, a1 + 1), open)
                    }
                } else if t.kind == Kind::ObjectOpen || t.kind == Kind::ArrayOpen {
                    if !value_next(open, last) {
                        (Err(unexpected_token(t)), st1)
                    } else {
                        done(t, a1, open.push(t.kind))
                    }
                } else if t.kind == Kind::ObjectClose {
                    if open.len() == 0 || open.last() != Kind::ObjectOpen || last == Some(Kind::Name) || last == Some(
                        Kind::Comma,
                    ) {
                        (Err(unexpected_token(t)), st1)
                    } else {
                        done(t, a1, open.drop_last())
                    }
                } else if t.kind == Kind::ArrayClose {
                    if open.len() == 0 || open.last() != Kind::ArrayOpen || last == Some(Kind::Comma) {
                        (Err(unexpected_token(t)), st1)
                    } else {
                        done(t, a1, open.drop_last())
                    }
                } else if t.kind == Kind::Comma {
                    if open.len() == 0 || !after_value(last) {
                        (Err(unexpected_token(t)), st1)
                    } else {
                        proof {
                            lemma_next_token(orig, a0, strict);
                            lemma_skip_ws(orig, a0 + 1);
                        }
                        read_step(orig, strict, StateV { at: a1, last_kind: Some(Kind::Comma), open })
                    }
                } else {
                    (Err(unexpected_token(t)), st1)
                }
            },
        }
    }
}


fn word_with_delim(input: &[u8], c: u8) -> (r: bool)
    ensures
        r == with_delim(input@, literal_word(c)),
{
    let lit = literal_bytes(c);
    if !has_prefix(input, lit.as_slice()) {
        return false;
    }
    let n = lit.len();
    !(input.len() > n && is_not_delim(input[n]))
}

/// protojson's syntax error at an offset.
fn syntax(pos: usize, what: &[u8]) -> (e: JsonError)
    ensures
        err_v(&e) == syntax_at(pos as int, what@),
{
    let mut m = copy_bytes("syntax error (offset ".as_bytes());
    push_all(&mut m, decimal(pos as u64).as_slice());
    push_all(&mut m, "): ".as_bytes());
    push_all(&mut m, what);
    JsonError::new(JsonErrorKind::Syntax, m)
}

fn eof_error() -> (e: JsonError)
    ensures
        err_v(&e) == eof_err(),
{
    JsonError::eof()
}

fn token_at<'a>(orig: &'a [u8], kind: Kind, at: usize, size: usize) -> (t: Token<'a>)
    requires
        at + size <= orig@.len(),
    ensures
        token_v(&t) == tok(kind, orig@, at as int, size as int, false, Seq::empty()),
{
    let n = orig.len();
    Token { kind, pos: at, raw: vstd::slice::slice_subrange(orig, at, at + size), boolean: false, text: Vec::new() }
}

/// `parseNext` at `at`, after white space.
fn next_token_at<'a>(orig: &'a [u8], at: usize, strict: bool) -> (r: Result<Token<'a>, JsonError>)
    requires
        at <= orig@.len(),
    ensures
        result_v(&r) == next_token(orig@, at as int, strict),
        r matches Ok(t) ==> t.pos == at && at + t.raw@.len() <= orig@.len(),
{
    let input = vstd::slice::slice_subrange(orig, at, orig.len());
    if input.len() == 0 {
        return Ok(token_at(orig, Kind::Eof, at, 0));
    }
    let first = input[0];
    if first == 110 && word_with_delim(input, 110) {
        return Ok(token_at(orig, Kind::Null, at, 4));
    }
    if first == 116 && word_with_delim(input, 116) {
        let mut t = token_at(orig, Kind::Bool, at, 4);
        t.boolean = true;
        return Ok(t);
    }
    if first == 102 && word_with_delim(input, 102) {
        return Ok(token_at(orig, Kind::Bool, at, 5));
    }
    if first == 45 || ascii_digit(first) {
        if let Some(n) = parse_number(input) {
            let last = input[n - 1];
            if !(strict && (last == 101 || last == 69 || last == 43 || last == 45)) {
                return Ok(token_at(orig, Kind::Number, at, n));
            }
        }
    }
    if first == 34 {
        return match string_literal(input) {
            Ok((text, n)) => {
                let mut t = token_at(orig, Kind::String, at, n);
                t.text = text;
                Ok(t)
            },
            Err(StrFail::Eof) => Err(eof_error()),
            Err(StrFail::Bad(what)) => Err(syntax(at, what.as_slice())),
        };
    }
    if first == 123 {
        return Ok(token_at(orig, Kind::ObjectOpen, at, 1));
    }
    if first == 125 {
        return Ok(token_at(orig, Kind::ObjectClose, at, 1));
    }
    if first == 91 {
        return Ok(token_at(orig, Kind::ArrayOpen, at, 1));
    }
    if first == 93 {
        return Ok(token_at(orig, Kind::ArrayClose, at, 1));
    }
    if first == 44 {
        return Ok(token_at(orig, Kind::Comma, at, 1));
    }
    Err(syntax(at, "invalid value".as_bytes()))
}

fn clone_token<'a>(t: &Token<'a>) -> (c: Token<'a>)
    ensures
        token_v(&c) == token_v(t),
{
    Token { kind: t.kind, pos: t.pos, raw: t.raw, boolean: t.boolean, text: copy_bytes(t.text.as_slice()) }
}

fn clone_error(e: &JsonError) -> (c: JsonError)
    ensures
        err_v(&c) == err_v(e),
{
    JsonError::new(e.kind(), copy_bytes(e.message()))
}

fn clone_result<'a>(r: &Result<Token<'a>, JsonError>) -> (c: Result<Token<'a>, JsonError>)
    ensures
        result_v(&c) == result_v(r),
{
    match r {
        Ok(t) => Ok(clone_token(t)),
        Err(e) => Err(clone_error(e)),
    }
}

/// protojson's JSON tokenizer.
#[derive(Debug)]
pub struct Decoder<'a> {
    orig: &'a [u8],
    at: usize,
    last_peek: bool,
    last: Result<Token<'a>, JsonError>,
    last_kind: Option<Kind>,
    open: Vec<Kind>,
    /// Refuse the one number spelling protojson reads and `encoding/json`
    /// does not: an exponent without digits (`1e`, `1e+`).
    strict_numbers: bool,
}

impl<'a> Decoder<'a> {
    /// The position is within the input.
    pub closed spec fn wf(&self) -> bool {
        self.at <= self.orig@.len()
    }

    /// The input.
    pub closed spec fn input(&self) -> Seq<u8> {
        self.orig@
    }

    /// Whether exponents without digits are refused.
    pub closed spec fn strict(&self) -> bool {
        self.strict_numbers
    }

    /// Where the tokenizer stands.
    pub closed spec fn state(&self) -> StateV {
        StateV { at: self.at as int, last_kind: self.last_kind, open: self.open@ }
    }

    /// Whether a token has been read ahead.
    pub closed spec fn peeked(&self) -> bool {
        self.last_peek
    }

    /// The token (or error) read ahead.
    pub closed spec fn pending(&self) -> Result<TokenV, ErrV> {
        result_v(&self.last)
    }

    /// A tokenizer at the start of `input`.
    pub fn new(input: &'a [u8]) -> (d: Decoder<'a>)
        ensures
            d.wf(),
            d.input() == input@,
            !d.strict(),
            !d.peeked(),
            d.state() == (StateV { at: 0, last_kind: None, open: Seq::empty() }),
    {
        Decoder {
            orig: input,
            at: 0,
            last_peek: false,
            last: Ok(token_at(input, Kind::Eof, 0, 0)),
            last_kind: None,
            open: Vec::new(),
            strict_numbers: false,
        }
    }

    /// A tokenizer for a request body that `encoding/json` has not checked.
    pub fn new_strict(input: &'a [u8]) -> (d: Decoder<'a>)
        ensures
            d.wf(),
            d.input() == input@,
            d.strict(),
            !d.peeked(),
            d.state() == (StateV { at: 0, last_kind: None, open: Seq::empty() }),
    {
        Decoder {
            orig: input,
            at: 0,
            last_peek: false,
            last: Ok(token_at(input, Kind::Eof, 0, 0)),
            last_kind: None,
            open: Vec::new(),
            strict_numbers: true,
        }
    }

    fn is_value_next(&self) -> (r: bool)
        ensures
            r == value_next(self.open@, self.last_kind),
    {
        let n = self.open.len();
        if n == 0 {
            return self.last_kind.is_none();
        }
        if self.open[n - 1] == Kind::ObjectOpen {
            return matches!(self.last_kind, Some(Kind::Name));
        }
        matches!(self.last_kind, Some(Kind::ArrayOpen)) || matches!(self.last_kind, Some(Kind::Comma))
    }

    fn unexpected(t: &Token) -> (e: JsonError)
        ensures
            err_v(&e) == unexpected_token(token_v(t)),
    {
        let mut what = copy_bytes("unexpected token ".as_bytes());
        push_all(&mut what, t.raw_str().as_slice());
        syntax(t.pos, what.as_slice())
    }

    fn read_inner(&mut self) -> (r: Result<Token<'a>, JsonError>)
        requires
            old(self).wf(),
        ensures
            final(self).wf(),
            final(self).input() == old(self).input(),
            final(self).strict() == old(self).strict(),
            final(self).peeked() == old(self).peeked(),
            final(self).pending() == old(self).pending(),
            (result_v(&r), final(self).state()) == read_step(old(self).input(), old(self).strict(), old(self).state()),
    {
        loop
            invariant
                self.orig == old(self).orig,
                self.strict_numbers == old(self).strict_numbers,
                self.last_peek == old(self).last_peek,
                result_v(&self.last) == result_v(&old(self).last),
                self.at <= self.orig@.len(),
                read_step(old(self).orig@, old(self).strict_numbers, old(self).state()) == read_step(
                    self.orig@,
                    self.strict_numbers,
                    self.state(),
                ),
            decreases self.orig@.len() - self.at,
        {
            let a0 = skip_space(self.orig, self.at);
            proof {
                lemma_skip_ws(self.orig@, self.at as int);
            }
            self.at = a0;
            let mut t = match next_token_at(self.orig, a0, self.strict_numbers) {
                Ok(t) => t,
                Err(e) => {
                    return Err(e);
                },
            };
            proof {
                lemma_next_token(self.orig@, a0 as int, self.strict_numbers);
            }
            let total = self.orig.len();
            let a1 = skip_space(self.orig, a0 + t.raw.len());
            self.at = a1;
            if t.kind == Kind::Eof {
                if self.open.len() > 0 {
                    return Err(eof_error());
                }
            } else if t.kind == Kind::Null || t.kind == Kind::Bool || t.kind == Kind::Number {
                if !self.is_value_next() {
                    return Err(Self::unexpected(&t));
                }
            } else if t.kind == Kind::String {
                if !self.is_value_next() {
                    if !(matches!(self.last_kind, Some(Kind::ObjectOpen)) || matches!(self.last_kind, Some(Kind::Comma))) {
                        return Err(Self::unexpected(&t));
                    }
                    if a1 >= self.orig.len() {
                        return Err(eof_error());
                    }
                    let c = self.orig[a1];
                    if c != 58 {
                        let mut what = copy_bytes("unexpected character ".as_bytes());
                        push_rune(&mut what, c as u32);
                        push_all(&mut what, ", missing \":\" after field name".as_bytes());
                        return Err(syntax(a1, what.as_slice()));
                    }
                    t.kind = Kind::Name;
                    self.at = skip_space(self.orig, a1 + 1);
                }
            } else if t.kind == Kind::ObjectOpen || t.kind == Kind::ArrayOpen {
                if !self.is_value_next() {
                    return Err(Self::unexpected(&t));
                }
                self.open.push(t.kind);
            } else if t.kind == Kind::ObjectClose {
                let n = self.open.len();
                if n == 0 || self.open[n - 1] != Kind::ObjectOpen || matches!(self.last_kind, Some(Kind::Name))
                    || matches!(self.last_kind, Some(Kind::Comma)) {
                    return Err(Self::unexpected(&t));
                }
                self.open.pop();
            } else if t.kind == Kind::ArrayClose {
                let n = self.open.len();
                if n == 0 || self.open[n - 1] != Kind::ArrayOpen || matches!(self.last_kind, Some(Kind::Comma)) {
                    return Err(Self::unexpected(&t));
                }
                self.open.pop();
            } else if t.kind == Kind::Comma {
                let after = match self.last_kind {
                    Some(k) => k.is_scalar() || k == Kind::ObjectClose || k == Kind::ArrayClose,
                    None => false,
                };
                if self.open.len() == 0 || !after {
                    return Err(Self::unexpected(&t));
                }
            } else {
                return Err(Self::unexpected(&t));
            }
            self.last_kind = Some(t.kind);
            if t.kind != Kind::Comma {
                return Ok(t);
            }
        }
    }

    /// The next token, without moving past it.
    pub fn peek(&mut self) -> (r: Result<Token<'a>, JsonError>)
        requires
            old(self).wf(),
        ensures
            final(self).wf(),
            final(self).input() == old(self).input(),
            final(self).strict() == old(self).strict(),
            final(self).peeked(),
            old(self).peeked() ==> final(self).state() == old(self).state() && final(self).pending() == old(
                self,
            ).pending(),
            !old(self).peeked() ==> (final(self).pending(), final(self).state()) == read_step(
                old(self).input(),
                old(self).strict(),
                old(self).state(),
            ),
            result_v(&r) == final(self).pending(),
    {
        if !self.last_peek {
            self.last = self.read_inner();
        }
        self.last_peek = true;
        clone_result(&self.last)
    }

    /// The kind of the next token, without moving past it.
    pub fn peek_kind(&mut self) -> (r: Result<Kind, JsonError>)
        requires
            old(self).wf(),
        ensures
            final(self).wf(),
            final(self).input() == old(self).input(),
            final(self).strict() == old(self).strict(),
            final(self).peeked(),
            old(self).peeked() ==> final(self).state() == old(self).state() && final(self).pending() == old(
                self,
            ).pending(),
            !old(self).peeked() ==> (final(self).pending(), final(self).state()) == read_step(
                old(self).input(),
                old(self).strict(),
                old(self).state(),
            ),
            match r {
                Ok(k) => final(self).pending() matches Ok(t) && t.kind == k,
                Err(e) => final(self).pending() == Err::<TokenV, ErrV>(err_v(&e)),
            },
    {
        if !self.last_peek {
            self.last = self.read_inner();
        }
        self.last_peek = true;
        match &self.last {
            Ok(t) => Ok(t.kind),
            Err(e) => Err(clone_error(e)),
        }
    }

    /// The next token.
    pub fn read(&mut self) -> (r: Result<Token<'a>, JsonError>)
        requires
            old(self).wf(),
        ensures
            final(self).wf(),
            final(self).input() == old(self).input(),
            final(self).strict() == old(self).strict(),
            !final(self).peeked(),
            old(self).peeked() ==> result_v(&r) == old(self).pending() && final(self).state() == old(self).state(),
            !old(self).peeked() ==> (result_v(&r), final(self).state()) == read_step(
                old(self).input(),
                old(self).strict(),
                old(self).state(),
            ),
    {
        if self.last_peek {
            self.last_peek = false;
            let mut out = Ok(token_at(self.orig, Kind::Eof, 0, 0));
            std::mem::swap(&mut out, &mut self.last);
            return out;
        }
        self.read_inner()
    }
}

} // verus!
