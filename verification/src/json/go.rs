//! The pieces of Go's standard library the JSON codec relies on: `strconv`
//! integer parsing, `encoding/base64` both ways, `time` for RFC 3339, and
//! protojson's string escaping.
use vstd::prelude::*;
use crate::bytes::push_all;
use crate::request::form::{encode_rune, push_rune};
use crate::request::strconv::{b64_value, is_newline, packed, skip_newlines, spec_parse_int, spec_parse_uint, Alphabet};
use crate::request::strconv::{decode_rune, hex_char, lemma_decode_width, spec_decode_rune};

verus! {

/// `strconv.ParseUint`. `base` is 0 (prefixes and underscores allowed) or 10.
pub fn parse_uint(s: &[u8], base: u32, bits: u32) -> (r: Option<u64>)
    requires
        base == 0 || base == 10,
        1 <= bits <= 64,
    ensures
        match r {
            Some(v) => spec_parse_uint(s@, base == 0, bits as nat) == Ok::<int, crate::request::strconv::NumErrorKind>(v as int),
            None => spec_parse_uint(s@, base == 0, bits as nat) is Err,
        },
{
    match crate::request::strconv::parse_uint(s, base == 0, bits) {
        Ok(v) => Some(v),
        Err(_) => None,
    }
}

/// `strconv.ParseInt`. `base` is 0 or 10.
pub fn parse_int(s: &[u8], base: u32, bits: u32) -> (r: Option<i64>)
    requires
        base == 0 || base == 10,
        1 <= bits <= 64,
    ensures
        match r {
            Some(v) => spec_parse_int(s@, base == 0, bits as nat) == Ok::<int, crate::request::strconv::NumErrorKind>(v as int),
            None => spec_parse_int(s@, base == 0, bits as nat) is Err,
        },
{
    match crate::request::strconv::parse_int(s, base == 0, bits) {
        Ok(v) => Some(v),
        Err(_) => None,
    }
}

/// `strconv.ParseBool`.
pub fn parse_bool(s: &[u8]) -> (r: Option<bool>)
    ensures
        r == crate::request::strconv::spec_parse_bool(s@),
{
    match crate::request::strconv::parse_bool(s) {
        Ok(b) => Some(b),
        Err(_) => None,
    }
}

/// protojson's string encoding: only `"`, `\` and control characters are
/// escaped.
pub fn append_protojson_string(out: &mut Vec<u8>, s: &str)
    ensures
        final(out)@ == old(out)@ + crate::error::spec_json_string(vstd::string::StringSliceAdditionalSpecFns::spec_bytes(s)),
{
    crate::error::json_string(s.as_bytes(), out)
}

/// The standard alphabet's character for a six-bit value.
pub open spec fn std_char(v: int) -> u8 {
    if v < 26 {
        (65 + v) as u8
    } else if v < 52 {
        (71 + v) as u8
    } else if v < 62 {
        (v - 4) as u8
    } else if v == 62 {
        43
    } else {
        47
    }
}

/// The four characters one group of up to three bytes encodes to.
pub open spec fn encode_group(c: Seq<u8>) -> Seq<u8> {
    let b0: int = c[0] as int;
    let b1: int = if c.len() > 1 { c[1] as int } else { 0 };
    let b2: int = if c.len() > 2 { c[2] as int } else { 0 };
    let n = b0 * 65536 + b1 * 256 + b2;
    seq![
        std_char(n / 262144),
        std_char(n / 4096 % 64),
        if c.len() > 1 { std_char(n / 64 % 64) } else { 61u8 },
        if c.len() > 2 { std_char(n % 64) } else { 61u8 },
    ]
}

/// `base64.StdEncoding.EncodeToString`.
pub open spec fn spec_encode_std(d: Seq<u8>) -> Seq<u8>
    decreases d.len(),
{
    if d.len() == 0 {
        Seq::empty()
    } else {
        let n: int = if d.len() < 3 { d.len() as int } else { 3 };
        encode_group(d.subrange(0, n)) + spec_encode_std(d.subrange(n, d.len() as int))
    }
}

fn std_char_exec(v: u32) -> (c: u8)
    requires
        v < 64,
    ensures
        c == std_char(v as int),
{
    if v < 26 {
        (65 + v) as u8
    } else if v < 52 {
        (71 + v) as u8
    } else if v < 62 {
        (v - 4) as u8
    } else if v == 62 {
        43
    } else {
        47
    }
}

/// `base64.StdEncoding.EncodeToString`, appended.
pub fn append_base64(out: &mut Vec<u8>, data: &[u8])
    ensures
        final(out)@ == old(out)@ + spec_encode_std(data@),
{
    let ghost o = out@;
    let mut i: usize = 0;
    assert(data@.subrange(0, data@.len() as int) =~= data@);
    while i < data.len()
        invariant
            i <= data@.len(),
            out@ + spec_encode_std(data@.subrange(i as int, data@.len() as int)) == o + spec_encode_std(data@),
        decreases data@.len() - i,
    {
        let ghost rest = data@.subrange(i as int, data@.len() as int);
        let m: usize = if data.len() - i < 3 { data.len() - i } else { 3 };
        let b0 = data[i] as u32;
        let b1: u32 = if m > 1 { data[i + 1] as u32 } else { 0 };
        let b2: u32 = if m > 2 { data[i + 2] as u32 } else { 0 };
        let n = b0 * 65536 + b1 * 256 + b2;
        let ghost before = out@;
        out.push(std_char_exec(n / 262144));
        out.push(std_char_exec(n / 4096 % 64));
        out.push(if m > 1 { std_char_exec(n / 64 % 64) } else { 61 });
        out.push(if m > 2 { std_char_exec(n % 64) } else { 61 });
        assert(rest.subrange(0, m as int)[0] == data@[i as int]);
        assert(m > 1 ==> rest.subrange(0, m as int)[1] == data@[i + 1]);
        assert(m > 2 ==> rest.subrange(0, m as int)[2] == data@[i + 2]);
        assert(out@ =~= before + encode_group(rest.subrange(0, m as int)));
        assert(rest.subrange(m as int, rest.len() as int) =~= data@.subrange(i + m, data@.len() as int));
        assert(out@ + spec_encode_std(data@.subrange(i + m, data@.len() as int)) =~= before + spec_encode_std(rest));
        i = i + m;
    }
    assert(spec_encode_std(data@.subrange(i as int, data@.len() as int)) =~= Seq::<u8>::empty());
    assert(out@ =~= out@ + Seq::<u8>::empty());
}

/// Which `base64.Encoding` to decode with.
#[derive(Debug, Clone, Copy, PartialEq, Eq, Structural)]
pub struct Base64 {
    pub url: bool,
    pub padding: bool,
}

pub open spec fn alphabet_of(url: bool) -> Alphabet {
    if url {
        Alphabet::Url
    } else {
        Alphabet::Std
    }
}

/// One quantum, as `Encoding.DecodeString` reads it.
pub enum Group {
    /// Four characters: three bytes, and where the rest starts.
    Full(Seq<u8>, int),
    /// The input ended with this short or padded group.
    Last(Seq<u8>),
    /// Only newlines were left.
    End,
    Bad,
}

/// Reads the rest of a quantum of `src` from `si`, `vals` holding the values read.
pub open spec fn group_from(url: bool, padding: bool, src: Seq<u8>, si: int, vals: Seq<u8>) -> Group
    decreases src.len() - si,
{
    if vals.len() >= 4 {
        Group::Full(packed(vals, 3), si)
    } else if si < 0 || si >= src.len() {
        if vals.len() == 0 {
            Group::End
        } else if vals.len() == 1 || padding {
            Group::Bad
        } else {
            Group::Last(packed(vals, vals.len() - 1))
        }
    } else {
        let c = src[si];
        let v = b64_value(alphabet_of(url), c);
        if v >= 0 {
            group_from(url, padding, src, si + 1, vals.push(v as u8))
        } else if is_newline(c) {
            group_from(url, padding, src, si + 1, vals)
        } else if !padding || c != 61 || vals.len() < 2 {
            Group::Bad
        } else {
            let k = skip_newlines(src, si + 1);
            if vals.len() == 2 && (k >= src.len() || src[k] != 61) {
                Group::Bad
            } else {
                let after = if vals.len() == 2 { k + 1 } else { si + 1 };
                if skip_newlines(src, after) < src.len() {
                    Group::Bad
                } else {
                    Group::Last(packed(vals, vals.len() - 1))
                }
            }
        }
    }
}

/// `Encoding.DecodeString`, not strict: newlines skipped anywhere, non-zero
/// trailing bits accepted.
pub open spec fn spec_decode(url: bool, padding: bool, src: Seq<u8>) -> Option<Seq<u8>>
    decreases src.len(),
{
    if src.len() == 0 {
        Some(Seq::empty())
    } else {
        match group_from(url, padding, src, 0, Seq::empty()) {
            Group::Full(b, next) => if 0 < next <= src.len() {
                match spec_decode(url, padding, src.subrange(next, src.len() as int)) {
                    Some(rest) => Some(b + rest),
                    None => None,
                }
            } else {
                None
            },
            Group::Last(b) => Some(b),
            Group::End => Some(Seq::empty()),
            Group::Bad => None,
        }
    }
}

proof fn lemma_group_shift(url: bool, padding: bool, src: Seq<u8>, base: int, si: int, vals: Seq<u8>)
    requires
        0 <= base <= si <= src.len(),
        vals.len() <= 4,
    ensures
        group_from(url, padding, src.subrange(base, src.len() as int), si - base, vals) == match group_from(
            url,
            padding,
            src,
            si,
            vals,
        ) {
            Group::Full(b, next) => Group::Full(b, next - base),
            g => g,
        },
    decreases src.len() - si,
{
    let t = src.subrange(base, src.len() as int);
    if vals.len() < 4 && si < src.len() {
        let c = src[si];
        assert(t[si - base] == c);
        let v = b64_value(alphabet_of(url), c);
        if v >= 0 {
            lemma_group_shift(url, padding, src, base, si + 1, vals.push(v as u8));
        } else if is_newline(c) {
            lemma_group_shift(url, padding, src, base, si + 1, vals);
        } else if !(!padding || c != 61 || vals.len() < 2) {
            lemma_skip_shift(src, base, si + 1);
            crate::request::strconv::lemma_skip_newlines(src, si + 1);
            let k = skip_newlines(src, si + 1);
            if vals.len() == 2 && k < src.len() {
                assert(t[k - base] == src[k]);
                lemma_skip_shift(src, base, k + 1);
            }
        }
    }
}

proof fn lemma_skip_shift(src: Seq<u8>, base: int, i: int)
    requires
        0 <= base <= i <= src.len(),
    ensures
        skip_newlines(src.subrange(base, src.len() as int), i - base) == skip_newlines(src, i) - base,
    decreases src.len() - i,
{
    let t = src.subrange(base, src.len() as int);
    if i < src.len() {
        assert(t[i - base] == src[i]);
        if is_newline(src[i]) {
            lemma_skip_shift(src, base, i + 1);
        }
    }
}

proof fn lemma_group_full_bound(url: bool, padding: bool, src: Seq<u8>, si: int, vals: Seq<u8>)
    requires
        0 <= si <= src.len(),
        vals.len() <= 4,
    ensures
        group_from(url, padding, src, si, vals) matches Group::Full(_, next) ==> si + 4 - vals.len() <= next <= src.len(),
    decreases src.len() - si,
{
    if vals.len() < 4 && si < src.len() {
        let c = src[si];
        let v = b64_value(alphabet_of(url), c);
        if v >= 0 {
            lemma_group_full_bound(url, padding, src, si + 1, vals.push(v as u8));
        } else if is_newline(c) {
            lemma_group_full_bound(url, padding, src, si + 1, vals);
        }
    }
}

fn value_of(url: bool, c: u8) -> (r: Option<u8>)
    ensures
        match r {
            Some(v) => b64_value(alphabet_of(url), c) == v as int && v < 64,
            None => b64_value(alphabet_of(url), c) == -1,
        },
{
    if 65 <= c && c <= 90 {
        Some(c - 65)
    } else if 97 <= c && c <= 122 {
        Some(c - 71)
    } else if 48 <= c && c <= 57 {
        Some(c + 4)
    } else if (c == 43 && !url) || (c == 45 && url) {
        Some(62)
    } else if (c == 47 && !url) || (c == 95 && url) {
        Some(63)
    } else {
        None
    }
}

fn skip_nl(src: &[u8], i: usize) -> (k: usize)
    requires
        i <= src@.len(),
    ensures
        k == skip_newlines(src@, i as int),
        i <= k <= src@.len(),
{
    let mut k = i;
    while k < src.len() && (src[k] == 10 || src[k] == 13)
        invariant
            i <= k <= src@.len(),
            skip_newlines(src@, k as int) == skip_newlines(src@, i as int),
        decreases src@.len() - k,
    {
        k = k + 1;
    }
    k
}

impl Base64 {
    /// `Encoding.DecodeString`, not strict: `\r` and `\n` are skipped
    /// anywhere, and non-zero trailing bits are accepted.
    pub fn decode(self, src: &[u8]) -> (r: Option<Vec<u8>>)
        ensures
            match r {
                Some(v) => spec_decode(self.url, self.padding, src@) == Some(v@),
                None => spec_decode(self.url, self.padding, src@) is None,
            },
    {
        let url = self.url;
        let padding = self.padding;
        let mut out: Vec<u8> = Vec::new();
        let mut si: usize = 0;
        assert(src@.subrange(0, src@.len() as int) =~= src@);
        while si < src.len()
            invariant
                si <= src@.len(),
                url == self.url,
                padding == self.padding,
                spec_decode(url, padding, src@) == match spec_decode(url, padding, src@.subrange(si as int, src@.len() as int)) {
                    Some(rest) => Some(out@ + rest),
                    None => None,
                },
            decreases src@.len() - si,
        {
            let si0 = si;
            let ghost t = src@.subrange(si0 as int, src@.len() as int);
            let mut vals: Vec<u8> = Vec::new();
            proof {
                lemma_group_shift(url, padding, src@, si0 as int, si0 as int, Seq::empty());
            }
            while vals.len() < 4
                invariant
                    si0 <= si <= src@.len(),
                    si0 < src@.len(),
                    url == self.url,
                    padding == self.padding,
                    t == src@.subrange(si0 as int, src@.len() as int),
                    vals@.len() <= 4,
                    vals@.len() <= si - si0,
                    forall|j: int| 0 <= j < vals@.len() ==> #[trigger] vals@[j] < 64,
                    group_from(url, padding, t, 0, Seq::empty()) == match group_from(url, padding, src@, si as int, vals@) {
                        Group::Full(b, next) => Group::Full(b, next - si0),
                        g => g,
                    },
                    spec_decode(url, padding, src@) == match spec_decode(url, padding, t) {
                        Some(rest) => Some(out@ + rest),
                        None => None,
                    },
                decreases src@.len() - si, 4 - vals@.len(),
            {
                if si == src.len() {
                    if vals.len() == 0 {
                        return Some(out);
                    }
                    if vals.len() == 1 || padding {
                        return None;
                    }
                    let n = vals.len() - 1;
                    crate::request::strconv::push_packed(&mut out, &vals, n);
                    return Some(out);
                }
                let c = src[si];
                match value_of(url, c) {
                    Some(v) => {
                        vals.push(v);
                        si = si + 1;
                        continue;
                    },
                    None => {},
                }
                if c == 10 || c == 13 {
                    si = si + 1;
                    continue;
                }
                if !padding || c != 61 || vals.len() < 2 {
                    return None;
                }
                let mut after: usize = si + 1;
                if vals.len() == 2 {
                    let k = skip_nl(src, si + 1);
                    if k == src.len() || src[k] != 61 {
                        return None;
                    }
                    after = k + 1;
                }
                let e = skip_nl(src, after);
                if e < src.len() {
                    return None;
                }
                let n = vals.len() - 1;
                crate::request::strconv::push_packed(&mut out, &vals, n);
                return Some(out);
            }
            let ghost o = out@;
            crate::request::strconv::push_packed(&mut out, &vals, 3);
            proof {
                let b = packed(vals@, 3);
                assert(group_from(url, padding, src@, si as int, vals@) == Group::Full(b, si as int));
                assert(t.subrange(si - si0, t.len() as int) =~= src@.subrange(si as int, src@.len() as int));
                match spec_decode(url, padding, src@.subrange(si as int, src@.len() as int)) {
                    Some(rest) => {
                        assert(o + (b + rest) =~= (o + b) + rest);
                    },
                    None => {},
                }
            }
        }
        proof {
            assert(out@ + Seq::<u8>::empty() =~= out@);
        }
        Some(out)
    }
}

/// The four sextets of three bytes pack back into them.
proof fn lemma_group_roundtrip(b0: u32, b1: u32, b2: u32)
    requires
        b0 < 256,
        b1 < 256,
        b2 < 256,
    ensures
        ({
            let n = b0 * 65536 + b1 * 256 + b2;
            let s0 = n / 262144;
            let s1 = n / 4096 % 64;
            let s2 = n / 64 % 64;
            let s3 = n % 64;
            &&& s0 < 64
            &&& s0 * 4 + s1 / 16 == b0
            &&& (s1 % 16) * 16 + s2 / 4 == b1
            &&& (s2 % 4) * 64 + s3 == b2
        }),
{
    assert({
        let n = b0 * 65536 + b1 * 256 + b2;
        let s0 = n / 262144;
        let s1 = n / 4096 % 64;
        let s2 = n / 64 % 64;
        let s3 = n % 64;
        &&& s0 < 64
        &&& s0 * 4 + s1 / 16 == b0
        &&& (s1 % 16) * 16 + s2 / 4 == b1
        &&& (s2 % 4) * 64 + s3 == b2
    }) by (bit_vector)
        requires
            b0 < 256,
            b1 < 256,
            b2 < 256,
    ;
}

proof fn lemma_std_char_value(v: int)
    requires
        0 <= v < 64,
    ensures
        b64_value(Alphabet::Std, std_char(v)) == v,
        !is_newline(std_char(v)),
        std_char(v) != 61,
{
}

/// Four alphabet characters read as one full group.
proof fn lemma_read_full(e: Seq<u8>, s0: int, s1: int, s2: int, s3: int)
    requires
        e.len() >= 4,
        0 <= s0 < 64 && 0 <= s1 < 64 && 0 <= s2 < 64 && 0 <= s3 < 64,
        e[0] == std_char(s0) && e[1] == std_char(s1) && e[2] == std_char(s2) && e[3] == std_char(s3),
    ensures
        group_from(false, true, e, 0, Seq::empty()) == Group::Full(
            packed(seq![s0 as u8, s1 as u8, s2 as u8, s3 as u8], 3),
            4,
        ),
{
    lemma_std_char_value(s0);
    lemma_std_char_value(s1);
    lemma_std_char_value(s2);
    lemma_std_char_value(s3);
    let v = seq![s0 as u8, s1 as u8, s2 as u8, s3 as u8];
    assert(seq![s0 as u8].push(s1 as u8) =~= seq![s0 as u8, s1 as u8]);
    assert(seq![s0 as u8, s1 as u8].push(s2 as u8) =~= seq![s0 as u8, s1 as u8, s2 as u8]);
    assert(seq![s0 as u8, s1 as u8, s2 as u8].push(s3 as u8) =~= v);
    assert(Seq::<u8>::empty().push(s0 as u8) =~= seq![s0 as u8]);
    assert(alphabet_of(false) == Alphabet::Std);
    assert(group_from(false, true, e, 4, v) == Group::Full(packed(v, 3), 4));
    assert(group_from(false, true, e, 3, seq![s0 as u8, s1 as u8, s2 as u8]) == group_from(false, true, e, 4, v));
    assert(group_from(false, true, e, 2, seq![s0 as u8, s1 as u8]) == group_from(
        false,
        true,
        e,
        3,
        seq![s0 as u8, s1 as u8, s2 as u8],
    ));
    assert(group_from(false, true, e, 1, seq![s0 as u8]) == group_from(false, true, e, 2, seq![s0 as u8, s1 as u8]));
    assert(group_from(false, true, e, 0, Seq::empty()) == group_from(false, true, e, 1, seq![s0 as u8]));
}

/// Three alphabet characters and `=` read as the last group.
proof fn lemma_read_two(e: Seq<u8>, s0: int, s1: int, s2: int)
    requires
        e.len() == 4,
        0 <= s0 < 64 && 0 <= s1 < 64 && 0 <= s2 < 64,
        e[0] == std_char(s0) && e[1] == std_char(s1) && e[2] == std_char(s2) && e[3] == 61,
    ensures
        group_from(false, true, e, 0, Seq::empty()) == Group::Last(packed(seq![s0 as u8, s1 as u8, s2 as u8], 2)),
{
    lemma_std_char_value(s0);
    lemma_std_char_value(s1);
    lemma_std_char_value(s2);
    let v = seq![s0 as u8, s1 as u8, s2 as u8];
    assert(Seq::<u8>::empty().push(s0 as u8) =~= seq![s0 as u8]);
    assert(seq![s0 as u8].push(s1 as u8) =~= seq![s0 as u8, s1 as u8]);
    assert(seq![s0 as u8, s1 as u8].push(s2 as u8) =~= v);
    assert(skip_newlines(e, 4) == 4);
    assert(alphabet_of(false) == Alphabet::Std);
    assert(b64_value(alphabet_of(false), e[3]) < 0);
    assert(group_from(false, true, e, 3, v) == Group::Last(packed(v, 2)));
    assert(group_from(false, true, e, 2, seq![s0 as u8, s1 as u8]) == group_from(false, true, e, 3, v));
    assert(group_from(false, true, e, 1, seq![s0 as u8]) == group_from(false, true, e, 2, seq![s0 as u8, s1 as u8]));
    assert(group_from(false, true, e, 0, Seq::empty()) == group_from(false, true, e, 1, seq![s0 as u8]));
}

/// Two alphabet characters and `==` read as the last group.
proof fn lemma_read_one(e: Seq<u8>, s0: int, s1: int)
    requires
        e.len() == 4,
        0 <= s0 < 64 && 0 <= s1 < 64,
        e[0] == std_char(s0) && e[1] == std_char(s1) && e[2] == 61 && e[3] == 61,
    ensures
        group_from(false, true, e, 0, Seq::empty()) == Group::Last(packed(seq![s0 as u8, s1 as u8], 1)),
{
    lemma_std_char_value(s0);
    lemma_std_char_value(s1);
    let v = seq![s0 as u8, s1 as u8];
    assert(Seq::<u8>::empty().push(s0 as u8) =~= seq![s0 as u8]);
    assert(seq![s0 as u8].push(s1 as u8) =~= v);
    assert(skip_newlines(e, 3) == 3);
    assert(skip_newlines(e, 4) == 4);
    assert(alphabet_of(false) == Alphabet::Std);
    assert(b64_value(alphabet_of(false), e[2]) < 0);
    assert(group_from(false, true, e, 2, v) == Group::Last(packed(v, 1)));
    assert(group_from(false, true, e, 1, seq![s0 as u8]) == group_from(false, true, e, 2, v));
    assert(group_from(false, true, e, 0, Seq::empty()) == group_from(false, true, e, 1, seq![s0 as u8]));
}

/// What `Encoding.DecodeString` gives back of what `EncodeToString` wrote:
/// the bytes, for every input.
pub proof fn lemma_base64_roundtrip(data: Seq<u8>)
    ensures
        spec_decode(false, true, spec_encode_std(data)) == Some(data),
    decreases data.len(),
{
    if data.len() > 0 {
        let n: int = if data.len() < 3 { data.len() as int } else { 3 };
        let c = data.subrange(0, n);
        let rest = data.subrange(n, data.len() as int);
        let g = encode_group(c);
        let e = g + spec_encode_std(rest);
        assert(spec_encode_std(data) == e);
        let b0 = c[0] as u32;
        let b1: u32 = if c.len() > 1 { c[1] as u32 } else { 0 };
        let b2: u32 = if c.len() > 2 { c[2] as u32 } else { 0 };
        lemma_group_roundtrip(b0, b1, b2);
        let nn = b0 * 65536 + b1 * 256 + b2;
        let s0 = (nn / 262144) as int;
        let s1 = (nn / 4096 % 64) as int;
        let s2 = (nn / 64 % 64) as int;
        let s3 = (nn % 64) as int;
        lemma_base64_roundtrip(rest);
        if n == 3 {
            lemma_read_full(e, s0, s1, s2, s3);
            assert(packed(seq![s0 as u8, s1 as u8, s2 as u8, s3 as u8], 3) =~= c);
            assert(e.subrange(4, e.len() as int) =~= spec_encode_std(rest));
            assert(c + rest =~= data);
        } else {
            assert(spec_encode_std(rest) =~= Seq::<u8>::empty());
            assert(e =~= g);
            if n == 2 {
                lemma_read_two(e, s0, s1, s2);
                assert(packed(seq![s0 as u8, s1 as u8, s2 as u8], 2) =~= data);
            } else {
                lemma_read_one(e, s0, s1);
                assert(packed(seq![s0 as u8, s1 as u8], 1) =~= data);
            }
        }
    }
}

/// `time.Parse(time.RFC3339Nano, s)`, as Unix seconds and nanoseconds. Go's
/// fast path accepts a subset of what the layout parser does, with the same
/// result, so the layout parser decides.
pub fn parse_rfc3339(s: &[u8]) -> (r: Option<(i64, i32)>)
    ensures
        match crate::request::gotime::spec_parse_rfc3339_nano(s@) {
            Ok((secs, nanos)) => r matches Some((a, b)) && a as int == secs && b as int == nanos,
            Err(_) => r is None,
        },
{
    match crate::request::gotime::parse_rfc3339_nano(s) {
        Ok(t) => Some((t.seconds, t.nanos)),
        Err(_) => None,
    }
}


/// Go's conversion of bytes to text rune by rune: each byte that does not
/// start a valid sequence becomes U+FFFD.
pub open spec fn go_lossy(s: Seq<u8>) -> Seq<u8>
    decreases s.len(),
{
    if s.len() == 0 {
        Seq::empty()
    } else {
        let (r, w) = spec_decode_rune(s);
        proof {
            lemma_decode_width(s);
        }
        (if r < 0 { encode_rune(0xfffd) } else { s.subrange(0, w) }) + go_lossy(s.subrange(w, s.len() as int))
    }
}

/// Appends `s`, every invalid byte replaced by U+FFFD, one per byte.
pub fn push_lossy(out: &mut Vec<u8>, s: &[u8])
    ensures
        final(out)@ == old(out)@ + go_lossy(s@),
{
    let ghost o = out@;
    let mut i: usize = 0;
    assert(s@.subrange(0, s@.len() as int) =~= s@);
    assert(o + go_lossy(s@) =~= out@ + go_lossy(s@.subrange(0, s@.len() as int)));
    while i < s.len()
        invariant
            i <= s@.len(),
            o + go_lossy(s@) == out@ + go_lossy(s@.subrange(i as int, s@.len() as int)),
        decreases s@.len() - i,
    {
        let rest = vstd::slice::slice_subrange(s, i, s.len());
        let ghost before = out@;
        let (r, w) = decode_rune(rest);
        match r {
            Some(_) => push_all(out, vstd::slice::slice_subrange(rest, 0, w)),
            None => push_rune(out, 0xfffd),
        }
        proof {
            let tail = go_lossy(rest@.subrange(w as int, rest@.len() as int));
            assert(rest@.subrange(w as int, rest@.len() as int) =~= s@.subrange(i + w, s@.len() as int));
            let head = out@.subrange(before.len() as int, out@.len() as int);
            assert(out@ =~= before + head);
            assert(before + (head + tail) =~= out@ + tail);
        }
        i = i + w;
    }
    assert(out@ + go_lossy(Seq::<u8>::empty()) =~= out@);
}

/// `\u00` and the byte's two hex digits.
pub open spec fn u00(b: int) -> Seq<u8> {
    seq![92u8, 117u8, 48u8, 48u8, hex_char(b / 16), hex_char(b % 16)]
}

/// How `encoding/json` (HTML escaping on) writes one rune `r` spelled `raw`.
pub open spec fn encoding_json_rune(r: int, raw: Seq<u8>) -> Seq<u8> {
    if r == 34 {
        seq![92u8, 34u8]
    } else if r == 92 {
        seq![92u8, 92u8]
    } else if r == 8 {
        seq![92u8, 98u8]
    } else if r == 12 {
        seq![92u8, 102u8]
    } else if r == 10 {
        seq![92u8, 110u8]
    } else if r == 13 {
        seq![92u8, 114u8]
    } else if r == 9 {
        seq![92u8, 116u8]
    } else if r == 60 || r == 62 || r == 38 || (0 <= r < 0x20) {
        u00(r)
    } else if r == 0x2028 {
        seq![92u8, 117u8, 50u8, 48u8, 50u8, 56u8]
    } else if r == 0x2029 {
        seq![92u8, 117u8, 50u8, 48u8, 50u8, 57u8]
    } else if r < 0 {
        encode_rune(0xfffd)
    } else {
        raw
    }
}

/// `encoding/json`'s escaping of a string's bytes, rune by rune.
pub open spec fn encoding_json_body(s: Seq<u8>) -> Seq<u8>
    decreases s.len(),
{
    if s.len() == 0 {
        Seq::empty()
    } else {
        let (r, w) = spec_decode_rune(s);
        proof {
            lemma_decode_width(s);
        }
        encoding_json_rune(r, s.subrange(0, w)) + encoding_json_body(s.subrange(w, s.len() as int))
    }
}

fn push_encoding_json_rune(out: &mut Vec<u8>, r: Option<u32>, raw: &[u8])
    requires
        r matches Some(x) ==> x < 0x110000,
    ensures
        final(out)@ == old(out)@ + encoding_json_rune(
            match r {
                Some(x) => x as int,
                None => -1,
            },
            raw@,
        ),
{
    let ghost o = out@;
    let c: u32 = match r {
        Some(x) => x,
        None => {
            push_rune(out, 0xfffd);
            return;
        },
    };
    let short: u8 = if c == 34 {
        34
    } else if c == 92 {
        92
    } else if c == 8 {
        98
    } else if c == 12 {
        102
    } else if c == 10 {
        110
    } else if c == 13 {
        114
    } else if c == 9 {
        116
    } else {
        0
    };
    if short != 0 {
        out.push(92);
        out.push(short);
        assert(out@ =~= o + encoding_json_rune(c as int, raw@));
        return;
    }
    if c == 60 || c == 62 || c == 38 || c < 0x20 {
        out.push(92);
        out.push(117);
        out.push(48);
        out.push(48);
        out.push(if c / 16 < 10 { (48 + c / 16) as u8 } else { (87 + c / 16) as u8 });
        out.push(if c % 16 < 10 { (48 + c % 16) as u8 } else { (87 + c % 16) as u8 });
        assert(out@ =~= o + encoding_json_rune(c as int, raw@));
        return;
    }
    if c == 0x2028 || c == 0x2029 {
        out.push(92);
        out.push(117);
        out.push(50);
        out.push(48);
        out.push(50);
        out.push(if c == 0x2028 { 56 } else { 57 });
        assert(out@ =~= o + encoding_json_rune(c as int, raw@));
        return;
    }
    push_all(out, raw);
}

/// `encoding/json`'s string encoding with HTML escaping on (what
/// `json.Marshal` does): `"`, `\` and control characters, and also `<`,
/// `>`, `&`, U+2028 and U+2029.
pub fn append_encoding_json_string(out: &mut Vec<u8>, s: &str)
    ensures
        final(out)@ == old(out)@ + seq![34u8] + encoding_json_body(
            vstd::string::StringSliceAdditionalSpecFns::spec_bytes(s),
        ) + seq![34u8],
{
    let b = s.as_bytes();
    let ghost o = out@;
    out.push(34);
    let mut i: usize = 0;
    assert(b@.subrange(0, b@.len() as int) =~= b@);
    assert(o + seq![34u8] + encoding_json_body(b@) =~= out@ + encoding_json_body(b@.subrange(0, b@.len() as int)));
    while i < b.len()
        invariant
            i <= b@.len(),
            o + seq![34u8] + encoding_json_body(b@) == out@ + encoding_json_body(b@.subrange(i as int, b@.len() as int)),
        decreases b@.len() - i,
    {
        let rest = vstd::slice::slice_subrange(b, i, b.len());
        let ghost before = out@;
        let (r, w) = decode_rune(rest);
        push_encoding_json_rune(out, r, vstd::slice::slice_subrange(rest, 0, w));
        proof {
            let tail = encoding_json_body(rest@.subrange(w as int, rest@.len() as int));
            assert(rest@.subrange(w as int, rest@.len() as int) =~= b@.subrange(i + w, b@.len() as int));
            let head = out@.subrange(before.len() as int, out@.len() as int);
            assert(out@ =~= before + head);
            assert(before + (head + tail) =~= out@ + tail);
        }
        i = i + w;
    }
    let ghost last = out@;
    out.push(34);
    assert(last + encoding_json_body(Seq::<u8>::empty()) =~= last);
    assert(o + seq![34u8] + encoding_json_body(b@) + seq![34u8] =~= out@);
}


/// What `encoding/json` does to a `json.RawMessage` it writes from `i` on:
/// `<`, `>`, `&`, U+2028 and U+2029 are escaped, every other byte is kept.
pub open spec fn escaped_raw_from(raw: Seq<u8>, i: int) -> Seq<u8>
    decreases raw.len() - i,
{
    if i < 0 || i >= raw.len() {
        Seq::empty()
    } else {
        let c = raw[i];
        if c == 60 || c == 62 || c == 38 {
            u00(c as int) + escaped_raw_from(raw, i + 1)
        } else if c == 0xe2 && i + 2 < raw.len() && raw[i + 1] == 0x80 && (raw[i + 2] == 0xa8 || raw[i + 2] == 0xa9) {
            seq![92u8, 117u8, 50u8, 48u8, 50u8, if raw[i + 2] == 0xa8 { 56u8 } else { 57u8 }] + escaped_raw_from(
                raw,
                i + 3,
            )
        } else {
            seq![c] + escaped_raw_from(raw, i + 1)
        }
    }
}

/// Appends a raw JSON value as `encoding/json` re-emits it.
pub fn append_escaped_raw(out: &mut Vec<u8>, raw: &[u8])
    ensures
        final(out)@ == old(out)@ + escaped_raw_from(raw@, 0),
{
    let ghost o = out@;
    let n = raw.len();
    let mut i: usize = 0;
    assert(o + escaped_raw_from(raw@, 0) =~= out@ + escaped_raw_from(raw@, 0));
    while i < n
        invariant
            n == raw@.len(),
            i <= n,
            o + escaped_raw_from(raw@, 0) == out@ + escaped_raw_from(raw@, i as int),
        decreases n - i,
    {
        let ghost before = out@;
        let c = raw[i];
        if c == 60 || c == 62 || c == 38 {
            out.push(92);
            out.push(117);
            out.push(48);
            out.push(48);
            out.push(if c / 16 < 10 { (48 + c / 16) as u8 } else { (87 + c / 16) as u8 });
            out.push(if c % 16 < 10 { (48 + c % 16) as u8 } else { (87 + c % 16) as u8 });
            assert(before + (u00(c as int) + escaped_raw_from(raw@, i + 1)) =~= out@ + escaped_raw_from(raw@, i + 1));
            i = i + 1;
        } else if c == 0xe2 && n - i > 2 && raw[i + 1] == 0x80 && (raw[i + 2] == 0xa8 || raw[i + 2] == 0xa9) {
            let last: u8 = if raw[i + 2] == 0xa8 { 56 } else { 57 };
            out.push(92);
            out.push(117);
            out.push(50);
            out.push(48);
            out.push(50);
            out.push(last);
            assert(before + (seq![92u8, 117u8, 50u8, 48u8, 50u8, last] + escaped_raw_from(raw@, i + 3)) =~= out@
                + escaped_raw_from(raw@, i + 3));
            i = i + 3;
        } else {
            out.push(c);
            assert(before + (seq![c] + escaped_raw_from(raw@, i + 1)) =~= out@ + escaped_raw_from(raw@, i + 1));
            i = i + 1;
        }
    }
    assert(out@ + escaped_raw_from(raw@, n as int) =~= out@);
}

} // verus!
