//! Error texts as grpc-gateway writes them: the printability table its quoting
//! relies on, and the statuses it answers with.
use vstd::prelude::*;
use vstd::string::StringSliceAdditionalSpecFns;
use crate::bytes::{ascii_alnum, ascii_to_lower, ascii_to_upper, is_alnum, push_all, spec_signed_decimal, to_lower, to_upper};
use crate::request::strconv::{quote, spec_quote};
use crate::path::router::RouteOutcome;

verus! {

/// Runes in U+0080..U+07FF that `strconv.IsPrint` rejects, as inclusive ranges.
pub open spec fn not_printable_ranges() -> Seq<(u32, u32)> {
    seq![
        (0x80u32, 0xa0u32),
        (0xad, 0xad),
        (0x378, 0x379),
        (0x380, 0x383),
        (0x38b, 0x38b),
        (0x38d, 0x38d),
        (0x3a2, 0x3a2),
        (0x530, 0x530),
        (0x557, 0x558),
        (0x58b, 0x58c),
        (0x590, 0x590),
        (0x5c8, 0x5cf),
        (0x5eb, 0x5ee),
        (0x5f5, 0x605),
        (0x61c, 0x61c),
        (0x6dd, 0x6dd),
        (0x70e, 0x70f),
        (0x74b, 0x74c),
        (0x7b2, 0x7bf),
        (0x7fb, 0x7fc),
    ]
}

/// Whether `r` lies in one of the ranges.
pub open spec fn in_ranges(t: Seq<(u32, u32)>, r: int) -> bool {
    exists|i: int| 0 <= i < t.len() && #[trigger] t[i].0 <= r && r <= t[i].1
}

/// The runes of U+0080..U+07FF that are not printable, as inclusive ranges.
pub fn not_printable_2byte() -> (r: Vec<(u32, u32)>)
    ensures
        r@ == not_printable_ranges(),
{
    let mut v: Vec<(u32, u32)> = Vec::new();
    v.push((0x80, 0xa0));
    v.push((0xad, 0xad));
    v.push((0x378, 0x379));
    v.push((0x380, 0x383));
    v.push((0x38b, 0x38b));
    v.push((0x38d, 0x38d));
    v.push((0x3a2, 0x3a2));
    v.push((0x530, 0x530));
    v.push((0x557, 0x558));
    v.push((0x58b, 0x58c));
    v.push((0x590, 0x590));
    v.push((0x5c8, 0x5cf));
    v.push((0x5eb, 0x5ee));
    v.push((0x5f5, 0x605));
    v.push((0x61c, 0x61c));
    v.push((0x6dd, 0x6dd));
    v.push((0x70e, 0x70f));
    v.push((0x74b, 0x74c));
    v.push((0x7b2, 0x7bf));
    v.push((0x7fb, 0x7fc));
    assert(v@ =~= not_printable_ranges());
    v
}


/// `strconv.Quote` of a malformed escape sequence, as the `400` text quotes it.
pub fn go_quote(s: &[u8]) -> (r: Vec<u8>)
    ensures
        r@ == spec_quote(s@),
{
    quote(s)
}

/// `strings.ToLower` as far as it can produce ASCII letters: ASCII, and
/// U+0130 and U+212A, which become `i` and `k`. Other bytes are kept.
pub open spec fn spec_go_to_lower(s: Seq<u8>) -> Seq<u8>
    decreases s.len(),
{
    if s.len() == 0 {
        Seq::empty()
    } else if s.len() >= 2 && s[0] == 0xc4 && s[1] == 0xb0 {
        seq![105u8] + spec_go_to_lower(s.subrange(2, s.len() as int))
    } else if s.len() >= 3 && s[0] == 0xe2 && s[1] == 0x84 && s[2] == 0xaa {
        seq![107u8] + spec_go_to_lower(s.subrange(3, s.len() as int))
    } else {
        seq![to_lower(s[0])] + spec_go_to_lower(s.subrange(1, s.len() as int))
    }
}

/// `strings.ToLower`, as far as it can produce ASCII letters.
pub fn go_to_lower(s: &[u8]) -> (r: Vec<u8>)
    ensures
        r@ == spec_go_to_lower(s@),
{
    let mut out: Vec<u8> = Vec::new();
    let mut i: usize = 0;
    assert(s@.subrange(0, s@.len() as int) =~= s@);
    while i < s.len()
        invariant
            i <= s@.len(),
            out@ + spec_go_to_lower(s@.subrange(i as int, s@.len() as int)) == spec_go_to_lower(s@),
        decreases s@.len() - i,
    {
        let ghost rest = s@.subrange(i as int, s@.len() as int);
        let ghost o = out@;
        if s.len() - i >= 2 && s[i] == 0xc4 && s[i + 1] == 0xb0 {
            out.push(105);
            i = i + 2;
            assert(rest.subrange(2, rest.len() as int) =~= s@.subrange(i as int, s@.len() as int));
        } else if s.len() - i >= 3 && s[i] == 0xe2 && s[i + 1] == 0x84 && s[i + 2] == 0xaa {
            out.push(107);
            i = i + 3;
            assert(rest.subrange(3, rest.len() as int) =~= s@.subrange(i as int, s@.len() as int));
        } else {
            out.push(ascii_to_lower(s[i]));
            i = i + 1;
            assert(rest.subrange(1, rest.len() as int) =~= s@.subrange(i as int, s@.len() as int));
        }
        assert(out@ + spec_go_to_lower(s@.subrange(i as int, s@.len() as int)) =~= o + spec_go_to_lower(rest));
    }
    assert(out@ + spec_go_to_lower(s@.subrange(i as int, s@.len() as int)) =~= out@);
    out
}

/// The bytes of `trailers`.
pub open spec fn trailers_word() -> Seq<u8> {
    seq![116u8, 114, 97, 105, 108, 101, 114, 115]
}

pub open spec fn contains_word(s: Seq<u8>, w: Seq<u8>) -> bool {
    exists|i: int| 0 <= i && i + w.len() <= s.len() && #[trigger] s.subrange(i, i + w.len()) == w
}

/// Whether grpc-gateway forwards trailers for a request with this `TE`
/// header value (its first one): the lower-cased value contains `trailers`.
pub fn accepts_trailers(te: Option<&[u8]>) -> (r: bool)
    ensures
        r == match te {
            Some(v) => contains_word(spec_go_to_lower(v@), trailers_word()),
            None => false,
        },
{
    let v = match te {
        Some(v) => v,
        None => return false,
    };
    let low = go_to_lower(v);
    let mut i: usize = 0;
    while i < low.len() && low.len() - i >= 8
        invariant
            low@ == spec_go_to_lower(v@),
            te == Some(v),
            forall|j: int| 0 <= j < i && j + 8 <= low@.len() ==> #[trigger] low@.subrange(j, j + 8) != trailers_word(),
        decreases low@.len() - i,
    {
        if low[i] == 116 && low[i + 1] == 114 && low[i + 2] == 97 && low[i + 3] == 105 && low[i + 4] == 108 && low[i
            + 5] == 101 && low[i + 6] == 114 && low[i + 7] == 115 {
            assert(low@.subrange(i as int, i + 8) =~= trailers_word());
            assert(trailers_word().len() == 8);
            assert(low@.subrange(i as int, i + trailers_word().len()) == trailers_word());
            return true;
        }
        assert(low@.subrange(i as int, i + 8) != trailers_word()) by {
            if low@.subrange(i as int, i + 8) == trailers_word() {
                assert(low@.subrange(i as int, i + 8)[0] == low@[i as int]);
                assert(low@.subrange(i as int, i + 8)[1] == low@[i + 1]);
                assert(low@.subrange(i as int, i + 8)[2] == low@[i + 2]);
                assert(low@.subrange(i as int, i + 8)[3] == low@[i + 3]);
                assert(low@.subrange(i as int, i + 8)[4] == low@[i + 4]);
                assert(low@.subrange(i as int, i + 8)[5] == low@[i + 5]);
                assert(low@.subrange(i as int, i + 8)[6] == low@[i + 6]);
                assert(low@.subrange(i as int, i + 8)[7] == low@[i + 7]);
            }
        }
        i = i + 1;
    }
    false
}

/// A byte `http`'s `HeaderValue` accepts.
pub open spec fn value_byte_ok(b: u8) -> bool {
    (b >= 32 && b != 127) || b == 9
}

pub open spec fn header_value_ok(s: Seq<u8>) -> bool {
    forall|i: int| 0 <= i < s.len() ==> value_byte_ok(#[trigger] s[i])
}

pub open spec fn is_ws(b: u8) -> bool {
    b == 32 || b == 9 || b == 13 || b == 10
}

pub open spec fn crlf_to_space(s: Seq<u8>) -> Seq<u8> {
    s.map_values(|b: u8| if b == 13 || b == 10 { 32u8 } else { b })
}

/// The first index from `i` whose byte is not white space, or the length.
pub open spec fn first_non_ws(s: Seq<u8>, i: int) -> int
    decreases s.len() - i,
{
    if 0 <= i < s.len() && is_ws(s[i]) {
        first_non_ws(s, i + 1)
    } else {
        i
    }
}

/// The end of `s[lo..j]` with trailing white space removed.
pub open spec fn last_non_ws_end(s: Seq<u8>, lo: int, j: int) -> int
    decreases j - lo,
{
    if lo < j && is_ws(s[j - 1]) {
        last_non_ws_end(s, lo, j - 1)
    } else {
        j
    }
}

pub open spec fn trim_ws(s: Seq<u8>) -> Seq<u8> {
    let a = first_non_ws(s, 0);
    s.subrange(a, last_non_ws_end(s, a, s.len() as int))
}

/// A header value as `net/http` writes it: CR and LF become spaces, then the
/// surrounding white space goes; a value `http` cannot hold is dropped.
pub open spec fn spec_wire_value(v: Seq<u8>) -> Option<Seq<u8>> {
    let t = trim_ws(crlf_to_space(v));
    if header_value_ok(t) {
        Some(t)
    } else {
        None
    }
}

proof fn lemma_first_non_ws(s: Seq<u8>, i: int)
    requires
        0 <= i <= s.len(),
    ensures
        i <= first_non_ws(s, i) <= s.len(),
    decreases s.len() - i,
{
    if i < s.len() && is_ws(s[i]) {
        lemma_first_non_ws(s, i + 1);
    }
}

proof fn lemma_last_non_ws_end(s: Seq<u8>, lo: int, j: int)
    requires
        0 <= lo <= j <= s.len(),
    ensures
        lo <= last_non_ws_end(s, lo, j) <= j,
    decreases j - lo,
{
    if lo < j && is_ws(s[j - 1]) {
        lemma_last_non_ws_end(s, lo, j - 1);
    }
}

/// A header value as `net/http` writes it, or `None` where `http` cannot hold it.
pub fn wire_value(value: &[u8]) -> (r: Option<Vec<u8>>)
    ensures
        match r {
            Some(v) => spec_wire_value(value@) == Some(v@),
            None => spec_wire_value(value@) is None,
        },
{
    let mut replaced: Vec<u8> = Vec::new();
    let mut i: usize = 0;
    while i < value.len()
        invariant
            i <= value@.len(),
            replaced@ == crlf_to_space(value@).subrange(0, i as int),
        decreases value@.len() - i,
    {
        let b = value[i];
        replaced.push(if b == 13 || b == 10 { 32 } else { b });
        i = i + 1;
        assert(replaced@ =~= crlf_to_space(value@).subrange(0, i as int));
    }
    assert(replaced@ =~= crlf_to_space(value@));
    let ghost r = replaced@;
    let mut a: usize = 0;
    while a < replaced.len() && (replaced[a] == 32 || replaced[a] == 9 || replaced[a] == 13 || replaced[a] == 10)
        invariant
            a <= r.len(),
            r == replaced@,
            first_non_ws(r, a as int) == first_non_ws(r, 0),
        decreases r.len() - a,
    {
        a = a + 1;
    }
    let mut e: usize = replaced.len();
    while e > a && (replaced[e - 1] == 32 || replaced[e - 1] == 9 || replaced[e - 1] == 13 || replaced[e - 1] == 10)
        invariant
            a <= e <= r.len(),
            r == replaced@,
            last_non_ws_end(r, a as int, e as int) == last_non_ws_end(r, a as int, r.len() as int),
        decreases e - a,
    {
        e = e - 1;
    }
    let t = crate::bytes::copy_range(replaced.as_slice(), a, e);
    assert(t@ == trim_ws(r));
    let mut k: usize = 0;
    while k < t.len()
        invariant
            k <= t@.len(),
            t@ == trim_ws(crlf_to_space(value@)),
            forall|j: int| 0 <= j < k ==> value_byte_ok(#[trigger] t@[j]),
        decreases t@.len() - k,
    {
        let b = t[k];
        if !((b >= 32 && b != 127) || b == 9) {
            assert(!value_byte_ok(t@[k as int]));
            return None;
        }
        k = k + 1;
    }
    Some(t)
}

/// A byte `http`'s `HeaderName` accepts: a token character.
pub open spec fn is_token(b: u8) -> bool {
    is_alnum(b) || b == 33 || b == 35 || b == 36 || b == 37 || b == 38 || b == 39 || b == 42 || b == 43 || b == 45
        || b == 46 || b == 94 || b == 95 || b == 96 || b == 124 || b == 126
}

pub fn token_byte(b: u8) -> (r: bool)
    ensures
        r == is_token(b),
{
    ascii_alnum(b) || b == 33 || b == 35 || b == 36 || b == 37 || b == 38 || b == 39 || b == 42 || b == 43 || b == 45
        || b == 46 || b == 94 || b == 95 || b == 96 || b == 124 || b == 126
}

pub open spec fn all_tokens(s: Seq<u8>) -> bool {
    forall|i: int| 0 <= i < s.len() ==> is_token(#[trigger] s[i])
}

/// `textproto.CanonicalMIMEHeaderKey` on a key of token bytes, from a
/// position whose byte is upper-cased when `upper`.
pub open spec fn canonical_from(s: Seq<u8>, upper: bool) -> Seq<u8>
    decreases s.len(),
{
    if s.len() == 0 {
        Seq::empty()
    } else {
        seq![if upper { to_upper(s[0]) } else { to_lower(s[0]) }] + canonical_from(
            s.subrange(1, s.len() as int),
            s[0] == 45,
        )
    }
}

/// `textproto.CanonicalMIMEHeaderKey`: a key with a byte that is not a token
/// character is returned as it is.
pub open spec fn spec_canonical_key(s: Seq<u8>) -> Seq<u8> {
    if all_tokens(s) {
        canonical_from(s, true)
    } else {
        s
    }
}

/// `textproto.CanonicalMIMEHeaderKey`.
pub fn canonical_mime_header_key(key: &[u8]) -> (r: Vec<u8>)
    ensures
        r@ == spec_canonical_key(key@),
{
    let mut k: usize = 0;
    while k < key.len()
        invariant
            k <= key@.len(),
            forall|j: int| 0 <= j < k ==> is_token(#[trigger] key@[j]),
        decreases key@.len() - k,
    {
        if !token_byte(key[k]) {
            return crate::bytes::copy_bytes(key);
        }
        k = k + 1;
    }
    let mut out: Vec<u8> = Vec::new();
    let mut upper = true;
    let mut i: usize = 0;
    assert(key@.subrange(0, key@.len() as int) =~= key@);
    while i < key.len()
        invariant
            i <= key@.len(),
            out@ + canonical_from(key@.subrange(i as int, key@.len() as int), upper) == canonical_from(key@, true),
        decreases key@.len() - i,
    {
        let b = key[i];
        let ghost rest = key@.subrange(i as int, key@.len() as int);
        let ghost o = out@;
        let ghost u = upper;
        out.push(if upper { ascii_to_upper(b) } else { ascii_to_lower(b) });
        upper = b == 45;
        i = i + 1;
        assert(rest.subrange(1, rest.len() as int) =~= key@.subrange(i as int, key@.len() as int));
        assert(out@ + canonical_from(key@.subrange(i as int, key@.len() as int), upper) =~= o + canonical_from(rest, u));
    }
    assert(out@ + canonical_from(key@.subrange(i as int, key@.len() as int), upper) =~= out@);
    out
}


pub const CODE_OK: i32 = 0;
pub const CODE_UNKNOWN: i32 = 2;
pub const CODE_INVALID_ARGUMENT: i32 = 3;
pub const CODE_NOT_FOUND: i32 = 5;
pub const CODE_UNIMPLEMENTED: i32 = 12;
pub const CODE_INTERNAL: i32 = 13;
pub const CODE_UNAUTHENTICATED: i32 = 16;

/// `google.protobuf.Any`, still encoded.
#[derive(Debug, Clone, PartialEq, Eq)]
pub struct Any {
    pub type_url: Vec<u8>,
    pub value: Vec<u8>,
}

/// `google.rpc.Status`.
#[derive(Debug, Clone, PartialEq, Eq)]
pub struct Status {
    pub code: i32,
    pub message: Vec<u8>,
    pub details: Vec<Any>,
}

impl Status {
    /// A status with a code and a message and no details.
    pub fn new(code: i32, message: Vec<u8>) -> (r: Status)
        ensures
            r.code == code,
            r.message@ == message@,
            r.details@.len() == 0,
    {
        Status { code, message, details: Vec::new() }
    }
}

/// The metadata a gRPC call returned, as `runtime.ServerMetadata` holds it:
/// keys as gRPC gives them, values in order, binary values already decoded.
#[derive(Debug, Clone, PartialEq, Eq)]
pub struct ServerMetadata {
    pub headers: Vec<(Vec<u8>, Vec<u8>)>,
    pub trailers: Vec<(Vec<u8>, Vec<u8>)>,
}

/// A routing failure, before any RPC is called.
#[derive(Debug, Clone, Copy, PartialEq, Eq, Structural)]
pub enum RoutingError {
    NotFound,
    MethodNotAllowed,
    /// The request path does not start with `/`.
    BadRequest,
}

/// The response to write: the status code, the headers and trailers in the
/// order they are added (names lower-case), and the body.
#[derive(Debug, Clone, PartialEq, Eq)]
pub struct ErrorResponse {
    pub status: u16,
    pub headers: Vec<(Vec<u8>, Vec<u8>)>,
    pub body: Vec<u8>,
    /// Sent after the body; non-empty only when the request accepts trailers.
    pub trailers: Vec<(Vec<u8>, Vec<u8>)>,
}

/// `runtime.HTTPStatusFromCode`.
pub open spec fn spec_http_status(code: i32) -> u16 {
    if code == 0 {
        200
    } else if code == 1 {
        499
    } else if code == 2 {
        500
    } else if code == 3 {
        400
    } else if code == 4 {
        504
    } else if code == 5 {
        404
    } else if code == 6 {
        409
    } else if code == 7 {
        403
    } else if code == 8 {
        429
    } else if code == 9 {
        400
    } else if code == 10 {
        409
    } else if code == 11 {
        400
    } else if code == 12 {
        501
    } else if code == 13 {
        500
    } else if code == 14 {
        503
    } else if code == 15 {
        500
    } else if code == 16 {
        401
    } else {
        500
    }
}

/// `runtime.HTTPStatusFromCode`: the HTTP status for a gRPC code; codes
/// outside `0..=16` are `500`.
pub fn http_status_from_code(code: i32) -> (r: u16)
    ensures
        r == spec_http_status(code),
{
    match code {
        0 => 200,
        1 => 499,
        2 => 500,
        3 => 400,
        4 => 504,
        5 => 404,
        6 => 409,
        7 => 403,
        8 => 429,
        9 => 400,
        10 => 409,
        11 => 400,
        12 => 501,
        13 => 500,
        14 => 503,
        15 => 500,
        16 => 401,
        _ => 500,
    }
}

/// How protojson writes one byte of a string.
pub open spec fn json_byte(b: u8) -> Seq<u8> {
    if b == 34 {
        seq![92u8, 34u8]
    } else if b == 92 {
        seq![92u8, 92u8]
    } else if b == 8 {
        seq![92u8, 98u8]
    } else if b == 12 {
        seq![92u8, 102u8]
    } else if b == 10 {
        seq![92u8, 110u8]
    } else if b == 13 {
        seq![92u8, 114u8]
    } else if b == 9 {
        seq![92u8, 116u8]
    } else if b < 0x20 {
        seq![92u8, 117u8, 48u8, 48u8, crate::request::strconv::hex_char(b as int / 16), crate::request::strconv::hex_char(b as int % 16)]
    } else {
        seq![b]
    }
}

pub open spec fn json_body(s: Seq<u8>) -> Seq<u8>
    decreases s.len(),
{
    if s.len() == 0 {
        Seq::empty()
    } else {
        json_body(s.drop_last()) + json_byte(s.last())
    }
}

/// protojson's string encoding: only `"`, `\` and control characters are
/// escaped.
pub open spec fn spec_json_string(s: Seq<u8>) -> Seq<u8> {
    seq![34u8] + json_body(s) + seq![34u8]
}

fn push_hex2(out: &mut Vec<u8>, b: u8)
    ensures
        final(out)@ == old(out)@ + seq![crate::request::strconv::hex_char(b as int / 16), crate::request::strconv::hex_char(b as int % 16)],
{
    let hi = b / 16;
    let lo = b % 16;
    out.push(if hi < 10 { 48 + hi } else { 87 + hi });
    out.push(if lo < 10 { 48 + lo } else { 87 + lo });
}

/// Appends protojson's encoding of a string.
pub fn json_string(s: &[u8], out: &mut Vec<u8>)
    ensures
        final(out)@ == old(out)@ + spec_json_string(s@),
{
    let ghost o = out@;
    out.push(34);
    let mut i: usize = 0;
    while i < s.len()
        invariant
            i <= s@.len(),
            out@ == o + seq![34u8] + json_body(s@.subrange(0, i as int)),
        decreases s@.len() - i,
    {
        let b = s[i];
        let ghost before = out@;
        if b == 34 || b == 92 {
            out.push(92);
            out.push(b);
        } else if b == 8 {
            out.push(92);
            out.push(98);
        } else if b == 12 {
            out.push(92);
            out.push(102);
        } else if b == 10 {
            out.push(92);
            out.push(110);
        } else if b == 13 {
            out.push(92);
            out.push(114);
        } else if b == 9 {
            out.push(92);
            out.push(116);
        } else if b < 0x20 {
            out.push(92);
            out.push(117);
            out.push(48);
            out.push(48);
            push_hex2(out, b);
        } else {
            out.push(b);
        }
        assert(out@ =~= before + json_byte(b));
        assert(s@.subrange(0, i + 1).drop_last() =~= s@.subrange(0, i as int));
        i = i + 1;
    }
    assert(s@.subrange(0, i as int) =~= s@);
    out.push(34);
    assert(out@ =~= o + spec_json_string(s@));
}

pub open spec fn detail_empty(a: Any) -> bool {
    a.type_url@.len() == 0 && a.value@.len() == 0
}

/// `n` empty objects, comma-separated.
pub open spec fn empty_objects(n: nat) -> Seq<u8>
    decreases n,
{
    if n == 0 {
        Seq::empty()
    } else if n == 1 {
        seq![123u8, 125u8]
    } else {
        empty_objects((n - 1) as nat) + seq![44u8, 123u8, 125u8]
    }
}

/// `google.rpc.Status` through protojson with `EmitUnpopulated`, without the
/// random spaces: `None` where a detail would need its type resolved.
pub open spec fn spec_marshal_status(code: i32, message: Seq<u8>, details: Seq<Any>) -> Option<Seq<u8>> {
    if forall|i: int| 0 <= i < details.len() ==> detail_empty(#[trigger] details[i]) {
        Some(
            "{\"code\":".spec_bytes() + spec_signed_decimal(code as int) + ",\"message\":".spec_bytes()
                + spec_json_string(message) + ",\"details\":[".spec_bytes() + empty_objects(details.len())
                + "]}".spec_bytes(),
        )
    } else {
        None
    }
}

/// `google.rpc.Status` as protojson writes it, or `None` where a detail
/// would need its type resolved.
pub fn marshal_status(status: &Status) -> (r: Option<Vec<u8>>)
    ensures
        match r {
            Some(b) => spec_marshal_status(status.code, status.message@, status.details@) == Some(b@),
            None => spec_marshal_status(status.code, status.message@, status.details@) is None,
        },
{
    let mut out: Vec<u8> = Vec::new();
    push_all(&mut out, "{\"code\":".as_bytes());
    let d = crate::bytes::signed_decimal(status.code as i64);
    push_all(&mut out, d.as_slice());
    push_all(&mut out, ",\"message\":".as_bytes());
    json_string(status.message.as_slice(), &mut out);
    push_all(&mut out, ",\"details\":[".as_bytes());
    let ghost head = out@;
    let mut i: usize = 0;
    while i < status.details.len()
        invariant
            i <= status.details@.len(),
            out@ == head + empty_objects(i as nat),
            forall|j: int| 0 <= j < i ==> detail_empty(#[trigger] status.details@[j]),
        decreases status.details@.len() - i,
    {
        let a = &status.details[i];
        if a.type_url.len() > 0 || a.value.len() > 0 {
            assert(!detail_empty(status.details@[i as int]));
            return None;
        }
        if i > 0 {
            out.push(44);
        }
        out.push(123);
        out.push(125);
        i = i + 1;
        assert(out@ =~= head + empty_objects(i as nat));
    }
    push_all(&mut out, "]}".as_bytes());
    Some(out)
}

/// Rust's `to_lowercase` as far as it can produce ASCII: ASCII letters, and
/// U+212A, which becomes `k`. Other bytes are kept.
pub open spec fn spec_key_lower(s: Seq<u8>) -> Seq<u8>
    decreases s.len(),
{
    if s.len() == 0 {
        Seq::empty()
    } else if s.len() >= 3 && s[0] == 0xe2 && s[1] == 0x84 && s[2] == 0xaa {
        seq![107u8] + spec_key_lower(s.subrange(3, s.len() as int))
    } else {
        seq![to_lower(s[0])] + spec_key_lower(s.subrange(1, s.len() as int))
    }
}

fn key_lower(s: &[u8]) -> (r: Vec<u8>)
    ensures
        r@ == spec_key_lower(s@),
{
    let mut out: Vec<u8> = Vec::new();
    let mut i: usize = 0;
    assert(s@.subrange(0, s@.len() as int) =~= s@);
    while i < s.len()
        invariant
            i <= s@.len(),
            out@ + spec_key_lower(s@.subrange(i as int, s@.len() as int)) == spec_key_lower(s@),
        decreases s@.len() - i,
    {
        let ghost rest = s@.subrange(i as int, s@.len() as int);
        let ghost o = out@;
        if s.len() - i >= 3 && s[i] == 0xe2 && s[i + 1] == 0x84 && s[i + 2] == 0xaa {
            out.push(107);
            i = i + 3;
            assert(rest.subrange(3, rest.len() as int) =~= s@.subrange(i as int, s@.len() as int));
        } else {
            out.push(ascii_to_lower(s[i]));
            i = i + 1;
            assert(rest.subrange(1, rest.len() as int) =~= s@.subrange(i as int, s@.len() as int));
        }
        assert(out@ + spec_key_lower(s@.subrange(i as int, s@.len() as int)) =~= o + spec_key_lower(rest));
    }
    assert(out@ + spec_key_lower(s@.subrange(i as int, s@.len() as int)) =~= out@);
    out
}

/// A name `http`'s `HeaderName::from_bytes` accepts as it is.
pub open spec fn header_name_ok(n: Seq<u8>) -> bool {
    0 < n.len() <= 65535 && forall|i: int| 0 <= i < n.len() ==> is_token(#[trigger] n[i]) && !is_upper_byte(n[i])
}

pub open spec fn is_upper_byte(b: u8) -> bool {
    65 <= b <= 90
}

/// The header a metadata pair becomes: the prefix and the lower-cased key,
/// and the value as `net/http` writes it; `None` where either cannot be held.
pub open spec fn spec_header_pair(prefix: Seq<u8>, key: Seq<u8>, value: Seq<u8>) -> Option<(Seq<u8>, Seq<u8>)> {
    let name = prefix + spec_key_lower(key);
    if !header_name_ok(name) {
        None
    } else {
        match spec_wire_value(value) {
            Some(v) => Some((name, v)),
            None => None,
        }
    }
}

/// The headers a list of metadata pairs adds, in order.
pub open spec fn pair_headers(prefix: Seq<u8>, md: Seq<(Seq<u8>, Seq<u8>)>) -> Seq<(Seq<u8>, Seq<u8>)>
    decreases md.len(),
{
    if md.len() == 0 {
        Seq::empty()
    } else {
        pair_headers(prefix, md.drop_last()) + match spec_header_pair(prefix, md.last().0, md.last().1) {
            Some(p) => seq![p],
            None => Seq::empty(),
        }
    }
}

pub open spec fn pairs_view(v: Seq<(Vec<u8>, Vec<u8>)>) -> Seq<(Seq<u8>, Seq<u8>)> {
    v.map_values(|p: (Vec<u8>, Vec<u8>)| (p.0@, p.1@))
}

fn header_pair(prefix: &[u8], key: &[u8], value: &[u8]) -> (r: Option<(Vec<u8>, Vec<u8>)>)
    ensures
        match r {
            Some(p) => spec_header_pair(prefix@, key@, value@) == Some((p.0@, p.1@)),
            None => spec_header_pair(prefix@, key@, value@) is None,
        },
{
    let mut name: Vec<u8> = crate::bytes::copy_bytes(prefix);
    let low = key_lower(key);
    push_all(&mut name, low.as_slice());
    if name.len() == 0 || name.len() > 65535 {
        return None;
    }
    let mut i: usize = 0;
    while i < name.len()
        invariant
            i <= name@.len(),
            name@ == prefix@ + spec_key_lower(key@),
            forall|j: int| 0 <= j < i ==> is_token(#[trigger] name@[j]) && !is_upper_byte(name@[j]),
        decreases name@.len() - i,
    {
        let b = name[i];
        if !token_byte(b) || (65 <= b && b <= 90) {
            assert(!(is_token(name@[i as int]) && !is_upper_byte(name@[i as int])));
            return None;
        }
        i = i + 1;
    }
    match wire_value(value) {
        Some(v) => Some((name, v)),
        None => None,
    }
}

/// Appends the headers the pairs of `md` become under `prefix`.
fn append_pairs(out: &mut Vec<(Vec<u8>, Vec<u8>)>, prefix: &[u8], md: &Vec<(Vec<u8>, Vec<u8>)>)
    ensures
        pairs_view(final(out)@) == pairs_view(old(out)@) + pair_headers(prefix@, pairs_view(md@)),
{
    let ghost o = pairs_view(out@);
    let mut i: usize = 0;
    while i < md.len()
        invariant
            i <= md@.len(),
            pairs_view(out@) == o + pair_headers(prefix@, pairs_view(md@).subrange(0, i as int)),
        decreases md@.len() - i,
    {
        let ghost before = pairs_view(out@);
        let (k, v) = (&md[i].0, &md[i].1);
        let ghost sub = pairs_view(md@).subrange(0, i + 1);
        assert(sub.drop_last() =~= pairs_view(md@).subrange(0, i as int));
        assert(sub.last() == (k@, v@));
        match header_pair(prefix, k.as_slice(), v.as_slice()) {
            Some(p) => {
                out.push(p);
                assert(pairs_view(out@) =~= before + seq![(p.0@, p.1@)]);
            },
            None => {
                assert(pairs_view(out@) =~= before + Seq::<(Seq<u8>, Seq<u8>)>::empty());
            },
        }
        i = i + 1;
        assert(pairs_view(out@) =~= o + pair_headers(prefix@, pairs_view(md@).subrange(0, i as int)));
    }
    assert(pairs_view(md@).subrange(0, i as int) =~= pairs_view(md@));
}


/// A response as plain values: status, headers, body, trailers.
pub type ResponseV = (u16, Seq<(Seq<u8>, Seq<u8>)>, Seq<u8>, Seq<(Seq<u8>, Seq<u8>)>);

pub open spec fn response_view(r: &ErrorResponse) -> ResponseV {
    (r.status, pairs_view(r.headers@), r.body@, pairs_view(r.trailers@))
}

/// The name a trailer key is announced under in the `Trailer` header.
pub open spec fn trailer_name(key: Seq<u8>) -> Seq<u8> {
    spec_canonical_key("Grpc-Trailer-".spec_bytes() + key)
}

/// The trailer names announced so far, each once, in first-seen order.
pub open spec fn announced(ts: Seq<(Seq<u8>, Seq<u8>)>) -> Seq<Seq<u8>>
    decreases ts.len(),
{
    if ts.len() == 0 {
        Seq::empty()
    } else {
        let a = announced(ts.drop_last());
        let n = trailer_name(ts.last().0);
        if a.contains(n) {
            a
        } else {
            a.push(n)
        }
    }
}

/// The `Trailer` headers the trailers add: each announced name a header
/// value can hold.
pub open spec fn trailer_headers(ts: Seq<(Seq<u8>, Seq<u8>)>) -> Seq<(Seq<u8>, Seq<u8>)>
    decreases ts.len(),
{
    if ts.len() == 0 {
        Seq::empty()
    } else {
        let prev = trailer_headers(ts.drop_last());
        let n = trailer_name(ts.last().0);
        if announced(ts.drop_last()).contains(n) || !header_value_ok(n) {
            prev
        } else {
            prev.push(("trailer".spec_bytes(), n))
        }
    }
}

pub open spec fn marshal_fallback() -> Seq<u8> {
    "{\"code\": 13, \"message\": \"failed to marshal error message\"}".spec_bytes()
}

/// The headers every error response starts with.
pub open spec fn base_headers(code: i32, message: Seq<u8>) -> Seq<(Seq<u8>, Seq<u8>)> {
    seq![("content-type".spec_bytes(), "application/json".spec_bytes())] + if code == CODE_UNAUTHENTICATED {
        match spec_wire_value(message) {
            Some(w) => seq![("www-authenticate".spec_bytes(), w)],
            None => Seq::empty(),
        }
    } else {
        Seq::empty()
    }
}

/// `DefaultHTTPErrorHandler` for a status returned by an RPC. An `OK` status
/// is answered as the empty status a gRPC client turns it into.
pub open spec fn spec_from_status(
    code0: i32,
    message0: Seq<u8>,
    details0: Seq<Any>,
    metadata: Option<(Seq<(Seq<u8>, Seq<u8>)>, Seq<(Seq<u8>, Seq<u8>)>)>,
    accepts_trailers: bool,
) -> ResponseV {
    let ok = code0 == CODE_OK;
    let code = code0;
    let message = if ok { Seq::empty() } else { message0 };
    let details = if ok { Seq::empty() } else { details0 };
    let h0 = base_headers(code, message);
    match spec_marshal_status(code, message, details) {
        None => (500, h0, marshal_fallback(), Seq::empty()),
        Some(body) => match metadata {
            None => (spec_http_status(code), h0, body, Seq::empty()),
            Some((hs, ts)) => {
                let h1 = h0 + pair_headers("grpc-metadata-".spec_bytes(), hs);
                if accepts_trailers {
                    (spec_http_status(code), h1 + trailer_headers(ts), body, pair_headers("grpc-trailer-".spec_bytes(), ts))
                } else {
                    (spec_http_status(code), h1, body, Seq::empty())
                }
            },
        },
    }
}

fn named(name: &str, value: Vec<u8>) -> (r: (Vec<u8>, Vec<u8>))
    ensures
        r.0@ == name.spec_bytes(),
        r.1@ == value@,
{
    (crate::bytes::copy_bytes(name.as_bytes()), value)
}

fn contains_name(names: &Vec<Vec<u8>>, n: &[u8]) -> (r: bool)
    ensures
        r == names@.map_values(|v: Vec<u8>| v@).contains(n@),
{
    let ghost nv = names@.map_values(|v: Vec<u8>| v@);
    let mut i: usize = 0;
    while i < names.len()
        invariant
            i <= names@.len(),
            nv == names@.map_values(|v: Vec<u8>| v@),
            forall|j: int| 0 <= j < i ==> #[trigger] nv[j] != n@,
        decreases names@.len() - i,
    {
        if crate::bytes::bytes_eq(names[i].as_slice(), n) {
            assert(nv[i as int] == n@);
            return true;
        }
        i = i + 1;
    }
    false
}

fn header_value_check(v: &[u8]) -> (r: bool)
    ensures
        r == header_value_ok(v@),
{
    let mut k: usize = 0;
    while k < v.len()
        invariant
            k <= v@.len(),
            forall|j: int| 0 <= j < k ==> value_byte_ok(#[trigger] v@[j]),
        decreases v@.len() - k,
    {
        let b = v[k];
        if !((b >= 32 && b != 127) || b == 9) {
            assert(!value_byte_ok(v@[k as int]));
            return false;
        }
        k = k + 1;
    }
    true
}

/// Announces the trailers in the `Trailer` header and collects them.
fn add_trailers(headers: &mut Vec<(Vec<u8>, Vec<u8>)>, trailers: &mut Vec<(Vec<u8>, Vec<u8>)>, ts: &Vec<(Vec<u8>, Vec<u8>)>)
    ensures
        pairs_view(final(headers)@) == pairs_view(old(headers)@) + trailer_headers(pairs_view(ts@)),
        pairs_view(final(trailers)@) == pairs_view(old(trailers)@) + pair_headers("grpc-trailer-".spec_bytes(), pairs_view(ts@)),
{
    let ghost h0 = pairs_view(headers@);
    let mut names: Vec<Vec<u8>> = Vec::new();
    let mut i: usize = 0;
    while i < ts.len()
        invariant
            i <= ts@.len(),
            names@.map_values(|v: Vec<u8>| v@) == announced(pairs_view(ts@).subrange(0, i as int)),
            pairs_view(headers@) == h0 + trailer_headers(pairs_view(ts@).subrange(0, i as int)),
        decreases ts@.len() - i,
    {
        let ghost sub = pairs_view(ts@).subrange(0, i + 1);
        assert(sub.drop_last() =~= pairs_view(ts@).subrange(0, i as int));
        assert(sub.last() == (ts@[i as int].0@, ts@[i as int].1@));
        let mut full: Vec<u8> = crate::bytes::copy_bytes("Grpc-Trailer-".as_bytes());
        push_all(&mut full, ts[i].0.as_slice());
        let name = canonical_mime_header_key(full.as_slice());
        let ghost hb = pairs_view(headers@);
        if !contains_name(&names, name.as_slice()) {
            if header_value_check(name.as_slice()) {
                let nm = crate::bytes::copy_bytes(name.as_slice());
                headers.push(named("trailer", nm));
                assert(pairs_view(headers@) =~= hb.push(("trailer".spec_bytes(), name@)));
            }
            let ghost nb = names@.map_values(|v: Vec<u8>| v@);
            names.push(name);
            assert(names@.map_values(|v: Vec<u8>| v@) =~= nb.push(trailer_name(sub.last().0)));
        }
        i = i + 1;
    }
    assert(pairs_view(ts@).subrange(0, i as int) =~= pairs_view(ts@));
    append_pairs(trailers, "grpc-trailer-".as_bytes(), ts);
}

impl ErrorResponse {
    /// `DefaultHTTPErrorHandler` for a status returned by an RPC. `metadata`
    /// is `None` when the call produced none.
    pub fn from_status(status: &Status, metadata: Option<&ServerMetadata>, accepts_trailers: bool) -> (r: ErrorResponse)
        ensures
            response_view(&r) == spec_from_status(
                status.code,
                status.message@,
                status.details@,
                match metadata {
                    Some(m) => Some((pairs_view(m.headers@), pairs_view(m.trailers@))),
                    None => None,
                },
                accepts_trailers,
            ),
    {
        let ok = status.code == CODE_OK;
        let message: &[u8] = if ok { &[] } else { status.message.as_slice() };
        let ghost details_v: Seq<Any> = if ok { Seq::empty() } else { status.details@ };
        let mut headers: Vec<(Vec<u8>, Vec<u8>)> = Vec::new();
        headers.push(named("content-type", crate::bytes::copy_bytes("application/json".as_bytes())));
        if status.code == CODE_UNAUTHENTICATED {
            match wire_value(message) {
                Some(v) => headers.push(named("www-authenticate", v)),
                None => {},
            }
        }
        assert(pairs_view(headers@) =~= base_headers(status.code, message@));
        let owned = Status { code: status.code, message: crate::bytes::copy_bytes(message), details: Vec::new() };
        let body = if ok {
            marshal_status(&owned)
        } else {
            marshal_status(status)
        };
        assert(message@ == if ok { Seq::<u8>::empty() } else { status.message@ });
        assert(owned.details@ =~= Seq::<Any>::empty());
        let body = match body {
            Some(b) => b,
            None => {
                return ErrorResponse {
                    status: 500,
                    headers,
                    body: crate::bytes::copy_bytes(
                        "{\"code\": 13, \"message\": \"failed to marshal error message\"}".as_bytes(),
                    ),
                    trailers: Vec::new(),
                };
            },
        };
        let mut trailers: Vec<(Vec<u8>, Vec<u8>)> = Vec::new();
        match metadata {
            Some(md) => {
                append_pairs(&mut headers, "grpc-metadata-".as_bytes(), &md.headers);
                if accepts_trailers {
                    add_trailers(&mut headers, &mut trailers, &md.trailers);
                }
            },
            None => {},
        }
        assert(pairs_view(trailers@) =~= Seq::<(Seq<u8>, Seq<u8>)>::empty() + pairs_view(trailers@));
        ErrorResponse { status: http_status_from_code(status.code), headers, body, trailers }
    }
}


/// The status `DefaultRoutingErrorHandler` answers a routing failure with.
pub open spec fn routing_status(e: RoutingError) -> (i32, Seq<u8>) {
    match e {
        RoutingError::NotFound => (CODE_NOT_FOUND, "Not Found".spec_bytes()),
        RoutingError::MethodNotAllowed => (CODE_UNIMPLEMENTED, "Method Not Allowed".spec_bytes()),
        RoutingError::BadRequest => (CODE_INVALID_ARGUMENT, "Bad Request".spec_bytes()),
    }
}

/// The text of the `400` for one malformed escape.
pub open spec fn malformed_message(sequence: Seq<u8>) -> Seq<u8> {
    "malformed path escape ".spec_bytes() + spec_quote(sequence)
}

pub open spec fn spec_routing(e: RoutingError) -> ResponseV {
    spec_from_status(routing_status(e).0, routing_status(e).1, Seq::empty(), None, false)
}

pub open spec fn spec_malformed_escape(sequence: Seq<u8>) -> ResponseV {
    let r = spec_from_status(CODE_UNKNOWN, malformed_message(sequence), Seq::empty(), None, false);
    (400, r.1, r.2, r.3)
}

/// The bodies of the `400`s for escapes, in order.
pub open spec fn escape_bodies(escapes: Seq<Seq<u8>>) -> Seq<u8>
    decreases escapes.len(),
{
    if escapes.len() == 0 {
        Seq::empty()
    } else {
        escape_bodies(escapes.drop_last()) + spec_malformed_escape(escapes.last()).2
    }
}

/// The response to a routing outcome: none when a handler matched cleanly;
/// after malformed escapes one `400` whose body holds one error per escape,
/// then what the rest of the outcome adds.
pub open spec fn spec_for_route<'a, T>(o: RouteOutcome<'a, T>) -> Option<ResponseV>
    decreases o,
{
    match o {
        RouteOutcome::Matched { .. } => None,
        RouteOutcome::NotFound => Some(spec_routing(RoutingError::NotFound)),
        RouteOutcome::MethodNotAllowed => Some(spec_routing(RoutingError::MethodNotAllowed)),
        RouteOutcome::BadRequest { escapes, then } => {
            let es = crate::path::template::view_tokens(escapes@);
            if es.len() == 0 {
                None
            } else {
                let first = spec_malformed_escape(es[0]);
                let tail = match spec_for_route(*then) {
                    Some(t) => t.2,
                    None => Seq::empty(),
                };
                Some((first.0, first.1, escape_bodies(es) + tail, first.3))
            }
        },
    }
}

impl ErrorResponse {
    /// `DefaultRoutingErrorHandler`.
    pub fn routing(error: RoutingError) -> (r: ErrorResponse)
        ensures
            response_view(&r) == spec_routing(error),
    {
        let status = match error {
            RoutingError::NotFound => Status::new(CODE_NOT_FOUND, crate::bytes::copy_bytes("Not Found".as_bytes())),
            RoutingError::MethodNotAllowed => Status::new(
                CODE_UNIMPLEMENTED,
                crate::bytes::copy_bytes("Method Not Allowed".as_bytes()),
            ),
            RoutingError::BadRequest => Status::new(CODE_INVALID_ARGUMENT, crate::bytes::copy_bytes("Bad Request".as_bytes())),
        };
        assert(status.details@ =~= Seq::<Any>::empty());
        ErrorResponse::from_status(&status, None, false)
    }

    /// The `400` grpc-gateway writes for one malformed escape: an
    /// `HTTPStatusError` around a plain error, so the code is `Unknown`.
    pub fn malformed_escape(sequence: &[u8]) -> (r: ErrorResponse)
        ensures
            response_view(&r) == spec_malformed_escape(sequence@),
    {
        let mut message = crate::bytes::copy_bytes("malformed path escape ".as_bytes());
        let q = go_quote(sequence);
        push_all(&mut message, q.as_slice());
        let status = Status::new(CODE_UNKNOWN, message);
        assert(status.details@ =~= Seq::<Any>::empty());
        let mut response = ErrorResponse::from_status(&status, None, false);
        response.status = 400;
        response
    }

    /// The response for a routing outcome, or `None` when a handler matched
    /// cleanly.
    pub fn for_route<'a, T>(outcome: &RouteOutcome<'a, T>) -> (r: Option<ErrorResponse>)
        ensures
            match r {
                Some(x) => spec_for_route(*outcome) == Some(response_view(&x)),
                None => spec_for_route(*outcome) is None,
            },
        decreases outcome,
    {
        match outcome {
            RouteOutcome::Matched { .. } => None,
            RouteOutcome::NotFound => Some(ErrorResponse::routing(RoutingError::NotFound)),
            RouteOutcome::MethodNotAllowed => Some(ErrorResponse::routing(RoutingError::MethodNotAllowed)),
            RouteOutcome::BadRequest { escapes, then } => {
                let ghost es = crate::path::template::view_tokens(escapes@);
                if escapes.len() == 0 {
                    return None;
                }
                let mut response = ErrorResponse::malformed_escape(escapes[0].as_slice());
                let ghost first = response_view(&response);
                assert(escapes@.subrange(0, 1).len() == 1);
                assert(escape_bodies(es.subrange(0, 1)) == escape_bodies(es.subrange(0, 0)) + spec_malformed_escape(es[0]).2) by {
                    assert(es.subrange(0, 1).drop_last() =~= es.subrange(0, 0));
                }
                assert(escape_bodies(es.subrange(0, 0)) =~= Seq::<u8>::empty());
                assert(response.body@ =~= escape_bodies(es.subrange(0, 1)));
                let mut i: usize = 1;
                while i < escapes.len()
                    invariant
                        1 <= i <= escapes@.len(),
                        es == crate::path::template::view_tokens(escapes@),
                        response.body@ == escape_bodies(es.subrange(0, i as int)),
                        response.status == first.0,
                        pairs_view(response.headers@) == first.1,
                        pairs_view(response.trailers@) == first.3,
                    decreases escapes@.len() - i,
                {
                    let extra = ErrorResponse::malformed_escape(escapes[i].as_slice());
                    push_all(&mut response.body, extra.body.as_slice());
                    assert(es.subrange(0, i + 1).drop_last() =~= es.subrange(0, i as int));
                    i = i + 1;
                }
                assert(es.subrange(0, i as int) =~= es);
                match ErrorResponse::for_route(&**then) {
                    Some(tail) => {
                        push_all(&mut response.body, tail.body.as_slice());
                    },
                    None => {
                        assert(response.body@ =~= response.body@ + Seq::<u8>::empty());
                    },
                }
                Some(response)
            },
        }
    }
}

} // verus!
