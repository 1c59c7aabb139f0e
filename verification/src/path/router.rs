//! Picking the handler for a request: grpc-gateway's `ServeMux.ServeHTTP`
//! routing, without the HTTP.
use vstd::prelude::*;
use vstd::string::StringSliceAdditionalSpecFns;
use crate::bytes::{ascii_alnum, ascii_hex_digit, bytes_eq, copy_bytes, copy_range, hex_digit_value, hex_value, is_alnum, is_hex_digit, push_all};
use crate::path::template::{view_tokens, COLON, PERCENT, SLASH};
use crate::path::pattern::{spec_match, match_err_view, MatchError, MatchErrV, PathParams, Pattern, UnescapingMode};

verus! {

/// The path of an origin-form request target (`/a/b?q`), split the way Go's
/// `net/url` splits it: the decoded `path`, and the `raw_path` only when the
/// target was not the default encoding of that path.
#[derive(Debug, PartialEq, Eq)]
pub struct RequestPath {
    path: Vec<u8>,
    raw_path: Option<Vec<u8>>,
}

/// A request target grpc-gateway never gets to route.
#[derive(Debug, Clone, PartialEq, Eq)]
pub struct InvalidTarget(pub &'static str);

/// Bytes `net/url` leaves as they are in a path.
pub open spec fn keeps(b: u8) -> bool {
    is_alnum(b) || b == 36 || b == 38 || b == 43 || b == 44 || b == 45 || b == 46 || b == 47
        || b == 58 || b == 59 || b == 61 || b == 64 || b == 95 || b == 126
}

fn path_keeps(b: u8) -> (r: bool)
    ensures
        r == keeps(b),
{
    ascii_alnum(b) || b == 36 || b == 38 || b == 43 || b == 44 || b == 45 || b == 46 || b == 47
        || b == 58 || b == 59 || b == 61 || b == 64 || b == 95 || b == 126
}

/// Every byte a path keeps unescaped, in increasing order.
pub fn path_kept_bytes() -> (r: Vec<u8>)
    ensures
        forall|i: int, j: int| 0 <= i < j < r@.len() ==> r@[i] < r@[j],
        forall|b: u8| keeps(b) <==> r@.contains(b),
{
    let mut out: Vec<u8> = Vec::new();
    let mut b: u16 = 0;
    while b < 256
        invariant
            b <= 256,
            forall|i: int, j: int| 0 <= i < j < out@.len() ==> out@[i] < out@[j],
            forall|i: int| 0 <= i < out@.len() ==> out@[i] < b,
            forall|c: u8| (keeps(c) && (c as int) < b) <==> out@.contains(c),
        decreases 256 - b,
    {
        let c = b as u8;
        let ghost o = out@;
        if path_keeps(c) {
            out.push(c);
        }
        proof {
            assert(out@ == o || out@ == o.push(c));
            assert forall|d: u8| (keeps(d) && (d as int) < b + 1) <==> out@.contains(d) by {
                if out@ == o.push(c) {
                    if out@.contains(d) {
                        let k = choose|k: int| 0 <= k < out@.len() && out@[k] == d;
                        if k < o.len() {
                            assert(o.contains(d));
                        }
                    }
                    if d == c {
                        assert(out@[o.len() as int] == c);
                    } else if keeps(d) && (d as int) < b {
                        let k = choose|k: int| 0 <= k < o.len() && o[k] == d;
                        assert(out@[k] == d);
                    }
                } else {
                    if out@.contains(d) {
                        let k = choose|k: int| 0 <= k < o.len() && o[k] == d;
                        assert(o[k] < b);
                    }
                }
            }
        }
        b = b + 1;
    }
    out
}

// ---------------------------------------------------------------- escapes

/// `s` with every `%XY` decoded, or `None` for a malformed escape.
pub open spec fn percent_decode_from(s: Seq<u8>, i: int) -> Option<Seq<u8>>
    decreases s.len() - i,
{
    if i < 0 || i >= s.len() {
        Some(Seq::empty())
    } else if s[i] == PERCENT {
        if i + 2 < s.len() && is_hex_digit(s[i + 1]) && is_hex_digit(s[i + 2]) {
            match percent_decode_from(s, i + 3) {
                Some(r) => Some(seq![(hex_value(s[i + 1]) * 16 + hex_value(s[i + 2])) as u8] + r),
                None => None,
            }
        } else {
            None
        }
    } else {
        match percent_decode_from(s, i + 1) {
            Some(r) => Some(seq![s[i]] + r),
            None => None,
        }
    }
}

pub open spec fn spec_percent_decode(s: Seq<u8>) -> Option<Seq<u8>> {
    percent_decode_from(s, 0)
}

pub open spec fn upper_hex_digit(n: u8) -> u8 {
    if n < 10 {
        (n + 48) as u8
    } else {
        (n + 55) as u8
    }
}

/// A byte as `net/url` writes it in a path.
pub open spec fn encode_byte(b: u8) -> Seq<u8> {
    if keeps(b) {
        seq![b]
    } else {
        seq![PERCENT, upper_hex_digit(b / 16), upper_hex_digit(b % 16)]
    }
}

pub open spec fn spec_percent_encode(s: Seq<u8>) -> Seq<u8>
    decreases s.len(),
{
    if s.len() == 0 {
        Seq::empty()
    } else {
        spec_percent_encode(s.drop_last()) + encode_byte(s.last())
    }
}

fn percent_decode(s: &[u8]) -> (r: Result<Vec<u8>, InvalidTarget>)
    ensures
        match r {
            Ok(v) => spec_percent_decode(s@) == Some(v@),
            Err(e) => spec_percent_decode(s@) is None && e.0@ == "malformed percent-encoding"@,
        },
{
    let mut out: Vec<u8> = Vec::new();
    let mut i: usize = 0;
    while i < s.len()
        invariant
            i <= s@.len(),
            spec_percent_decode(s@) == (match percent_decode_from(s@, i as int) {
                Some(r) => Some(out@ + r),
                None => None,
            }),
        decreases s@.len() - i,
    {
        let ghost o = out@;
        if s[i] == PERCENT {
            if s.len() - i <= 2 || !ascii_hex_digit(s[i + 1]) || !ascii_hex_digit(s[i + 2]) {
                return Err(InvalidTarget("malformed percent-encoding"));
            }
            let c = hex_digit_value(s[i + 1]) * 16 + hex_digit_value(s[i + 2]);
            out.push(c);
            proof {
                match percent_decode_from(s@, i + 3) {
                    Some(r) => {
                        assert(o + (seq![c] + r) =~= out@ + r);
                    },
                    None => {},
                }
            }
            i = i + 3;
        } else {
            out.push(s[i]);
            proof {
                match percent_decode_from(s@, i + 1) {
                    Some(r) => {
                        assert(o + (seq![s@[i as int]] + r) =~= out@ + r);
                    },
                    None => {},
                }
            }
            i = i + 1;
        }
    }
    assert(out@ + Seq::<u8>::empty() =~= out@);
    Ok(out)
}

fn upper_hex(n: u8) -> (r: u8)
    requires
        n < 16,
    ensures
        r == upper_hex_digit(n),
{
    if n < 10 {
        n + 48
    } else {
        n + 55
    }
}

fn percent_encode(s: &[u8]) -> (r: Vec<u8>)
    ensures
        r@ == spec_percent_encode(s@),
{
    let mut out: Vec<u8> = Vec::new();
    let mut i: usize = 0;
    while i < s.len()
        invariant
            i <= s@.len(),
            out@ == spec_percent_encode(s@.subrange(0, i as int)),
        decreases s@.len() - i,
    {
        let b = s[i];
        let ghost o = out@;
        if path_keeps(b) {
            out.push(b);
        } else {
            out.push(PERCENT);
            out.push(upper_hex(b / 16));
            out.push(upper_hex(b % 16));
        }
        assert(s@.subrange(0, i + 1).drop_last() =~= s@.subrange(0, i as int));
        assert(out@ =~= o + encode_byte(b));
        i = i + 1;
    }
    assert(s@.subrange(0, s@.len() as int) =~= s@);
    out
}

proof fn lemma_upper_hex(n: u8)
    requires
        n < 16,
    ensures
        is_hex_digit(upper_hex_digit(n)),
        hex_value(upper_hex_digit(n)) == n,
        upper_hex_digit(n) != PERCENT,
{
}

proof fn lemma_decode_append(a: Seq<u8>, b: Seq<u8>, da: Seq<u8>)
    requires
        spec_percent_decode(a) == Some(da),
        spec_percent_decode(b) is Some,
    ensures
        spec_percent_decode(a + b) == Some(da + spec_percent_decode(b).unwrap()),
    decreases a.len(),
{
    lemma_decode_append_from(a, b, 0, da);
}

proof fn lemma_decode_append_from(a: Seq<u8>, b: Seq<u8>, i: int, da: Seq<u8>)
    requires
        0 <= i <= a.len(),
        percent_decode_from(a, i) == Some(da),
        spec_percent_decode(b) is Some,
    ensures
        percent_decode_from(a + b, i) == Some(da + spec_percent_decode(b).unwrap()),
    decreases a.len() - i,
{
    let db = spec_percent_decode(b).unwrap();
    if i == a.len() {
        lemma_decode_shift(a, b, 0);
        assert(da =~= Seq::<u8>::empty());
        assert(da + db =~= db);
    } else if a[i] == PERCENT {
        let r = percent_decode_from(a, i + 3).unwrap();
        lemma_decode_append_from(a, b, i + 3, r);
        assert((a + b)[i] == a[i] && (a + b)[i + 1] == a[i + 1] && (a + b)[i + 2] == a[i + 2]);
        let c = (hex_value(a[i + 1]) * 16 + hex_value(a[i + 2])) as u8;
        assert(seq![c] + (r + db) =~= (seq![c] + r) + db);
    } else {
        let r = percent_decode_from(a, i + 1).unwrap();
        lemma_decode_append_from(a, b, i + 1, r);
        assert(seq![a[i]] + (r + db) =~= (seq![a[i]] + r) + db);
    }
}

/// Decoding `b` at the end of `a + b` is decoding `b` alone.
proof fn lemma_decode_shift(a: Seq<u8>, b: Seq<u8>, j: int)
    requires
        0 <= j <= b.len(),
    ensures
        percent_decode_from(a + b, a.len() + j) == percent_decode_from(b, j),
    decreases b.len() - j,
{
    if j < b.len() {
        if b[j] == PERCENT {
            if j + 2 < b.len() {
                lemma_decode_shift(a, b, j + 3);
            }
        } else {
            lemma_decode_shift(a, b, j + 1);
        }
    }
}

/// Decoding what `percent_encode` wrote gives the path back.
pub proof fn lemma_percent_roundtrip(p: Seq<u8>)
    ensures
        spec_percent_decode(spec_percent_encode(p)) == Some(p),
    decreases p.len(),
{
    if p.len() > 0 {
        let d = p.drop_last();
        let b = p.last();
        lemma_percent_roundtrip(d);
        let e = encode_byte(b);
        if keeps(b) {
            assert(percent_decode_from(e, 1) == Some(Seq::<u8>::empty()));
            assert(spec_percent_decode(e) == Some(seq![b]));
        } else {
            lemma_upper_hex(b / 16);
            lemma_upper_hex(b % 16);
            assert(percent_decode_from(e, 3) == Some(Seq::<u8>::empty()));
            assert((b / 16) * 16 + b % 16 == b);
            assert(spec_percent_decode(e) == Some(seq![b]));
        }
        lemma_decode_append(spec_percent_encode(d), e, d);
        assert(d + seq![b] =~= p);
    } else {
        assert(spec_percent_encode(p) =~= Seq::<u8>::empty());
    }
}


// ---------------------------------------------------------------- request path

/// The index of the first `?` in `t`, or its length.
pub open spec fn query_start(t: Seq<u8>) -> int {
    if exists|i: int| 0 <= i < t.len() && t[i] == 63 {
        choose|i: int| 0 <= i < t.len() && t[i] == 63 && forall|k: int| 0 <= k < i ==> t[k] != 63
    } else {
        t.len() as int
    }
}

/// What parsing a target gives: the decoded path and, when the target is not
/// the default encoding of it, the raw path.
pub open spec fn spec_request_path(t: Seq<u8>) -> Option<(Seq<u8>, Option<Seq<u8>>)> {
    if exists|i: int| 0 <= i < t.len() && (t[i] < 32 || t[i] == 127) {
        None
    } else if t.len() == 0 || t[0] != SLASH {
        None
    } else {
        let raw = t.subrange(0, query_start(t));
        match spec_percent_decode(raw) {
            None => None,
            Some(p) => Some((p, if spec_percent_encode(p) != raw { Some(raw) } else { None })),
        }
    }
}

/// Why a target is refused: a control character anywhere, else no leading
/// `/`, else a bad escape in the path.
pub open spec fn target_refusal(t: Seq<u8>) -> Seq<char> {
    if exists|i: int| 0 <= i < t.len() && (t[i] < 32 || t[i] == 127) {
        "control character"@
    } else if t.len() == 0 || t[0] != SLASH {
        "not an origin-form path"@
    } else {
        "malformed percent-encoding"@
    }
}

/// The query does not change how a target's path is read: a target with a
/// query parses, or is refused, as its path alone.
pub proof fn lemma_query_is_ignored(p: Seq<u8>, q: Seq<u8>)
    requires
        forall|i: int| 0 <= i < p.len() ==> p[i] != 63,
        forall|i: int| 0 <= i < q.len() ==> !(q[i] < 32 || q[i] == 127),
    ensures
        spec_request_path(p + seq![63u8] + q) == spec_request_path(p),
        target_refusal(p + seq![63u8] + q) == target_refusal(p),
{
    let t = p + seq![63u8] + q;
    assert(t[p.len() as int] == 63);
    assert forall|i: int| 0 <= i < p.len() implies t[i] == p[i] by {}
    let c = choose|i: int| 0 <= i < t.len() && t[i] == 63 && forall|k: int| 0 <= k < i ==> t[k] != 63;
    assert(exists|i: int| 0 <= i < t.len() && t[i] == 63 && forall|k: int| 0 <= k < i ==> t[k] != 63) by {
        assert(forall|k: int| 0 <= k < p.len() ==> t[k] != 63);
    }
    assert(c == p.len()) by {
        if c < p.len() {
            assert(t[c] == p[c]);
        } else if c > p.len() {
            assert(t[p.len() as int] == 63);
        }
    }
    assert(query_start(t) == p.len());
    assert(!(exists|i: int| 0 <= i < p.len() && p[i] == 63));
    assert(query_start(p) == p.len());
    assert(t.subrange(0, p.len() as int) =~= p);
    assert(p.subrange(0, p.len() as int) =~= p);
    let ct = exists|i: int| 0 <= i < t.len() && (t[i] < 32 || t[i] == 127);
    let cp = exists|i: int| 0 <= i < p.len() && (p[i] < 32 || p[i] == 127);
    assert(ct == cp) by {
        if ct {
            let i = choose|i: int| 0 <= i < t.len() && (t[i] < 32 || t[i] == 127);
            if i > p.len() {
                assert(t[i] == q[i - p.len() - 1]);
            }
            assert(i < p.len());
            assert(p[i] == t[i]);
        }
        if cp {
            let i = choose|i: int| 0 <= i < p.len() && (p[i] < 32 || p[i] == 127);
            assert(t[i] == p[i]);
        }
    }
    if p.len() == 0 {
        assert(t[0] == 63);
    } else {
        assert(t[0] == p[0]);
    }
}

proof fn lemma_decode_first(s: Seq<u8>)
    requires
        s.len() > 0,
        s[0] != PERCENT,
        spec_percent_decode(s) is Some,
    ensures
        spec_percent_decode(s).unwrap().len() > 0,
        spec_percent_decode(s).unwrap()[0] == s[0],
{
}

impl RequestPath {
    #[verifier::type_invariant]
    spec fn wf(self) -> bool {
        &&& self.path@.len() > 0 && self.path@[0] == SLASH
        &&& self.raw_path matches Some(r) ==> r@.len() > 0 && r@[0] == SLASH
    }

    pub closed spec fn path_v(&self) -> Seq<u8> {
        self.path@
    }

    pub closed spec fn raw_path_v(&self) -> Option<Seq<u8>> {
        match self.raw_path {
            Some(r) => Some(r@),
            None => None,
        }
    }

    /// Parses an origin-form target. The query, if any, is ignored.
    pub fn parse(target: &str) -> (r: Result<RequestPath, InvalidTarget>)
        ensures
            match r {
                Ok(p) => spec_request_path(target.spec_bytes()) == Some((p.path_v(), p.raw_path_v())),
                Err(e) => spec_request_path(target.spec_bytes()) is None
                    && e.0@ == target_refusal(target.spec_bytes()),
            },
    {
        let t = target.as_bytes();
        let mut i: usize = 0;
        while i < t.len()
            invariant
                t@ == target.spec_bytes(),
                i <= t@.len(),
                forall|k: int| 0 <= k < i ==> !(t@[k] < 32 || t@[k] == 127),
            decreases t@.len() - i,
        {
            if t[i] < 32 || t[i] == 127 {
                assert(0 <= i < t@.len() && (t@[i as int] < 32 || t@[i as int] == 127));
                return Err(InvalidTarget("control character"));
            }
            i = i + 1;
        }
        if t.len() == 0 || t[0] != SLASH {
            return Err(InvalidTarget("not an origin-form path"));
        }
        let mut q: usize = 0;
        while q < t.len() && t[q] != 63
            invariant
                q <= t@.len(),
                forall|k: int| 0 <= k < q ==> t@[k] != 63,
            decreases t@.len() - q,
        {
            q = q + 1;
        }
        assert(query_start(t@) == q);
        let raw = copy_range(t, 0, q);
        let path = match percent_decode(raw.as_slice()) {
            Ok(p) => p,
            Err(e) => return Err(e),
        };
        proof {
            lemma_decode_first(raw@);
        }
        let default_encoding = percent_encode(path.as_slice());
        let raw_path = if bytes_eq(default_encoding.as_slice(), raw.as_slice()) {
            None
        } else {
            Some(raw)
        };
        Ok(RequestPath { path, raw_path })
    }

    pub fn path(&self) -> (r: &[u8])
        ensures
            r@ == self.path_v(),
    {
        self.path.as_slice()
    }

    pub fn raw_path(&self) -> (r: Option<&[u8]>)
        ensures
            match r {
                Some(v) => self.raw_path_v() == Some(v@),
                None => self.raw_path_v() is None,
            },
    {
        match &self.raw_path {
            Some(v) => Some(v.as_slice()),
            None => None,
        }
    }
}

// ---------------------------------------------------------------- components

/// The components of `p[i..]`, split on `/` and, when `on_encoded_slash`, on
/// `%2F` (case-sensitive); `cur` is the component in progress.
pub open spec fn split_from(p: Seq<u8>, i: int, cur: Seq<u8>, on_encoded_slash: bool) -> Seq<Seq<u8>>
    decreases p.len() - i,
{
    if i < 0 || i >= p.len() {
        seq![cur]
    } else if p[i] == SLASH {
        seq![cur] + split_from(p, i + 1, Seq::empty(), on_encoded_slash)
    } else if on_encoded_slash && i + 3 <= p.len() && p[i] == PERCENT && p[i + 1] == 50 && p[i + 2] == 70 {
        seq![cur] + split_from(p, i + 3, Seq::empty(), on_encoded_slash)
    } else {
        split_from(p, i + 1, cur.push(p[i]), on_encoded_slash)
    }
}

pub open spec fn spec_split(p: Seq<u8>, on_encoded_slash: bool) -> Seq<Seq<u8>> {
    split_from(p, 0, Seq::empty(), on_encoded_slash)
}

proof fn lemma_split_nonempty(p: Seq<u8>, i: int, cur: Seq<u8>, enc: bool)
    ensures
        split_from(p, i, cur, enc).len() > 0,
    decreases p.len() - i,
{
    if 0 <= i < p.len() {
        if p[i] == SLASH {
            lemma_split_nonempty(p, i + 1, Seq::empty(), enc);
        } else if enc && i + 3 <= p.len() && p[i] == PERCENT && p[i + 1] == 50 && p[i + 2] == 70 {
            lemma_split_nonempty(p, i + 3, Seq::empty(), enc);
        } else {
            lemma_split_nonempty(p, i + 1, cur.push(p[i]), enc);
        }
    }
}

fn split(path: &[u8], on_encoded_slash: bool) -> (r: Vec<Vec<u8>>)
    ensures
        view_tokens(r@) == spec_split(path@, on_encoded_slash),
        r@.len() > 0,
{
    let mut out: Vec<Vec<u8>> = Vec::new();
    let mut current: Vec<u8> = Vec::new();
    let mut i: usize = 0;
    proof {
        lemma_split_nonempty(path@, 0, Seq::empty(), on_encoded_slash);
    }
    while i < path.len()
        invariant
            i <= path@.len(),
            spec_split(path@, on_encoded_slash) == view_tokens(out@) + split_from(path@, i as int, current@, on_encoded_slash),
        decreases path@.len() - i,
    {
        let ghost o = view_tokens(out@);
        if path[i] == SLASH {
            let c = current;
            current = Vec::new();
            let ghost cv = c@;
            out.push(c);
            assert(view_tokens(out@) =~= o.push(cv));
            assert(o + (seq![cv] + split_from(path@, i + 1, Seq::empty(), on_encoded_slash)) =~= o.push(cv)
                + split_from(path@, i + 1, current@, on_encoded_slash));
            i = i + 1;
        } else if on_encoded_slash && path.len() - i >= 3 && path[i] == PERCENT && path[i + 1] == 50 && path[i + 2] == 70 {
            let c = current;
            current = Vec::new();
            let ghost cv = c@;
            out.push(c);
            assert(view_tokens(out@) =~= o.push(cv));
            assert(o + (seq![cv] + split_from(path@, i + 3, Seq::empty(), on_encoded_slash)) =~= o.push(cv)
                + split_from(path@, i + 3, current@, on_encoded_slash));
            i = i + 3;
        } else {
            current.push(path[i]);
            i = i + 1;
        }
    }
    let ghost o = view_tokens(out@);
    let ghost cv = current@;
    out.push(current);
    assert(view_tokens(out@) =~= o + seq![cv]);
    out
}

/// Where the verb of a pattern starts in the last component: the index of the
/// `:` of a `:verb` suffix.
pub open spec fn spec_verb_index(last: Seq<u8>, verb: Seq<u8>) -> Option<int> {
    let suffix = seq![COLON] + verb;
    if verb.len() == 0 {
        None
    } else if suffix.len() <= last.len() && last.subrange(last.len() - suffix.len(), last.len() as int) == suffix {
        Some(last.len() - suffix.len())
    } else {
        None
    }
}

fn verb_index(last: &[u8], verb: &[u8]) -> (r: Option<usize>)
    ensures
        match r {
            Some(i) => spec_verb_index(last@, verb@) == Some(i as int),
            None => spec_verb_index(last@, verb@) is None,
        },
{
    if verb.len() == 0 {
        return None;
    }
    let mut suffix: Vec<u8> = Vec::new();
    suffix.push(COLON);
    push_all(&mut suffix, verb);
    assert(suffix@ =~= seq![COLON] + verb@);
    if suffix.len() > last.len() {
        return None;
    }
    let start = last.len() - suffix.len();
    let tail = copy_range(last, start, last.len());
    if bytes_eq(tail.as_slice(), suffix.as_slice()) {
        Some(start)
    } else {
        None
    }
}

/// The components and verb to match when the verb of a pattern starts at
/// `verb_at` in the last component.
pub open spec fn spec_with_verb_split(comps: Seq<Seq<u8>>, verb_at: Option<int>) -> (Seq<Seq<u8>>, Seq<u8>) {
    match verb_at {
        Some(i) => if i > 0 && comps.len() > 0 && i < comps.last().len() {
            (
                comps.update(comps.len() - 1, comps.last().subrange(0, i)),
                comps.last().subrange(i + 1, comps.last().len() as int),
            )
        } else {
            (comps, Seq::empty())
        },
        None => (comps, Seq::empty()),
    }
}

fn with_verb_split(components: &[Vec<u8>], verb_at: Option<usize>) -> (r: (Vec<Vec<u8>>, Vec<u8>))
    ensures
        (view_tokens(r.0@), r.1@) == spec_with_verb_split(view_tokens(components@), match verb_at {
            Some(i) => Some(i as int),
            None => None,
        }),
{
    let mut comps: Vec<Vec<u8>> = Vec::new();
    let mut k: usize = 0;
    while k < components.len()
        invariant
            k <= components@.len(),
            view_tokens(comps@) == view_tokens(components@).subrange(0, k as int),
        decreases components@.len() - k,
    {
        let ghost o = view_tokens(comps@);
        let x = copy_bytes(components[k].as_slice());
        assert(x@ == view_tokens(components@)[k as int]);
        comps.push(x);
        assert(view_tokens(comps@) =~= o.push(x@));
        assert(view_tokens(comps@) =~= view_tokens(components@).subrange(0, k + 1));
        k = k + 1;
    }
    assert(view_tokens(components@).subrange(0, components@.len() as int) =~= view_tokens(components@));
    match verb_at {
        Some(i) => {
            let n = comps.len();
            if i > 0 && n > 0 && i < comps[n - 1].len() {
                let last_len = comps[n - 1].len();
                let head = copy_range(comps[n - 1].as_slice(), 0, i);
                let verb = copy_range(comps[n - 1].as_slice(), i + 1, last_len);
                let ghost c0 = view_tokens(comps@);
                comps.set(n - 1, head);
                assert(view_tokens(comps@) =~= c0.update(n - 1, c0.last().subrange(0, i as int)));
                (comps, verb)
            } else {
                (comps, Vec::new())
            }
        },
        None => (comps, Vec::new()),
    }
}


// ---------------------------------------------------------------- router

/// What routing decided.
#[derive(Debug, PartialEq, Eq)]
pub enum RouteOutcome<'a, T> {
    Matched { handler: &'a T, params: PathParams },
    NotFound,
    /// The path matches under another method. grpc-gateway's default error
    /// handler answers this with `501 Unimplemented`.
    MethodNotAllowed,
    /// Candidates held malformed escapes: grpc-gateway writes a `400` for
    /// each, in order, then goes on to what `then` says.
    BadRequest { escapes: Vec<Vec<u8>>, then: Box<RouteOutcome<'a, T>> },
}

/// What routing decides, with handlers named by their method and position.
pub enum RouteV {
    Matched(int, int, Map<Seq<u8>, Seq<u8>>),
    NotFound,
    MethodNotAllowed,
}

/// A step of the search: decided, with the escapes met so far and whether
/// the `POST` to `GET` fallback was taken, or go on with the escapes so far.
pub enum StepV {
    Done(RouteV, Seq<Seq<u8>>, bool),
    Next(Seq<Seq<u8>>),
}

/// Handlers by method, tried most-recently-registered first.
#[derive(Debug)]
pub struct Router<T> {
    mode: UnescapingMode,
    methods: Vec<(Vec<u8>, Vec<(Pattern, T)>)>,
}

pub open spec fn methods_view<T>(m: Seq<(Vec<u8>, Vec<(Pattern, T)>)>) -> Seq<(Seq<u8>, Seq<(Pattern, T)>)> {
    m.map_values(|e: (Vec<u8>, Vec<(Pattern, T)>)| (e.0@, e.1@))
}

pub open spec fn unique_methods<T>(ms: Seq<(Seq<u8>, Seq<(Pattern, T)>)>) -> bool {
    forall|i: int, j: int| 0 <= i < j < ms.len() ==> #[trigger] ms[i].0 != #[trigger] ms[j].0
}

/// The methods after registering `handler` under `method`: appended to the
/// method's handlers, or as a new method.
pub open spec fn spec_add<T>(ms: Seq<(Seq<u8>, Seq<(Pattern, T)>)>, method: Seq<u8>, pattern: Pattern, handler: T) -> Seq<(Seq<u8>, Seq<(Pattern, T)>)> {
    let i = method_index(ms, method);
    if i >= 0 {
        ms.update(i, (ms[i].0, ms[i].1.push((pattern, handler))))
    } else {
        ms.push((method, seq![(pattern, handler)]))
    }
}

/// The index of `method` among the registered methods, or -1.
pub open spec fn method_index<T>(ms: Seq<(Seq<u8>, Seq<(Pattern, T)>)>, method: Seq<u8>) -> int {
    if exists|i: int| 0 <= i < ms.len() && ms[i].0 == method {
        choose|i: int| 0 <= i < ms.len() && ms[i].0 == method
    } else {
        -1
    }
}

/// Trying one pattern on the components, its verb split off at `verb_at`.
pub open spec fn pat_try(p: Pattern, comps: Seq<Seq<u8>>, verb_at: Option<int>, mode: UnescapingMode) -> Result<Map<Seq<u8>, Seq<u8>>, MatchErrV> {
    let (c, v) = spec_with_verb_split(comps, verb_at);
    spec_match(p.ops_v(), p.vars_v(), p.tail_v(), p.verb_v(), c, v, mode)
}

/// The handlers of the request's own method, newest first, from the `r`-th.
pub open spec fn scan_own<T>(hs: Seq<(Pattern, T)>, mi: int, r: int, comps: Seq<Seq<u8>>, mode: UnescapingMode, esc: Seq<Seq<u8>>) -> StepV
    decreases r,
{
    if r <= 0 || r > hs.len() {
        StepV::Next(esc)
    } else {
        let p = hs[r - 1].0;
        let va = spec_verb_index(comps.last(), p.verb_v());
        if va == Some(0int) {
            StepV::Done(RouteV::NotFound, esc, false)
        } else {
            match pat_try(p, comps, va, mode) {
                Ok(m) => StepV::Done(RouteV::Matched(mi, r - 1, m), esc, false),
                Err(MatchErrV::MalformedEscape(q)) => scan_own(hs, mi, r - 1, comps, mode, esc.push(q)),
                Err(MatchErrV::NoMatch) => scan_own(hs, mi, r - 1, comps, mode, esc),
            }
        }
    }
}

pub open spec fn handler_count<T>(ms: Seq<(Seq<u8>, Seq<(Pattern, T)>)>, mi: int) -> int {
    if 0 <= mi < ms.len() {
        ms[mi].1.len() as int
    } else {
        0
    }
}

/// The handlers of the other methods, in registration order of the methods
/// and newest first within one, from handler `r` of method `mi`: a match means
/// the method is wrong, unless the `POST` to `GET` fallback applies.
pub open spec fn scan_others<T>(
    ms: Seq<(Seq<u8>, Seq<(Pattern, T)>)>,
    method: Seq<u8>,
    mi: int,
    r: int,
    comps: Seq<Seq<u8>>,
    mode: UnescapingMode,
    fallback: bool,
    esc: Seq<Seq<u8>>,
) -> StepV
    decreases ms.len() - mi, r,
{
    if mi < 0 || mi >= ms.len() {
        StepV::Done(RouteV::NotFound, esc, false)
    } else if ms[mi].0 == method || r <= 0 || r > ms[mi].1.len() {
        scan_others(ms, method, mi + 1, handler_count(ms, mi + 1), comps, mode, fallback, esc)
    } else {
        let p = ms[mi].1[r - 1].0;
        let va0 = spec_verb_index(comps.last(), p.verb_v());
        let va = match va0 {
            Some(i) => if i > 0 { va0 } else { None },
            None => None,
        };
        match pat_try(p, comps, va, mode) {
            Ok(m) => if fallback && ms[mi].0 == seq![71u8, 69u8, 84u8] {
                StepV::Done(RouteV::Matched(mi, r - 1, m), esc, true)
            } else {
                StepV::Done(RouteV::MethodNotAllowed, esc, false)
            },
            Err(MatchErrV::MalformedEscape(q)) => scan_others(ms, method, mi, r - 1, comps, mode, fallback, esc.push(q)),
            Err(MatchErrV::NoMatch) => scan_others(ms, method, mi, r - 1, comps, mode, fallback, esc),
        }
    }
}

/// The path routing reads: the raw one when the mode keeps escapes and the
/// target had one.
pub open spec fn routing_path(path: Seq<u8>, raw_path: Option<Seq<u8>>, mode: UnescapingMode) -> Seq<u8> {
    match raw_path {
        Some(r) => if mode == UnescapingMode::Legacy { path } else { r },
        None => path,
    }
}

/// The whole routing decision: the outcome, the malformed escapes met, and
/// whether the `POST` to `GET` fallback was taken.
pub open spec fn spec_route<T>(
    ms: Seq<(Seq<u8>, Seq<(Pattern, T)>)>,
    method: Seq<u8>,
    path: Seq<u8>,
    mode: UnescapingMode,
    fallback: bool,
) -> (RouteV, Seq<Seq<u8>>, bool) {
    let comps = spec_split(path.subrange(1, path.len() as int), mode == UnescapingMode::AllCharacters);
    let own = method_index(ms, method);
    let first = if own >= 0 {
        scan_own(ms[own].1, own, ms[own].1.len() as int, comps, mode, Seq::empty())
    } else {
        StepV::Next(Seq::empty())
    };
    match first {
        StepV::Done(rv, esc, f) => (rv, esc, f),
        StepV::Next(esc) => step_result(scan_others(ms, method, 0, handler_count(ms, 0), comps, mode, fallback, esc)),
    }
}

pub open spec fn step_result(s: StepV) -> (RouteV, Seq<Seq<u8>>, bool) {
    match s {
        StepV::Done(rv, esc, f) => (rv, esc, f),
        StepV::Next(esc) => (RouteV::NotFound, esc, false),
    }
}

/// Whether an outcome (without its escapes) is what `rv` describes.
pub open spec fn plain_outcome_is<'a, T>(o: RouteOutcome<'a, T>, rv: RouteV, ms: Seq<(Seq<u8>, Seq<(Pattern, T)>)>) -> bool {
    match (o, rv) {
        (RouteOutcome::Matched { handler, params }, RouteV::Matched(mi, hi, m)) => 0 <= mi < ms.len() && 0 <= hi
            < ms[mi].1.len() && *handler == ms[mi].1[hi].1 && params@ == m,
        (RouteOutcome::NotFound, RouteV::NotFound) => true,
        (RouteOutcome::MethodNotAllowed, RouteV::MethodNotAllowed) => true,
        _ => false,
    }
}

/// Whether an outcome is what `rv` and the escapes `esc` describe.
pub open spec fn outcome_is<'a, T>(o: RouteOutcome<'a, T>, rv: RouteV, esc: Seq<Seq<u8>>, ms: Seq<(Seq<u8>, Seq<(Pattern, T)>)>) -> bool {
    if esc.len() > 0 {
        match o {
            RouteOutcome::BadRequest { escapes, then } => view_tokens(escapes@) == esc && plain_outcome_is(*then, rv, ms),
            _ => false,
        }
    } else {
        plain_outcome_is(o, rv, ms)
    }
}

/// The outcome, behind the `400`s of the escapes met on the way.
fn finish<'a, T>(outcome: RouteOutcome<'a, T>, escapes: Vec<Vec<u8>>) -> (r: RouteOutcome<'a, T>)
    ensures
        escapes@.len() > 0 ==> r == (RouteOutcome::BadRequest { escapes: escapes, then: Box::new(outcome) }),
        escapes@.len() == 0 ==> r == outcome,
{
    if escapes.len() > 0 {
        RouteOutcome::BadRequest { escapes, then: Box::new(outcome) }
    } else {
        outcome
    }
}

impl<T> Router<T> {
    #[verifier::type_invariant]
    spec fn wf(self) -> bool {
        unique_methods(methods_view(self.methods@))
    }

    pub closed spec fn methods_v(&self) -> Seq<(Seq<u8>, Seq<(Pattern, T)>)> {
        methods_view(self.methods@)
    }

    pub closed spec fn mode_v(&self) -> UnescapingMode {
        self.mode
    }

    pub fn new(mode: UnescapingMode) -> (r: Router<T>)
        ensures
            r.mode_v() == mode,
            r.methods_v() == Seq::<(Seq<u8>, Seq<(Pattern, T)>)>::empty(),
    {
        let r = Router { mode, methods: Vec::new() };
        assert(methods_view(r.methods@) =~= Seq::<(Seq<u8>, Seq<(Pattern, T)>)>::empty());
        r
    }

    fn find_method(&self, method: &[u8]) -> (r: Option<usize>)
        ensures
            match r {
                Some(i) => i < self.methods@.len() && self.methods_v()[i as int].0 == method@
                    && method_index(self.methods_v(), method@) == i,
                None => method_index(self.methods_v(), method@) == -1,
            },
    {
        proof {
            use_type_invariant(self);
        }
        let ghost ms = self.methods_v();
        let mut i: usize = 0;
        while i < self.methods.len()
            invariant
                i <= self.methods@.len(),
                ms == self.methods_v(),
                unique_methods(ms),
                forall|k: int| 0 <= k < i ==> ms[k].0 != method@,
            decreases self.methods@.len() - i,
        {
            if bytes_eq(self.methods[i].0.as_slice(), method) {
                assert(ms[i as int].0 == method@);
                proof {
                    let c = method_index(ms, method@);
                    assert(0 <= c < ms.len() && ms[c].0 == method@);
                    if c != i {
                        if c < i {
                            assert(ms[c].0 != ms[i as int].0);
                        } else {
                            assert(ms[i as int].0 != ms[c].0);
                        }
                    }
                }
                return Some(i);
            }
            i = i + 1;
        }
        None
    }

    /// Registers a handler. It takes precedence over every earlier one for the
    /// same method, as in grpc-gateway.
    pub fn add(&mut self, method: &str, pattern: Pattern, handler: T)
        ensures
            final(self).mode_v() == old(self).mode_v(),
            final(self).methods_v() == spec_add(old(self).methods_v(), method.spec_bytes(), pattern, handler),
    {
        proof {
            use_type_invariant(&*self);
        }
        let m = method.as_bytes();
        let ghost ms = self.methods_v();
        match self.find_method(m) {
            Some(i) => {
                let mut methods: Vec<(Vec<u8>, Vec<(Pattern, T)>)> = Vec::new();
                std::mem::swap(&mut methods, &mut self.methods);
                let mut entry: (Vec<u8>, Vec<(Pattern, T)>) = (Vec::new(), Vec::new());
                methods.set_and_swap(i, &mut entry);
                let ghost before = entry.1@;
                entry.1.push((pattern, handler));
                methods.set_and_swap(i, &mut entry);
                proof {
                    assert(methods_view(methods@) =~= ms.update(i as int, (ms[i as int].0, ms[i as int].1.push((pattern, handler)))));
                }
                self.methods = methods;
            },
            None => {
                let mut methods: Vec<(Vec<u8>, Vec<(Pattern, T)>)> = Vec::new();
                std::mem::swap(&mut methods, &mut self.methods);
                let mut hs: Vec<(Pattern, T)> = Vec::new();
                hs.push((pattern, handler));
                let name = copy_bytes(m);
                methods.push((name, hs));
                proof {
                    let nv = methods_view(methods@);
                    assert(nv =~= ms.push((m@, seq![(pattern, handler)])));
                    assert(unique_methods(nv)) by {
                        assert forall|a: int, b: int| 0 <= a < b < nv.len() implies #[trigger] nv[a].0 != #[trigger] nv[b].0 by {
                            if b == nv.len() - 1 {
                                if ms[a].0 == m@ {
                                    assert(exists|k: int| 0 <= k < ms.len() && ms[k].0 == m@);
                                }
                            }
                        }
                    }
                }
                self.methods = methods;
            },
        }
    }
}


impl<T> Router<T> {
    /// Routes a request. With `fallback` (a `POST` subject to grpc-gateway's
    /// path-length fallback), a `GET` handler matching the path takes the
    /// request; the second value says whether it did.
    pub fn route_with_fallback<'a>(&'a self, method: &str, request: &RequestPath, fallback: bool) -> (r: (
        RouteOutcome<'a, T>,
        bool,
    ))
        ensures
            ({
                let (rv, esc, f) = spec_route(
                    self.methods_v(),
                    method.spec_bytes(),
                    routing_path(request.path_v(), request.raw_path_v(), self.mode_v()),
                    self.mode_v(),
                    fallback,
                );
                outcome_is(r.0, rv, esc, self.methods_v()) && r.1 == f
            }),
    {
        self.route_method(method.as_bytes(), request, fallback)
    }

    /// Routes a request whose method is given as bytes.
    pub fn route_method<'a>(&'a self, method: &[u8], request: &RequestPath, fallback: bool) -> (r: (
        RouteOutcome<'a, T>,
        bool,
    ))
        ensures
            ({
                let (rv, esc, f) = spec_route(
                    self.methods_v(),
                    method@,
                    routing_path(request.path_v(), request.raw_path_v(), self.mode_v()),
                    self.mode_v(),
                    fallback,
                );
                outcome_is(r.0, rv, esc, self.methods_v()) && r.1 == f
            }),
    {
        proof {
            use_type_invariant(self);
            use_type_invariant(request);
        }
        let ghost ms = self.methods_v();
        let m = method;
        let path: &[u8] = match request.raw_path() {
            Some(raw) => if self.mode == UnescapingMode::Legacy {
                request.path()
            } else {
                raw
            },
            None => request.path(),
        };
        let rest = vstd::slice::slice_subrange(path, 1, path.len());
        let components = split(rest, self.mode == UnescapingMode::AllCharacters);
        let ghost comps = view_tokens(components@);
        let n = components.len();
        let last = components[n - 1].as_slice();
        assert(comps.len() > 0);
        assert(last@ == comps.last());
        let mut escapes: Vec<Vec<u8>> = Vec::new();
        let ghost own_i = method_index(ms, m@);
        let ghost first = if own_i >= 0 {
            scan_own(ms[own_i].1, own_i, ms[own_i].1.len() as int, comps, self.mode, Seq::empty())
        } else {
            StepV::Next(Seq::empty())
        };
        assert(view_tokens(escapes@) =~= Seq::<Seq<u8>>::empty());
        let ghost rpath = routing_path(request.path_v(), request.raw_path_v(), self.mode);
        assert(path@ == rpath);
        assert(rest@ == rpath.subrange(1, rpath.len() as int));
        let ghost goal = spec_route(ms, m@, rpath, self.mode, fallback);
        assert(goal == step_result(first) || first is Next);
        match self.find_method(m) {
            Some(own) => {
                let hs = &self.methods[own].1;
                let ghost hv = ms[own as int].1;
                assert(hv == hs@);
                let mut r = hs.len();
                while r > 0
                    invariant
                        r <= hs@.len(),
                        hv == hs@,
                        own < self.methods@.len(),
                        ms == self.methods_v(),
                        hv == ms[own as int].1,
                        comps == view_tokens(components@),
                        last@ == comps.last(),
                        first == scan_own(hv, own as int, hv.len() as int, comps, self.mode, Seq::empty()),
                        first == scan_own(hv, own as int, r as int, comps, self.mode, view_tokens(escapes@)),
                        comps.len() > 0,
                        own_i == own,
                        goal == spec_route(ms, m@, rpath, self.mode, fallback),
                        first is Done ==> goal == step_result(first),
                        m@ == method@,
                        rpath == routing_path(request.path_v(), request.raw_path_v(), self.mode_v()),
                    decreases r,
                {
                    let ghost e0 = view_tokens(escapes@);
                    let p = &hs[r - 1].0;
                    let va = verb_index(last, p.verb());
                    assert(*p == hv[r - 1].0);
                    if va == Some(0usize) {
                        assert(first == StepV::Done(RouteV::NotFound, e0, false));
                        let out = finish(RouteOutcome::NotFound, escapes);
                        assert(goal == (RouteV::NotFound, e0, false));
                        return (out, false);
                    }
                    let ghost vai: Option<int> = match va {
                        Some(i) => Some(i as int),
                        None => None,
                    };
                    assert(spec_verb_index(comps.last(), p.verb_v()) == vai);
                    let (cs, verb) = with_verb_split(components.as_slice(), va);
                    match p.match_components(cs.as_slice(), verb.as_slice(), self.mode) {
                        Ok(params) => {
                            assert(pat_try(*p, comps, vai, self.mode) == Ok::<Map<Seq<u8>, Seq<u8>>, MatchErrV>(params@));
                            assert(first == StepV::Done(RouteV::Matched(own as int, r - 1, params@), e0, false));
                            let handler = &hs[r - 1].1;
                            assert(*handler == ms[own as int].1[r - 1].1);
                            let out = finish(RouteOutcome::Matched { handler, params }, escapes);
                            assert(goal == (RouteV::Matched(own as int, r - 1, params@), e0, false));
                            return (out, false);
                        },
                        Err(MatchError::MalformedEscape(q)) => {
                            let ghost qv = q@;
                            escapes.push(q);
                            assert(view_tokens(escapes@) =~= e0.push(qv));
                        },
                        Err(MatchError::NoMatch) => {},
                    }
                    r = r - 1;
                }
            },
            None => {},
        }
        let ghost esc1 = view_tokens(escapes@);
        assert(first == StepV::Next(esc1));
        let ghost target = scan_others(ms, m@, 0, handler_count(ms, 0), comps, self.mode, fallback, esc1);
        assert(goal == step_result(target));
        let mut mi: usize = 0;
        while mi < self.methods.len()
            invariant
                mi <= self.methods@.len(),
                ms == self.methods_v(),
                comps == view_tokens(components@),
                last@ == comps.last(),
                comps.len() > 0,
                goal == step_result(target),
                target == scan_others(ms, m@, mi as int, handler_count(ms, mi as int), comps, self.mode, fallback, view_tokens(escapes@)),
                goal == spec_route(ms, m@, rpath, self.mode, fallback),
                m@ == method@,
                rpath == routing_path(request.path_v(), request.raw_path_v(), self.mode_v()),
            decreases self.methods@.len() - mi,
        {
            if !bytes_eq(self.methods[mi].0.as_slice(), m) {
                let hs = &self.methods[mi].1;
                let mut r = hs.len();
                while r > 0
                    invariant
                        r <= hs@.len(),
                        mi < self.methods@.len(),
                        ms == self.methods_v(),
                        hs@ == ms[mi as int].1,
                        ms[mi as int].0 != m@,
                        comps == view_tokens(components@),
                        last@ == comps.last(),
                        comps.len() > 0,
                        goal == step_result(target),
                        target == scan_others(ms, m@, mi as int, r as int, comps, self.mode, fallback, view_tokens(escapes@)),
                        goal == spec_route(ms, m@, rpath, self.mode, fallback),
                        m@ == method@,
                        rpath == routing_path(request.path_v(), request.raw_path_v(), self.mode_v()),
                    decreases r,
                {
                    let ghost e0 = view_tokens(escapes@);
                    let p = &hs[r - 1].0;
                    let va0 = verb_index(last, p.verb());
                    let va = match va0 {
                        Some(i) => if i > 0 { va0 } else { None },
                        None => None,
                    };
                    let (cs, verb) = with_verb_split(components.as_slice(), va);
                    match p.match_components(cs.as_slice(), verb.as_slice(), self.mode) {
                        Ok(params) => {
                            let name = self.methods[mi].0.as_slice();
                            if fallback && name.len() == 3 && name[0] == 71 && name[1] == 69 && name[2] == 84 {
                                assert(ms[mi as int].0 =~= seq![71u8, 69u8, 84u8]);
                                let handler = &hs[r - 1].1;
                                return (finish(RouteOutcome::Matched { handler, params }, escapes), true);
                            }
                            proof {
                                if fallback && ms[mi as int].0 == seq![71u8, 69u8, 84u8] {
                                    assert(name@ == ms[mi as int].0);
                                }
                            }
                            return (finish(RouteOutcome::MethodNotAllowed, escapes), false);
                        },
                        Err(MatchError::MalformedEscape(q)) => {
                            let ghost qv = q@;
                            escapes.push(q);
                            assert(view_tokens(escapes@) =~= e0.push(qv));
                        },
                        Err(MatchError::NoMatch) => {},
                    }
                    r = r - 1;
                }
            }
            mi = mi + 1;
        }
        (finish(RouteOutcome::NotFound, escapes), false)
    }

    /// Routes a request.
    pub fn route<'a>(&'a self, method: &str, request: &RequestPath) -> (r: RouteOutcome<'a, T>)
        ensures
            ({
                let (rv, esc, f) = spec_route(
                    self.methods_v(),
                    method.spec_bytes(),
                    routing_path(request.path_v(), request.raw_path_v(), self.mode_v()),
                    self.mode_v(),
                    false,
                );
                outcome_is(r, rv, esc, self.methods_v())
            }),
    {
        self.route_with_fallback(method, request, false).0
    }
}


/// The handler registered last for a method takes every request of that method
/// whose path its pattern matches: routing names that handler, with the
/// parameters its pattern binds, meets no malformed escape on the way and takes
/// no fallback, whatever was registered before.
pub proof fn lemma_newest_registration_wins<T>(
    ms: Seq<(Seq<u8>, Seq<(Pattern, T)>)>,
    method: Seq<u8>,
    pattern: Pattern,
    handler: T,
    path: Seq<u8>,
    mode: UnescapingMode,
    fallback: bool,
)
    requires
        unique_methods(ms),
        ({
            let comps = spec_split(path.subrange(1, path.len() as int), mode == UnescapingMode::AllCharacters);
            let va = spec_verb_index(comps.last(), pattern.verb_v());
            va != Some(0int) && pat_try(pattern, comps, va, mode) is Ok
        }),
    ensures
        ({
            let ms2 = spec_add(ms, method, pattern, handler);
            let comps = spec_split(path.subrange(1, path.len() as int), mode == UnescapingMode::AllCharacters);
            let va = spec_verb_index(comps.last(), pattern.verb_v());
            let (rv, esc, f) = spec_route(ms2, method, path, mode, fallback);
            &&& rv matches RouteV::Matched(mi, hi, m) && 0 <= mi < ms2.len() && 0 <= hi < ms2[mi].1.len()
                && ms2[mi].1[hi] == (pattern, handler) && pat_try(pattern, comps, va, mode) == Ok::<Map<Seq<u8>, Seq<u8>>, MatchErrV>(m)
            &&& esc.len() == 0
            &&& !f
        }),
{
    let ms2 = spec_add(ms, method, pattern, handler);
    let i = method_index(ms, method);
    let c = method_index(ms2, method);
    if i >= 0 {
        assert(ms2[i].0 == method);
        assert(0 <= c < ms2.len() && ms2[c].0 == method);
        if c != i {
            if c < i {
                assert(ms[c].0 != ms[i].0);
            } else {
                assert(ms[i].0 != ms[c].0);
            }
        }
        assert(c == i);
    } else {
        assert(ms2[ms.len() as int].0 == method);
        assert(0 <= c < ms2.len() && ms2[c].0 == method);
        if c < ms.len() {
            assert(ms[c].0 == method);
        }
        assert(c == ms.len());
    }
    let hs = ms2[c].1;
    assert(hs.len() > 0 && hs[hs.len() - 1] == (pattern, handler));
}

} // verus!
