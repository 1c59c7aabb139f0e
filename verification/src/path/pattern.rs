//! Matching request path components against a compiled template:
//! grpc-gateway's `runtime.Pattern`.
use vstd::prelude::*;
use vstd::string::StringSliceAdditionalSpecFns;
use crate::bytes::{ascii_hex_digit, byte_order, bytes_eq, bytes_le, copy_bytes, lemma_byte_order_total, lex_le, copy_range, hex_digit_value, hex_value, is_hex_digit, push_all};
use crate::path::template::{spec_parse_error, 
    spec_parse,
    leaf_op, ops_view, raw_ops, seg_view, segs_view, flat_view, view_tokens, Operand,
    OperandV, ParseError, PathTemplate, SegV, COLON, OP_CAPTURE, OP_CONCAT_N, OP_LIT_PUSH, OP_PUSH, OP_PUSH_M,
    PERCENT, SLASH,
};

verus! {

/// How percent-escapes in captured path values are decoded. The variants and
/// the default are grpc-gateway's.
#[derive(Debug, Clone, Copy, Default, PartialEq, Eq, Structural)]
pub enum UnescapingMode {
    /// The whole path is decoded before routing, so `%2F` splits components.
    #[default]
    Legacy,
    /// Decode everything except RFC 6570 reserved characters in `**` captures.
    AllExceptReserved,
    /// Decode everything except `/` in `**` captures.
    AllExceptSlash,
    /// Decode everything; `%2F` also splits components.
    AllCharacters,
}

/// A template grpc-gateway parses but refuses as a pattern.
#[derive(Debug, Clone, PartialEq, Eq)]
pub enum PatternError {
    Parse(ParseError),
    /// More than one `**`: the match would be ambiguous.
    DeepWildcardTwice { template: String },
}

/// Why a path did not bind.
#[derive(Debug, Clone, PartialEq, Eq)]
pub enum MatchError {
    NoMatch,
    /// A `%` not followed by two hex digits; grpc-gateway answers 400.
    MalformedEscape(Vec<u8>),
}

/// The mathematical form of a match error.
pub enum MatchErrV {
    NoMatch,
    MalformedEscape(Seq<u8>),
}

pub open spec fn match_err_view(e: MatchError) -> MatchErrV {
    match e {
        MatchError::NoMatch => MatchErrV::NoMatch,
        MatchError::MalformedEscape(s) => MatchErrV::MalformedEscape(s@),
    }
}

// ---------------------------------------------------------------- unescape

pub open spec fn is_rfc6570_reserved_spec(c: u8) -> bool {
    c == 33 || c == 35 || c == 36 || c == 38 || c == 39 || c == 40 || c == 41 || c == 42 || c == 43
        || c == 44 || c == 47 || c == 58 || c == 59 || c == 61 || c == 63 || c == 64 || c == 91
        || c == 93
}

fn is_rfc6570_reserved(c: u8) -> (r: bool)
    ensures
        r == is_rfc6570_reserved_spec(c),
{
    c == 33 || c == 35 || c == 36 || c == 38 || c == 39 || c == 40 || c == 41 || c == 42 || c == 43
        || c == 44 || c == 47 || c == 58 || c == 59 || c == 61 || c == 63 || c == 64 || c == 91
        || c == 93
}

fn hex(c: u8) -> (r: u8)
    requires
        is_hex_digit(c),
    ensures
        r == hex_value(c),
        r < 16,
{
    hex_digit_value(c)
}

/// Whether the escape `%XY` at `i` is well formed.
pub open spec fn escape_ok(s: Seq<u8>, i: int) -> bool {
    i + 2 < s.len() && is_hex_digit(s[i + 1]) && is_hex_digit(s[i + 2])
}

/// The first malformed escape at or after `i`, scanning escapes three bytes
/// at a time, or -1.
pub open spec fn first_bad_escape(s: Seq<u8>, i: int) -> int
    decreases s.len() - i,
{
    if i < 0 || i >= s.len() {
        -1
    } else if s[i] == PERCENT {
        if escape_ok(s, i) {
            first_bad_escape(s, i + 3)
        } else {
            i
        }
    } else {
        first_bad_escape(s, i + 1)
    }
}

/// The byte an escape stands for.
pub open spec fn escaped_byte(s: Seq<u8>, i: int) -> u8 {
    (hex_value(s[i + 1]) * 16 + hex_value(s[i + 2])) as u8
}

/// Whether `mode` decodes the escaped byte `c`.
pub open spec fn decodes(mode: UnescapingMode, c: u8) -> bool {
    match mode {
        UnescapingMode::AllExceptReserved => !is_rfc6570_reserved_spec(c),
        UnescapingMode::AllExceptSlash => c != SLASH,
        _ => true,
    }
}

/// `s[i..]` with the escapes `mode` decodes replaced by their bytes.
pub open spec fn decode_from(s: Seq<u8>, i: int, mode: UnescapingMode) -> Seq<u8>
    decreases s.len() - i,
{
    if i < 0 || i >= s.len() {
        Seq::empty()
    } else if s[i] == PERCENT && escape_ok(s, i) && decodes(mode, escaped_byte(s, i)) {
        seq![escaped_byte(s, i)] + decode_from(s, i + 3, mode)
    } else {
        seq![s[i]] + decode_from(s, i + 1, mode)
    }
}

/// `unescape(s, mode, multisegment)`: a single component is always fully
/// decoded; a `**` capture follows `mode`; `Legacy` leaves everything alone.
pub open spec fn spec_unescape(s: Seq<u8>, mode: UnescapingMode, multisegment: bool) -> Result<Seq<u8>, MatchErrV> {
    if mode == UnescapingMode::Legacy {
        Ok(s)
    } else {
        let m = if multisegment { mode } else { UnescapingMode::AllCharacters };
        let bad = first_bad_escape(s, 0);
        if bad >= 0 {
            Err(MatchErrV::MalformedEscape(s.subrange(bad, if bad + 3 < s.len() { bad + 3 } else { s.len() as int })))
        } else {
            Ok(decode_from(s, 0, m))
        }
    }
}

proof fn lemma_decode_no_percent(s: Seq<u8>, i: int, mode: UnescapingMode)
    requires
        0 <= i <= s.len(),
        forall|k: int| i <= k < s.len() ==> #[trigger] s[k] != PERCENT,
    ensures
        decode_from(s, i, mode) == s.subrange(i, s.len() as int),
    decreases s.len() - i,
{
    if i < s.len() {
        lemma_decode_no_percent(s, i + 1, mode);
        assert(seq![s[i]] + s.subrange(i + 1, s.len() as int) =~= s.subrange(i, s.len() as int));
    } else {
        assert(s.subrange(i, s.len() as int) =~= Seq::<u8>::empty());
    }
}

fn unescape(s: &[u8], mode: UnescapingMode, multisegment: bool) -> (r: Result<Vec<u8>, MatchError>)
    ensures
        match r {
            Ok(v) => spec_unescape(s@, mode, multisegment) == Ok::<Seq<u8>, MatchErrV>(v@),
            Err(e) => spec_unescape(s@, mode, multisegment) == Err::<Seq<u8>, MatchErrV>(match_err_view(e)),
        },
{
    if mode == UnescapingMode::Legacy {
        return Ok(copy_bytes(s));
    }
    let m = if multisegment { mode } else { UnescapingMode::AllCharacters };
    let mut escapes: usize = 0;
    let mut i: usize = 0;
    while i < s.len()
        invariant
            mode != UnescapingMode::Legacy,
            m == (if multisegment { mode } else { UnescapingMode::AllCharacters }),
            i <= s@.len(),
            escapes <= i,
            first_bad_escape(s@, 0) == first_bad_escape(s@, i as int),
            escapes == 0 ==> forall|k: int| 0 <= k < i && k < s@.len() ==> #[trigger] s@[k] != PERCENT,
        decreases s@.len() - i,
    {
        if s[i] == PERCENT {
            escapes = escapes + 1;
            if s.len() - i <= 2 || !ascii_hex_digit(s[i + 1]) || !ascii_hex_digit(s[i + 2]) {
                let end = if s.len() - i > 3 { i + 3 } else { s.len() };
                assert(!escape_ok(s@, i as int));
                assert(first_bad_escape(s@, i as int) == i);
                return Err(MatchError::MalformedEscape(copy_range(s, i, end)));
            }
            i = i + 3;
        } else {
            i = i + 1;
        }
    }
    if escapes == 0 {
        proof {
            lemma_decode_no_percent(s@, 0, m);
            assert(s@.subrange(0, s@.len() as int) =~= s@);
        }
        return Ok(copy_bytes(s));
    }
    let mut out: Vec<u8> = Vec::new();
    let mut i: usize = 0;
    while i < s.len()
        invariant
            mode != UnescapingMode::Legacy,
            m == (if multisegment { mode } else { UnescapingMode::AllCharacters }),
            i <= s@.len(),
            first_bad_escape(s@, 0) == -1,
            first_bad_escape(s@, i as int) == -1,
            out@ + decode_from(s@, i as int, m) == decode_from(s@, 0, m),
        decreases s@.len() - i,
    {
        let ghost o = out@;
        if s[i] == PERCENT {
            let c = hex(s[i + 1]) * 16 + hex(s[i + 2]);
            let decode = match m {
                UnescapingMode::AllExceptReserved => !is_rfc6570_reserved(c),
                UnescapingMode::AllExceptSlash => c != SLASH,
                _ => true,
            };
            if decode {
                out.push(c);
                assert(o + decode_from(s@, i as int, m) =~= out@ + decode_from(s@, i + 3, m));
                i = i + 3;
                continue;
            }
        }
        out.push(s[i]);
        proof {
            if s@[i as int] == PERCENT {
                assert(first_bad_escape(s@, i + 1) == -1) by {
                    lemma_bad_escape_skip(s@, i as int);
                }
            }
        }
        assert(o + decode_from(s@, i as int, m) =~= out@ + decode_from(s@, i + 1, m));
        i = i + 1;
    }
    assert(out@ =~= out@ + decode_from(s@, i as int, m));
    Ok(out)
}

/// Past a well-formed escape, the escape's hex digits are not `%`.
proof fn lemma_bad_escape_skip(s: Seq<u8>, i: int)
    requires
        0 <= i < s.len(),
        s[i] == PERCENT,
        first_bad_escape(s, i) == -1,
    ensures
        first_bad_escape(s, i + 1) == -1,
{
    assert(escape_ok(s, i));
    assert(s[i + 1] != PERCENT && s[i + 2] != PERCENT);
    assert(first_bad_escape(s, i + 1) == first_bad_escape(s, i + 2));
    assert(first_bad_escape(s, i + 2) == first_bad_escape(s, i + 3));
}


// ---------------------------------------------------------------- path params

/// The map a list of `(key, value)` entries makes, later entries winning.
pub open spec fn entries_map(e: Seq<(Seq<u8>, Seq<u8>)>) -> Map<Seq<u8>, Seq<u8>>
    decreases e.len(),
{
    if e.len() == 0 {
        Map::empty()
    } else {
        entries_map(e.drop_last()).insert(e.last().0, e.last().1)
    }
}

pub open spec fn unique_keys(e: Seq<(Seq<u8>, Seq<u8>)>) -> bool {
    forall|i: int, j: int| 0 <= i < j < e.len() ==> #[trigger] e[i].0 != #[trigger] e[j].0
}

/// The keys come in Go's string order.
pub open spec fn keys_sorted(e: Seq<(Seq<u8>, Seq<u8>)>) -> bool {
    forall|i: int, j: int| 0 <= i < j < e.len() ==> lex_le(#[trigger] e[i].0, #[trigger] e[j].0)
}

proof fn lemma_entries_lookup(e: Seq<(Seq<u8>, Seq<u8>)>, k: Seq<u8>)
    requires
        unique_keys(e),
    ensures
        entries_map(e).dom().finite(),
        entries_map(e).dom().len() == e.len(),
        forall|i: int| 0 <= i < e.len() && e[i].0 == k ==> entries_map(e).contains_key(k) && entries_map(e)[k] == e[i].1,
        (forall|i: int| 0 <= i < e.len() ==> e[i].0 != k) ==> !entries_map(e).contains_key(k),
    decreases e.len(),
{
    if e.len() > 0 {
        let d = e.drop_last();
        assert(unique_keys(d));
        lemma_entries_lookup(d, k);
        lemma_entries_lookup(d, e.last().0);
        assert forall|i: int| 0 <= i < d.len() implies d[i].0 != e.last().0 by {
            assert(e[i].0 != e[e.len() - 1].0);
        }
        assert forall|i: int| 0 <= i < e.len() && e[i].0 == k implies entries_map(e).contains_key(k)
            && entries_map(e)[k] == e[i].1 by {
            if i < e.len() - 1 {
                assert(e[i].0 != e[e.len() - 1].0);
                assert(d[i] == e[i]);
            }
        }
    }
}

proof fn lemma_entries_update(e: Seq<(Seq<u8>, Seq<u8>)>, i: int, v: Seq<u8>)
    requires
        unique_keys(e),
        0 <= i < e.len(),
    ensures
        entries_map(e.update(i, (e[i].0, v))) == entries_map(e).insert(e[i].0, v),
    decreases e.len(),
{
    let k = e[i].0;
    let e2 = e.update(i, (k, v));
    if i == e.len() - 1 {
        assert(e2.drop_last() =~= e.drop_last());
        assert(entries_map(e2) =~= entries_map(e).insert(k, v));
    } else {
        let d = e.drop_last();
        assert(unique_keys(d));
        lemma_entries_update(d, i, v);
        assert(e2.drop_last() =~= d.update(i, (k, v)));
        assert(e.last().0 != k);
        assert(entries_map(e2) =~= entries_map(e).insert(k, v));
    }
}

/// Values bound by a match, keyed by field path. Values are bytes: a decoded
/// escape need not be UTF-8.
#[derive(Debug, PartialEq, Eq)]
pub struct PathParams {
    entries: Vec<(Vec<u8>, Vec<u8>)>,
}

pub open spec fn entries_view(v: Seq<(Vec<u8>, Vec<u8>)>) -> Seq<(Seq<u8>, Seq<u8>)> {
    v.map_values(|p: (Vec<u8>, Vec<u8>)| (p.0@, p.1@))
}

impl View for PathParams {
    type V = Map<Seq<u8>, Seq<u8>>;

    closed spec fn view(&self) -> Map<Seq<u8>, Seq<u8>> {
        entries_map(entries_view(self.entries@))
    }
}

impl PathParams {
    #[verifier::type_invariant]
    spec fn wf(self) -> bool {
        unique_keys(entries_view(self.entries@)) && keys_sorted(entries_view(self.entries@))
    }

    fn empty() -> (r: PathParams)
        ensures
            r@ == Map::<Seq<u8>, Seq<u8>>::empty(),
    {
        let r = PathParams { entries: Vec::new() };
        assert(entries_view(r.entries@) =~= Seq::<(Seq<u8>, Seq<u8>)>::empty());
        r
    }

    fn find(&self, key: &[u8]) -> (r: Option<usize>)
        ensures
            match r {
                Some(i) => i < self.entries@.len() && self.entries@[i as int].0@ == key@,
                None => forall|i: int| 0 <= i < self.entries@.len() ==> self.entries@[i].0@ != key@,
            },
    {
        let mut i: usize = 0;
        while i < self.entries.len()
            invariant
                i <= self.entries@.len(),
                forall|m: int| 0 <= m < i ==> self.entries@[m].0@ != key@,
            decreases self.entries@.len() - i,
        {
            if bytes_eq(self.entries[i].0.as_slice(), key) {
                return Some(i);
            }
            i = i + 1;
        }
        None
    }

    /// Binds `key` to `value`, replacing an earlier binding; the entries
    /// stay in key order.
    fn insert(&mut self, key: Vec<u8>, value: Vec<u8>)
        ensures
            final(self)@ == old(self)@.insert(key@, value@),
    {
        proof {
            use_type_invariant(&*self);
            lemma_byte_order_total();
        }
        let ghost e = entries_view(self.entries@);
        let ghost ord = byte_order();
        let mut i: usize = 0;
        while i < self.entries.len() && !bytes_le(key.as_slice(), self.entries[i].0.as_slice())
            invariant
                i <= self.entries@.len(),
                e == entries_view(self.entries@),
                forall|m: int| 0 <= m < i ==> !lex_le(key@, #[trigger] e[m].0),
            decreases self.entries@.len() - i,
        {
            i = i + 1;
        }
        if i < self.entries.len() && bytes_eq(self.entries[i].0.as_slice(), key.as_slice()) {
            let mut entries: Vec<(Vec<u8>, Vec<u8>)> = Vec::new();
            std::mem::swap(&mut entries, &mut self.entries);
            let k = copy_bytes(entries[i].0.as_slice());
            entries.set(i, (k, value));
            proof {
                assert(entries_view(entries@) =~= e.update(i as int, (e[i as int].0, value@)));
                lemma_entries_update(e, i as int, value@);
                let e2 = entries_view(entries@);
                assert forall|a: int, b: int| 0 <= a < b < e2.len() implies lex_le(#[trigger] e2[a].0, #[trigger] e2[b].0) by {
                    assert(e2[a].0 == e[a].0 && e2[b].0 == e[b].0);
                }
            }
            self.entries = entries;
        } else {
            let mut entries: Vec<(Vec<u8>, Vec<u8>)> = Vec::new();
            std::mem::swap(&mut entries, &mut self.entries);
            let ghost kv = key@;
            let ghost vv = value@;
            entries.insert(i, (key, value));
            proof {
                let e2 = entries_view(entries@);
                assert(e2 =~= e.insert(i as int, (kv, vv)));
                assert forall|m: int| 0 <= m < e.len() implies #[trigger] e[m].0 != kv by {
                    if m < i {
                        assert(ord(kv, kv));
                    } else {
                        assert(lex_le(kv, e[i as int].0));
                        assert(kv != e[i as int].0);
                        if m > i && e[m].0 == kv {
                            assert(lex_le(e[i as int].0, e[m].0));
                            assert(ord(kv, e[i as int].0) && ord(e[i as int].0, kv));
                        }
                    }
                }
                assert(unique_keys(e2)) by {
                    assert forall|a: int, b: int| 0 <= a < b < e2.len() implies #[trigger] e2[a].0 != #[trigger] e2[b].0 by {
                        if a < i && b < i {
                        } else if a < i && b == i {
                        } else if a < i {
                            assert(e2[b] == e[b - 1]);
                        } else if a == i {
                            assert(e2[b] == e[b - 1]);
                        } else {
                            assert(e2[a] == e[a - 1] && e2[b] == e[b - 1]);
                        }
                    }
                }
                assert(keys_sorted(e2)) by {
                    assert forall|a: int, b: int| 0 <= a < b < e2.len() implies lex_le(#[trigger] e2[a].0, #[trigger] e2[b].0) by {
                        if a < i && b < i {
                        } else if a < i && b == i {
                            assert(!ord(kv, e[a].0));
                            assert(ord(e[a].0, kv) || ord(kv, e[a].0));
                        } else if a < i {
                            assert(e2[b] == e[b - 1]);
                        } else if a == i {
                            assert(e2[b] == e[b - 1]);
                            assert(lex_le(kv, e[i as int].0));
                            if b - 1 > i {
                                assert(lex_le(e[i as int].0, e[b - 1].0));
                                assert(ord(kv, e[i as int].0) && ord(e[i as int].0, e[b - 1].0));
                            }
                        } else {
                            assert(e2[a] == e[a - 1] && e2[b] == e[b - 1]);
                        }
                    }
                }
                assert(entries_map(e2) =~= entries_map(e).insert(kv, vv)) by {
                    assert forall|x: Seq<u8>| #[trigger] entries_map(e2).contains_key(x) == entries_map(e).insert(kv, vv).contains_key(x)
                        && (entries_map(e2).contains_key(x) ==> entries_map(e2)[x] == entries_map(e).insert(kv, vv)[x]) by {
                        lemma_entries_lookup(e, x);
                        lemma_entries_lookup(e2, x);
                        if x == kv {
                            assert(e2[i as int].0 == kv);
                        } else {
                            assert forall|m: int| 0 <= m < e.len() && e[m].0 == x implies e2[if m < i { m } else { m + 1 }] == e[m] by {}
                            assert forall|m: int| 0 <= m < e2.len() && e2[m].0 == x implies (m != i && e[if m < i { m } else { m - 1 }] == e2[m]) by {}
                        }
                    }
                }
            }
            self.entries = entries;
        }
    }

    /// The value bound to a field path.
    pub fn get(&self, field_path: &[u8]) -> (r: Option<&[u8]>)
        ensures
            match r {
                Some(v) => self@.contains_key(field_path@) && self@[field_path@] == v@,
                None => !self@.contains_key(field_path@),
            },
    {
        proof {
            use_type_invariant(self);
            lemma_entries_lookup(entries_view(self.entries@), field_path@);
        }
        match self.find(field_path) {
            Some(i) => {
                assert(entries_view(self.entries@)[i as int].0 == field_path@);
                Some(self.entries[i].1.as_slice())
            },
            None => {
                assert forall|m: int| 0 <= m < entries_view(self.entries@).len() implies entries_view(
                    self.entries@,
                )[m].0 != field_path@ by {
                    assert(self.entries@[m].0@ != field_path@);
                }
                None
            },
        }
    }

    /// The number of bound field paths.
    pub fn len(&self) -> (r: usize)
        ensures
            r == self@.dom().len(),
    {
        proof {
            use_type_invariant(self);
            lemma_entries_lookup(entries_view(self.entries@), Seq::empty());
        }
        self.entries.len()
    }

    pub fn is_empty(&self) -> (r: bool)
        ensures
            r == (self@.dom().len() == 0),
    {
        proof {
            use_type_invariant(self);
            lemma_entries_lookup(entries_view(self.entries@), Seq::empty());
        }
        self.entries.len() == 0
    }

    /// The bindings as (field path, value) pairs, in Go's string order of the
    /// paths.
    pub fn iter(&self) -> (r: Vec<(&[u8], &[u8])>)
        ensures
            entries_map(r@.map_values(|p: (&[u8], &[u8])| (p.0@, p.1@))) == self@,
            unique_keys(r@.map_values(|p: (&[u8], &[u8])| (p.0@, p.1@))),
            keys_sorted(r@.map_values(|p: (&[u8], &[u8])| (p.0@, p.1@))),
    {
        proof {
            use_type_invariant(self);
        }
        let ghost e = entries_view(self.entries@);
        let mut r: Vec<(&[u8], &[u8])> = Vec::new();
        let mut i: usize = 0;
        while i < self.entries.len()
            invariant
                i <= self.entries@.len(),
                e == entries_view(self.entries@),
                r@.map_values(|p: (&[u8], &[u8])| (p.0@, p.1@)) == e.subrange(0, i as int),
            decreases self.entries@.len() - i,
        {
            let ghost before = r@;
            let k = self.entries[i].0.as_slice();
            let v = self.entries[i].1.as_slice();
            r.push((k, v));
            proof {
                assert(r@ == before.push((k, v)));
                assert(e[i as int] == (self.entries@[i as int].0@, self.entries@[i as int].1@));
                assert(k@ == e[i as int].0 && v@ == e[i as int].1);
                let rv = r@.map_values(|p: (&[u8], &[u8])| (p.0@, p.1@));
                let bv = before.map_values(|p: (&[u8], &[u8])| (p.0@, p.1@));
                assert(bv == e.subrange(0, i as int));
                assert(bv.len() == i);
                assert(rv.len() == i + 1);
                assert forall|q: int| 0 <= q < i + 1 implies rv[q] == e.subrange(0, i + 1)[q] by {
                    if q < i {
                        assert(r@[q] == before[q]);
                        assert(bv[q] == e.subrange(0, i as int)[q]);
                    }
                }
                assert(rv =~= e.subrange(0, i + 1));
            }
            i = i + 1;
        }
        assert(e.subrange(0, e.len() as int) =~= e);
        r
    }

    /// The bindings, one per field path, in Go's string order of the paths.
    pub fn entries(&self) -> (r: &[(Vec<u8>, Vec<u8>)])
        ensures
            entries_map(entries_view(r@)) == self@,
            unique_keys(entries_view(r@)),
            keys_sorted(entries_view(r@)),
    {
        proof {
            use_type_invariant(self);
        }
        self.entries.as_slice()
    }
}


// ---------------------------------------------------------------- pattern

/// One operation of the matching machine.
#[derive(Debug)]
enum Op {
    /// Push one component, fully unescaped.
    Push,
    /// Push one component equal to this literal.
    LitPush(Vec<u8>),
    /// Push the components a `**` covers, leaving room for the tail.
    PushM,
    /// Replace the top `n` stack entries by their `/`-join.
    ConcatN(usize),
    /// Pop the top entry into the capture with this index.
    Capture(usize),
}

pub enum OpV {
    Push,
    LitPush(Seq<u8>),
    PushM,
    ConcatN(int),
    Capture(int),
}

spec fn op_view(o: Op) -> OpV {
    match o {
        Op::Push => OpV::Push,
        Op::LitPush(l) => OpV::LitPush(l@),
        Op::PushM => OpV::PushM,
        Op::ConcatN(n) => OpV::ConcatN(n as int),
        Op::Capture(i) => OpV::Capture(i as int),
    }
}

pub open spec fn opd_str(o: OperandV) -> Seq<u8> {
    match o {
        OperandV::Str(s) => s,
        _ => Seq::empty(),
    }
}

pub open spec fn opd_num(o: OperandV) -> int {
    match o {
        OperandV::Num(n) => n,
        _ => 0,
    }
}

/// The machine a template compiles to, after its first `n` operations:
/// operations, captured field paths, how many components follow the `**`,
/// and whether a `**` was seen. `None` when a second `**` appears.
pub open spec fn build_pattern(raw: Seq<(i64, OperandV)>, n: int) -> Option<(Seq<OpV>, Seq<Seq<u8>>, int, bool)>
    decreases n,
{
    if n <= 0 || n > raw.len() {
        Some((Seq::empty(), Seq::empty(), 0, false))
    } else {
        match build_pattern(raw, n - 1) {
            None => None,
            Some((ops, vars, tail, deep)) => {
                let (code, o) = raw[n - 1];
                let grow = if deep { 1int } else { 0int };
                if code == OP_PUSH {
                    Some((ops.push(OpV::Push), vars, tail + grow, deep))
                } else if code == OP_LIT_PUSH {
                    Some((ops.push(OpV::LitPush(opd_str(o))), vars, tail + grow, deep))
                } else if code == OP_PUSH_M {
                    if deep {
                        None
                    } else {
                        Some((ops.push(OpV::PushM), vars, tail, true))
                    }
                } else if code == OP_CONCAT_N {
                    Some((ops.push(OpV::ConcatN(opd_num(o))), vars, tail, deep))
                } else {
                    Some((ops.push(OpV::Capture(vars.len() as int)), vars.push(opd_str(o)), tail, deep))
                }
            },
        }
    }
}

proof fn lemma_build_none(raw: Seq<(i64, OperandV)>, n: int, m: int)
    requires
        0 < n <= m <= raw.len(),
        build_pattern(raw, n) is None,
    ensures
        build_pattern(raw, m) is None,
    decreases m - n,
{
    if n < m {
        lemma_build_none(raw, n, m - 1);
    }
}

/// The machine of a template: `None` when it has two `**`.
pub open spec fn spec_pattern(t: Seq<SegV>) -> Option<(Seq<OpV>, Seq<Seq<u8>>, int, bool)> {
    build_pattern(raw_ops(t), raw_ops(t).len() as int)
}

/// A compiled template, ready to match.
#[derive(Debug)]
pub struct Pattern {
    template: PathTemplate,
    ops: Vec<Op>,
    vars: Vec<Vec<u8>>,
    tail_len: usize,
}

impl Pattern {
    pub closed spec fn ops_v(&self) -> Seq<OpV> {
        self.ops@.map_values(|o: Op| op_view(o))
    }

    pub closed spec fn vars_v(&self) -> Seq<Seq<u8>> {
        view_tokens(self.vars@)
    }

    pub closed spec fn tail_v(&self) -> int {
        self.tail_len as int
    }

    pub closed spec fn template_segs(&self) -> Seq<SegV> {
        self.template.segs()
    }

    pub closed spec fn verb_v(&self) -> Seq<u8> {
        self.template.verb_view()
    }

    pub closed spec fn source_v(&self) -> Seq<char> {
        self.template.source_view()
    }

    /// Parses and compiles a template.
    pub fn new(template: &str) -> (r: Result<Pattern, PatternError>)
        ensures
            match r {
                Ok(p) => p.source_v() == template@ && (spec_parse(template.spec_bytes()) == Some((p.template_segs(), p.verb_v()))
                    && spec_pattern(p.template_segs()) == Some((p.ops_v(), p.vars_v(), p.tail_v(), true))
                    || spec_parse(template.spec_bytes()) == Some((p.template_segs(), p.verb_v()))
                    && spec_pattern(p.template_segs()) == Some((p.ops_v(), p.vars_v(), p.tail_v(), false))),
                Err(PatternError::Parse(e)) => spec_parse(template.spec_bytes()) is None && e.template_view() == template@
                    && e.message_view() == spec_parse_error(template.spec_bytes()),
                Err(PatternError::DeepWildcardTwice { template: t }) => (spec_parse(template.spec_bytes()) matches Some((
                    s,
                    _,
                )) && spec_pattern(s) is None) && t@ == template@,
            },
    {
        let t = match PathTemplate::parse(template) {
            Ok(t) => t,
            Err(e) => return Err(PatternError::Parse(e)),
        };
        Self::from_template(t)
    }

    /// Compiles a parsed template; refused when it holds two `**`.
    pub fn from_template(template: PathTemplate) -> (r: Result<Pattern, PatternError>)
        ensures
            match r {
                Ok(p) => p.template_segs() == template.segs() && p.verb_v() == template.verb_view()
                    && p.source_v() == template.source_view()
                    && (spec_pattern(template.segs()) == Some((p.ops_v(), p.vars_v(), p.tail_v(), true))
                    || spec_pattern(template.segs()) == Some((p.ops_v(), p.vars_v(), p.tail_v(), false))),
                Err(PatternError::DeepWildcardTwice { template: t }) => spec_pattern(template.segs()) is None
                    && t@ == template.source_view(),
                Err(PatternError::Parse(_)) => false,
            },
    {
        let raw = template.raw_ops();
        let ghost rv = ops_view(raw@);
        let mut ops: Vec<Op> = Vec::new();
        let mut vars: Vec<Vec<u8>> = Vec::new();
        let mut tail_len: usize = 0;
        let mut deep_seen = false;
        let mut k: usize = 0;
        while k < raw.len()
            invariant
                k <= raw@.len(),
                rv == ops_view(raw@),
                rv == raw_ops(template.segs()),
                tail_len <= k,
                build_pattern(rv, k as int) == Some((
                    ops@.map_values(|o: Op| op_view(o)),
                    view_tokens(vars@),
                    tail_len as int,
                    deep_seen,
                )),
            decreases raw@.len() - k,
        {
            let ghost ov = ops@.map_values(|o: Op| op_view(o));
            let ghost vv = view_tokens(vars@);
            let code = raw[k].0;
            let op = if code == OP_PUSH {
                if deep_seen {
                    tail_len = tail_len + 1;
                }
                Op::Push
            } else if code == OP_LIT_PUSH {
                if deep_seen {
                    tail_len = tail_len + 1;
                }
                match &raw[k].1 {
                    Operand::Str(l) => Op::LitPush(copy_bytes(l.as_slice())),
                    Operand::Num(_) => Op::LitPush(Vec::new()),
                }
            } else if code == OP_PUSH_M {
                if deep_seen {
                    proof {
                        lemma_build_none(rv, k + 1, rv.len() as int);
                    }
                    return Err(PatternError::DeepWildcardTwice { template: template.as_str().to_owned() });
                }
                deep_seen = true;
                Op::PushM
            } else if code == OP_CONCAT_N {
                match &raw[k].1 {
                    Operand::Num(n) => Op::ConcatN(*n),
                    Operand::Str(_) => Op::ConcatN(0),
                }
            } else {
                let f = match &raw[k].1 {
                    Operand::Str(f) => copy_bytes(f.as_slice()),
                    Operand::Num(_) => Vec::new(),
                };
                vars.push(f);
                Op::Capture(vars.len() - 1)
            };
            ops.push(op);
            proof {
                assert(ops@.map_values(|o: Op| op_view(o)) =~= ov.push(op_view(op)));
                if code != OP_PUSH && code != OP_LIT_PUSH && code != OP_PUSH_M && code != OP_CONCAT_N {
                    assert(view_tokens(vars@) =~= vv.push(opd_str(rv[k as int].1)));
                } else {
                    assert(view_tokens(vars@) =~= vv);
                }
            }
            k = k + 1;
        }
        Ok(Pattern { template, ops, vars, tail_len })
    }

    pub fn template(&self) -> (r: &PathTemplate)
        ensures
            r.segs() == self.template_segs(),
            r.verb_view() == self.verb_v(),
            r.source_view() == self.source_v(),
    {
        &self.template
    }

    pub fn verb(&self) -> (r: &[u8])
        ensures
            r@ == self.verb_v(),
    {
        self.template.verb()
    }
}


// ---------------------------------------------------------------- matching

/// `parts` joined by `sep`.
pub open spec fn join(parts: Seq<Seq<u8>>, sep: u8) -> Seq<u8>
    decreases parts.len(),
{
    if parts.len() == 0 {
        Seq::empty()
    } else if parts.len() == 1 {
        parts[0]
    } else {
        join(parts.drop_last(), sep) + seq![sep] + parts.last()
    }
}

/// `parts[from..to]` joined by `sep`.
pub fn join_range(parts: &[Vec<u8>], from: usize, to: usize, sep: u8) -> (r: Vec<u8>)
    requires
        from <= to <= parts@.len(),
    ensures
        r@ == join(view_tokens(parts@).subrange(from as int, to as int), sep),
{
    let ghost p = view_tokens(parts@);
    let mut out: Vec<u8> = Vec::new();
    let mut i = from;
    while i < to
        invariant
            from <= i <= to <= parts@.len(),
            p == view_tokens(parts@),
            out@ == join(p.subrange(from as int, i as int), sep),
        decreases to - i,
    {
        let ghost o = out@;
        if i > from {
            out.push(sep);
        }
        push_all(&mut out, parts[i].as_slice());
        proof {
            let w = p.subrange(from as int, i + 1);
            assert(w.drop_last() =~= p.subrange(from as int, i as int));
            if i > from {
                assert(out@ =~= o + seq![sep] + p[i as int]);
            } else {
                assert(out@ =~= p[i as int]);
            }
        }
        i = i + 1;
    }
    out
}

/// The matching machine from operation `k` on, at component `pos`, with a
/// stack and the captures so far: the final position and the captures.
pub open spec fn run(
    ops: Seq<OpV>,
    k: int,
    comps: Seq<Seq<u8>>,
    pos: int,
    stack: Seq<Seq<u8>>,
    captured: Seq<Seq<u8>>,
    tail: int,
    mode: UnescapingMode,
) -> Result<(int, Seq<Seq<u8>>), MatchErrV>
    decreases ops.len() - k,
{
    if k < 0 || k >= ops.len() {
        Ok((pos, captured))
    } else {
        match ops[k] {
            OpV::Push => if pos < 0 || pos >= comps.len() {
                Err(MatchErrV::NoMatch)
            } else {
                match spec_unescape(comps[pos], mode, false) {
                    Err(e) => Err(e),
                    Ok(u) => run(ops, k + 1, comps, pos + 1, stack.push(u), captured, tail, mode),
                }
            },
            OpV::LitPush(l) => if pos < 0 || pos >= comps.len() || comps[pos] != l {
                Err(MatchErrV::NoMatch)
            } else {
                run(ops, k + 1, comps, pos + 1, stack.push(comps[pos]), captured, tail, mode)
            },
            OpV::PushM => if pos < 0 || tail < 0 || comps.len() < pos + tail {
                Err(MatchErrV::NoMatch)
            } else {
                let end = comps.len() - tail;
                match spec_unescape(join(comps.subrange(pos, end), SLASH), mode, true) {
                    Err(e) => Err(e),
                    Ok(u) => run(ops, k + 1, comps, end, stack.push(u), captured, tail, mode),
                }
            },
            OpV::ConcatN(n) => if n < 0 || n > stack.len() {
                Err(MatchErrV::NoMatch)
            } else {
                let at = stack.len() - n;
                run(
                    ops,
                    k + 1,
                    comps,
                    pos,
                    stack.subrange(0, at).push(join(stack.subrange(at, stack.len() as int), SLASH)),
                    captured,
                    tail,
                    mode,
                )
            },
            OpV::Capture(i) => if stack.len() == 0 || i < 0 || i >= captured.len() {
                Err(MatchErrV::NoMatch)
            } else {
                run(ops, k + 1, comps, pos, stack.drop_last(), captured.update(i, stack.last()), tail, mode)
            },
        }
    }
}

/// The components to match once the verbs are compared: a verb the pattern
/// does not know is part of the last component. `None` when the pattern has
/// another verb.
pub open spec fn with_verb(comps: Seq<Seq<u8>>, pattern_verb: Seq<u8>, verb: Seq<u8>) -> Option<Seq<Seq<u8>>> {
    if pattern_verb == verb {
        Some(comps)
    } else if pattern_verb.len() > 0 {
        None
    } else if comps.len() > 0 {
        Some(comps.update(comps.len() - 1, comps.last() + seq![COLON] + verb))
    } else {
        Some(seq![seq![COLON] + verb])
    }
}

/// The field paths bound to their captures; a field bound twice keeps the
/// last value.
pub open spec fn bind_all(vars: Seq<Seq<u8>>, captured: Seq<Seq<u8>>, n: int) -> Map<Seq<u8>, Seq<u8>>
    decreases n,
{
    if n <= 0 {
        Map::empty()
    } else {
        bind_all(vars, captured, n - 1).insert(vars[n - 1], captured[n - 1])
    }
}

/// `n` empty captures.
pub open spec fn empties(n: nat) -> Seq<Seq<u8>> {
    Seq::new(n, |i: int| Seq::<u8>::empty())
}

/// `runtime.Pattern.MatchAndEscape`.
pub open spec fn spec_match(
    ops: Seq<OpV>,
    vars: Seq<Seq<u8>>,
    tail: int,
    pattern_verb: Seq<u8>,
    comps: Seq<Seq<u8>>,
    verb: Seq<u8>,
    mode: UnescapingMode,
) -> Result<Map<Seq<u8>, Seq<u8>>, MatchErrV> {
    match with_verb(comps, pattern_verb, verb) {
        None => Err(MatchErrV::NoMatch),
        Some(c) => match run(ops, 0, c, 0, Seq::empty(), empties(vars.len()), tail, mode) {
            Err(e) => Err(e),
            Ok((pos, captured)) => if pos < c.len() {
                Err(MatchErrV::NoMatch)
            } else {
                Ok(bind_all(vars, captured, vars.len() as int))
            },
        },
    }
}

/// A deep copy of a list of components.
fn copy_components(c: &[Vec<u8>]) -> (r: Vec<Vec<u8>>)
    ensures
        view_tokens(r@) == view_tokens(c@),
{
    let mut out: Vec<Vec<u8>> = Vec::new();
    let mut i: usize = 0;
    while i < c.len()
        invariant
            i <= c@.len(),
            view_tokens(out@) == view_tokens(c@).subrange(0, i as int),
        decreases c@.len() - i,
    {
        let ghost o = view_tokens(out@);
        let x = copy_bytes(c[i].as_slice());
        assert(x@ == view_tokens(c@)[i as int]);
        out.push(x);
        assert(view_tokens(out@) =~= o.push(x@));
        assert(view_tokens(out@) =~= view_tokens(c@).subrange(0, i + 1));
        i = i + 1;
    }
    assert(view_tokens(c@).subrange(0, c@.len() as int) =~= view_tokens(c@));
    out
}

impl Pattern {
    /// Matches already-split components (no leading `/`) and the verb the
    /// caller split off the last one.
    pub fn match_components(&self, components: &[Vec<u8>], verb: &[u8], mode: UnescapingMode) -> (r: Result<
        PathParams,
        MatchError,
    >)
        ensures
            match r {
                Ok(p) => spec_match(self.ops_v(), self.vars_v(), self.tail_v(), self.verb_v(), view_tokens(components@), verb@, mode)
                    == Ok::<Map<Seq<u8>, Seq<u8>>, MatchErrV>(p@),
                Err(e) => spec_match(self.ops_v(), self.vars_v(), self.tail_v(), self.verb_v(), view_tokens(components@), verb@, mode)
                    == Err::<Map<Seq<u8>, Seq<u8>>, MatchErrV>(match_err_view(e)),
            },
    {
        let pattern_verb = self.template.verb();
        let mut comps = copy_components(components);
        if !bytes_eq(pattern_verb, verb) {
            if pattern_verb.len() > 0 {
                return Err(MatchError::NoMatch);
            }
            let mut suffix: Vec<u8> = Vec::new();
            suffix.push(COLON);
            push_all(&mut suffix, verb);
            assert(suffix@ =~= seq![COLON] + verb@);
            let n = comps.len();
            if n > 0 {
                let mut last = copy_bytes(comps[n - 1].as_slice());
                let ghost l0 = last@;
                push_all(&mut last, suffix.as_slice());
                assert(last@ =~= l0 + seq![COLON] + verb@);
                let ghost c0 = view_tokens(comps@);
                comps.set(n - 1, last);
                assert(view_tokens(comps@) =~= c0.update(n - 1, l0 + seq![COLON] + verb@));
            } else {
                comps.push(suffix);
                assert(view_tokens(comps@) =~= seq![seq![COLON] + verb@]);
            }
        }
        let ghost c = view_tokens(comps@);
        assert(with_verb(view_tokens(components@), self.verb_v(), verb@) == Some(c));
        let ghost ops = self.ops_v();
        let ghost vars = self.vars_v();
        let ghost tail = self.tail_v();
        let mut pos: usize = 0;
        let mut stack: Vec<Vec<u8>> = Vec::new();
        let mut captured: Vec<Vec<u8>> = Vec::new();
        let mut v: usize = 0;
        while v < self.vars.len()
            invariant
                v <= self.vars@.len(),
                view_tokens(captured@) == empties(v as nat),
            decreases self.vars@.len() - v,
        {
            let e: Vec<u8> = Vec::new();
            assert(e@ =~= Seq::<u8>::empty());
            let ghost cv = view_tokens(captured@);
            captured.push(e);
            assert(view_tokens(captured@) =~= cv.push(e@));
            assert(cv.push(e@) =~= empties((v + 1) as nat));
            v = v + 1;
        }
        let ghost init = view_tokens(captured@);
        assert(view_tokens(stack@) =~= Seq::<Seq<u8>>::empty());
        let len = comps.len();
        let mut k: usize = 0;
        while k < self.ops.len()
            invariant
                k <= self.ops@.len(),
                ops == self.ops_v(),
                c == view_tokens(comps@),
                len == comps@.len(),
                with_verb(view_tokens(components@), self.verb_v(), verb@) == Some(c),
                init == empties(self.vars_v().len()),
                captured@.len() == self.vars@.len(),
                pos <= len,
                tail == self.tail_len,
                run(ops, 0, c, 0, Seq::empty(), init, tail, mode) == run(
                    ops,
                    k as int,
                    c,
                    pos as int,
                    view_tokens(stack@),
                    view_tokens(captured@),
                    tail,
                    mode,
                ),
            decreases self.ops@.len() - k,
        {
            let ghost st = view_tokens(stack@);
            let ghost cap = view_tokens(captured@);
            match &self.ops[k] {
                Op::Push => {
                    if pos >= len {
                        return Err(MatchError::NoMatch);
                    }
                    let u = match unescape(comps[pos].as_slice(), mode, false) {
                        Ok(u) => u,
                        Err(e) => return Err(e),
                    };
                    stack.push(u);
                    assert(view_tokens(stack@) =~= st.push(u@));
                    pos = pos + 1;
                },
                Op::LitPush(l) => {
                    if pos >= len || !bytes_eq(comps[pos].as_slice(), l.as_slice()) {
                        return Err(MatchError::NoMatch);
                    }
                    stack.push(copy_bytes(comps[pos].as_slice()));
                    assert(view_tokens(stack@) =~= st.push(c[pos as int]));
                    pos = pos + 1;
                },
                Op::PushM => {
                    if len - pos < self.tail_len {
                        return Err(MatchError::NoMatch);
                    }
                    let end = len - self.tail_len;
                    let value = join_range(comps.as_slice(), pos, end, SLASH);
                    let u = match unescape(value.as_slice(), mode, true) {
                        Ok(u) => u,
                        Err(e) => return Err(e),
                    };
                    stack.push(u);
                    assert(view_tokens(stack@) =~= st.push(u@));
                    pos = end;
                },
                Op::ConcatN(n) => {
                    let n = *n;
                    if n > stack.len() {
                        return Err(MatchError::NoMatch);
                    }
                    let at = stack.len() - n;
                    let joined = join_range(stack.as_slice(), at, stack.len(), SLASH);
                    stack.truncate(at);
                    stack.push(joined);
                    assert(view_tokens(stack@) =~= st.subrange(0, at as int).push(
                        join(st.subrange(at as int, st.len() as int), SLASH),
                    ));
                },
                Op::Capture(i) => {
                    let i = *i;
                    if stack.len() == 0 || i >= captured.len() {
                        return Err(MatchError::NoMatch);
                    }
                    let top = match stack.pop() {
                        Some(t) => t,
                        None => Vec::new(),
                    };
                    assert(view_tokens(stack@) =~= st.drop_last());
                    captured.set(i, top);
                    assert(view_tokens(captured@) =~= cap.update(i as int, st.last()));
                },
            }
            k = k + 1;
        }
        if pos < len {
            return Err(MatchError::NoMatch);
        }
        let ghost cap = view_tokens(captured@);
        let mut params = PathParams::empty();
        let mut i: usize = 0;
        while i < self.vars.len()
            invariant
                i <= self.vars@.len(),
                self.vars@.len() == captured@.len(),
                vars == self.vars_v(),
                cap == view_tokens(captured@),
                params@ == bind_all(vars, cap, i as int),
            decreases self.vars@.len() - i,
        {
            params.insert(copy_bytes(self.vars[i].as_slice()), copy_bytes(captured[i].as_slice()));
            i = i + 1;
        }
        Ok(params)
    }
}

} // verus!
