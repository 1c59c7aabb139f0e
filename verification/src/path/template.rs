//! Path templates as defined by `google/api/http.proto`, with the grammar and
//! the quirks of grpc-gateway's `httprule` parser: a template that parses there
//! parses here, and one that fails there fails here.
use vstd::prelude::*;
use vstd::string::StringSliceAdditionalSpecFns;
use crate::bytes::{ascii_digit, ascii_hex_digit, bytes_eq, copy_bytes, copy_range, is_alnum, is_digit, is_hex_digit, one_byte, push_all};

verus! {

pub const SLASH: u8 = 47;
pub const LBRACE: u8 = 123;
pub const RBRACE: u8 = 125;
pub const DOT: u8 = 46;
pub const EQUALS: u8 = 61;
pub const STAR: u8 = 42;
pub const COLON: u8 = 58;
pub const PERCENT: u8 = 37;

/// The terminal token appended to every token sequence.
pub open spec fn eof_token() -> Seq<u8> {
    seq![0u8]
}

// ---------------------------------------------------------------- tokenizer

/// The tokenizer's three states: 0 outside a variable, 1 in a field path,
/// 2 in the segments of a variable.
pub open spec fn is_delim(state: int, b: u8) -> bool {
    if state == 0 {
        b == SLASH || b == LBRACE
    } else if state == 1 {
        b == DOT || b == EQUALS || b == RBRACE
    } else {
        b == SLASH || b == RBRACE
    }
}

pub open spec fn next_state(state: int, b: u8) -> int {
    if b == LBRACE {
        1
    } else if b == EQUALS {
        2
    } else if b == RBRACE {
        0
    } else {
        state
    }
}

/// The first delimiter of `state` at or after `i`, or `p.len()`.
pub open spec fn first_delim(p: Seq<u8>, state: int, i: int) -> int
    decreases p.len() - i,
{
    if i >= p.len() {
        p.len() as int
    } else if is_delim(state, p[i]) {
        i
    } else {
        first_delim(p, state, i + 1)
    }
}

/// The tokens of `p[i..]` in `state`: each delimiter is a token of its own,
/// and so is each non-empty run between two of them.
pub open spec fn tokens_from(p: Seq<u8>, i: int, state: int) -> Seq<Seq<u8>>
    decreases p.len() - i,
{
    if i < 0 || i >= p.len() {
        seq![]
    } else {
        let d = first_delim(p, state, i);
        if d >= p.len() {
            seq![p.subrange(i, p.len() as int)]
        } else if d < i {
            seq![]
        } else {
            let before = if d > i {
                seq![p.subrange(i, d)]
            } else {
                Seq::<Seq<u8>>::empty()
            };
            before + seq![seq![p[d]]] + tokens_from(p, d + 1, next_state(state, p[d]))
        }
    }
}

/// The first index of `c` in `t`, or -1.
pub open spec fn first_index(t: Seq<u8>, c: u8, i: int) -> int
    decreases t.len() - i,
{
    if i < 0 || i >= t.len() {
        -1
    } else if t[i] == c {
        i
    } else {
        first_index(t, c, i + 1)
    }
}

/// The last index of `c` in `t[..i]`, or -1.
pub open spec fn last_index(t: Seq<u8>, c: u8, i: int) -> int
    decreases i,
{
    if i <= 0 || i > t.len() {
        -1
    } else if t[i - 1] == c {
        i - 1
    } else {
        last_index(t, c, i - 1)
    }
}

/// The verb split off the last token: after the first `:` of a token that
/// follows a variable, after the last `:` otherwise.
pub open spec fn split_verb(toks: Seq<Seq<u8>>) -> (Seq<Seq<u8>>, Seq<u8>) {
    let last = toks.len() - 1;
    let after_variable = toks.len() >= 2 && toks[last - 1] == seq![RBRACE];
    let token = toks[last];
    let colon = if after_variable {
        first_index(token, COLON, 0)
    } else {
        last_index(token, COLON, token.len() as int)
    };
    if colon == 0 {
        (toks.drop_last(), token.subrange(1, token.len() as int))
    } else if colon > 0 {
        (toks.update(last, token.subrange(0, colon)), token.subrange(colon + 1, token.len() as int))
    } else {
        (toks, Seq::<u8>::empty())
    }
}

/// The token sequence (ending in the terminal token) and the verb of a
/// template without its leading `/`.
pub open spec fn spec_tokenize(p: Seq<u8>) -> (Seq<Seq<u8>>, Seq<u8>) {
    if p.len() == 0 {
        (seq![eof_token()], Seq::<u8>::empty())
    } else {
        let (toks, verb) = split_verb(tokens_from(p, 0, 0));
        (toks.push(eof_token()), verb)
    }
}

pub open spec fn view_tokens(v: Seq<Vec<u8>>) -> Seq<Seq<u8>> {
    v.map_values(|t: Vec<u8>| t@)
}

proof fn lemma_first_delim_bounds(p: Seq<u8>, state: int, i: int)
    requires
        0 <= i <= p.len(),
    ensures
        i <= first_delim(p, state, i) <= p.len(),
        first_delim(p, state, i) < p.len() ==> is_delim(state, p[first_delim(p, state, i)]),
        forall|k: int| i <= k < first_delim(p, state, i) ==> !is_delim(state, #[trigger] p[k]),
    decreases p.len() - i,
{
    if i < p.len() && !is_delim(state, p[i]) {
        lemma_first_delim_bounds(p, state, i + 1);
    }
}

proof fn lemma_first_delim_at(p: Seq<u8>, state: int, i: int, d: int)
    requires
        0 <= i <= d <= p.len(),
        d < p.len() ==> is_delim(state, p[d]),
        forall|k: int| i <= k < d ==> !is_delim(state, #[trigger] p[k]),
    ensures
        first_delim(p, state, i) == d,
    decreases d - i,
{
    if i < d {
        lemma_first_delim_at(p, state, i + 1, d);
    }
}

proof fn lemma_first_index(t: Seq<u8>, c: u8, i: int, d: int)
    requires
        0 <= i <= d <= t.len(),
        d < t.len() ==> t[d] == c,
        forall|k: int| i <= k < d ==> #[trigger] t[k] != c,
    ensures
        first_index(t, c, i) == (if d < t.len() { d } else { -1 }),
    decreases d - i,
{
    if i < d {
        lemma_first_index(t, c, i + 1, d);
    }
}

proof fn lemma_last_index(t: Seq<u8>, c: u8, i: int, d: int)
    requires
        0 <= d <= i <= t.len(),
        d > 0 ==> t[d - 1] == c,
        forall|k: int| d <= k < i ==> #[trigger] t[k] != c,
    ensures
        last_index(t, c, i) == d - 1,
    decreases i - d,
{
    if d < i {
        lemma_last_index(t, c, i - 1, d);
    }
}

fn is_tok_delim(state: u8, b: u8) -> (r: bool)
    requires
        state <= 2,
    ensures
        r == is_delim(state as int, b),
{
    if state == 0 {
        b == SLASH || b == LBRACE
    } else if state == 1 {
        b == DOT || b == EQUALS || b == RBRACE
    } else {
        b == SLASH || b == RBRACE
    }
}

/// The tokens of `path` and its verb, with the terminal token appended.
fn tokenize(path: &[u8]) -> (r: (Vec<Vec<u8>>, Vec<u8>))
    ensures
        (view_tokens(r.0@), r.1@) == spec_tokenize(path@),
{
    if path.len() == 0 {
        let mut t: Vec<Vec<u8>> = Vec::new();
        t.push(one_byte(0));
        assert(view_tokens(t@) =~= seq![eof_token()]);
        return (t, Vec::new());
    }
    let ghost p = path@;
    let mut state: u8 = 0;
    let mut tokens: Vec<Vec<u8>> = Vec::new();
    let mut i: usize = 0;
    let mut done = false;
    while !done && i < path.len()
        invariant
            p == path@,
            state <= 2,
            i <= p.len(),
            p.len() > 0,
            done ==> tokens@.len() > 0 && tokens_from(p, i as int, state as int) == Seq::<Seq<u8>>::empty(),
            i > 0 ==> tokens@.len() > 0,
            view_tokens(tokens@) + tokens_from(p, i as int, state as int) == tokens_from(p, 0, 0),
        decreases p.len() - i + (if done { 0int } else { 1int }),
    {
        let ghost t0 = view_tokens(tokens@);
        let mut j = i;
        while j < path.len() && !is_tok_delim(state, path[j])
            invariant
                p == path@,
                state <= 2,
                i <= j <= p.len(),
                forall|k: int| i <= k < j ==> !is_delim(state as int, #[trigger] p[k]),
            decreases p.len() - j,
        {
            j = j + 1;
        }
        proof {
            lemma_first_delim_at(p, state as int, i as int, j as int);
        }
        if j == path.len() {
            let t = copy_range(path, i, j);
            tokens.push(t);
            proof {
                assert(view_tokens(tokens@) =~= t0.push(p.subrange(i as int, p.len() as int)));
                assert(tokens_from(p, j as int, state as int) == Seq::<Seq<u8>>::empty());
                assert(view_tokens(tokens@) =~= view_tokens(tokens@) + tokens_from(p, j as int, state as int));
            }
            i = j;
            done = true;
        } else {
            let b = path[j];
            let ns: u8 = if b == LBRACE {
                1
            } else if b == EQUALS {
                2
            } else if b == RBRACE {
                0
            } else {
                state
            };
            let ghost before = if j > i {
                seq![p.subrange(i as int, j as int)]
            } else {
                Seq::<Seq<u8>>::empty()
            };
            if j > i {
                let t = copy_range(path, i, j);
                tokens.push(t);
            }
            tokens.push(one_byte(b));
            proof {
                assert(view_tokens(tokens@) =~= t0 + before + seq![seq![b]]);
                assert(tokens_from(p, i as int, state as int) == before + seq![seq![p[j as int]]]
                    + tokens_from(p, j + 1, ns as int));
                assert(t0 + (before + seq![seq![b]] + tokens_from(p, j + 1, ns as int))
                    =~= (t0 + before + seq![seq![b]]) + tokens_from(p, j + 1, ns as int));
            }
            state = ns;
            i = j + 1;
        }
    }
    proof {
        if !done {
            assert(tokens_from(p, i as int, state as int) == Seq::<Seq<u8>>::empty());
        }
        assert(view_tokens(tokens@) =~= view_tokens(tokens@) + Seq::<Seq<u8>>::empty());
    }
    let ghost toks = view_tokens(tokens@);
    // The verb.
    let last = tokens.len() - 1;
    let after_variable = tokens.len() >= 2 && tokens[last - 1].len() == 1 && tokens[last - 1][0] == RBRACE;
    proof {
        if tokens@.len() >= 2 {
            assert(toks[last - 1] == tokens@[last - 1]@);
            if tokens[last - 1]@.len() == 1 && tokens[last - 1]@[0] == RBRACE {
                assert(toks[last - 1] =~= seq![RBRACE]);
            }
        }
    }
    let token = copy_bytes(tokens[last].as_slice());
    assert(token@ == toks[last as int]);
    let n = token.len();
    // Position of the colon (first one after a variable, last one otherwise).
    let mut colon: Option<usize> = None;
    if after_variable {
        let mut k: usize = 0;
        while k < n && token[k] != COLON
            invariant
                n == token@.len(),
                k <= n,
                forall|m: int| 0 <= m < k ==> #[trigger] token@[m] != COLON,
            decreases n - k,
        {
            k = k + 1;
        }
        proof {
            lemma_first_index(token@, COLON, 0, k as int);
        }
        if k < n {
            colon = Some(k);
        }
    } else {
        let mut k: usize = n;
        while k > 0 && token[k - 1] != COLON
            invariant
                n == token@.len(),
                k <= n,
                forall|m: int| k <= m < n ==> #[trigger] token@[m] != COLON,
            decreases k,
        {
            k = k - 1;
        }
        proof {
            lemma_last_index(token@, COLON, n as int, k as int);
        }
        if k > 0 {
            colon = Some(k - 1);
        }
    }
    let mut verb: Vec<u8> = Vec::new();
    match colon {
        Some(c) => {
            if c == 0 {
                tokens.pop();
                verb = copy_range(token.as_slice(), 1, n);
                assert(view_tokens(tokens@) =~= toks.drop_last());
            } else {
                let head = copy_range(token.as_slice(), 0, c);
                verb = copy_range(token.as_slice(), c + 1, n);
                tokens.set(last, head);
                assert(view_tokens(tokens@) =~= toks.update(last as int, token@.subrange(0, c as int)));
            }
        },
        None => {},
    }
    let ghost before_eof = view_tokens(tokens@);
    tokens.push(one_byte(0));
    assert(view_tokens(tokens@) =~= before_eof.push(eof_token()));
    (tokens, verb)
}


// ---------------------------------------------------------------- segments

/// One `/`-separated piece of a template.
#[derive(Debug, PartialEq, Eq)]
pub enum Segment {
    /// `*`: exactly one path component.
    Wildcard,
    /// `**`: zero or more path components.
    DeepWildcard,
    /// A literal component. The root template `/` is a single empty literal.
    Literal(Vec<u8>),
    /// `{field.path=segments}`; `{field}` is `{field=*}`.
    Variable { field_path: Vec<u8>, segments: Vec<Segment> },
}

/// The mathematical form of a segment.
pub enum SegV {
    Wildcard,
    DeepWildcard,
    Literal(Seq<u8>),
    Variable(Seq<u8>, Seq<SegV>),
}

/// A segment's form with the inner segments of a variable left out.
pub open spec fn flat_sv(s: SegV) -> SegV {
    match s {
        SegV::Variable(f, _) => SegV::Variable(f, Seq::<SegV>::empty()),
        _ => s,
    }
}

pub open spec fn flat_view(s: Segment) -> SegV {
    match s {
        Segment::Wildcard => SegV::Wildcard,
        Segment::DeepWildcard => SegV::DeepWildcard,
        Segment::Literal(l) => SegV::Literal(l@),
        Segment::Variable { field_path, segments } => SegV::Variable(field_path@, Seq::<SegV>::empty()),
    }
}

pub open spec fn seg_view(s: Segment) -> SegV {
    match s {
        Segment::Variable { field_path, segments } => SegV::Variable(
            field_path@,
            segments@.map_values(|x: Segment| flat_view(x)),
        ),
        _ => flat_view(s),
    }
}

pub open spec fn segs_view(v: Seq<Segment>) -> Seq<SegV> {
    v.map_values(|x: Segment| seg_view(x))
}

// ---------------------------------------------------------------- grammar

pub open spec fn tok_at(t: Seq<Seq<u8>>, pos: int) -> Seq<u8> {
    if 0 <= pos < t.len() {
        t[pos]
    } else {
        eof_token()
    }
}

/// Whether the token at `pos` is accepted as the symbol `s`: grpc-gateway
/// lets a `/` token stand in for any symbol.
pub open spec fn sym_ok(t: Seq<Seq<u8>>, pos: int, s: Seq<u8>) -> bool {
    tok_at(t, pos) == s || tok_at(t, pos) == seq![SLASH]
}

/// A byte RFC 3986 allows in a path segment, besides `%`.
pub open spec fn is_pchar(c: u8) -> bool {
    is_alnum(c) || c == 45 || c == 46 || c == 95 || c == 126 || c == 33 || c == 36
        || c == 38 || c == 39 || c == 40 || c == 41 || c == 42 || c == 43 || c == 44
        || c == 59 || c == 61 || c == 58 || c == 64
}

/// `pchar*`: plain pchars and `%` followed by two hexadecimal digits.
pub open spec fn pchars_from(t: Seq<u8>, i: int, pending: int) -> bool
    decreases t.len() - i,
{
    if i < 0 || i >= t.len() {
        pending == 0
    } else if pending > 0 {
        is_hex_digit(t[i]) && pchars_from(t, i + 1, pending - 1)
    } else if t[i] == PERCENT {
        pchars_from(t, i + 1, 2)
    } else {
        is_pchar(t[i]) && pchars_from(t, i + 1, 0)
    }
}

pub open spec fn is_pchars(t: Seq<u8>) -> bool {
    pchars_from(t, 0, 0)
}

pub open spec fn is_ident_char(c: u8) -> bool {
    is_alnum(c) || c == 95
}

/// A `.proto` identifier: `[A-Za-z_][A-Za-z0-9_]*`.
pub open spec fn is_ident(t: Seq<u8>) -> bool {
    t.len() > 0 && !is_digit(t[0]) && forall|i: int| 0 <= i < t.len() ==> is_ident_char(#[trigger] t[i])
}

/// The rest of a field path after its first identifier: `(. ident)*`.
pub open spec fn p_field_rest(t: Seq<Seq<u8>>, pos: int, acc: Seq<u8>) -> (Seq<u8>, int, bool)
    decreases t.len() - pos,
{
    if 0 <= pos && pos + 1 < t.len() && sym_ok(t, pos, seq![DOT]) {
        if is_ident(t[pos + 1]) {
            p_field_rest(t, pos + 2, acc + seq![DOT] + t[pos + 1])
        } else {
            (acc, pos, false)
        }
    } else if 0 <= pos && pos < t.len() && sym_ok(t, pos, seq![DOT]) {
        (acc, pos, false)
    } else {
        (acc, pos, true)
    }
}

/// A field path and the position after it.
pub open spec fn p_field_path(t: Seq<Seq<u8>>, pos: int) -> Option<(Seq<u8>, int)> {
    if 0 <= pos < t.len() && is_ident(t[pos]) {
        let (f, q, ok) = p_field_rest(t, pos + 1, t[pos]);
        if ok {
            Some((f, q))
        } else {
            None
        }
    } else {
        None
    }
}

/// One segment at `pos`, and the position after it.
pub open spec fn p_segment(t: Seq<Seq<u8>>, pos: int) -> Option<(SegV, int)>
    decreases t.len() - pos, 1int,
{
    if pos < 0 || pos >= t.len() {
        None
    } else if sym_ok(t, pos, seq![STAR]) {
        Some((SegV::Wildcard, pos + 1))
    } else if sym_ok(t, pos, seq![STAR, STAR]) {
        Some((SegV::DeepWildcard, pos + 1))
    } else if is_pchars(t[pos]) {
        Some((SegV::Literal(t[pos]), pos + 1))
    } else {
        p_variable(t, pos)
    }
}

/// A variable at `pos`: `{field=segments}` or `{field}`.
pub open spec fn p_variable(t: Seq<Seq<u8>>, pos: int) -> Option<(SegV, int)>
    decreases t.len() - pos, 0int,
{
    if pos < 0 || pos >= t.len() || !sym_ok(t, pos, seq![LBRACE]) {
        None
    } else {
        match p_field_path(t, pos + 1) {
            None => None,
            Some((f, q)) => {
                if q <= pos || q > t.len() {
                    None
                } else if q < t.len() && sym_ok(t, q, seq![EQUALS]) {
                    match p_segments(t, q + 1) {
                        None => None,
                        Some((inner, r)) => p_close(t, f, inner.map_values(|s: SegV| flat_sv(s)), r),
                    }
                } else {
                    p_close(t, f, seq![SegV::Wildcard], q)
                }
            },
        }
    }
}

pub open spec fn p_close(t: Seq<Seq<u8>>, f: Seq<u8>, inner: Seq<SegV>, r: int) -> Option<(SegV, int)> {
    if 0 <= r < t.len() && sym_ok(t, r, seq![RBRACE]) {
        Some((SegV::Variable(f, inner), r + 1))
    } else {
        None
    }
}

/// `segment ("/" segment)*` at `pos`.
pub open spec fn p_segments(t: Seq<Seq<u8>>, pos: int) -> Option<(Seq<SegV>, int)>
    decreases t.len() - pos, 2int,
{
    if pos < 0 || pos >= t.len() {
        None
    } else {
        match p_segment(t, pos) {
            None => None,
            Some((s, q)) => if q <= pos || q > t.len() {
                None
            } else {
                p_more_segments(t, q, seq![s])
            },
        }
    }
}

pub open spec fn p_more_segments(t: Seq<Seq<u8>>, pos: int, acc: Seq<SegV>) -> Option<(Seq<SegV>, int)>
    decreases t.len() - pos, 3int,
{
    if 0 <= pos && pos + 1 < t.len() && sym_ok(t, pos, seq![SLASH]) {
        match p_segment(t, pos + 1) {
            None => None,
            Some((s, q)) => if q <= pos + 1 || q > t.len() {
                None
            } else {
                p_more_segments(t, q, acc.push(s))
            },
        }
    } else if 0 <= pos && pos + 1 >= t.len() && pos < t.len() && sym_ok(t, pos, seq![SLASH]) {
        None
    } else {
        Some((acc, pos))
    }
}

/// The segments of a whole token sequence.
pub open spec fn p_top(t: Seq<Seq<u8>>) -> Option<Seq<SegV>> {
    if tok_at(t, 0) == eof_token() {
        Some(seq![SegV::Literal(Seq::<u8>::empty())])
    } else {
        match p_segments(t, 0) {
            None => None,
            Some((s, q)) => if tok_at(t, q) == eof_token() {
                Some(s)
            } else {
                None
            },
        }
    }
}

/// No variable holds another one.
pub open spec fn no_nested(s: Seq<SegV>) -> bool {
    forall|i: int|
        0 <= i < s.len() ==> match #[trigger] s[i] {
            SegV::Variable(_, inner) => forall|j: int| 0 <= j < inner.len() ==> !(#[trigger] inner[j] is Variable),
            _ => true,
        }
}

/// What a template parses to: its segments and its verb.
pub open spec fn spec_parse(template: Seq<u8>) -> Option<(Seq<SegV>, Seq<u8>)> {
    if template.len() == 0 || template[0] != SLASH {
        None
    } else {
        let (t, verb) = spec_tokenize(template.subrange(1, template.len() as int));
        match p_top(t) {
            Some(s) => if no_nested(s) {
                Some((s, verb))
            } else {
                None
            },
            None => None,
        }
    }
}


/// Why a field path at `pos` does not parse.
pub open spec fn e_field_path(t: Seq<Seq<u8>>, pos: int) -> Seq<char> {
    if 0 <= pos < t.len() && is_ident(t[pos]) {
        "invalid field path component"@
    } else {
        "invalid field path"@
    }
}

/// Why the segment at `pos` does not parse.
pub open spec fn e_segment(t: Seq<Seq<u8>>, pos: int) -> Seq<char>
    decreases t.len() - pos, 1int,
{
    if pos < 0 || pos >= t.len() {
        "unexpected end of template"@
    } else {
        e_variable(t, pos)
    }
}

/// Why the variable at `pos` does not parse.
pub open spec fn e_variable(t: Seq<Seq<u8>>, pos: int) -> Seq<char>
    decreases t.len() - pos, 0int,
{
    if pos < 0 || pos >= t.len() || !sym_ok(t, pos, seq![LBRACE]) {
        "segment neither wildcards, literal or variable"@
    } else {
        match p_field_path(t, pos + 1) {
            None => e_field_path(t, pos + 1),
            Some((_, q)) => if q <= pos || q > t.len() {
                Seq::empty()
            } else if q < t.len() && sym_ok(t, q, seq![EQUALS]) {
                match p_segments(t, q + 1) {
                    None => e_segments(t, q + 1),
                    Some(_) => "unterminated variable segment"@,
                }
            } else {
                "unterminated variable segment"@
            },
        }
    }
}

/// Why the segments at `pos` do not parse.
pub open spec fn e_segments(t: Seq<Seq<u8>>, pos: int) -> Seq<char>
    decreases t.len() - pos, 2int,
{
    if pos < 0 || pos >= t.len() {
        "unexpected end of template"@
    } else {
        match p_segment(t, pos) {
            None => e_segment(t, pos),
            Some((_, q)) => if q <= pos || q > t.len() {
                Seq::empty()
            } else {
                e_more(t, q)
            },
        }
    }
}

/// Why the segments after the one ending at `pos` do not parse.
pub open spec fn e_more(t: Seq<Seq<u8>>, pos: int) -> Seq<char>
    decreases t.len() - pos, 3int,
{
    if 0 <= pos && pos + 1 < t.len() && sym_ok(t, pos, seq![SLASH]) {
        match p_segment(t, pos + 1) {
            None => e_segment(t, pos + 1),
            Some((_, q)) => if q <= pos + 1 || q > t.len() {
                Seq::empty()
            } else {
                e_more(t, q)
            },
        }
    } else {
        "unexpected end of template"@
    }
}

/// Why a whole token sequence does not parse.
pub open spec fn e_top(t: Seq<Seq<u8>>) -> Seq<char> {
    match p_segments(t, 0) {
        None => e_segments(t, 0),
        Some(_) => "unexpected token after segments"@,
    }
}

/// The message a template that does not parse is refused with.
pub open spec fn spec_parse_error(template: Seq<u8>) -> Seq<char> {
    if template.len() == 0 || template[0] != SLASH {
        "no leading /"@
    } else {
        let (t, _) = spec_tokenize(template.subrange(1, template.len() as int));
        match p_top(t) {
            None => e_top(t),
            Some(_) => "nested variable"@,
        }
    }
}


// ---------------------------------------------------------------- parser

fn is_pchar_byte(c: u8) -> (r: bool)
    ensures
        r == is_pchar(c),
{
    (65 <= c && c <= 90) || (97 <= c && c <= 122) || (48 <= c && c <= 57) || c == 45 || c == 46
        || c == 95 || c == 126 || c == 33 || c == 36 || c == 38 || c == 39 || c == 40 || c == 41
        || c == 42 || c == 43 || c == 44 || c == 59 || c == 61 || c == 58 || c == 64
}

/// `pchar*` from RFC 3986: unreserved, pct-encoded, sub-delims, `:` and `@`.
fn expect_pchars(token: &[u8]) -> (r: bool)
    ensures
        r == is_pchars(token@),
{
    let mut pending: usize = 0;
    let mut i: usize = 0;
    while i < token.len()
        invariant
            i <= token@.len(),
            pending <= 2,
            pchars_from(token@, 0, 0) == pchars_from(token@, i as int, pending as int),
        decreases token@.len() - i,
    {
        let c = token[i];
        if pending > 0 {
            if !ascii_hex_digit(c) {
                return false;
            }
            pending = pending - 1;
        } else if c == PERCENT {
            pending = 2;
        } else if !is_pchar_byte(c) {
            return false;
        }
        i = i + 1;
    }
    pending == 0
}

fn is_ident_byte(c: u8) -> (r: bool)
    ensures
        r == is_ident_char(c),
{
    (65 <= c && c <= 90) || (97 <= c && c <= 122) || (48 <= c && c <= 57) || c == 95
}

/// A `.proto` identifier: `[A-Za-z_][A-Za-z0-9_]*`.
fn expect_ident(token: &[u8]) -> (r: bool)
    ensures
        r == is_ident(token@),
{
    if token.len() == 0 {
        return false;
    }
    if ascii_digit(token[0]) {
        return false;
    }
    let mut i: usize = 0;
    while i < token.len()
        invariant
            i <= token@.len(),
            forall|k: int| 0 <= k < i ==> is_ident_char(#[trigger] token@[k]),
        decreases token@.len() - i,
    {
        if !is_ident_byte(token[i]) {
            return false;
        }
        i = i + 1;
    }
    true
}

proof fn lemma_flat(v: Seq<Segment>)
    ensures
        segs_view(v).map_values(|s: SegV| flat_sv(s)) == v.map_values(|x: Segment| flat_view(x)),
{
    assert(segs_view(v).map_values(|s: SegV| flat_sv(s)) =~= v.map_values(|x: Segment| flat_view(x)));
}

struct Parser {
    tokens: Vec<Vec<u8>>,
}

impl Parser {
    spec fn t(&self) -> Seq<Seq<u8>> {
        view_tokens(self.tokens@)
    }

    /// Whether the token at `pos` is `s`.
    fn token_is(&self, pos: usize, s: &[u8]) -> (r: bool)
        ensures
            r == (tok_at(self.t(), pos as int) == s@),
    {
        if pos < self.tokens.len() {
            bytes_eq(self.tokens[pos].as_slice(), s)
        } else {
            let e = one_byte(0);
            bytes_eq(e.as_slice(), s)
        }
    }

    fn accept_symbol(&self, pos: usize, s: &[u8]) -> (r: bool)
        ensures
            r == sym_ok(self.t(), pos as int, s@),
    {
        let slash = one_byte(SLASH);
        self.token_is(pos, s) || self.token_is(pos, slash.as_slice())
    }

    fn is_eof(&self, pos: usize) -> (r: bool)
        ensures
            r == (tok_at(self.t(), pos as int) == eof_token()),
    {
        let e = one_byte(0);
        self.token_is(pos, e.as_slice())
    }

    fn field_path(&self, pos: usize) -> (r: Result<(Vec<u8>, usize), &'static str>)
        ensures
            match r {
                Ok((f, q)) => p_field_path(self.t(), pos as int) == Some((f@, q as int)),
                Err(m) => p_field_path(self.t(), pos as int) is None && m@ == e_field_path(self.t(), pos as int),
            },
    {
        let ghost t = self.t();
        if pos >= self.tokens.len() || !expect_ident(self.tokens[pos].as_slice()) {
            return Err("invalid field path");
        }
        let mut acc = copy_bytes(self.tokens[pos].as_slice());
        let mut q = pos + 1;
        let dot = one_byte(DOT);
        while q < self.tokens.len() && q + 1 < self.tokens.len() && self.accept_symbol(q, dot.as_slice())
            invariant
                t == self.t(),
                pos < q <= t.len(),
                pos < t.len(),
                is_ident(t[pos as int]),
                dot@ == seq![DOT],
                p_field_rest(t, pos + 1, t[pos as int]) == p_field_rest(t, q as int, acc@),
            decreases t.len() - q,
        {
            if !expect_ident(self.tokens[q + 1].as_slice()) {
                return Err("invalid field path component");
            }
            let ghost a0 = acc@;
            acc.push(DOT);
            push_all(&mut acc, self.tokens[q + 1].as_slice());
            assert(acc@ =~= a0 + seq![DOT] + t[q + 1]);
            q = q + 2;
        }
        if q < self.tokens.len() && self.accept_symbol(q, dot.as_slice()) {
            return Err("invalid field path component");
        }
        Ok((acc, q))
    }

    fn segment(&self, pos: usize) -> (r: Result<(Segment, usize), &'static str>)
        requires
            pos <= self.t().len(),
        ensures
            match r {
                Ok((s, q)) => p_segment(self.t(), pos as int) == Some((seg_view(s), q as int)),
                Err(m) => p_segment(self.t(), pos as int) is None && m@ == e_segment(self.t(), pos as int),
            },
        decreases self.t().len() - pos, 1int,
    {
        if pos >= self.tokens.len() {
            return Err("unexpected end of template");
        }
        let star = one_byte(STAR);
        if self.accept_symbol(pos, star.as_slice()) {
            return Ok((Segment::Wildcard, pos + 1));
        }
        let mut star2 = one_byte(STAR);
        star2.push(STAR);
        assert(star2@ =~= seq![STAR, STAR]);
        if self.accept_symbol(pos, star2.as_slice()) {
            return Ok((Segment::DeepWildcard, pos + 1));
        }
        if expect_pchars(self.tokens[pos].as_slice()) {
            let l = copy_bytes(self.tokens[pos].as_slice());
            return Ok((Segment::Literal(l), pos + 1));
        }
        self.variable(pos)
    }

    fn variable(&self, pos: usize) -> (r: Result<(Segment, usize), &'static str>)
        requires
            pos <= self.t().len(),
        ensures
            match r {
                Ok((s, q)) => p_variable(self.t(), pos as int) == Some((seg_view(s), q as int)),
                Err(m) => p_variable(self.t(), pos as int) is None && m@ == e_variable(self.t(), pos as int),
            },
        decreases self.t().len() - pos, 0int,
    {
        let ghost t = self.t();
        let lbrace = one_byte(LBRACE);
        if pos >= self.tokens.len() || !self.accept_symbol(pos, lbrace.as_slice()) {
            return Err("segment neither wildcards, literal or variable");
        }
        let (field_path, q) = match self.field_path(pos + 1) {
            Ok(x) => x,
            Err(e) => return Err(e),
        };
        proof {
            lemma_field_pos(t, pos + 1);
        }
        let eq = one_byte(EQUALS);
        let rbrace = one_byte(RBRACE);
        if q < self.tokens.len() && self.accept_symbol(q, eq.as_slice()) {
            proof {
                lemma_segments_pos(t, q + 1);
            }
            let (inner, r) = match self.segments(q + 1) {
                Ok(x) => x,
                Err(e) => return Err(e),
            };
            proof {
                lemma_flat(inner@);
            }
            if r < self.tokens.len() && self.accept_symbol(r, rbrace.as_slice()) {
                Ok((Segment::Variable { field_path, segments: inner }, r + 1))
            } else {
                Err("unterminated variable segment")
            }
        } else {
            let mut inner: Vec<Segment> = Vec::new();
            inner.push(Segment::Wildcard);
            assert(inner@.map_values(|x: Segment| flat_view(x)) =~= seq![SegV::Wildcard]);
            if q < self.tokens.len() && self.accept_symbol(q, rbrace.as_slice()) {
                Ok((Segment::Variable { field_path, segments: inner }, q + 1))
            } else {
                Err("unterminated variable segment")
            }
        }
    }

    fn segments(&self, pos: usize) -> (r: Result<(Vec<Segment>, usize), &'static str>)
        requires
            pos <= self.t().len(),
        ensures
            match r {
                Ok((v, q)) => p_segments(self.t(), pos as int) == Some((segs_view(v@), q as int)),
                Err(m) => p_segments(self.t(), pos as int) is None && m@ == e_segments(self.t(), pos as int),
            },
        decreases self.t().len() - pos, 2int,
    {
        let ghost t = self.t();
        if pos >= self.tokens.len() {
            return Err("unexpected end of template");
        }
        proof {
            lemma_segment_pos(t, pos as int);
        }
        let (first, q0) = match self.segment(pos) {
            Ok(x) => x,
            Err(e) => return Err(e),
        };
        let mut out: Vec<Segment> = Vec::new();
        let ghost s0 = seg_view(first);
        out.push(first);
        assert(segs_view(out@) =~= seq![s0]);
        let mut q = q0;
        let slash = one_byte(SLASH);
        while q < self.tokens.len() && q + 1 < self.tokens.len() && self.accept_symbol(q, slash.as_slice())
            invariant
                t == self.t(),
                pos < q <= t.len(),
                slash@ == seq![SLASH],
                p_segments(t, pos as int) == p_more_segments(t, q as int, segs_view(out@)),
                e_segments(t, pos as int) == e_more(t, q as int),
            decreases t.len() - q,
        {
            proof {
                lemma_segment_pos(t, q + 1);
            }
            let (s, q2) = match self.segment(q + 1) {
                Ok(x) => x,
                Err(e) => return Err(e),
            };
            let ghost before = segs_view(out@);
            let ghost sv = seg_view(s);
            out.push(s);
            assert(segs_view(out@) =~= before.push(sv));
            q = q2;
        }
        if q < self.tokens.len() && self.accept_symbol(q, slash.as_slice()) {
            return Err("unexpected end of template");
        }
        Ok((out, q))
    }

}

proof fn lemma_field_rest_pos(t: Seq<Seq<u8>>, pos: int, acc: Seq<u8>)
    requires
        0 <= pos <= t.len(),
    ensures
        pos <= p_field_rest(t, pos, acc).1 <= t.len(),
    decreases t.len() - pos,
{
    if 0 <= pos && pos + 1 < t.len() && sym_ok(t, pos, seq![DOT]) && is_ident(t[pos + 1]) {
        lemma_field_rest_pos(t, pos + 2, acc + seq![DOT] + t[pos + 1]);
    }
}

proof fn lemma_field_pos(t: Seq<Seq<u8>>, pos: int)
    ensures
        p_field_path(t, pos) matches Some((_, q)) ==> pos < q <= t.len(),
{
    if 0 <= pos < t.len() && is_ident(t[pos]) {
        lemma_field_rest_pos(t, pos + 1, t[pos]);
    }
}

proof fn lemma_segment_pos(t: Seq<Seq<u8>>, pos: int)
    ensures
        p_segment(t, pos) matches Some((_, q)) ==> pos < q <= t.len(),
    decreases t.len() - pos, 1int,
{
    if 0 <= pos < t.len() && !sym_ok(t, pos, seq![STAR]) && !sym_ok(t, pos, seq![STAR, STAR])
        && !is_pchars(t[pos]) {
        lemma_variable_pos(t, pos);
    }
}

proof fn lemma_variable_pos(t: Seq<Seq<u8>>, pos: int)
    ensures
        p_variable(t, pos) matches Some((_, q)) ==> pos < q <= t.len(),
    decreases t.len() - pos, 0int,
{
    if 0 <= pos < t.len() && sym_ok(t, pos, seq![LBRACE]) {
        match p_field_path(t, pos + 1) {
            None => {},
            Some((f, q)) => {
                if q > pos && q < t.len() && sym_ok(t, q, seq![EQUALS]) {
                    lemma_segments_pos(t, q + 1);
                }
            },
        }
    }
}

proof fn lemma_segments_pos(t: Seq<Seq<u8>>, pos: int)
    ensures
        p_segments(t, pos) matches Some((_, q)) ==> pos < q <= t.len(),
    decreases t.len() - pos, 2int,
{
    if 0 <= pos < t.len() {
        lemma_segment_pos(t, pos);
        match p_segment(t, pos) {
            None => {},
            Some((s, q)) => {
                if q > pos && q <= t.len() {
                    lemma_more_pos(t, q, seq![s]);
                }
            },
        }
    }
}

proof fn lemma_more_pos(t: Seq<Seq<u8>>, pos: int, acc: Seq<SegV>)
    requires
        0 <= pos <= t.len(),
    ensures
        p_more_segments(t, pos, acc) matches Some((_, q)) ==> pos <= q <= t.len(),
    decreases t.len() - pos, 3int,
{
    if pos + 1 < t.len() && sym_ok(t, pos, seq![SLASH]) {
        lemma_segment_pos(t, pos + 1);
        match p_segment(t, pos + 1) {
            None => {},
            Some((s, q)) => {
                if q > pos + 1 && q <= t.len() {
                    lemma_more_pos(t, q, acc.push(s));
                }
            },
        }
    }
}


impl Parser {
    fn top_level_segments(&self) -> (r: Result<Vec<Segment>, &'static str>)
        ensures
            match r {
                Ok(v) => p_top(self.t()) == Some(segs_view(v@)),
                Err(m) => p_top(self.t()) is None && m@ == e_top(self.t()),
            },
    {
        let ghost t = self.t();
        if self.is_eof(0) {
            let mut v: Vec<Segment> = Vec::new();
            v.push(Segment::Literal(Vec::new()));
            assert(segs_view(v@) =~= seq![SegV::Literal(Seq::<u8>::empty())]);
            return Ok(v);
        }
        let (segments, q) = match self.segments(0) {
            Ok(x) => x,
            Err(e) => return Err(e),
        };
        if !self.is_eof(q) {
            return Err("unexpected token after segments");
        }
        Ok(segments)
    }
}

/// A template grpc-gateway would also refuse.
#[derive(Debug, Clone, PartialEq, Eq)]
pub struct ParseError {
    template: String,
    message: &'static str,
}

impl ParseError {
    fn new(template: &str, message: &'static str) -> (r: ParseError)
        ensures
            r.template@ == template@,
            r.message@ == message@,
    {
        ParseError { template: template.to_owned(), message }
    }

    pub closed spec fn template_view(&self) -> Seq<char> {
        self.template@
    }

    /// The template that failed to parse.
    pub fn template(&self) -> (r: &str)
        ensures
            r@ == self.template_view(),
    {
        self.template.as_str()
    }

    pub closed spec fn message_view(&self) -> Seq<char> {
        self.message@
    }

    /// What is wrong with it.
    pub fn message(&self) -> (r: &'static str)
        ensures
            r@ == self.message_view(),
    {
        self.message
    }
}

/// A parsed path template, e.g. `/v1/{name=projects/*}:start`.
#[derive(Debug, PartialEq, Eq)]
pub struct PathTemplate {
    segments: Vec<Segment>,
    verb: Vec<u8>,
    source: String,
}

impl PathTemplate {
    /// No variable holds another one.
    #[verifier::type_invariant]
    spec fn wf(self) -> bool {
        no_nested(segs_view(self.segments@))
    }

    pub closed spec fn segs(&self) -> Seq<SegV> {
        segs_view(self.segments@)
    }

    pub closed spec fn verb_view(&self) -> Seq<u8> {
        self.verb@
    }

    pub closed spec fn source_view(&self) -> Seq<char> {
        self.source@
    }

    /// Parses a template.
    pub fn parse(template: &str) -> (r: Result<PathTemplate, ParseError>)
        ensures
            match r {
                Ok(t) => spec_parse(template.spec_bytes()) == Some((t.segs(), t.verb_view()))
                    && t.source_view() == template@,
                Err(e) => spec_parse(template.spec_bytes()) is None && e.template_view() == template@
                    && e.message_view() == spec_parse_error(template.spec_bytes()),
            },
    {
        let bytes = template.as_bytes();
        if bytes.len() == 0 || bytes[0] != SLASH {
            proof {
                reveal_strlit("no leading /");
            }
            return Err(ParseError::new(template, "no leading /"));
        }
        let rest = vstd::slice::slice_subrange(bytes, 1, bytes.len());
        let (tokens, verb) = tokenize(rest);
        let parser = Parser { tokens };
        let segments = match parser.top_level_segments() {
            Ok(s) => s,
            Err(m) => return Err(ParseError::new(template, m)),
        };
        let ghost sv = segs_view(segments@);
        let ghost outcome = if no_nested(sv) {
            Some((sv, verb@))
        } else {
            None
        };
        assert(spec_parse(template.spec_bytes()) == outcome);
        assert(spec_parse_error(template.spec_bytes()) == "nested variable"@);
        let mut i: usize = 0;
        while i < segments.len()
            invariant
                template.spec_bytes().len() > 0 && template.spec_bytes()[0] == 47,
                spec_parse_error(template.spec_bytes()) == "nested variable"@,
                spec_parse(template.spec_bytes()) == outcome,
                outcome == (if no_nested(sv) { Some((sv, verb@)) } else { None }),
                i <= segments@.len(),
                sv == segs_view(segments@),
                forall|k: int|
                    0 <= k < i ==> match #[trigger] sv[k] {
                        SegV::Variable(_, inner) => forall|j: int| 0 <= j < inner.len() ==> !(#[trigger] inner[j] is Variable),
                        _ => true,
                    },
            decreases segments@.len() - i,
        {
            match &segments[i] {
                Segment::Variable { field_path, segments: inner } => {
                    let ghost inner_v = inner@.map_values(|x: Segment| flat_view(x));
                    assert(sv[i as int] == SegV::Variable(field_path@, inner_v));
                    let mut j: usize = 0;
                    while j < inner.len()
                        invariant
                            j <= inner@.len(),
                            i < segments@.len(),
                            template.spec_bytes().len() > 0 && template.spec_bytes()[0] == 47,
                            spec_parse_error(template.spec_bytes()) == "nested variable"@,
                            spec_parse(template.spec_bytes()) == outcome,
                            outcome == (if no_nested(sv) { Some((sv, verb@)) } else { None }),
                            sv.len() == segments@.len(),
                            inner_v == inner@.map_values(|x: Segment| flat_view(x)),
                            sv[i as int] == SegV::Variable(field_path@, inner_v),
                            forall|m: int| 0 <= m < j ==> !(#[trigger] flat_view(inner@[m]) is Variable),
                        decreases inner@.len() - j,
                    {
                        match &inner[j] {
                            Segment::Variable { .. } => {
                                proof {
                                    assert(inner_v[j as int] is Variable);
                                    if no_nested(sv) {
                                        let x = sv[i as int];
                                        assert(match x {
                                            SegV::Variable(_, inner) => forall|m: int| 0 <= m < inner.len() ==> !(#[trigger] inner[m] is Variable),
                                            _ => true,
                                        });
                                        assert(!(inner_v[j as int] is Variable));
                                    }
                                }
                                return Err(ParseError::new(template, "nested variable"));
                            },
                            _ => {},
                        }
                        j = j + 1;
                    }
                    assert(sv[i as int] == seg_view(segments@[i as int]));
                },
                _ => {},
            }
            i = i + 1;
        }
        proof {
            assert forall|k: int| 0 <= k < sv.len() implies match #[trigger] sv[k] {
                SegV::Variable(_, inner) => forall|j: int| 0 <= j < inner.len() ==> !(#[trigger] inner[j] is Variable),
                _ => true,
            } by {}
        }
        Ok(PathTemplate { segments, verb, source: template.to_owned() })
    }

    pub fn segments(&self) -> (r: &[Segment])
        ensures
            segs_view(r@) == self.segs(),
    {
        self.segments.as_slice()
    }

    /// The custom verb after the last `:`, or empty.
    pub fn verb(&self) -> (r: &[u8])
        ensures
            r@ == self.verb_view(),
    {
        self.verb.as_slice()
    }

    /// The template exactly as it was written.
    pub fn as_str(&self) -> (r: &str)
        ensures
            r@ == self.source_view(),
    {
        self.source.as_str()
    }
}


// ---------------------------------------------------------------- fields, display

/// The field paths bound by variables, in template order.
pub open spec fn fields_of(s: Seq<SegV>) -> Seq<Seq<u8>>
    decreases s.len(),
{
    if s.len() == 0 {
        Seq::<Seq<u8>>::empty()
    } else {
        let r = fields_of(s.drop_last());
        match s.last() {
            SegV::Variable(f, _) => r.push(f),
            _ => r,
        }
    }
}

/// A segment inside a variable, as written.
pub open spec fn render_leaf(s: SegV) -> Seq<u8> {
    match s {
        SegV::Wildcard => seq![STAR],
        SegV::DeepWildcard => seq![STAR, STAR],
        SegV::Literal(l) => l,
        SegV::Variable(f, _) => seq![LBRACE] + f + seq![RBRACE],
    }
}

/// A top-level segment, as written: `{field=segments}` for a variable.
pub open spec fn render_seg(s: SegV) -> Seq<u8> {
    match s {
        SegV::Variable(f, inner) => seq![LBRACE] + f + seq![EQUALS] + render_leaves(inner) + seq![RBRACE],
        _ => render_leaf(s),
    }
}

pub open spec fn render_leaves(s: Seq<SegV>) -> Seq<u8>
    decreases s.len(),
{
    if s.len() == 0 {
        Seq::<u8>::empty()
    } else if s.len() == 1 {
        render_leaf(s[0])
    } else {
        render_leaves(s.drop_last()) + seq![SLASH] + render_leaf(s.last())
    }
}

pub open spec fn render_segs(s: Seq<SegV>) -> Seq<u8>
    decreases s.len(),
{
    if s.len() == 0 {
        Seq::<u8>::empty()
    } else if s.len() == 1 {
        render_seg(s[0])
    } else {
        render_segs(s.drop_last()) + seq![SLASH] + render_seg(s.last())
    }
}

/// A template as grpc-gateway prints it.
pub open spec fn render_template(s: Seq<SegV>, verb: Seq<u8>) -> Seq<u8> {
    seq![SLASH] + render_segs(s) + (if verb.len() > 0 {
        seq![COLON] + verb
    } else {
        Seq::<u8>::empty()
    })
}

fn write_leaf(out: &mut Vec<u8>, s: &Segment)
    ensures
        final(out)@ == old(out)@ + render_leaf(flat_view(*s)),
{
    match s {
        Segment::Wildcard => {
            out.push(STAR);
            assert(out@ =~= old(out)@ + seq![STAR]);
        },
        Segment::DeepWildcard => {
            out.push(STAR);
            out.push(STAR);
            assert(out@ =~= old(out)@ + seq![STAR, STAR]);
        },
        Segment::Literal(l) => {
            push_all(out, l.as_slice());
        },
        Segment::Variable { field_path, .. } => {
            out.push(LBRACE);
            push_all(out, field_path.as_slice());
            out.push(RBRACE);
            assert(out@ =~= old(out)@ + (seq![LBRACE] + field_path@ + seq![RBRACE]));
        },
    }
}

fn write_leaves(out: &mut Vec<u8>, segs: &[Segment])
    ensures
        final(out)@ == old(out)@ + render_leaves(segs@.map_values(|x: Segment| flat_view(x))),
{
    let ghost v = segs@.map_values(|x: Segment| flat_view(x));
    let mut i: usize = 0;
    while i < segs.len()
        invariant
            i <= segs@.len(),
            v == segs@.map_values(|x: Segment| flat_view(x)),
            out@ == old(out)@ + render_leaves(v.subrange(0, i as int)),
        decreases segs@.len() - i,
    {
        let ghost o = out@;
        if i > 0 {
            out.push(SLASH);
        }
        write_leaf(out, &segs[i]);
        proof {
            let w = v.subrange(0, i + 1);
            assert(w.drop_last() =~= v.subrange(0, i as int));
            if i > 0 {
                assert(out@ =~= old(out)@ + (render_leaves(v.subrange(0, i as int)) + seq![SLASH] + render_leaf(v[i as int])));
            } else {
                assert(out@ =~= old(out)@ + render_leaf(v[i as int]));
            }
        }
        i = i + 1;
    }
    assert(v.subrange(0, segs@.len() as int) =~= v);
}

fn write_segments(out: &mut Vec<u8>, segs: &[Segment])
    ensures
        final(out)@ == old(out)@ + render_segs(segs_view(segs@)),
{
    let ghost v = segs_view(segs@);
    let mut i: usize = 0;
    while i < segs.len()
        invariant
            i <= segs@.len(),
            v == segs_view(segs@),
            out@ == old(out)@ + render_segs(v.subrange(0, i as int)),
        decreases segs@.len() - i,
    {
        let ghost o = out@;
        if i > 0 {
            out.push(SLASH);
        }
        let ghost o2 = out@;
        match &segs[i] {
            Segment::Variable { field_path, segments } => {
                out.push(LBRACE);
                push_all(out, field_path.as_slice());
                out.push(EQUALS);
                write_leaves(out, segments.as_slice());
                out.push(RBRACE);
                assert(out@ =~= o2 + render_seg(v[i as int]));
            },
            _ => {
                write_leaf(out, &segs[i]);
            },
        }
        proof {
            let w = v.subrange(0, i + 1);
            assert(w.drop_last() =~= v.subrange(0, i as int));
            if i > 0 {
                assert(out@ =~= old(out)@ + (render_segs(v.subrange(0, i as int)) + seq![SLASH] + render_seg(v[i as int])));
            } else {
                assert(out@ =~= old(out)@ + render_seg(v[i as int]));
            }
        }
        i = i + 1;
    }
    assert(v.subrange(0, segs@.len() as int) =~= v);
}

impl PathTemplate {
    /// Every field path bound by a variable, in template order.
    pub fn fields(&self) -> (r: Vec<Vec<u8>>)
        ensures
            view_tokens(r@) == fields_of(self.segs()),
    {
        let ghost v = self.segs();
        let mut out: Vec<Vec<u8>> = Vec::new();
        let mut i: usize = 0;
        while i < self.segments.len()
            invariant
                i <= self.segments@.len(),
                v == segs_view(self.segments@),
                view_tokens(out@) == fields_of(v.subrange(0, i as int)),
            decreases self.segments@.len() - i,
        {
            let ghost before = view_tokens(out@);
            match &self.segments[i] {
                Segment::Variable { field_path, .. } => {
                    out.push(copy_bytes(field_path.as_slice()));
                    assert(view_tokens(out@) =~= before.push(field_path@));
                },
                _ => {},
            }
            assert(v.subrange(0, i + 1).drop_last() =~= v.subrange(0, i as int));
            i = i + 1;
        }
        assert(v.subrange(0, self.segments@.len() as int) =~= v);
        out
    }

    /// The template as grpc-gateway prints it: `{field}` as `{field=*}`, the
    /// root as `/`.
    pub fn display(&self) -> (r: Vec<u8>)
        ensures
            r@ == render_template(self.segs(), self.verb_view()),
    {
        let mut out: Vec<u8> = Vec::new();
        out.push(SLASH);
        write_segments(&mut out, self.segments.as_slice());
        if self.verb.len() > 0 {
            out.push(COLON);
            push_all(&mut out, self.verb.as_slice());
        }
        assert(out@ =~= render_template(self.segs(), self.verb_view()));
        out
    }
}


// ---------------------------------------------------------------- compile

pub const OP_PUSH: i64 = 1;
pub const OP_LIT_PUSH: i64 = 2;
pub const OP_PUSH_M: i64 = 3;
pub const OP_CONCAT_N: i64 = 4;
pub const OP_CAPTURE: i64 = 5;

/// grpc-gateway's compiled template (`httprule.Template`).
#[derive(Debug, Clone, PartialEq, Eq)]
pub struct Compiled {
    pub op_codes: Vec<i64>,
    pub pool: Vec<Vec<u8>>,
    pub verb: Vec<u8>,
    pub fields: Vec<Vec<u8>>,
}

/// An operand before the pool is built: a number, or a string to intern.
pub enum OperandV {
    Num(int),
    Str(Seq<u8>),
}

/// The operation of a segment inside a variable.
pub open spec fn leaf_op(s: SegV) -> (i64, OperandV) {
    match s {
        SegV::Wildcard => (OP_PUSH, OperandV::Num(0)),
        SegV::DeepWildcard => (OP_PUSH_M, OperandV::Num(0)),
        SegV::Literal(l) => (OP_LIT_PUSH, OperandV::Str(l)),
        SegV::Variable(f, _) => (OP_CAPTURE, OperandV::Str(f)),
    }
}

/// The operations of a top-level segment: a variable pushes its segments,
/// concatenates them and captures the result.
pub open spec fn seg_ops(s: SegV) -> Seq<(i64, OperandV)> {
    match s {
        SegV::Variable(f, inner) => inner.map_values(|x: SegV| leaf_op(x)) + seq![
            (OP_CONCAT_N, OperandV::Num(inner.len() as int)),
            (OP_CAPTURE, OperandV::Str(f)),
        ],
        _ => seq![leaf_op(s)],
    }
}

pub open spec fn raw_ops(s: Seq<SegV>) -> Seq<(i64, OperandV)>
    decreases s.len(),
{
    if s.len() == 0 {
        Seq::empty()
    } else {
        raw_ops(s.drop_last()) + seg_ops(s.last())
    }
}

/// The first index of `x` in `p` at or after `i`, or -1.
pub open spec fn index_in(p: Seq<Seq<u8>>, x: Seq<u8>, i: int) -> int
    decreases p.len() - i,
{
    if i < 0 || i >= p.len() {
        -1
    } else if p[i] == x {
        i
    } else {
        index_in(p, x, i + 1)
    }
}

/// Op codes, string pool and captured fields after the first `n` operations:
/// strings are interned in order of first appearance.
pub open spec fn assemble(ops: Seq<(i64, OperandV)>, n: int) -> (Seq<i64>, Seq<Seq<u8>>, Seq<Seq<u8>>)
    decreases n,
{
    if n <= 0 || n > ops.len() {
        (Seq::empty(), Seq::empty(), Seq::empty())
    } else {
        let (codes, pool, fields) = assemble(ops, n - 1);
        let (code, operand) = ops[n - 1];
        match operand {
            OperandV::Num(k) => (codes + seq![code, k as i64], pool, fields),
            OperandV::Str(x) => {
                let found = index_in(pool, x, 0);
                let index = if found < 0 { pool.len() as int } else { found };
                let pool2 = if found < 0 { pool.push(x) } else { pool };
                let fields2 = if code == OP_CAPTURE { fields.push(x) } else { fields };
                (codes + seq![code, index as i64], pool2, fields2)
            },
        }
    }
}

pub enum Operand {
    Num(usize),
    Str(Vec<u8>),
}

pub open spec fn operand_view(o: Operand) -> OperandV {
    match o {
        Operand::Num(n) => OperandV::Num(n as int),
        Operand::Str(s) => OperandV::Str(s@),
    }
}

pub open spec fn ops_view(v: Seq<(i64, Operand)>) -> Seq<(i64, OperandV)> {
    v.map_values(|o: (i64, Operand)| (o.0, operand_view(o.1)))
}

fn leaf_to_op(s: &Segment) -> (r: (i64, Operand))
    ensures
        (r.0, operand_view(r.1)) == leaf_op(flat_view(*s)),
{
    match s {
        Segment::Wildcard => (OP_PUSH, Operand::Num(0)),
        Segment::DeepWildcard => (OP_PUSH_M, Operand::Num(0)),
        Segment::Literal(l) => (OP_LIT_PUSH, Operand::Str(copy_bytes(l.as_slice()))),
        Segment::Variable { field_path, .. } => (OP_CAPTURE, Operand::Str(copy_bytes(field_path.as_slice()))),
    }
}

fn compile_segment(segment: &Segment, out: &mut Vec<(i64, Operand)>)
    ensures
        ops_view(final(out)@) == ops_view(old(out)@) + seg_ops(seg_view(*segment)),
{
    match segment {
        Segment::Variable { field_path, segments } => {
            let ghost inner = segments@.map_values(|x: Segment| flat_view(x));
            let mut i: usize = 0;
            while i < segments.len()
                invariant
                    i <= segments@.len(),
                    inner == segments@.map_values(|x: Segment| flat_view(x)),
                    ops_view(out@) == ops_view(old(out)@) + inner.subrange(0, i as int).map_values(|x: SegV| leaf_op(x)),
                decreases segments@.len() - i,
            {
                let ghost before = ops_view(out@);
                let op = leaf_to_op(&segments[i]);
                out.push(op);
                assert(ops_view(out@) =~= before.push(leaf_op(inner[i as int])));
                assert(inner.subrange(0, i + 1).map_values(|x: SegV| leaf_op(x)) =~= inner.subrange(0, i as int).map_values(|x: SegV| leaf_op(x)).push(leaf_op(inner[i as int])));
                i = i + 1;
            }
            assert(inner.subrange(0, segments@.len() as int) =~= inner);
            let ghost before = ops_view(out@);
            out.push((OP_CONCAT_N, Operand::Num(segments.len())));
            out.push((OP_CAPTURE, Operand::Str(copy_bytes(field_path.as_slice()))));
            assert(ops_view(out@) =~= before + seq![
                (OP_CONCAT_N, OperandV::Num(segments@.len() as int)),
                (OP_CAPTURE, OperandV::Str(field_path@)),
            ]);
        },
        _ => {
            let ghost before = ops_view(out@);
            let op = leaf_to_op(segment);
            out.push(op);
            assert(ops_view(out@) =~= before.push(leaf_op(flat_view(*segment))));
        },
    }
}

/// The index of `x` in `pool`, if it is there.
fn pool_index(pool: &Vec<Vec<u8>>, x: &[u8]) -> (r: Option<usize>)
    ensures
        match r {
            Some(i) => index_in(view_tokens(pool@), x@, 0) == i as int,
            None => index_in(view_tokens(pool@), x@, 0) == -1,
        },
{
    let ghost p = view_tokens(pool@);
    let mut i: usize = 0;
    while i < pool.len()
        invariant
            i <= pool@.len(),
            p == view_tokens(pool@),
            index_in(p, x@, 0) == index_in(p, x@, i as int),
        decreases pool@.len() - i,
    {
        if bytes_eq(pool[i].as_slice(), x) {
            return Some(i);
        }
        i = i + 1;
    }
    None
}

impl PathTemplate {
    /// The operations of the template, before strings are interned.
    pub(crate) fn raw_ops(&self) -> (r: Vec<(i64, Operand)>)
        ensures
            ops_view(r@) == raw_ops(self.segs()),
    {
        let ghost v = self.segs();
        let mut raw: Vec<(i64, Operand)> = Vec::new();
        let mut i: usize = 0;
        while i < self.segments.len()
            invariant
                i <= self.segments@.len(),
                v == segs_view(self.segments@),
                ops_view(raw@) == raw_ops(v.subrange(0, i as int)),
            decreases self.segments@.len() - i,
        {
            compile_segment(&self.segments[i], &mut raw);
            assert(v.subrange(0, i + 1).drop_last() =~= v.subrange(0, i as int));
            i = i + 1;
        }
        assert(v.subrange(0, self.segments@.len() as int) =~= v);
        raw
    }

    /// The opcode form grpc-gateway's `httprule.Template` carries.
    pub fn compile(&self) -> (r: Compiled)
        ensures
            ({
                let (codes, pool, fields) = assemble(raw_ops(self.segs()), raw_ops(self.segs()).len() as int);
                r.op_codes@ == codes && view_tokens(r.pool@) == pool && r.verb@ == self.verb_view()
                    && view_tokens(r.fields@) == fields
            }),
    {
        let raw = self.raw_ops();
        let ghost ops = ops_view(raw@);
        let mut op_codes: Vec<i64> = Vec::new();
        let mut pool: Vec<Vec<u8>> = Vec::new();
        let mut fields: Vec<Vec<u8>> = Vec::new();
        let mut k: usize = 0;
        while k < raw.len()
            invariant
                k <= raw@.len(),
                ops == ops_view(raw@),
                (op_codes@, view_tokens(pool@), view_tokens(fields@)) == assemble(ops, k as int),
            decreases raw@.len() - k,
        {
            let code = raw[k].0;
            op_codes.push(code);
            match &raw[k].1 {
                Operand::Num(n) => {
                    op_codes.push(*n as i64);
                },
                Operand::Str(x) => {
                    let ghost p0 = view_tokens(pool@);
                    let ghost f0 = view_tokens(fields@);
                    let index = match pool_index(&pool, x.as_slice()) {
                        Some(i) => i,
                        None => {
                            pool.push(copy_bytes(x.as_slice()));
                            assert(view_tokens(pool@) =~= p0.push(x@));
                            pool.len() - 1
                        },
                    };
                    op_codes.push(index as i64);
                    if code == OP_CAPTURE {
                        fields.push(copy_bytes(x.as_slice()));
                        assert(view_tokens(fields@) =~= f0.push(x@));
                    }
                },
            }
            k = k + 1;
        }
        Compiled { op_codes, pool, verb: copy_bytes(self.verb.as_slice()), fields }
    }
}

} // verus!
