//! `net/http`'s `Request.ParseForm`: `url.ParseQuery` over the query and,
//! for `POST`, `PUT` and `PATCH` with a form content type, over the body.
use vstd::prelude::*;
use vstd::string::StringSliceAdditionalSpecFns;
use crate::bytes::{ascii_hex_digit, bytes_eq, copy_bytes, copy_range, hex_digit_value, hex_value, is_hex_digit, push_all};
use crate::path::template::view_tokens;
use crate::request::strconv::{cont_byte, decode_rune, quote, spec_decode_rune, spec_quote};
use crate::bytes::{ascii_to_lower, to_lower};

verus! {

pub const AMP: u8 = 38;
pub const EQUALS: u8 = 61;
pub const SEMICOLON: u8 = 59;

/// Form values by key, keys in order of first appearance; the values of one
/// key keep their order.
#[derive(Debug)]
pub struct Form {
    values: Vec<(Vec<u8>, Vec<Vec<u8>>)>,
}

pub type FormV = Seq<(Seq<u8>, Seq<Seq<u8>>)>;

pub open spec fn form_view(v: Seq<(Vec<u8>, Vec<Vec<u8>>)>) -> FormV {
    v.map_values(|e: (Vec<u8>, Vec<Vec<u8>>)| (e.0@, view_tokens(e.1@)))
}

pub open spec fn distinct_keys(f: FormV) -> bool {
    forall|i: int, j: int| 0 <= i < j < f.len() ==> #[trigger] f[i].0 != #[trigger] f[j].0
}

/// The position of `key` in the form, or -1.
pub open spec fn key_index(f: FormV, key: Seq<u8>) -> int {
    if exists|i: int| 0 <= i < f.len() && f[i].0 == key {
        choose|i: int| 0 <= i < f.len() && f[i].0 == key
    } else {
        -1
    }
}

/// The form with one more value for `key`.
pub open spec fn form_add(f: FormV, key: Seq<u8>, value: Seq<u8>) -> FormV {
    let i = key_index(f, key);
    if i >= 0 {
        f.update(i, (key, f[i].1.push(value)))
    } else {
        f.push((key, seq![value]))
    }
}

/// The values of `key`, if it has any.
pub open spec fn form_get(f: FormV, key: Seq<u8>) -> Option<Seq<Seq<u8>>> {
    let i = key_index(f, key);
    if i >= 0 {
        Some(f[i].1)
    } else {
        None
    }
}

/// Every value of `g` added to `f`, key by key, in order.
pub open spec fn form_extend(f: FormV, g: FormV) -> FormV
    decreases g.len(),
{
    if g.len() == 0 {
        f
    } else {
        add_all(form_extend(f, g.drop_last()), g.last().0, g.last().1)
    }
}

pub open spec fn add_all(f: FormV, key: Seq<u8>, values: Seq<Seq<u8>>) -> FormV
    decreases values.len(),
{
    if values.len() == 0 {
        f
    } else {
        form_add(add_all(f, key, values.drop_last()), key, values.last())
    }
}

proof fn lemma_key_index(f: FormV, key: Seq<u8>, i: int)
    requires
        distinct_keys(f),
        0 <= i < f.len(),
        f[i].0 == key,
    ensures
        key_index(f, key) == i,
{
    let c = key_index(f, key);
    assert(0 <= c < f.len() && f[c].0 == key);
    if c != i {
        if c < i {
            assert(f[c].0 != f[i].0);
        } else {
            assert(f[i].0 != f[c].0);
        }
    }
}

proof fn lemma_form_add_distinct(f: FormV, key: Seq<u8>, value: Seq<u8>)
    requires
        distinct_keys(f),
    ensures
        distinct_keys(form_add(f, key, value)),
{
    let g = form_add(f, key, value);
    let i = key_index(f, key);
    if i < 0 {
        assert forall|a: int, b: int| 0 <= a < b < g.len() implies #[trigger] g[a].0 != #[trigger] g[b].0 by {
            if b == f.len() {
                if f[a].0 == key {
                    assert(exists|k: int| 0 <= k < f.len() && f[k].0 == key);
                }
            }
        }
    } else {
        assert forall|a: int, b: int| 0 <= a < b < g.len() implies #[trigger] g[a].0 != #[trigger] g[b].0 by {
            assert(f[a].0 != f[b].0);
        }
    }
}

impl Form {
    #[verifier::type_invariant]
    spec fn wf(self) -> bool {
        distinct_keys(form_view(self.values@))
    }

    pub closed spec fn view_v(&self) -> FormV {
        form_view(self.values@)
    }

    /// An empty form.
    pub fn new() -> (r: Form)
        ensures
            r.view_v() == Seq::<(Seq<u8>, Seq<Seq<u8>>)>::empty(),
    {
        let r = Form { values: Vec::new() };
        assert(form_view(r.values@) =~= Seq::<(Seq<u8>, Seq<Seq<u8>>)>::empty());
        r
    }

    fn find(&self, key: &[u8]) -> (r: Option<usize>)
        ensures
            match r {
                Some(i) => i < self.view_v().len() && key_index(self.view_v(), key@) == i,
                None => key_index(self.view_v(), key@) == -1,
            },
    {
        proof {
            use_type_invariant(self);
        }
        let ghost f = self.view_v();
        let mut i: usize = 0;
        while i < self.values.len()
            invariant
                i <= self.values@.len(),
                f == self.view_v(),
                distinct_keys(f),
                forall|k: int| 0 <= k < i ==> f[k].0 != key@,
            decreases self.values@.len() - i,
        {
            if bytes_eq(self.values[i].0.as_slice(), key) {
                proof {
                    lemma_key_index(f, key@, i as int);
                }
                return Some(i);
            }
            i = i + 1;
        }
        None
    }

    /// The values of `key`, in order.
    pub fn get(&self, key: &[u8]) -> (r: Option<&[Vec<u8>]>)
        ensures
            match r {
                Some(vs) => form_get(self.view_v(), key@) == Some(view_tokens(vs@)),
                None => form_get(self.view_v(), key@) is None,
            },
    {
        match self.find(key) {
            Some(i) => Some(self.values[i].1.as_slice()),
            None => None,
        }
    }

    pub fn is_empty(&self) -> (r: bool)
        ensures
            r == (self.view_v().len() == 0),
    {
        self.values.len() == 0
    }

    /// The keys, in order of first appearance, with their values.
    pub fn entries(&self) -> (r: &Vec<(Vec<u8>, Vec<Vec<u8>>)>)
        ensures
            form_view(r@) == self.view_v(),
    {
        &self.values
    }

    /// Adds a value for `key`, after its others.
    pub fn add(&mut self, key: Vec<u8>, value: Vec<u8>)
        ensures
            final(self).view_v() == form_add(old(self).view_v(), key@, value@),
    {
        proof {
            use_type_invariant(&*self);
        }
        let ghost f = self.view_v();
        proof {
            lemma_form_add_distinct(f, key@, value@);
        }
        match self.find(key.as_slice()) {
            Some(i) => {
                let mut values: Vec<(Vec<u8>, Vec<Vec<u8>>)> = Vec::new();
                std::mem::swap(&mut values, &mut self.values);
                let mut entry: (Vec<u8>, Vec<Vec<u8>>) = (Vec::new(), Vec::new());
                values.set_and_swap(i, &mut entry);
                let ghost vs = view_tokens(entry.1@);
                entry.1.push(value);
                assert(view_tokens(entry.1@) =~= vs.push(value@));
                values.set_and_swap(i, &mut entry);
                assert(form_view(values@) =~= form_add(f, key@, value@));
                self.values = values;
            },
            None => {
                let mut values: Vec<(Vec<u8>, Vec<Vec<u8>>)> = Vec::new();
                std::mem::swap(&mut values, &mut self.values);
                let mut vs: Vec<Vec<u8>> = Vec::new();
                vs.push(value);
                assert(view_tokens(vs@) =~= seq![value@]);
                values.push((key, vs));
                assert(form_view(values@) =~= form_add(f, key@, value@));
                self.values = values;
            },
        }
    }

    /// Adds every value of `other`, key by key, in order.
    pub fn extend(&mut self, other: Form)
        ensures
            final(self).view_v() == form_extend(old(self).view_v(), other.view_v()),
    {
        let ghost g = other.view_v();
        let mut i: usize = 0;
        assert(g.subrange(0, 0) =~= Seq::<(Seq<u8>, Seq<Seq<u8>>)>::empty());
        while i < other.values.len()
            invariant
                i <= other.values@.len(),
                g == other.view_v(),
                self.view_v() == form_extend(old(self).view_v(), g.subrange(0, i as int)),
            decreases other.values@.len() - i,
        {
            let key = &other.values[i].0;
            let vs = &other.values[i].1;
            let ghost before = self.view_v();
            let mut j: usize = 0;
            while j < vs.len()
                invariant
                    j <= vs@.len(),
                    self.view_v() == add_all(before, key@, view_tokens(vs@).subrange(0, j as int)),
                decreases vs@.len() - j,
            {
                let ghost w = view_tokens(vs@).subrange(0, j + 1);
                assert(w.drop_last() =~= view_tokens(vs@).subrange(0, j as int));
                self.add(copy_bytes(key.as_slice()), copy_bytes(vs[j].as_slice()));
                j = j + 1;
            }
            assert(view_tokens(vs@).subrange(0, j as int) =~= view_tokens(vs@));
            assert(g.subrange(0, i + 1).drop_last() =~= g.subrange(0, i as int));
            i = i + 1;
        }
        assert(g.subrange(0, i as int) =~= g);
    }
}


/// `url.QueryUnescape`: `%XX` becomes the byte, `+` a space; the first bad
/// escape (with at most two bytes after its `%`) is the error.
pub open spec fn spec_query_unescape(s: Seq<u8>) -> Result<Seq<u8>, Seq<u8>>
    decreases s.len(),
{
    if s.len() == 0 {
        Ok(Seq::empty())
    } else if s[0] == 37 {
        if s.len() < 3 || !is_hex_digit(s[1]) || !is_hex_digit(s[2]) {
            Err(s.subrange(0, if s.len() < 3 { s.len() as int } else { 3 }))
        } else {
            match spec_query_unescape(s.subrange(3, s.len() as int)) {
                Ok(r) => Ok(seq![(hex_value(s[1]) * 16 + hex_value(s[2])) as u8] + r),
                Err(e) => Err(e),
            }
        }
    } else {
        match spec_query_unescape(s.subrange(1, s.len() as int)) {
            Ok(r) => Ok(seq![if s[0] == 43 { 32u8 } else { s[0] }] + r),
            Err(e) => Err(e),
        }
    }
}

/// A hexadecimal digit of either case.
pub open spec fn hex_digit_either_case(c: u8) -> bool {
    (48 <= c <= 57) || (65 <= c <= 70) || (97 <= c <= 102)
}

/// The value of a hexadecimal digit of either case.
pub open spec fn digit_worth(c: u8) -> int {
    if c <= 57 {
        c - 48
    } else if c <= 70 {
        c - 55
    } else {
        c - 87
    }
}

/// `%XY`, with hexadecimal digits of either case, stands for the byte
/// `16 * X + Y`, whatever follows it; any other byte but `+` stands for
/// itself, and `+` for a space.
pub proof fn lemma_query_unescape_bytes(x: u8, y: u8, c: u8, rest: Seq<u8>)
    requires
        hex_digit_either_case(x),
        hex_digit_either_case(y),
        c != 37,
    ensures
        spec_query_unescape(seq![37u8, x, y] + rest) == match spec_query_unescape(rest) {
            Ok(r) => Ok::<Seq<u8>, Seq<u8>>(seq![(16 * digit_worth(x) + digit_worth(y)) as u8] + r),
            Err(e) => Err(e),
        },
        spec_query_unescape(seq![c] + rest) == match spec_query_unescape(rest) {
            Ok(r) => Ok::<Seq<u8>, Seq<u8>>(seq![if c == 43 { 32u8 } else { c }] + r),
            Err(e) => Err(e),
        },
{
    let s = seq![37u8, x, y] + rest;
    assert(s.subrange(3, s.len() as int) =~= rest);
    let t = seq![c] + rest;
    assert(t.subrange(1, t.len() as int) =~= rest);
}

/// A `%` not followed by two hexadecimal digits is refused, the `%` and the
/// at most two bytes after it named.
pub proof fn lemma_query_unescape_refusal(s: Seq<u8>)
    requires
        s.len() > 0,
        s[0] == 37,
        s.len() < 3 || !hex_digit_either_case(s[1]) || !hex_digit_either_case(s[2]),
    ensures
        spec_query_unescape(s) == Err::<Seq<u8>, Seq<u8>>(s.take(if s.len() < 3 { s.len() as int } else { 3 })),
{
}

pub open spec fn escape_error_text(bad: Seq<u8>) -> Seq<u8> {
    "invalid URL escape ".spec_bytes() + spec_quote(bad)
}

/// `url.QueryUnescape`, with Go's error text.
pub fn query_unescape(s: &[u8]) -> (r: Result<Vec<u8>, Vec<u8>>)
    ensures
        match r {
            Ok(v) => spec_query_unescape(s@) == Ok::<Seq<u8>, Seq<u8>>(v@),
            Err(m) => spec_query_unescape(s@) matches Err(bad) && m@ == escape_error_text(bad),
        },
{
    let mut out: Vec<u8> = Vec::new();
    let mut i: usize = 0;
    assert(s@.subrange(0, s@.len() as int) =~= s@);
    while i < s.len()
        invariant
            i <= s@.len(),
            spec_query_unescape(s@) == match spec_query_unescape(s@.subrange(i as int, s@.len() as int)) {
                Ok(r) => Ok::<Seq<u8>, Seq<u8>>(out@ + r),
                Err(e) => Err::<Seq<u8>, Seq<u8>>(e),
            },
        decreases s@.len() - i,
    {
        let ghost rest = s@.subrange(i as int, s@.len() as int);
        let ghost o = out@;
        if s[i] == 37 {
            if s.len() - i < 3 || !ascii_hex_digit(s[i + 1]) || !ascii_hex_digit(s[i + 2]) {
                let end = if s.len() - i < 3 { s.len() } else { i + 3 };
                let bad = copy_range(s, i, end);
                assert(bad@ =~= rest.subrange(0, if rest.len() < 3 { rest.len() as int } else { 3 }));
                let mut m = copy_bytes("invalid URL escape ".as_bytes());
                let q = quote(bad.as_slice());
                push_all(&mut m, q.as_slice());
                return Err(m);
            }
            let b = hex_digit_value(s[i + 1]) * 16 + hex_digit_value(s[i + 2]);
            out.push(b);
            assert(rest.subrange(3, rest.len() as int) =~= s@.subrange(i + 3, s@.len() as int));
            assert(b == (hex_value(rest[1]) * 16 + hex_value(rest[2])) as u8);
            proof {
                match spec_query_unescape(s@.subrange(i + 3, s@.len() as int)) {
                    Ok(r) => {
                        assert(out@ + r =~= o + (seq![b] + r));
                    },
                    Err(e) => {},
                }
            }
            i = i + 3;
        } else {
            let c = if s[i] == 43 { 32 } else { s[i] };
            out.push(c);
            assert(rest.subrange(1, rest.len() as int) =~= s@.subrange(i + 1, s@.len() as int));
            proof {
                match spec_query_unescape(s@.subrange(i + 1, s@.len() as int)) {
                    Ok(r) => {
                        assert(out@ + r =~= o + (seq![c] + r));
                    },
                    Err(e) => {},
                }
            }
            i = i + 1;
        }
    }
    assert(out@ + Seq::<u8>::empty() =~= out@);
    Ok(out)
}

/// The first index from `i` holding `sep`, or the length.
pub open spec fn next_sep(q: Seq<u8>, sep: u8, i: int) -> int
    decreases q.len() - i,
{
    if i < 0 || i >= q.len() {
        q.len() as int
    } else if q[i] == sep {
        i
    } else {
        next_sep(q, sep, i + 1)
    }
}

/// `strings.Split(q, sep)`.
pub open spec fn split_on(q: Seq<u8>, sep: u8) -> Seq<Seq<u8>>
    decreases q.len(),
{
    let i = next_sep(q, sep, 0);
    if i >= q.len() {
        seq![q]
    } else {
        proof {
            lemma_next_sep(q, sep, 0);
        }
        seq![q.subrange(0, i)] + split_on(q.subrange(i + 1, q.len() as int), sep)
    }
}

/// `strings.Split` gives at least one piece.
pub proof fn lemma_split_on_nonempty(q: Seq<u8>, sep: u8)
    ensures
        split_on(q, sep).len() >= 1,
{
}

pub proof fn lemma_next_sep(q: Seq<u8>, sep: u8, i: int)
    requires
        0 <= i <= q.len(),
    ensures
        i <= next_sep(q, sep, i) <= q.len(),
        forall|j: int| i <= j < next_sep(q, sep, i) ==> #[trigger] q[j] != sep,
        next_sep(q, sep, i) < q.len() ==> q[next_sep(q, sep, i)] == sep,
    decreases q.len() - i,
{
    if i < q.len() && q[i] != sep {
        lemma_next_sep(q, sep, i + 1);
    }
}

proof fn lemma_next_sep_shift(q: Seq<u8>, sep: u8, start: int, k: int)
    requires
        0 <= start <= k <= q.len(),
        forall|j: int| start <= j < k ==> #[trigger] q[j] != sep,
        k == q.len() || q[k] == sep,
    ensures
        next_sep(q.subrange(start, q.len() as int), sep, 0) == k - start,
{
    let r = q.subrange(start, q.len() as int);
    lemma_next_sep_at(r, sep, 0, k - start);
}

/// The first separator from `i` is at `k` when none stands before it.
pub proof fn lemma_next_sep_at(r: Seq<u8>, sep: u8, i: int, k: int)
    requires
        0 <= i <= k <= r.len(),
        forall|j: int| i <= j < k ==> #[trigger] r[j] != sep,
        k == r.len() || r[k] == sep,
    ensures
        next_sep(r, sep, i) == k,
    decreases k - i,
{
    if i < k {
        lemma_next_sep_at(r, sep, i + 1, k);
    }
}

/// `strings.Split`.
pub fn split_bytes(q: &[u8], sep: u8) -> (r: Vec<Vec<u8>>)
    ensures
        view_tokens(r@) == split_on(q@, sep),
{
    let mut out: Vec<Vec<u8>> = Vec::new();
    let mut start: usize = 0;
    assert(q@.subrange(0, q@.len() as int) =~= q@);
    loop
        invariant
            start <= q@.len(),
            view_tokens(out@) + split_on(q@.subrange(start as int, q@.len() as int), sep) == split_on(q@, sep),
        decreases q@.len() - start,
    {
        let mut k = start;
        while k < q.len() && q[k] != sep
            invariant
                start <= k <= q@.len(),
                forall|j: int| start <= j < k ==> #[trigger] q@[j] != sep,
            decreases q@.len() - k,
        {
            k = k + 1;
        }
        let ghost rest = q@.subrange(start as int, q@.len() as int);
        proof {
            lemma_next_sep_shift(q@, sep, start as int, k as int);
        }
        let piece = copy_range(q, start, k);
        let ghost o = view_tokens(out@);
        out.push(piece);
        assert(view_tokens(out@) =~= o.push(piece@));
        if k == q.len() {
            assert(piece@ =~= rest);
            assert(split_on(rest, sep) == seq![rest]);
            assert(view_tokens(out@) =~= o + split_on(rest, sep));
            return out;
        }
        assert(piece@ =~= rest.subrange(0, k - start));
        assert(rest.subrange(k - start + 1, rest.len() as int) =~= q@.subrange(k + 1, q@.len() as int));
        assert(o.push(piece@) + split_on(q@.subrange(k + 1, q@.len() as int), sep) =~= o + split_on(rest, sep));
        start = k + 1;
    }
}

/// The key and value of one `key=value` piece: split at the first `=`.
pub open spec fn split_pair(p: Seq<u8>) -> (Seq<u8>, Seq<u8>) {
    let i = next_sep(p, EQUALS, 0);
    if i < p.len() {
        (p.subrange(0, i), p.subrange(i + 1, p.len() as int))
    } else {
        (p, Seq::empty())
    }
}

pub open spec fn semicolon_text() -> Seq<u8> {
    "invalid semicolon separator in query".spec_bytes()
}

pub open spec fn too_many_text() -> Seq<u8> {
    "number of URL query parameters exceeded limit".spec_bytes()
}

/// One piece of a query added to the form and the first error so far.
pub open spec fn query_step(f: FormV, err: Option<Seq<u8>>, p: Seq<u8>) -> (FormV, Option<Seq<u8>>) {
    let first = |e: Seq<u8>| if err is Some { err } else { Some(e) };
    if p.contains(SEMICOLON) {
        (f, first(semicolon_text()))
    } else if p.len() == 0 {
        (f, err)
    } else {
        let (k, v) = split_pair(p);
        match spec_query_unescape(k) {
            Err(bad) => (f, first(escape_error_text(bad))),
            Ok(kk) => match spec_query_unescape(v) {
                Err(bad) => (f, first(escape_error_text(bad))),
                Ok(vv) => (form_add(f, kk, vv), err),
            },
        }
    }
}

/// The pieces from the `i`-th on, applied in order.
pub open spec fn query_fold(ps: Seq<Seq<u8>>, i: int, f: FormV, err: Option<Seq<u8>>) -> (FormV, Option<Seq<u8>>)
    decreases ps.len() - i,
{
    if i < 0 || i >= ps.len() {
        (f, err)
    } else {
        let (f2, e2) = query_step(f, err, ps[i]);
        query_fold(ps, i + 1, f2, e2)
    }
}

/// `url.ParseQuery`: every pair that parses is kept; the first error is
/// returned beside them.
pub open spec fn spec_parse_query(q: Seq<u8>) -> (FormV, Option<Seq<u8>>) {
    let ps = split_on(q, AMP);
    if ps.len() > 10000 {
        (Seq::empty(), Some(too_many_text()))
    } else {
        query_fold(ps, 0, Seq::empty(), None)
    }
}

fn contains_byte(s: &[u8], b: u8) -> (r: bool)
    ensures
        r == s@.contains(b),
{
    let mut i: usize = 0;
    while i < s.len()
        invariant
            i <= s@.len(),
            forall|j: int| 0 <= j < i ==> s@[j] != b,
        decreases s@.len() - i,
    {
        if s[i] == b {
            assert(s@[i as int] == b);
            return true;
        }
        i = i + 1;
    }
    false
}

/// `url.ParseQuery`: every pair that parses is kept; the first error is
/// returned beside them.
pub fn parse_query(query: &[u8]) -> (r: (Form, Option<Vec<u8>>))
    ensures
        (r.0.view_v(), match r.1 {
            Some(e) => Some(e@),
            None => None,
        }) == spec_parse_query(query@),
{
    let mut form = Form::new();
    let pieces = split_bytes(query, AMP);
    let ghost ps = view_tokens(pieces@);
    if pieces.len() > 10000 {
        return (form, Some(copy_bytes("number of URL query parameters exceeded limit".as_bytes())));
    }
    let mut err: Option<Vec<u8>> = None;
    let mut i: usize = 0;
    while i < pieces.len()
        invariant
            i <= pieces@.len(),
            ps == view_tokens(pieces@),
            ps == split_on(query@, AMP),
            ps.len() <= 10000,
            query_fold(ps, 0, Seq::empty(), None) == query_fold(ps, i as int, form.view_v(), match err {
                Some(e) => Some(e@),
                None => None,
            }),
        decreases pieces@.len() - i,
    {
        let p = pieces[i].as_slice();
        assert(p@ == ps[i as int]);
        if contains_byte(p, SEMICOLON) {
            if err.is_none() {
                err = Some(copy_bytes("invalid semicolon separator in query".as_bytes()));
            }
            i = i + 1;
            continue;
        }
        if p.len() == 0 {
            i = i + 1;
            continue;
        }
        let mut k: usize = 0;
        while k < p.len() && p[k] != EQUALS
            invariant
                k <= p@.len(),
                forall|j: int| 0 <= j < k ==> #[trigger] p@[j] != EQUALS,
            decreases p@.len() - k,
        {
            k = k + 1;
        }
        proof {
            lemma_next_sep_at(p@, EQUALS, 0, k as int);
        }
        let (ks, vs) = if k < p.len() {
            (vstd::slice::slice_subrange(p, 0, k), vstd::slice::slice_subrange(p, k + 1, p.len()))
        } else {
            (p, vstd::slice::slice_subrange(p, p.len(), p.len()))
        };
        assert((ks@, vs@) == split_pair(p@)) by {
            if k >= p.len() {
                assert(vs@ =~= Seq::<u8>::empty());
            }
        }
        match query_unescape(ks) {
            Err(m) => {
                if err.is_none() {
                    err = Some(m);
                }
            },
            Ok(kk) => match query_unescape(vs) {
                Err(m) => {
                    if err.is_none() {
                        err = Some(m);
                    }
                },
                Ok(vv) => {
                    form.add(kk, vv);
                },
            },
        }
        i = i + 1;
    }
    (form, err)
}


/// The rune Rust's `char::to_lowercase` yields first for `r`.
pub uninterp spec fn unicode_lower(r: u32) -> u32;

/// `char::to_lowercase` on a rune, its first char taken: its result is a
/// function of the rune alone, and a `char`. Nothing more of it is stated.
#[verifier::external_body]
fn rune_to_lower(r: u32) -> (l: u32)
    requires
        r < 0x110000,
        !(0xd800 <= r < 0xe000),
    ensures
        l == unicode_lower(r),
        l < 0x110000,
        !(0xd800 <= l < 0xe000),
{
    match char::from_u32(r) {
        Some(c) => c.to_lowercase().next().unwrap_or(c) as u32,
        None => r,
    }
}

/// Unicode's `White_Space` property, which `char::is_whitespace` tests.
pub open spec fn is_unicode_space(r: int) -> bool {
    (9 <= r <= 13) || r == 32 || r == 0x85 || r == 0xa0 || r == 0x1680 || (0x2000 <= r <= 0x200a) || r == 0x2028
        || r == 0x2029 || r == 0x202f || r == 0x205f || r == 0x3000
}

fn unicode_space(r: u32) -> (b: bool)
    ensures
        b == is_unicode_space(r as int),
{
    (9 <= r && r <= 13) || r == 32 || r == 0x85 || r == 0xa0 || r == 0x1680 || (0x2000 <= r && r <= 0x200a) || r
        == 0x2028 || r == 0x2029 || r == 0x202f || r == 0x205f || r == 0x3000
}

/// One step of `String::from_utf8_lossy`: a rune and its width, or U+FFFD
/// for the longest prefix of a sequence that went wrong.
pub open spec fn lossy_step(s: Seq<u8>) -> (int, int) {
    let (r, w) = spec_decode_rune(s);
    if r >= 0 {
        (r, w)
    } else {
        let b0 = s[0];
        let lo: u8 = if b0 == 0xe0 { 0xa0 } else if b0 == 0xf0 { 0x90 } else { 0x80 };
        let hi: u8 = if b0 == 0xed { 0x9f } else if b0 == 0xf4 { 0x8f } else { 0xbf };
        let n: int = if 0xe0 <= b0 <= 0xef {
            if s.len() >= 2 && lo <= s[1] <= hi { 2 } else { 1 }
        } else if 0xf0 <= b0 <= 0xf4 {
            if s.len() >= 2 && lo <= s[1] <= hi {
                if s.len() >= 3 && cont_byte(s[2]) { 3 } else { 2 }
            } else {
                1
            }
        } else {
            1
        };
        (0xfffd, n)
    }
}

/// The runes `String::from_utf8_lossy` reads.
pub open spec fn lossy_runes(s: Seq<u8>) -> Seq<int>
    decreases s.len(),
{
    if s.len() == 0 {
        Seq::empty()
    } else {
        let (r, w) = lossy_step(s);
        proof {
            crate::request::strconv::lemma_decode_width(s);
        }
        seq![r] + lossy_runes(s.subrange(w, s.len() as int))
    }
}

/// `strings.ToLower` as the media type is lowered: U+0130 to `i`, other
/// runes by `char::to_lowercase`.
pub open spec fn lower_rune(r: int) -> int {
    if r == 0x130 {
        105
    } else if r < 0x80 {
        to_lower(r as u8) as int
    } else {
        unicode_lower(r as u32) as int
    }
}

/// The UTF-8 bytes of a rune.
pub open spec fn encode_rune(r: int) -> Seq<u8> {
    if r < 0x80 {
        seq![r as u8]
    } else if r < 0x800 {
        seq![(0xc0 + r / 64) as u8, (0x80 + r % 64) as u8]
    } else if r < 0x10000 {
        seq![(0xe0 + r / 4096) as u8, (0x80 + r / 64 % 64) as u8, (0x80 + r % 64) as u8]
    } else {
        seq![(0xf0 + r / 0x40000) as u8, (0x80 + r / 4096 % 64) as u8, (0x80 + r / 64 % 64) as u8, (0x80 + r % 64) as u8]
    }
}

pub open spec fn encode_runes(rs: Seq<int>) -> Seq<u8>
    decreases rs.len(),
{
    if rs.len() == 0 {
        Seq::empty()
    } else {
        encode_runes(rs.drop_last()) + encode_rune(rs.last())
    }
}

pub open spec fn first_non_space(rs: Seq<int>, i: int) -> int
    decreases rs.len() - i,
{
    if 0 <= i < rs.len() && is_unicode_space(rs[i]) {
        first_non_space(rs, i + 1)
    } else {
        i
    }
}

pub open spec fn non_space_end(rs: Seq<int>, lo: int, j: int) -> int
    decreases j - lo,
{
    if lo < j && is_unicode_space(rs[j - 1]) {
        non_space_end(rs, lo, j - 1)
    } else {
        j
    }
}

/// The runes without leading and trailing white space.
pub open spec fn trim_runes(rs: Seq<int>) -> Seq<int> {
    let a = first_non_space(rs, 0);
    rs.subrange(a, non_space_end(rs, a, rs.len() as int))
}

/// `strings.ToLower` then `strings.TrimSpace` on the media type, invalid
/// UTF-8 replaced.
pub open spec fn spec_lower_trim(base: Seq<u8>) -> Seq<u8> {
    encode_runes(trim_runes(lossy_runes(base).map_values(|r: int| lower_rune(r))))
}

proof fn lemma_lossy_step(s: Seq<u8>)
    requires
        s.len() > 0,
    ensures
        1 <= lossy_step(s).1 <= s.len(),
        0 <= lossy_step(s).0 < 0x110000,
        !(0xd800 <= lossy_step(s).0 < 0xe000),
{
    crate::request::strconv::lemma_decode_width(s);
}

/// The runes `String::from_utf8_lossy` reads.
pub fn lossy_decode(s: &[u8]) -> (r: Vec<u32>)
    ensures
        r@.map_values(|x: u32| x as int) == lossy_runes(s@),
        forall|i: int| 0 <= i < r@.len() ==> #[trigger] r@[i] < 0x110000 && !(0xd800 <= r@[i] < 0xe000),
{
    let mut out: Vec<u32> = Vec::new();
    let mut i: usize = 0;
    assert(s@.subrange(0, s@.len() as int) =~= s@);
    while i < s.len()
        invariant
            i <= s@.len(),
            out@.map_values(|x: u32| x as int) + lossy_runes(s@.subrange(i as int, s@.len() as int)) == lossy_runes(s@),
            forall|k: int| 0 <= k < out@.len() ==> #[trigger] out@[k] < 0x110000 && !(0xd800 <= out@[k] < 0xe000),
        decreases s@.len() - i,
    {
        let rest = vstd::slice::slice_subrange(s, i, s.len());
        let ghost o = out@.map_values(|x: u32| x as int);
        proof {
            lemma_lossy_step(rest@);
        }
        let (r, w) = decode_rune(rest);
        let (rune, width): (u32, usize) = match r {
            Some(c) => (c, w),
            None => {
                let b0 = rest[0];
                let lo: u8 = if b0 == 0xe0 { 0xa0 } else if b0 == 0xf0 { 0x90 } else { 0x80 };
                let hi: u8 = if b0 == 0xed { 0x9f } else if b0 == 0xf4 { 0x8f } else { 0xbf };
                let n: usize = if 0xe0 <= b0 && b0 <= 0xef {
                    if rest.len() >= 2 && lo <= rest[1] && rest[1] <= hi { 2 } else { 1 }
                } else if 0xf0 <= b0 && b0 <= 0xf4 {
                    if rest.len() >= 2 && lo <= rest[1] && rest[1] <= hi {
                        if rest.len() >= 3 && 0x80 <= rest[2] && rest[2] <= 0xbf { 3 } else { 2 }
                    } else {
                        1
                    }
                } else {
                    1
                };
                (0xfffd, n)
            },
        };
        assert((rune as int, width as int) == lossy_step(rest@));
        out.push(rune);
        assert(out@.map_values(|x: u32| x as int) =~= o.push(rune as int));
        assert(rest@.subrange(width as int, rest@.len() as int) =~= s@.subrange(i + width, s@.len() as int));
        assert(o.push(rune as int) + lossy_runes(s@.subrange(i + width, s@.len() as int)) =~= o + lossy_runes(rest@));
        i = i + width;
    }
    assert(out@.map_values(|x: u32| x as int) + Seq::<int>::empty() =~= out@.map_values(|x: u32| x as int));
    out
}

/// `String::from_utf8_lossy`: every invalid sequence becomes U+FFFD.
pub fn lossy(s: &[u8]) -> (r: Vec<u8>)
    ensures
        r@ == encode_runes(lossy_runes(s@)),
{
    let runes = lossy_decode(s);
    let ghost rs = lossy_runes(s@);
    let mut out: Vec<u8> = Vec::new();
    let mut k: usize = 0;
    while k < runes.len()
        invariant
            k <= runes@.len(),
            runes@.map_values(|x: u32| x as int) == rs,
            forall|j: int| 0 <= j < runes@.len() ==> #[trigger] runes@[j] < 0x110000,
            out@ == encode_runes(rs.subrange(0, k as int)),
        decreases runes@.len() - k,
    {
        push_rune(&mut out, runes[k]);
        assert(rs.subrange(0, k + 1).drop_last() =~= rs.subrange(0, k as int));
        assert(rs.subrange(0, k + 1).last() == runes@[k as int] as int);
        k = k + 1;
    }
    assert(rs.subrange(0, runes@.len() as int) =~= rs);
    out
}

/// Appends the UTF-8 bytes of a rune.
pub fn push_rune(out: &mut Vec<u8>, r: u32)
    requires
        r < 0x110000,
    ensures
        final(out)@ == old(out)@ + encode_rune(r as int),
{
    let ghost o = out@;
    if r < 0x80 {
        out.push(r as u8);
    } else if r < 0x800 {
        out.push((0xc0 + r / 64) as u8);
        out.push((0x80 + r % 64) as u8);
    } else if r < 0x10000 {
        out.push((0xe0 + r / 4096) as u8);
        out.push((0x80 + r / 64 % 64) as u8);
        out.push((0x80 + r % 64) as u8);
    } else {
        out.push((0xf0 + r / 0x40000) as u8);
        out.push((0x80 + r / 4096 % 64) as u8);
        out.push((0x80 + r / 64 % 64) as u8);
        out.push((0x80 + r % 64) as u8);
    }
    assert(out@ =~= o + encode_rune(r as int));
}

/// `strings.ToLower` then `strings.TrimSpace`: per-rune case mapping,
/// invalid UTF-8 replaced.
pub fn lower_trim(base: &[u8]) -> (r: Vec<u8>)
    ensures
        r@ == spec_lower_trim(base@),
{
    let runes = lossy_decode(base);
    let ghost rs = lossy_runes(base@).map_values(|r: int| lower_rune(r));
    let mut lowered: Vec<u32> = Vec::new();
    let mut i: usize = 0;
    while i < runes.len()
        invariant
            i <= runes@.len(),
            runes@.map_values(|x: u32| x as int) == lossy_runes(base@),
            forall|k: int| 0 <= k < runes@.len() ==> #[trigger] runes@[k] < 0x110000 && !(0xd800 <= runes@[k] < 0xe000),
            lowered@.len() == i,
            forall|k: int| 0 <= k < i ==> #[trigger] lowered@[k] as int == rs[k] && lowered@[k] < 0x110000,
            rs == lossy_runes(base@).map_values(|r: int| lower_rune(r)),
        decreases runes@.len() - i,
    {
        let c = runes[i];
        assert(lossy_runes(base@)[i as int] == c as int);
        let l = if c == 0x130 {
            105
        } else if c < 0x80 {
            ascii_to_lower(c as u8) as u32
        } else {
            rune_to_lower(c)
        };
        lowered.push(l);
        i = i + 1;
    }
    assert(lowered@.map_values(|x: u32| x as int) =~= rs);
    encode_trimmed(&lowered)
}

/// The runes without leading and trailing white space, as UTF-8.
pub fn encode_trimmed(lowered: &Vec<u32>) -> (out: Vec<u8>)
    requires
        forall|j: int| 0 <= j < lowered@.len() ==> #[trigger] lowered@[j] < 0x110000,
    ensures
        out@ == encode_runes(trim_runes(lowered@.map_values(|x: u32| x as int))),
{
    let ghost rs = lowered@.map_values(|x: u32| x as int);
    let mut a: usize = 0;
    while a < lowered.len() && unicode_space(lowered[a])
        invariant
            a <= lowered@.len(),
            lowered@.map_values(|x: u32| x as int) == rs,
            first_non_space(rs, a as int) == first_non_space(rs, 0),
        decreases lowered@.len() - a,
    {
        assert(rs[a as int] == lowered@[a as int] as int);
        a = a + 1;
    }
    proof {
        if a < lowered@.len() {
            assert(rs[a as int] == lowered@[a as int] as int);
        }
    }
    let mut e: usize = lowered.len();
    while e > a && unicode_space(lowered[e - 1])
        invariant
            a <= e <= lowered@.len(),
            lowered@.map_values(|x: u32| x as int) == rs,
            non_space_end(rs, a as int, e as int) == non_space_end(rs, a as int, rs.len() as int),
        decreases e - a,
    {
        assert(rs[e - 1] == lowered@[e - 1] as int);
        e = e - 1;
    }
    proof {
        if e > a {
            assert(rs[e - 1] == lowered@[e - 1] as int);
        }
    }
    let ghost t = trim_runes(rs);
    assert(t =~= rs.subrange(a as int, e as int));
    let mut out: Vec<u8> = Vec::new();
    let mut k: usize = a;
    while k < e
        invariant
            a <= k <= e <= lowered@.len(),
            lowered@.map_values(|x: u32| x as int) == rs,
            forall|j: int| 0 <= j < lowered@.len() ==> #[trigger] lowered@[j] < 0x110000,
            out@ == encode_runes(rs.subrange(a as int, k as int)),
        decreases e - k,
    {
        let ghost o = out@;
        push_rune(&mut out, lowered[k]);
        assert(rs.subrange(a as int, k + 1).drop_last() =~= rs.subrange(a as int, k as int));
        assert(rs.subrange(a as int, k + 1).last() == lowered@[k as int] as int);
        k = k + 1;
    }
    out
}


/// A `tspecial` of RFC 1521.
pub open spec fn is_tspecial(c: u8) -> bool {
    c == 40 || c == 41 || c == 60 || c == 62 || c == 64 || c == 44 || c == 59 || c == 58 || c == 92 || c == 34
        || c == 47 || c == 91 || c == 93 || c == 63 || c == 61
}

pub open spec fn is_token_char(c: u8) -> bool {
    0x20 < c < 0x7f && !is_tspecial(c)
}

fn tspecial(c: u8) -> (r: bool)
    ensures
        r == is_tspecial(c),
{
    c == 40 || c == 41 || c == 60 || c == 62 || c == 64 || c == 44 || c == 59 || c == 58 || c == 92 || c == 34 || c
        == 47 || c == 91 || c == 93 || c == 63 || c == 61
}

fn token_char(c: u8) -> (r: bool)
    ensures
        r == is_token_char(c),
{
    0x20 < c && c < 0x7f && !tspecial(c)
}

/// The length of the run of token bytes from `i`.
pub open spec fn token_end(v: Seq<u8>, i: int) -> int
    decreases v.len() - i,
{
    if 0 <= i < v.len() && is_token_char(v[i]) {
        token_end(v, i + 1)
    } else {
        i
    }
}

/// `consumeToken`: the leading token bytes and the rest.
pub open spec fn spec_consume_token(v: Seq<u8>) -> (Seq<u8>, Seq<u8>) {
    let n = token_end(v, 0);
    (v.subrange(0, n), v.subrange(n, v.len() as int))
}

proof fn lemma_token_end(v: Seq<u8>, i: int)
    requires
        0 <= i <= v.len(),
    ensures
        i <= token_end(v, i) <= v.len(),
    decreases v.len() - i,
{
    if i < v.len() && is_token_char(v[i]) {
        lemma_token_end(v, i + 1);
    }
}

fn consume_token(v: &[u8]) -> (r: (&[u8], &[u8]))
    ensures
        (r.0@, r.1@) == spec_consume_token(v@),
{
    let mut n: usize = 0;
    while n < v.len() && token_char(v[n])
        invariant
            n <= v@.len(),
            token_end(v@, n as int) == token_end(v@, 0),
        decreases v@.len() - n,
    {
        n = n + 1;
    }
    (vstd::slice::slice_subrange(v, 0, n), vstd::slice::slice_subrange(v, n, v.len()))
}

/// How many bytes of leading white space runes `strings.TrimLeftFunc` drops.
pub open spec fn space_end(v: Seq<u8>, i: int) -> int
    decreases v.len() - i,
{
    if 0 <= i < v.len() {
        let (r, w) = spec_decode_rune(v.subrange(i, v.len() as int));
        proof {
            crate::request::strconv::lemma_decode_width(v.subrange(i, v.len() as int));
        }
        if r >= 0 && is_unicode_space(r) {
            space_end(v, i + w)
        } else {
            i
        }
    } else {
        i
    }
}

/// `strings.TrimLeftFunc(v, unicode.IsSpace)`.
pub open spec fn spec_trim_left_space(v: Seq<u8>) -> Seq<u8> {
    v.subrange(space_end(v, 0), v.len() as int)
}

proof fn lemma_space_end(v: Seq<u8>, i: int)
    requires
        0 <= i <= v.len(),
    ensures
        i <= space_end(v, i) <= v.len(),
    decreases v.len() - i,
{
    if i < v.len() {
        crate::request::strconv::lemma_decode_width(v.subrange(i, v.len() as int));
        let (r, w) = spec_decode_rune(v.subrange(i, v.len() as int));
        if r >= 0 && is_unicode_space(r) {
            lemma_space_end(v, i + w);
        }
    }
}

fn trim_left_space(v: &[u8]) -> (r: &[u8])
    ensures
        r@ == spec_trim_left_space(v@),
        r@.len() <= v@.len(),
{
    let mut i: usize = 0;
    while i < v.len()
        invariant
            i <= v@.len(),
            space_end(v@, i as int) == space_end(v@, 0),
        ensures
            i <= v@.len(),
            space_end(v@, 0) == i,
        decreases v@.len() - i,
    {
        let rest = vstd::slice::slice_subrange(v, i, v.len());
        assert(rest@ =~= v@.subrange(i as int, v@.len() as int));
        proof {
            crate::request::strconv::lemma_decode_width(rest@);
        }
        let (r, w) = decode_rune(rest);
        match r {
            Some(c) => {
                if unicode_space(c) {
                    i = i + w;
                } else {
                    break;
                }
            },
            None => {
                break;
            },
        }
    }
    proof {
        lemma_space_end(v@, 0);
    }
    vstd::slice::slice_subrange(v, i, v.len())
}

/// The rest of a quoted string from `i`, `buf` holding what was read:
/// the value and the rest after the closing quote, or nothing and the input.
pub open spec fn quoted_from(v: Seq<u8>, i: int, buf: Seq<u8>) -> (Seq<u8>, Seq<u8>)
    decreases v.len() - i,
{
    if i < 1 || i >= v.len() {
        (Seq::empty(), v)
    } else if v[i] == 34 {
        (buf, v.subrange(i + 1, v.len() as int))
    } else if v[i] == 92 && i + 1 < v.len() && is_tspecial(v[i + 1]) {
        quoted_from(v, i + 2, buf.push(v[i + 1]))
    } else if v[i] == 13 || v[i] == 10 {
        (Seq::empty(), v)
    } else {
        quoted_from(v, i + 1, buf.push(v[i]))
    }
}

/// `consumeValue`: a token or a quoted string, and the rest.
pub open spec fn spec_consume_value(v: Seq<u8>) -> (Seq<u8>, Seq<u8>) {
    if v.len() == 0 {
        (Seq::empty(), v)
    } else if v[0] != 34 {
        spec_consume_token(v)
    } else {
        quoted_from(v, 1, Seq::empty())
    }
}

fn consume_value(v: &[u8]) -> (r: (Vec<u8>, &[u8]))
    ensures
        (r.0@, r.1@) == spec_consume_value(v@),
{
    if v.len() == 0 {
        return (Vec::new(), v);
    }
    if v[0] != 34 {
        let (t, rest) = consume_token(v);
        return (copy_bytes(t), rest);
    }
    let mut buf: Vec<u8> = Vec::new();
    let mut i: usize = 1;
    while i < v.len()
        invariant
            1 <= i,
            v@.len() > 0 && v@[0] == 34,
            quoted_from(v@, 1, Seq::empty()) == quoted_from(v@, i as int, buf@),
        decreases v@.len() - i,
    {
        let r = v[i];
        if r == 34 {
            return (buf, vstd::slice::slice_subrange(v, i + 1, v.len()));
        }
        if r == 92 && i + 1 < v.len() && tspecial(v[i + 1]) {
            buf.push(v[i + 1]);
            i = i + 2;
            continue;
        }
        if r == 13 || r == 10 {
            return (Vec::new(), v);
        }
        buf.push(r);
        i = i + 1;
    }
    (Vec::new(), v)
}

/// `consumeMediaParam`: a lower-cased parameter name, its value and the
/// rest; or nothing and the input.
pub open spec fn spec_consume_media_param(v: Seq<u8>) -> (Seq<u8>, Seq<u8>, Seq<u8>) {
    let fail = (Seq::<u8>::empty(), Seq::<u8>::empty(), v);
    let r1 = spec_trim_left_space(v);
    if !(r1.len() > 0 && r1[0] == SEMICOLON) {
        fail
    } else {
        let r2 = spec_trim_left_space(r1.subrange(1, r1.len() as int));
        let (param, r3) = spec_consume_token(r2);
        let name = param.map_values(|c: u8| to_lower(c));
        if name.len() == 0 {
            fail
        } else {
            let r4 = spec_trim_left_space(r3);
            if !(r4.len() > 0 && r4[0] == EQUALS) {
                fail
            } else {
                let r5 = spec_trim_left_space(r4.subrange(1, r4.len() as int));
                let (value, r6) = spec_consume_value(r5);
                if value.len() == 0 && r6.len() == r5.len() {
                    fail
                } else {
                    (name, value, r6)
                }
            }
        }
    }
}

fn lower_bytes(s: &[u8]) -> (r: Vec<u8>)
    ensures
        r@ == s@.map_values(|c: u8| to_lower(c)),
{
    let mut out: Vec<u8> = Vec::new();
    let mut i: usize = 0;
    while i < s.len()
        invariant
            i <= s@.len(),
            out@ == s@.subrange(0, i as int).map_values(|c: u8| to_lower(c)),
        decreases s@.len() - i,
    {
        out.push(ascii_to_lower(s[i]));
        i = i + 1;
        assert(out@ =~= s@.subrange(0, i as int).map_values(|c: u8| to_lower(c)));
    }
    assert(s@.subrange(0, i as int) =~= s@);
    out
}

fn consume_media_param(v: &[u8]) -> (r: (Vec<u8>, Vec<u8>, &[u8]))
    ensures
        (r.0@, r.1@, r.2@) == spec_consume_media_param(v@),
        r.0@.len() > 0 ==> r.2@.len() < v@.len(),
{
    let r1 = trim_left_space(v);
    if !(r1.len() > 0 && r1[0] == SEMICOLON) {
        return (Vec::new(), Vec::new(), v);
    }
    let r2 = trim_left_space(vstd::slice::slice_subrange(r1, 1, r1.len()));
    let (param, r3) = consume_token(r2);
    let name = lower_bytes(param);
    if name.len() == 0 {
        return (Vec::new(), Vec::new(), v);
    }
    let r4 = trim_left_space(r3);
    if !(r4.len() > 0 && r4[0] == EQUALS) {
        return (Vec::new(), Vec::new(), v);
    }
    let r5 = trim_left_space(vstd::slice::slice_subrange(r4, 1, r4.len()));
    let (value, r6) = consume_value(r5);
    if value.len() == 0 && r6.len() == r5.len() {
        return (Vec::new(), Vec::new(), v);
    }
    proof {
        lemma_token_end(r2@, 0);
        lemma_consume_value_len(r5@);
    }
    (name, value, r6)
}

proof fn lemma_quoted_len(v: Seq<u8>, i: int, buf: Seq<u8>)
    requires
        1 <= i,
    ensures
        quoted_from(v, i, buf).1.len() <= v.len(),
        quoted_from(v, i, buf).1.len() < v.len() || quoted_from(v, i, buf).1 == v,
    decreases v.len() - i,
{
    if 1 <= i < v.len() && v[i] != 34 {
        if v[i] == 92 && i + 1 < v.len() && is_tspecial(v[i + 1]) {
            lemma_quoted_len(v, i + 2, buf.push(v[i + 1]));
        } else if !(v[i] == 13 || v[i] == 10) {
            lemma_quoted_len(v, i + 1, buf.push(v[i]));
        }
    }
}

proof fn lemma_consume_value_len(v: Seq<u8>)
    ensures
        spec_consume_value(v).1.len() <= v.len(),
{
    if v.len() > 0 {
        if v[0] != 34 {
            lemma_token_end(v, 0);
        } else {
            lemma_quoted_len(v, 1, Seq::empty());
        }
    }
}

/// Why `mime.ParseMediaType` refused.
#[derive(Debug, Clone, Copy, PartialEq, Eq, Structural)]
pub enum MediaTypeError {
    NoMediaType,
    ExpectedSlash,
    ExpectedToken,
    UnexpectedContent,
    InvalidParameter,
    DuplicateParameter,
}

pub open spec fn media_error_text(e: MediaTypeError) -> Seq<u8> {
    match e {
        MediaTypeError::NoMediaType => "mime: no media type".spec_bytes(),
        MediaTypeError::ExpectedSlash => "mime: expected slash after first token".spec_bytes(),
        MediaTypeError::ExpectedToken => "mime: expected token after slash".spec_bytes(),
        MediaTypeError::UnexpectedContent => "mime: unexpected content after media subtype".spec_bytes(),
        MediaTypeError::InvalidParameter => "mime: invalid media parameter".spec_bytes(),
        MediaTypeError::DuplicateParameter => "mime: duplicate parameter name".spec_bytes(),
    }
}

impl MediaTypeError {
    /// Go's text for the error.
    pub fn text(&self) -> (r: &'static str)
        ensures
            r.spec_bytes() == media_error_text(*self),
    {
        match self {
            MediaTypeError::NoMediaType => "mime: no media type",
            MediaTypeError::ExpectedSlash => "mime: expected slash after first token",
            MediaTypeError::ExpectedToken => "mime: expected token after slash",
            MediaTypeError::UnexpectedContent => "mime: unexpected content after media subtype",
            MediaTypeError::InvalidParameter => "mime: invalid media parameter",
            MediaTypeError::DuplicateParameter => "mime: duplicate parameter name",
        }
    }
}

/// The value first given for `key`, if any.
pub open spec fn first_value(seen: Seq<(Seq<u8>, Seq<u8>)>, key: Seq<u8>) -> Option<Seq<u8>>
    decreases seen.len(),
{
    if seen.len() == 0 {
        None
    } else {
        match first_value(seen.drop_last(), key) {
            Some(x) => Some(x),
            None => if seen.last().0 == key { Some(seen.last().1) } else { None },
        }
    }
}

/// The parameters of a media type from `v`, `seen` holding the first value
/// of each name so far: what refuses them, if anything.
pub open spec fn params_from(v: Seq<u8>, seen: Seq<(Seq<u8>, Seq<u8>)>) -> Option<MediaTypeError>
    decreases v.len(),
{
    let t = spec_trim_left_space(v);
    if v.len() == 0 || t.len() == 0 {
        None
    } else {
        let (key, value, rest) = spec_consume_media_param(t);
        if key.len() == 0 {
            if trim_runes(lossy_runes(rest)) == seq![59int] {
                None
            } else {
                Some(MediaTypeError::InvalidParameter)
            }
        } else if rest.len() >= v.len() {
            None
        } else {
            match first_value(seen, key) {
                Some(x) => if x != value {
                    Some(MediaTypeError::DuplicateParameter)
                } else {
                    params_from(rest, seen)
                },
                None => params_from(rest, seen.push((key, value))),
            }
        }
    }
}

/// `mime.ParseMediaType`, as far as `parsePostForm` reads it: the lowered,
/// trimmed media type (empty on most errors) and the error.
pub open spec fn spec_parse_media_type(v: Seq<u8>) -> (Seq<u8>, Option<MediaTypeError>) {
    let base_len = next_sep(v, SEMICOLON, 0);
    let mediatype = spec_lower_trim(v.subrange(0, base_len));
    let (typ, rest) = spec_consume_token(mediatype);
    if typ.len() == 0 {
        (Seq::empty(), Some(MediaTypeError::NoMediaType))
    } else if rest.len() > 0 && rest[0] != 47 {
        (Seq::empty(), Some(MediaTypeError::ExpectedSlash))
    } else if rest.len() > 0 && spec_consume_token(rest.subrange(1, rest.len() as int)).0.len() == 0 {
        (Seq::empty(), Some(MediaTypeError::ExpectedToken))
    } else if rest.len() > 0 && spec_consume_token(rest.subrange(1, rest.len() as int)).1.len() > 0 {
        (Seq::empty(), Some(MediaTypeError::UnexpectedContent))
    } else {
        match params_from(v.subrange(base_len, v.len() as int), Seq::empty()) {
            Some(MediaTypeError::DuplicateParameter) => (Seq::empty(), Some(MediaTypeError::DuplicateParameter)),
            e => (mediatype, e),
        }
    }
}

fn find_first(seen: &Vec<(Vec<u8>, Vec<u8>)>, key: &[u8]) -> (r: Option<usize>)
    ensures
        match r {
            Some(i) => i < seen@.len() && first_value(crate::error::pairs_view(seen@), key@) == Some(seen@[i as int].1@),
            None => first_value(crate::error::pairs_view(seen@), key@) is None,
        },
{
    let ghost sv = crate::error::pairs_view(seen@);
    let mut i: usize = 0;
    while i < seen.len()
        invariant
            i <= seen@.len(),
            sv == crate::error::pairs_view(seen@),
            first_value(sv.subrange(0, i as int), key@) is None,
        decreases seen@.len() - i,
    {
        assert(sv.subrange(0, i + 1).drop_last() =~= sv.subrange(0, i as int));
        if bytes_eq(seen[i].0.as_slice(), key) {
            proof {
                lemma_first_value_prefix(sv, i + 1, key@);
            }
            return Some(i);
        }
        i = i + 1;
    }
    assert(sv.subrange(0, i as int) =~= sv);
    None
}

proof fn lemma_first_value_prefix(s: Seq<(Seq<u8>, Seq<u8>)>, n: int, key: Seq<u8>)
    requires
        0 <= n <= s.len(),
        first_value(s.subrange(0, n), key) is Some,
    ensures
        first_value(s, key) == first_value(s.subrange(0, n), key),
    decreases s.len() - n,
{
    if n < s.len() {
        assert(s.subrange(0, n + 1).drop_last() =~= s.subrange(0, n));
        lemma_first_value_prefix(s, n + 1, key);
    } else {
        assert(s.subrange(0, n) =~= s);
    }
}

/// Whether the runes of `s`, trimmed, are exactly `;`.
fn trims_to_semicolon(s: &[u8]) -> (r: bool)
    ensures
        r == (trim_runes(lossy_runes(s@)) == seq![59int]),
{
    let runes = lossy_decode(s);
    let ghost rs = lossy_runes(s@);
    let mut a: usize = 0;
    while a < runes.len() && unicode_space(runes[a])
        invariant
            a <= runes@.len(),
            runes@.map_values(|x: u32| x as int) == rs,
            first_non_space(rs, a as int) == first_non_space(rs, 0),
        decreases runes@.len() - a,
    {
        assert(rs[a as int] == runes@[a as int] as int);
        a = a + 1;
    }
    proof {
        if a < runes@.len() {
            assert(rs[a as int] == runes@[a as int] as int);
        }
    }
    let mut e: usize = runes.len();
    while e > a && unicode_space(runes[e - 1])
        invariant
            a <= e <= runes@.len(),
            runes@.map_values(|x: u32| x as int) == rs,
            non_space_end(rs, a as int, e as int) == non_space_end(rs, a as int, rs.len() as int),
        decreases e - a,
    {
        assert(rs[e - 1] == runes@[e - 1] as int);
        e = e - 1;
    }
    proof {
        if e > a {
            assert(rs[e - 1] == runes@[e - 1] as int);
        }
    }
    let ghost t = trim_runes(rs);
    assert(t =~= rs.subrange(a as int, e as int));
    if e - a == 1 && runes[a] == 59 {
        assert(t =~= seq![59int]);
        true
    } else {
        proof {
            if t == seq![59int] {
                assert(t[0] == rs[a as int]);
            }
        }
        false
    }
}

/// `mime.ParseMediaType`, as far as `parsePostForm` reads it.
pub fn parse_media_type(v: &[u8]) -> (r: (Vec<u8>, Option<MediaTypeError>))
    ensures
        (r.0@, r.1) == spec_parse_media_type(v@),
{
    let mut base_len: usize = 0;
    while base_len < v.len() && v[base_len] != SEMICOLON
        invariant
            base_len <= v@.len(),
            forall|j: int| 0 <= j < base_len ==> #[trigger] v@[j] != SEMICOLON,
        decreases v@.len() - base_len,
    {
        base_len = base_len + 1;
    }
    proof {
        lemma_next_sep_at(v@, SEMICOLON, 0, base_len as int);
    }
    let mediatype = lower_trim(vstd::slice::slice_subrange(v, 0, base_len));
    let (typ, rest) = consume_token(mediatype.as_slice());
    if typ.len() == 0 {
        return (Vec::new(), Some(MediaTypeError::NoMediaType));
    }
    if rest.len() > 0 {
        if rest[0] != 47 {
            return (Vec::new(), Some(MediaTypeError::ExpectedSlash));
        }
        let (subtype, rest2) = consume_token(vstd::slice::slice_subrange(rest, 1, rest.len()));
        if subtype.len() == 0 {
            return (Vec::new(), Some(MediaTypeError::ExpectedToken));
        }
        if rest2.len() > 0 {
            return (Vec::new(), Some(MediaTypeError::UnexpectedContent));
        }
    }
    let mut seen: Vec<(Vec<u8>, Vec<u8>)> = Vec::new();
    let mut p: &[u8] = vstd::slice::slice_subrange(v, base_len, v.len());
    let ghost goal = params_from(p@, Seq::empty());
    assert(p@ == v@.subrange(base_len as int, v@.len() as int));
    assert(crate::error::pairs_view(seen@) =~= Seq::<(Seq<u8>, Seq<u8>)>::empty());
    while p.len() > 0
        invariant
            goal == params_from(p@, crate::error::pairs_view(seen@)),
            spec_parse_media_type(v@) == match goal {
                Some(MediaTypeError::DuplicateParameter) => (Seq::<u8>::empty(), goal),
                e => (mediatype@, e),
            },
        ensures
            goal is None,
        decreases p@.len(),
    {
        let t = trim_left_space(p);
        if t.len() == 0 {
            break;
        }
        let (key, value, rest) = consume_media_param(t);
        if key.len() == 0 {
            if trims_to_semicolon(rest) {
                break;
            }
            return (mediatype, Some(MediaTypeError::InvalidParameter));
        }
        match find_first(&seen, key.as_slice()) {
            Some(i) => {
                if !bytes_eq(seen[i].1.as_slice(), value.as_slice()) {
                    return (Vec::new(), Some(MediaTypeError::DuplicateParameter));
                }
            },
            None => {
                let ghost sv = crate::error::pairs_view(seen@);
                seen.push((key, value));
                assert(crate::error::pairs_view(seen@) =~= sv.push((key@, value@)));
            },
        }
        p = rest;
    }
    (mediatype, None)
}


pub open spec fn opt_view(e: Option<Vec<u8>>) -> Option<Seq<u8>> {
    match e {
        Some(v) => Some(v@),
        None => None,
    }
}

pub open spec fn form_urlencoded() -> Seq<u8> {
    "application/x-www-form-urlencoded".spec_bytes()
}

/// Whether `ParseForm` reads the body for this method.
pub open spec fn reads_body(method: Seq<u8>) -> bool {
    method == "POST".spec_bytes() || method == "PUT".spec_bytes() || method == "PATCH".spec_bytes()
}

/// `Request.ParseForm` on a request nobody parsed before: the form body for
/// `POST`, `PUT` and `PATCH` with the form content type, then the query; the
/// first error.
pub open spec fn spec_parse_form(method: Seq<u8>, content_type: Option<Seq<u8>>, raw_query: Seq<u8>, body: Seq<u8>) -> (
    FormV,
    Option<Seq<u8>>,
) {
    let ct = match content_type {
        Some(c) => if c.len() == 0 { "application/octet-stream".spec_bytes() } else { c },
        None => "application/octet-stream".spec_bytes(),
    };
    let (media, merr) = spec_parse_media_type(ct);
    let err1: Option<Seq<u8>> = match merr {
        Some(e) => Some(media_error_text(e)),
        None => None,
    };
    let (qf, qe) = spec_parse_query(raw_query);
    if reads_body(method) && media == form_urlencoded() && body.len() > 10485760 {
        (Seq::empty(), Some("http: POST too large".spec_bytes()))
    } else {
        let (f0, e0) = if reads_body(method) {
            if media == form_urlencoded() {
                let (pf, pe) = spec_parse_query(body);
                (pf, if err1 is None { pe } else { err1 })
            } else {
                (Seq::empty(), err1)
            }
        } else {
            (Seq::empty(), None)
        };
        (form_extend(f0, qf), if e0 is None { qe } else { e0 })
    }
}

/// `Request.ParseForm` on a request nobody parsed before. `body` is what is
/// left of the body when it is called.
pub fn parse_form(method: &str, content_type: Option<&[u8]>, raw_query: &[u8], body: &[u8]) -> (r: (Form, Option<Vec<u8>>))
    ensures
        (r.0.view_v(), opt_view(r.1)) == spec_parse_form(
            method.spec_bytes(),
            match content_type {
                Some(c) => Some(c@),
                None => None,
            },
            raw_query@,
            body@,
        ),
{
    parse_form_method(method.as_bytes(), content_type, raw_query, body)
}

/// `Request.ParseForm`, the method given as bytes.
pub fn parse_form_method(m: &[u8], content_type: Option<&[u8]>, raw_query: &[u8], body: &[u8]) -> (r: (Form, Option<Vec<u8>>))
    ensures
        (r.0.view_v(), opt_view(r.1)) == spec_parse_form(
            m@,
            match content_type {
                Some(c) => Some(c@),
                None => None,
            },
            raw_query@,
            body@,
        ),
{
    let post = bytes_eq(m, "POST".as_bytes()) || bytes_eq(m, "PUT".as_bytes()) || bytes_eq(m, "PATCH".as_bytes());
    let mut err: Option<Vec<u8>> = None;
    let mut form = Form::new();
    if post {
        let ct: &[u8] = match content_type {
            Some(c) => if c.len() == 0 { "application/octet-stream".as_bytes() } else { c },
            None => "application/octet-stream".as_bytes(),
        };
        let (media, merr) = parse_media_type(ct);
        err = match merr {
            Some(e) => Some(copy_bytes(e.text().as_bytes())),
            None => None,
        };
        if bytes_eq(media.as_slice(), "application/x-www-form-urlencoded".as_bytes()) {
            if body.len() > 10485760 {
                return (Form::new(), Some(copy_bytes("http: POST too large".as_bytes())));
            }
            let (post_form, e) = parse_query(body);
            if err.is_none() {
                err = e;
            }
            form = post_form;
        }
    }
    let (query, e) = parse_query(raw_query);
    if err.is_none() {
        err = e;
    }
    form.extend(query);
    (form, err)
}

} // verus!
