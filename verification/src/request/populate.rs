//! `runtime.populateFieldValueFromPath`: walk a field path (proto or JSON
//! names) through the request message, creating messages on the way, and set
//! the last field from the values. The request message is a [`MessageValue`]:
//! the fields set so far, by their index in the [`Schema`].
//!
//! The walk and its checks come first ([`resolve_path`]); then each value is
//! converted ([`crate::request::convert::parse_field`]); then the values are
//! stored ([`store`]).
use vstd::prelude::*;
use vstd::string::StringSliceAdditionalSpecFns;
use crate::bytes::{bytes_eq, copy_bytes, push_all, strings_v};
use crate::request::binding::{lookup_field, lookup_field_at, FieldKind, FieldShape, Schema};
use crate::request::convert::{converted_v, lossy_text, parse_field, spec_parse_field, Converted, ConvertedV};
use crate::request::fields::FieldError;
use crate::request::ErrorOrigin;
use crate::request::form::lossy;
use crate::request::strconv::{quote, spec_quote};

verus! {

/// The deepest message nesting a request may be built with, the root
/// counted.
pub const MAX_MESSAGE_DEPTH: usize = 100;

/// A scalar as stored in a message; a float by its IEEE 754 bits.
#[derive(Debug, PartialEq, Eq)]
pub enum Scalar {
    Bool(bool),
    Enum(i32),
    I32(i32),
    I64(i64),
    U32(u32),
    U64(u64),
    F32(u32),
    F64(u64),
    String(Vec<u8>),
    Bytes(Vec<u8>),
}

/// One value of a field: a scalar, a message, or a `google.protobuf.Struct`
/// or `Value` as the JSON text the protojson codec reads.
#[derive(Debug, PartialEq, Eq)]
pub enum Elem {
    Scalar(Scalar),
    Message(MessageValue),
    Json(Vec<u8>),
}

/// What a field that is set holds. A map holds the entries written, in
/// order: a later entry replaces an earlier one with an equal key.
#[derive(Debug, PartialEq, Eq)]
pub enum FieldValue {
    Single(Elem),
    List(Vec<Elem>),
    MapEntries(Vec<(Scalar, Elem)>),
}

/// A message being built: its index in the schema, and the fields set, by
/// index, in the order they were first set.
#[derive(Debug, PartialEq, Eq)]
pub struct MessageValue {
    pub msg: usize,
    pub fields: Vec<(usize, FieldValue)>,
}

pub enum ScalarV {
    Bool(bool),
    Enum(int),
    I32(int),
    I64(int),
    U32(int),
    U64(int),
    F32(int),
    F64(int),
    Str(Seq<u8>),
    Bytes(Seq<u8>),
}

pub enum ElemV {
    Scalar(ScalarV),
    Message(MessageV),
    Json(Seq<u8>),
}

pub enum FieldV {
    Single(ElemV),
    List(Seq<ElemV>),
    MapEntries(Seq<(ScalarV, ElemV)>),
}

pub struct MessageV {
    pub msg: int,
    pub fields: Seq<(int, FieldV)>,
}

pub open spec fn scalar_v(s: Scalar) -> ScalarV {
    match s {
        Scalar::Bool(b) => ScalarV::Bool(b),
        Scalar::Enum(n) => ScalarV::Enum(n as int),
        Scalar::I32(n) => ScalarV::I32(n as int),
        Scalar::I64(n) => ScalarV::I64(n as int),
        Scalar::U32(n) => ScalarV::U32(n as int),
        Scalar::U64(n) => ScalarV::U64(n as int),
        Scalar::F32(n) => ScalarV::F32(n as int),
        Scalar::F64(n) => ScalarV::F64(n as int),
        Scalar::String(s) => ScalarV::Str(s@),
        Scalar::Bytes(b) => ScalarV::Bytes(b@),
    }
}

pub open spec fn elem_v(e: Elem) -> ElemV
    decreases e,
{
    match e {
        Elem::Scalar(s) => ElemV::Scalar(scalar_v(s)),
        Elem::Message(m) => ElemV::Message(message_v(m)),
        Elem::Json(t) => ElemV::Json(t@),
    }
}

pub open spec fn message_v(m: MessageValue) -> MessageV
    decreases m,
{
    MessageV { msg: m.msg as int, fields: entries_v(m.fields@) }
}

pub open spec fn entries_v(s: Seq<(usize, FieldValue)>) -> Seq<(int, FieldV)>
    decreases s,
{
    Seq::new(
        s.len(),
        |k: int|
            if 0 <= k < s.len() {
                (s[k].0 as int, field_v(s[k].1))
            } else {
                (0, FieldV::List(Seq::empty()))
            },
    )
}

pub open spec fn field_v(f: FieldValue) -> FieldV
    decreases f,
{
    match f {
        FieldValue::Single(e) => FieldV::Single(elem_v(e)),
        FieldValue::List(es) => FieldV::List(elems_v(es@)),
        FieldValue::MapEntries(ps) => FieldV::MapEntries(pairs_v(ps@)),
    }
}

pub open spec fn elems_v(s: Seq<Elem>) -> Seq<ElemV>
    decreases s,
{
    Seq::new(s.len(), |k: int| if 0 <= k < s.len() { elem_v(s[k]) } else { ElemV::Json(Seq::empty()) })
}

pub open spec fn pairs_v(s: Seq<(Scalar, Elem)>) -> Seq<(ScalarV, ElemV)>
    decreases s,
{
    Seq::new(
        s.len(),
        |k: int|
            if 0 <= k < s.len() {
                (scalar_v(s[k].0), elem_v(s[k].1))
            } else {
                (ScalarV::Bool(false), ElemV::Json(Seq::empty()))
            },
    )
}

/// Where field `f` is among the fields set, from position `k` on; the
/// number of fields set when it is not.
pub open spec fn entry_index(fs: Seq<(int, FieldV)>, f: int, k: int) -> int
    decreases fs.len() - k,
{
    if k < 0 || k >= fs.len() {
        fs.len() as int
    } else if fs[k].0 == f {
        k
    } else {
        entry_index(fs, f, k + 1)
    }
}

/// Whether field `f` is set (`proto.Message.Has`).
pub open spec fn present(fs: Seq<(int, FieldV)>, f: int) -> bool {
    entry_index(fs, f, 0) < fs.len()
}

/// The fields of the message field `f` holds; none when it is not set.
pub open spec fn child_fields(fs: Seq<(int, FieldV)>, f: int) -> Seq<(int, FieldV)> {
    let k = entry_index(fs, f, 0);
    if k < fs.len() {
        match fs[k].1 {
            FieldV::Single(ElemV::Message(c)) => c.fields,
            _ => Seq::empty(),
        }
    } else {
        Seq::empty()
    }
}

/// The first field of oneof `o` that is set, from the `g`-th field on.
pub open spec fn first_set_in_oneof(shapes: Seq<FieldShape>, fs: Seq<(int, FieldV)>, o: usize, g: int) -> int
    decreases shapes.len() - g,
{
    if g < 0 || g >= shapes.len() {
        shapes.len() as int
    } else if shapes[g].oneof == Some(o) && present(fs, g) {
        g
    } else {
        first_set_in_oneof(shapes, fs, o, g + 1)
    }
}

/// Another field of `f`'s oneof is set (or `f` itself, unless it is a
/// message the walk goes into).
pub open spec fn oneof_conflict(sc: Schema, m: int, fs: Seq<(int, FieldV)>, f: int) -> Option<Seq<u8>> {
    let desc = sc.messages@[m];
    let shapes = desc.fields@;
    let fd = shapes[f];
    match fd.oneof {
        None => None,
        Some(o) => {
            let g = first_set_in_oneof(shapes, fs, o, 0);
            if g < shapes.len() && !(fd.kind is Message && g == f) {
                Some("field already set for oneof ".spec_bytes() + spec_quote(desc.oneofs@[o as int]@))
            } else {
                None
            }
        },
    }
}

pub open spec fn not_a_message(name: Seq<u8>) -> Seq<u8> {
    "invalid path: ".spec_bytes() + spec_quote(name) + " is not a message".spec_bytes()
}

pub open spec fn too_deep() -> Seq<u8> {
    "exceeded max recursion depth".spec_bytes()
}

/// What the rest of a path past the depth limit answers, told from the
/// schema alone from message `d`: a name that is not a singular message is
/// still "not a message"; anything else is the limit.
pub open spec fn past_the_limit(sc: Schema, d: int, path: Seq<Seq<u8>>, j: int) -> Seq<u8>
    decreases path.len() - j,
{
    if j < 0 || j >= path.len() {
        too_deep()
    } else {
        let fs = sc.messages@[d].fields@;
        let nx = lookup_field(fs, path[j]);
        if nx >= fs.len() || j == path.len() - 1 {
            too_deep()
        } else {
            match fs[nx].kind {
                FieldKind::Message(t) => if !fs[nx].is_list && !fs[nx].is_map {
                    past_the_limit(sc, t as int, path, j + 1)
                } else {
                    not_a_message(path[j])
                },
                _ => not_a_message(path[j]),
            }
        }
    }
}

/// The values, each made valid UTF-8, joined by `, `.
pub open spec fn join_lossy(vs: Seq<Seq<u8>>) -> Seq<u8>
    decreases vs.len(),
{
    if vs.len() == 0 {
        Seq::empty()
    } else if vs.len() == 1 {
        lossy_text(vs[0])
    } else {
        lossy_text(vs[0]) + ", ".spec_bytes() + join_lossy(vs.subrange(1, vs.len() as int))
    }
}

/// What one value of a field is: a map's value, else the field's own kind.
pub open spec fn value_kind(sc: Schema, fd: FieldShape) -> FieldKind {
    if fd.is_map {
        match fd.kind {
            FieldKind::Message(t) => sc.messages@[t as int].fields@[1].kind,
            k => k,
        }
    } else {
        fd.kind
    }
}

/// The checks on the last field of a path, before any value is read.
pub open spec fn last_check(sc: Schema, m: int, f: int, level: int, values: Seq<Seq<u8>>) -> Option<Seq<u8>> {
    let fd = sc.messages@[m].fields@[f];
    if value_kind(sc, fd) is Message && level + 1 > MAX_MESSAGE_DEPTH {
        Some(too_deep())
    } else if fd.is_list {
        None
    } else if fd.is_map {
        if values.len() != 2 {
            Some(
                "more than one value provided for key ".spec_bytes() + spec_quote(values[0]) + " in map ".spec_bytes()
                    + spec_quote(sc.messages@[m].full_name@ + seq![46u8] + fd.name@),
            )
        } else {
            None
        }
    } else if values.len() > 1 {
        Some("too many values for field ".spec_bytes() + spec_quote(fd.name@) + ": ".spec_bytes() + join_lossy(values))
    } else {
        None
    }
}

/// The walk from the `i`-th name, in message `m` whose set fields are `fs`,
/// `level` messages deep: the message fields it passes through, and the
/// message and field the last name names (`None` when a name is unknown,
/// which ends the walk without an error).
pub open spec fn resolve_from(
    sc: Schema,
    m: int,
    fs: Seq<(int, FieldV)>,
    path: Seq<Seq<u8>>,
    i: int,
    level: int,
    values: Seq<Seq<u8>>,
) -> Result<(Seq<int>, Option<(int, int)>), Seq<u8>>
    decreases path.len() - i,
{
    if i < 0 || i >= path.len() {
        Ok((Seq::empty(), None))
    } else {
        let shapes = sc.messages@[m].fields@;
        let f = lookup_field(shapes, path[i]);
        if f >= shapes.len() {
            Ok((Seq::empty(), None))
        } else {
            match oneof_conflict(sc, m, fs, f) {
                Some(e) => Err(e),
                None => if i == path.len() - 1 {
                    match last_check(sc, m, f, level, values) {
                        Some(e) => Err(e),
                        None => Ok((Seq::empty(), Some((m, f)))),
                    }
                } else {
                    let fd = shapes[f];
                    match fd.kind {
                        FieldKind::Message(t) => if fd.is_list || fd.is_map {
                            Err(not_a_message(path[i]))
                        } else if level + 1 > MAX_MESSAGE_DEPTH {
                            Err(past_the_limit(sc, t as int, path, i + 1))
                        } else {
                            match resolve_from(sc, t as int, child_fields(fs, f), path, i + 1, level + 1, values) {
                                Ok((chain, end)) => Ok((seq![f] + chain, end)),
                                Err(e) => Err(e),
                            }
                        },
                        _ => Err(not_a_message(path[i])),
                    }
                }
            }
        }
    }
}

/// The walk of `populateFieldValueFromPath` through message `m`, whose set
/// fields are `fs`, and its checks.
pub open spec fn spec_resolve_path(
    sc: Schema,
    m: int,
    fs: Seq<(int, FieldV)>,
    path: Seq<Seq<u8>>,
    values: Seq<Seq<u8>>,
) -> Result<(Seq<int>, Option<(int, int)>), Seq<u8>> {
    if path.len() == 0 {
        Err("no field path".spec_bytes())
    } else if values.len() == 0 {
        Err("no value provided".spec_bytes())
    } else {
        resolve_from(sc, m, fs, path, 0, 1, values)
    }
}

/// Where the values of a field path go: the message fields the path passes
/// through from the top, and the message and field of its last name;
/// `end` is `None` when a name is unknown.
#[derive(Debug, PartialEq, Eq)]
pub struct Target {
    pub chain: Vec<usize>,
    pub end: Option<(usize, usize)>,
}

pub open spec fn target_v(t: Target) -> (Seq<int>, Option<(int, int)>) {
    (
        t.chain@.map_values(|f: usize| f as int),
        match t.end {
            Some((m, f)) => Some((m as int, f as int)),
            None => None,
        },
    )
}

pub open spec fn opt_fields_v(cur: Option<&Vec<(usize, FieldValue)>>) -> Seq<(int, FieldV)> {
    match cur {
        Some(v) => entries_v(v@),
        None => Seq::empty(),
    }
}

pub(crate) fn entry_index_at(fs: &Vec<(usize, FieldValue)>, f: usize) -> (r: usize)
    ensures
        r == entry_index(entries_v(fs@), f as int, 0),
        r <= fs@.len(),
{
    let ghost ev = entries_v(fs@);
    let mut k: usize = 0;
    while k < fs.len()
        invariant
            k <= fs@.len(),
            ev == entries_v(fs@),
            entry_index(ev, f as int, 0) == entry_index(ev, f as int, k as int),
        decreases fs@.len() - k,
    {
        if fs[k].0 == f {
            return k;
        }
        k = k + 1;
    }
    k
}

pub(crate) fn is_present(cur: Option<&Vec<(usize, FieldValue)>>, f: usize) -> (r: bool)
    ensures
        r == present(opt_fields_v(cur), f as int),
{
    match cur {
        Some(fs) => entry_index_at(fs, f) < fs.len(),
        None => false,
    }
}

fn child_of<'a>(cur: Option<&'a Vec<(usize, FieldValue)>>, f: usize) -> (r: Option<&'a Vec<(usize, FieldValue)>>)
    ensures
        opt_fields_v(r) == child_fields(opt_fields_v(cur), f as int),
{
    match cur {
        None => None,
        Some(fs) => {
            let k = entry_index_at(fs, f);
            if k < fs.len() {
                match &fs[k].1 {
                    FieldValue::Single(Elem::Message(c)) => Some(&c.fields),
                    _ => None,
                }
            } else {
                None
            }
        },
    }
}

fn set_in_oneof(shapes: &Vec<FieldShape>, cur: Option<&Vec<(usize, FieldValue)>>, g: usize, o: usize) -> (r: bool)
    requires
        g < shapes@.len(),
    ensures
        r == (shapes@[g as int].oneof == Some(o) && present(opt_fields_v(cur), g as int)),
{
    match shapes[g].oneof {
        Some(x) => x == o && is_present(cur, g),
        None => false,
    }
}

fn oneof_check(schema: &Schema, m: usize, cur: Option<&Vec<(usize, FieldValue)>>, f: usize) -> (r: Option<Vec<u8>>)
    requires
        schema.wf(),
        m < schema.messages@.len(),
        f < schema.messages@[m as int].fields@.len(),
    ensures
        match oneof_conflict(*schema, m as int, opt_fields_v(cur), f as int) {
            Some(e) => r matches Some(x) && x@ == e,
            None => r is None,
        },
{
    let desc = &schema.messages[m];
    let shapes = &desc.fields;
    let fd = &shapes[f];
    assert(schema.messages@[m as int].fields@[f as int] == *fd);
    match fd.oneof {
        None => None,
        Some(o) => {
            let ghost fsv = opt_fields_v(cur);
            let mut g: usize = 0;
            while g < shapes.len() && !set_in_oneof(shapes, cur, g, o)
                invariant
                    g <= shapes@.len(),
                    m < schema.messages@.len(),
                    shapes == schema.messages@[m as int].fields,
                    fsv == opt_fields_v(cur),
                    first_set_in_oneof(shapes@, fsv, o, 0) == first_set_in_oneof(shapes@, fsv, o, g as int),
                decreases shapes@.len() - g,
            {
                g = g + 1;
            }
            let is_message = match fd.kind {
                FieldKind::Message(_) => true,
                _ => false,
            };
            if g < shapes.len() && !(is_message && g == f) {
                let mut e = copy_bytes("field already set for oneof ".as_bytes());
                push_all(&mut e, quote(desc.oneofs[o].as_slice()).as_slice());
                Some(e)
            } else {
                None
            }
        },
    }
}

fn not_a_message_error(name: &[u8]) -> (r: Vec<u8>)
    ensures
        r@ == not_a_message(name@),
{
    let mut e = copy_bytes("invalid path: ".as_bytes());
    push_all(&mut e, quote(name).as_slice());
    push_all(&mut e, " is not a message".as_bytes());
    e
}

fn too_deep_error() -> (r: Vec<u8>)
    ensures
        r@ == too_deep(),
{
    copy_bytes("exceeded max recursion depth".as_bytes())
}

fn past_the_limit_error(schema: &Schema, d: usize, path: &Vec<Vec<u8>>, j: usize) -> (r: Vec<u8>)
    requires
        schema.wf(),
        d < schema.messages@.len(),
    ensures
        r@ == past_the_limit(*schema, d as int, strings_v(path@), j as int),
{
    let ghost pv = strings_v(path@);
    let mut dd = d;
    let mut jj = j;
    while jj < path.len()
        invariant
            schema.wf(),
            dd < schema.messages@.len(),
            pv == strings_v(path@),
            past_the_limit(*schema, dd as int, pv, jj as int) == past_the_limit(*schema, d as int, pv, j as int),
        decreases path@.len() - jj,
    {
        let fs = &schema.messages[dd].fields;
        let nx = lookup_field_at(fs, path[jj].as_slice());
        assert(pv[jj as int] == path@[jj as int]@);
        if nx >= fs.len() || jj == path.len() - 1 {
            return too_deep_error();
        }
        assert(schema.messages@[dd as int].fields@[nx as int] == fs@[nx as int]);
        match fs[nx].kind {
            FieldKind::Message(t) => {
                if fs[nx].is_list || fs[nx].is_map {
                    return not_a_message_error(path[jj].as_slice());
                }
                dd = t;
            },
            _ => {
                return not_a_message_error(path[jj].as_slice());
            },
        }
        jj = jj + 1;
    }
    too_deep_error()
}

fn join_lossy_bytes(vs: &Vec<Vec<u8>>) -> (r: Vec<u8>)
    requires
        vs@.len() >= 1,
    ensures
        r@ == join_lossy(strings_v(vs@)),
{
    let ghost sv = strings_v(vs@);
    let n = vs.len();
    let mut k: usize = n - 1;
    let mut tail = lossy(vs[k].as_slice());
    assert(sv.subrange(k as int, n as int) =~= seq![sv[k as int]]);
    while k > 0
        invariant
            n == vs@.len(),
            sv == strings_v(vs@),
            k < n,
            tail@ == join_lossy(sv.subrange(k as int, n as int)),
        decreases k,
    {
        let ghost old_k = k;
        k = k - 1;
        let mut t = lossy(vs[k].as_slice());
        push_all(&mut t, ", ".as_bytes());
        push_all(&mut t, tail.as_slice());
        proof {
            let s = sv.subrange(k as int, n as int);
            assert(s.subrange(1, s.len() as int) =~= sv.subrange(old_k as int, n as int));
            assert(s[0] == vs@[k as int]@);
        }
        tail = t;
    }
    assert(sv.subrange(0, n as int) =~= sv);
    tail
}

fn last_check_exec(schema: &Schema, m: usize, f: usize, level: usize, values: &Vec<Vec<u8>>) -> (r: Option<Vec<u8>>)
    requires
        schema.wf(),
        m < schema.messages@.len(),
        f < schema.messages@[m as int].fields@.len(),
        values@.len() >= 1,
        level <= MAX_MESSAGE_DEPTH,
    ensures
        match last_check(*schema, m as int, f as int, level as int, strings_v(values@)) {
            Some(e) => r matches Some(x) && x@ == e,
            None => r is None,
        },
{
    let desc = &schema.messages[m];
    let fd = &desc.fields[f];
    assert(schema.messages@[m as int].fields@[f as int] == *fd);
    let vk = if fd.is_map {
        match fd.kind {
            FieldKind::Message(t) => schema.messages[t].fields[1].kind,
            k => k,
        }
    } else {
        fd.kind
    };
    assert(vk == value_kind(*schema, *fd));
    let vk_message = match vk {
        FieldKind::Message(_) => true,
        _ => false,
    };
    if vk_message && level + 1 > MAX_MESSAGE_DEPTH {
        return Some(too_deep_error());
    }
    if fd.is_list {
        return None;
    }
    if fd.is_map {
        if values.len() != 2 {
            let mut e = copy_bytes("more than one value provided for key ".as_bytes());
            push_all(&mut e, quote(values[0].as_slice()).as_slice());
            push_all(&mut e, " in map ".as_bytes());
            let mut full = copy_bytes(desc.full_name.as_slice());
            full.push(46);
            push_all(&mut full, fd.name.as_slice());
            assert(full@ =~= schema.messages@[m as int].full_name@ + seq![46u8] + fd.name@);
            push_all(&mut e, quote(full.as_slice()).as_slice());
            assert(strings_v(values@)[0] == values@[0]@);
            return Some(e);
        }
        return None;
    }
    if values.len() > 1 {
        let mut e = copy_bytes("too many values for field ".as_bytes());
        push_all(&mut e, quote(fd.name.as_slice()).as_slice());
        push_all(&mut e, ": ".as_bytes());
        push_all(&mut e, join_lossy_bytes(values).as_slice());
        return Some(e);
    }
    None
}

pub open spec fn prepend_chain(
    chain: Seq<int>,
    r: Result<(Seq<int>, Option<(int, int)>), Seq<u8>>,
) -> Result<(Seq<int>, Option<(int, int)>), Seq<u8>> {
    match r {
        Ok((c, e)) => Ok((chain + c, e)),
        Err(e) => Err(e),
    }
}

/// The walk of `populateFieldValueFromPath` and its checks: where the
/// values of `path` go in the message `mv`, or why they cannot.
pub fn resolve_path(schema: &Schema, mv: &MessageValue, path: &Vec<Vec<u8>>, values: &Vec<Vec<u8>>) -> (r: Result<
    Target,
    Vec<u8>,
>)
    requires
        schema.wf(),
        mv.msg < schema.messages@.len(),
    ensures
        match spec_resolve_path(*schema, mv.msg as int, entries_v(mv.fields@), strings_v(path@), strings_v(values@)) {
            Ok(t) => r matches Ok(x) && target_v(x) == t,
            Err(e) => r matches Err(x) && x@ == e,
        },
        r matches Ok(x) ==> chain_ok(*schema, mv.msg as int, target_v(x).0, 0, end_field(target_v(x).1)),
{
    proof {
        lemma_resolve_chain_ok(*schema, mv.msg as int, entries_v(mv.fields@), strings_v(path@), 0, 1, strings_v(values@));
    }
    if path.len() == 0 {
        return Err(copy_bytes("no field path".as_bytes()));
    }
    if values.len() == 0 {
        return Err(copy_bytes("no value provided".as_bytes()));
    }
    let ghost pv = strings_v(path@);
    let ghost vv = strings_v(values@);
    let ghost goal = resolve_from(*schema, mv.msg as int, entries_v(mv.fields@), pv, 0, 1, vv);
    let mut m = mv.msg;
    let mut cur: Option<&Vec<(usize, FieldValue)>> = Some(&mv.fields);
    let mut i: usize = 0;
    let mut chain: Vec<usize> = Vec::new();
    assert(chain@.map_values(|f: usize| f as int) =~= Seq::<int>::empty());
    assert(goal == prepend_chain(Seq::empty(), resolve_from(*schema, m as int, opt_fields_v(cur), pv, 0, 1, vv))) by {
        match resolve_from(*schema, m as int, opt_fields_v(cur), pv, 0, 1, vv) {
            Ok((c, e)) => assert(Seq::<int>::empty() + c =~= c),
            Err(e) => {},
        }
    }
    loop
        invariant
            schema.wf(),
            m < schema.messages@.len(),
            i < path@.len(),
            i + 1 <= MAX_MESSAGE_DEPTH,
            pv == strings_v(path@),
            vv == strings_v(values@),
            values@.len() >= 1,
            goal == resolve_from(*schema, mv.msg as int, entries_v(mv.fields@), pv, 0, 1, vv),
            goal matches Ok((c, e)) ==> chain_ok(*schema, mv.msg as int, c, 0, end_field(e)),
            goal == prepend_chain(
                chain@.map_values(|f: usize| f as int),
                resolve_from(*schema, m as int, opt_fields_v(cur), pv, i as int, i + 1, vv),
            ),
        decreases path@.len() - i,
    {
        let ghost cv = chain@.map_values(|f: usize| f as int);
        let fs = &schema.messages[m].fields;
        let f = lookup_field_at(fs, path[i].as_slice());
        assert(pv[i as int] == path@[i as int]@);
        if f >= fs.len() {
            assert(cv + Seq::<int>::empty() =~= cv);
            return Ok(Target { chain, end: None });
        }
        match oneof_check(schema, m, cur, f) {
            Some(e) => {
                return Err(e);
            },
            None => {},
        }
        if i == path.len() - 1 {
            match last_check_exec(schema, m, f, i + 1, values) {
                Some(e) => {
                    return Err(e);
                },
                None => {
                    assert(cv + Seq::<int>::empty() =~= cv);
                    return Ok(Target { chain, end: Some((m, f)) });
                },
            }
        }
        let fd = &fs[f];
        assert(schema.messages@[m as int].fields@[f as int] == *fd);
        match fd.kind {
            FieldKind::Message(t) => {
                if fd.is_list || fd.is_map {
                    return Err(not_a_message_error(path[i].as_slice()));
                }
                if i + 2 > MAX_MESSAGE_DEPTH {
                    return Err(past_the_limit_error(schema, t, path, i + 1));
                }
                let ghost inner = resolve_from(*schema, t as int, child_fields(opt_fields_v(cur), f as int), pv, i + 1, i + 2, vv);
                chain.push(f);
                cur = child_of(cur, f);
                m = t;
                i = i + 1;
                proof {
                    let cv2 = chain@.map_values(|g: usize| g as int);
                    assert(cv2 =~= cv.push(f as int));
                    match inner {
                        Ok((c, e)) => {
                            assert(cv + (seq![f as int] + c) =~= cv2 + c);
                        },
                        Err(e) => {},
                    }
                }
            },
            _ => {
                return Err(not_a_message_error(path[i].as_slice()));
            },
        }
    }
}

/// What the values of a path become once converted: nothing (a name was
/// unknown), one value, values to append to a list, a map entry, or a
/// whole new value for the field.
#[derive(Debug, PartialEq, Eq)]
pub enum Write {
    Nothing,
    Single(Elem),
    List(Vec<Elem>),
    Entry(Scalar, Elem),
    Replace(FieldValue),
}

pub enum WriteV {
    Nothing,
    Single(ElemV),
    List(Seq<ElemV>),
    Entry(ScalarV, ElemV),
    Replace(FieldV),
}

pub open spec fn write_v(w: Write) -> WriteV {
    match w {
        Write::Nothing => WriteV::Nothing,
        Write::Single(e) => WriteV::Single(elem_v(e)),
        Write::List(es) => WriteV::List(elems_v(es@)),
        Write::Entry(k, v) => WriteV::Entry(scalar_v(k), elem_v(v)),
        Write::Replace(v) => WriteV::Replace(field_v(v)),
    }
}

/// The fields with field `f` set to `v`: in its place when it was set,
/// else last.
pub open spec fn with_field(fs: Seq<(int, FieldV)>, f: int, v: FieldV) -> Seq<(int, FieldV)> {
    let k = entry_index(fs, f, 0);
    if k < fs.len() {
        fs.update(k, (f, v))
    } else {
        fs.push((f, v))
    }
}

/// The list field `f` holds; empty when it is not set.
pub open spec fn list_of(fs: Seq<(int, FieldV)>, f: int) -> Seq<ElemV> {
    let k = entry_index(fs, f, 0);
    if k < fs.len() {
        match fs[k].1 {
            FieldV::List(es) => es,
            _ => Seq::empty(),
        }
    } else {
        Seq::empty()
    }
}

/// The map entries field `f` holds; none when it is not set.
pub open spec fn map_entries_of(fs: Seq<(int, FieldV)>, f: int) -> Seq<(ScalarV, ElemV)> {
    let k = entry_index(fs, f, 0);
    if k < fs.len() {
        match fs[k].1 {
            FieldV::MapEntries(ps) => ps,
            _ => Seq::empty(),
        }
    } else {
        Seq::empty()
    }
}

/// A write into field `f`: a value replaces, a list is extended, a map
/// entry is added.
pub open spec fn write_field(fs: Seq<(int, FieldV)>, f: int, w: WriteV) -> Seq<(int, FieldV)> {
    match w {
        WriteV::Nothing => fs,
        WriteV::Single(e) => with_field(fs, f, FieldV::Single(e)),
        WriteV::List(es) => with_field(fs, f, FieldV::List(list_of(fs, f) + es)),
        WriteV::Entry(k, v) => with_field(fs, f, FieldV::MapEntries(map_entries_of(fs, f) + seq![(k, v)])),
        WriteV::Replace(v) => with_field(fs, f, v),
    }
}

/// The message field `f` of message `m` names.
pub open spec fn message_of(sc: Schema, m: int, f: int) -> int {
    match sc.messages@[m].fields@[f].kind {
        FieldKind::Message(t) => t as int,
        _ => 0,
    }
}

/// A write at the end of `chain` from its `k`-th field, in message `m`
/// whose set fields are `fs`: each field on the way holds a message, created
/// empty where it was not set.
pub open spec fn store_from(
    sc: Schema,
    m: int,
    fs: Seq<(int, FieldV)>,
    chain: Seq<int>,
    k: int,
    end: Option<int>,
    w: WriteV,
) -> Seq<(int, FieldV)>
    decreases chain.len() - k,
{
    if 0 <= k < chain.len() {
        let f = chain[k];
        let t = message_of(sc, m, f);
        let inner = store_from(sc, t, child_fields(fs, f), chain, k + 1, end, w);
        with_field(fs, f, FieldV::Single(ElemV::Message(MessageV { msg: t, fields: inner })))
    } else {
        match end {
            Some(f) => write_field(fs, f, w),
            None => fs,
        }
    }
}

/// The chain from its `k`-th field names message fields from message `m`
/// on, and the last field is a field of the message it ends in.
pub open spec fn chain_ok(sc: Schema, m: int, chain: Seq<int>, k: int, end: Option<int>) -> bool
    decreases chain.len() - k,
{
    if k < 0 || !(0 <= m < sc.messages@.len()) {
        false
    } else if k >= chain.len() {
        end matches Some(f) ==> 0 <= f < sc.messages@[m].fields@.len()
    } else {
        let f = chain[k];
        &&& 0 <= f < sc.messages@[m].fields@.len()
        &&& sc.messages@[m].fields@[f].kind is Message
        &&& chain_ok(sc, message_of(sc, m, f), chain, k + 1, end)
    }
}

pub open spec fn end_field(end: Option<(int, int)>) -> Option<int> {
    match end {
        Some((_, f)) => Some(f),
        None => None,
    }
}

proof fn lemma_resolve_chain_ok(
    sc: Schema,
    m: int,
    fs: Seq<(int, FieldV)>,
    path: Seq<Seq<u8>>,
    i: int,
    level: int,
    values: Seq<Seq<u8>>,
)
    requires
        sc.wf(),
        0 <= m < sc.messages@.len(),
    ensures
        resolve_from(sc, m, fs, path, i, level, values) matches Ok((chain, end)) ==> chain_ok(
            sc,
            m,
            chain,
            0,
            end_field(end),
        ),
    decreases path.len() - i,
{
    if 0 <= i < path.len() {
        let shapes = sc.messages@[m].fields@;
        let f = lookup_field(shapes, path[i]);
        lemma_lookup_range(shapes, path[i]);
        if f < shapes.len() {
            assert(sc.messages@[m].fields@[f] == shapes[f]);
        }
        if f < shapes.len() && i < path.len() - 1 {
            if let FieldKind::Message(t) = shapes[f].kind {
                lemma_resolve_chain_ok(sc, t as int, child_fields(fs, f), path, i + 1, level + 1, values);
                if let Ok((chain, end)) = resolve_from(sc, t as int, child_fields(fs, f), path, i + 1, level + 1, values) {
                    let full = seq![f] + chain;
                    assert(full.subrange(1, full.len() as int) =~= chain);
                    lemma_chain_ok_shift_at(sc, t as int, chain, full, 0, end_field(end));
                }
            }
        }
    }
}

proof fn lemma_find_field_range(fs: Seq<FieldShape>, name: Seq<u8>, i: int)
    requires
        0 <= i,
    ensures
        0 <= crate::request::binding::find_field(fs, name, i) <= fs.len(),
        0 <= crate::request::binding::find_json(fs, name, i) <= fs.len(),
    decreases fs.len() - i,
{
    if i < fs.len() {
        lemma_find_field_range(fs, name, i + 1);
    }
}

pub proof fn lemma_lookup_range(fs: Seq<FieldShape>, name: Seq<u8>)
    ensures
        0 <= lookup_field(fs, name) <= fs.len(),
{
    lemma_find_field_range(fs, name, 0);
}

proof fn lemma_chain_ok_shift_at(sc: Schema, m: int, chain: Seq<int>, full: Seq<int>, k: int, end: Option<int>)
    requires
        full.len() == chain.len() + 1,
        forall|j: int| 0 <= j < chain.len() ==> full[j + 1] == chain[j],
        0 <= k <= chain.len(),
        chain_ok(sc, m, chain, k, end),
    ensures
        chain_ok(sc, m, full, k + 1, end),
    decreases chain.len() - k,
{
    if k < chain.len() {
        let f = chain[k];
        lemma_chain_ok_shift_at(sc, message_of(sc, m, f), chain, full, k + 1, end);
    }
}

spec fn opt_usize(e: Option<usize>) -> Option<int> {
    match e {
        Some(f) => Some(f as int),
        None => None,
    }
}

spec fn chain_v(c: Seq<usize>) -> Seq<int> {
    c.map_values(|f: usize| f as int)
}

/// Sets field `f` to `v`, in its place when it is set, else last.
pub(crate) fn set_entry(fields: &mut Vec<(usize, FieldValue)>, f: usize, v: FieldValue)
    ensures
        entries_v(final(fields)@) == with_field(entries_v(old(fields)@), f as int, field_v(v)),
{
    let ghost ev = entries_v(fields@);
    let idx = entry_index_at(fields, f);
    let ghost fv = field_v(v);
    if idx < fields.len() {
        let _ = fields.remove(idx);
        fields.insert(idx, (f, v));
        assert(entries_v(fields@) =~= ev.update(idx as int, (f as int, fv)));
    } else {
        fields.push((f, v));
        assert(entries_v(fields@) =~= ev.push((f as int, fv)));
    }
}

/// Takes out what field `f` holds, leaving the others in place.
fn take_entry(fields: &mut Vec<(usize, FieldValue)>, f: usize) -> (r: (usize, Option<FieldValue>))
    ensures
        r.0 == entry_index(entries_v(old(fields)@), f as int, 0),
        r.0 < old(fields)@.len() ==> (r.1 matches Some(v) && field_v(v) == entries_v(old(fields)@)[r.0 as int].1
            && final(fields)@ == old(fields)@.remove(r.0 as int)),
        r.0 >= old(fields)@.len() ==> r.1 is None && final(fields)@ == old(fields)@,
{
    let idx = entry_index_at(fields, f);
    if idx < fields.len() {
        let (_, v) = fields.remove(idx);
        (idx, Some(v))
    } else {
        (idx, None)
    }
}

/// Puts field `f` back at `idx` (where [`take_entry`] found it), or last.
fn put_entry(fields: &mut Vec<(usize, FieldValue)>, idx: usize, f: usize, v: FieldValue)
    requires
        idx <= old(fields)@.len(),
    ensures
        final(fields)@ == old(fields)@.insert(idx as int, (f, v)),
{
    fields.insert(idx, (f, v));
}

proof fn lemma_entries_remove_insert(s: Seq<(usize, FieldValue)>, idx: int, x: (usize, FieldValue))
    requires
        0 <= idx < s.len(),
    ensures
        entries_v(s.remove(idx).insert(idx, x)) =~= entries_v(s).update(idx, (x.0 as int, field_v(x.1))),
{
    assert(s.remove(idx).insert(idx, x) =~= s.update(idx, x));
}

fn write_field_exec(fields: &mut Vec<(usize, FieldValue)>, f: usize, w: Write)
    ensures
        entries_v(final(fields)@) == write_field(entries_v(old(fields)@), f as int, write_v(w)),
{
    let ghost ev = entries_v(fields@);
    let ghost old_fields = fields@;
    match w {
        Write::Nothing => {},
        Write::Single(e) => {
            set_entry(fields, f, FieldValue::Single(e));
        },
        Write::Replace(v) => {
            set_entry(fields, f, v);
        },
        Write::List(es) => {
            let ghost new_items = elems_v(es@);
            let n0 = fields.len();
            let (idx, old) = take_entry(fields, f);
            let mut items: Vec<Elem> = match old {
                Some(FieldValue::List(items)) => items,
                _ => Vec::new(),
            };
            let ghost before = elems_v(items@);
            assert(before == list_of(ev, f as int));
            let mut es = es;
            let ghost es_v = es@;
            items.append(&mut es);
            assert(elems_v(items@) =~= before + new_items);
            let had = idx < n0;
            let ghost entry_v = (f as int, FieldV::List(before + new_items));
            if had {
                put_entry(fields, idx, f, FieldValue::List(items));
                proof {
                    lemma_entries_remove_insert(old_fields, idx as int, (f, FieldValue::List(items)));
                }
            } else {
                fields.push((f, FieldValue::List(items)));
                assert(entries_v(fields@) =~= ev.push(entry_v));
            }
        },
        Write::Entry(key, value) => {
            let ghost kv = (scalar_v(key), elem_v(value));
            let n0 = fields.len();
            let (idx, old) = take_entry(fields, f);
            let mut pairs: Vec<(Scalar, Elem)> = match old {
                Some(FieldValue::MapEntries(pairs)) => pairs,
                _ => Vec::new(),
            };
            let ghost before = pairs_v(pairs@);
            assert(before == map_entries_of(ev, f as int));
            pairs.push((key, value));
            assert(pairs_v(pairs@) =~= before + seq![kv]);
            let had = idx < n0;
            if had {
                put_entry(fields, idx, f, FieldValue::MapEntries(pairs));
                proof {
                    lemma_entries_remove_insert(old_fields, idx as int, (f, FieldValue::MapEntries(pairs)));
                }
            } else {
                fields.push((f, FieldValue::MapEntries(pairs)));
                assert(entries_v(fields@) =~= ev.push((f as int, FieldV::MapEntries(before + seq![kv]))));
            }
        },
    }
}

fn store_at(
    schema: &Schema,
    m: usize,
    fields: &mut Vec<(usize, FieldValue)>,
    chain: &Vec<usize>,
    k: usize,
    end: Option<usize>,
    w: Write,
)
    requires
        schema.wf(),
        k <= chain@.len(),
        chain_ok(*schema, m as int, chain_v(chain@), k as int, opt_usize(end)),
    ensures
        entries_v(final(fields)@) == store_from(
            *schema,
            m as int,
            entries_v(old(fields)@),
            chain_v(chain@),
            k as int,
            opt_usize(end),
            write_v(w),
        ),
    decreases chain@.len() - k,
{
    let ghost cv = chain_v(chain@);
    let ghost ev = entries_v(fields@);
    let ghost old_fields = fields@;
    if k < chain.len() {
        let f = chain[k];
        assert(cv[k as int] == f as int);
        assert(schema.messages@[m as int].fields@[f as int] == schema.messages@[m as int].fields@[f as int]);
        let t = match schema.messages[m].fields[f].kind {
            FieldKind::Message(t) => t,
            _ => 0,
        };
        assert(t as int == message_of(*schema, m as int, f as int));
        let n0 = fields.len();
        let (idx, old) = take_entry(fields, f);
        let mut child = match old {
            Some(FieldValue::Single(Elem::Message(c))) => MessageValue { msg: t, fields: c.fields },
            _ => MessageValue { msg: t, fields: Vec::new() },
        };
        assert(entries_v(child.fields@) == child_fields(ev, f as int));
        store_at(schema, t, &mut child.fields, chain, k + 1, end, w);
        let had = idx < n0;
        let ghost cvv = message_v(child);
        if had {
            put_entry(fields, idx, f, FieldValue::Single(Elem::Message(child)));
            proof {
                lemma_entries_remove_insert(old_fields, idx as int, (f, FieldValue::Single(Elem::Message(child))));
            }
        } else {
            fields.push((f, FieldValue::Single(Elem::Message(child))));
            assert(entries_v(fields@) =~= ev.push((f as int, FieldV::Single(ElemV::Message(cvv)))));
        }
    } else {
        match end {
            Some(f) => write_field_exec(fields, f, w),
            None => {},
        }
    }
}

/// Stores the converted values of a path where [`resolve_path`] found they
/// go: the messages on the way are created where they are not set yet, and
/// the last field is set, appended to, or given a map entry.
pub fn store(schema: &Schema, mv: &mut MessageValue, target: &Target, w: Write)
    requires
        schema.wf(),
        chain_ok(*schema, old(mv).msg as int, target_v(*target).0, 0, end_field(target_v(*target).1)),
    ensures
        final(mv).msg == old(mv).msg,
        entries_v(final(mv).fields@) == store_from(
            *schema,
            old(mv).msg as int,
            entries_v(old(mv).fields@),
            target_v(*target).0,
            0,
            end_field(target_v(*target).1),
            write_v(w),
        ),
{
    let end = match target.end {
        Some((_, f)) => Some(f),
        None => None,
    };
    assert(opt_usize(end) == end_field(target_v(*target).1));
    assert(chain_v(target.chain@) == target_v(*target).0);
    let m = mv.msg;
    store_at(schema, m, &mut mv.fields, &target.chain, 0, end, w);
}

/// What code outside the library reads from one value, for the fields that
/// need it: Go's `strconv.ParseFloat` at 32 and 64 bits (the IEEE 754 bits
/// of the result, or the error's text), `time.ParseDuration` (nanoseconds,
/// or the error's text), and the protojson codec's verdict on the value read
/// as a `google.protobuf.Struct` and as a `google.protobuf.Value` (the
/// error's text, if it refused it).
#[derive(Debug, PartialEq, Eq)]
pub struct OutsideReads {
    pub float32: Result<u32, Vec<u8>>,
    pub float64: Result<u64, Vec<u8>>,
    pub duration: Result<i64, Vec<u8>>,
    pub as_struct: Option<Vec<u8>>,
    pub as_value: Option<Vec<u8>>,
}

pub struct ReadsV {
    pub float32: Result<int, Seq<u8>>,
    pub float64: Result<int, Seq<u8>>,
    pub duration: Result<int, Seq<u8>>,
    pub as_struct: Option<Seq<u8>>,
    pub as_value: Option<Seq<u8>>,
}

pub open spec fn reads_v(r: OutsideReads) -> ReadsV {
    ReadsV {
        float32: match r.float32 {
            Ok(b) => Ok(b as int),
            Err(e) => Err(e@),
        },
        float64: match r.float64 {
            Ok(b) => Ok(b as int),
            Err(e) => Err(e@),
        },
        duration: match r.duration {
            Ok(d) => Ok(d as int),
            Err(e) => Err(e@),
        },
        as_struct: match r.as_struct {
            Some(e) => Some(e@),
            None => None,
        },
        as_value: match r.as_value {
            Some(e) => Some(e@),
            None => None,
        },
    }
}

pub open spec fn all_reads_v(rs: Seq<OutsideReads>) -> Seq<ReadsV> {
    rs.map_values(|r: OutsideReads| reads_v(r))
}

/// The position of the field numbered `n`, from the `i`-th on.
pub open spec fn number_index(fs: Seq<FieldShape>, n: u32, i: int) -> int
    decreases fs.len() - i,
{
    if i < 0 || i >= fs.len() {
        fs.len() as int
    } else if fs[i].number == n {
        i
    } else {
        number_index(fs, n, i + 1)
    }
}

/// `set_field_by_number` on message `t`: nothing when it has no such field.
pub open spec fn set_number(sc: Schema, t: int, fs: Seq<(int, FieldV)>, n: u32, v: FieldV) -> Seq<(int, FieldV)> {
    let shapes = sc.messages@[t].fields@;
    let idx = number_index(shapes, n, 0);
    if idx < shapes.len() {
        with_field(fs, idx, v)
    } else {
        fs
    }
}

/// A `Timestamp` or `Duration` message `t`: fields 1 and 2.
pub open spec fn pair_message(sc: Schema, t: int, a: ScalarV, b: ScalarV) -> ElemV {
    ElemV::Message(
        MessageV {
            msg: t,
            fields: set_number(
                sc,
                t,
                set_number(sc, t, Seq::empty(), 1, FieldV::Single(ElemV::Scalar(a))),
                2,
                FieldV::Single(ElemV::Scalar(b)),
            ),
        },
    )
}

/// A message `t` with field 1 alone set: a wrapper, or a `FieldMask`.
pub open spec fn one_field_message(sc: Schema, t: int, v: FieldV) -> ElemV {
    ElemV::Message(MessageV { msg: t, fields: set_number(sc, t, Seq::empty(), 1, v) })
}

pub open spec fn plain_scalar(c: ConvertedV) -> ScalarV {
    match c {
        ConvertedV::Bool(b) => ScalarV::Bool(b),
        ConvertedV::Enum(n) => ScalarV::Enum(n),
        ConvertedV::I32(n) => ScalarV::I32(n),
        ConvertedV::I64(n) => ScalarV::I64(n),
        ConvertedV::U32(n) => ScalarV::U32(n),
        ConvertedV::U64(n) => ScalarV::U64(n),
        ConvertedV::Str(s) => ScalarV::Str(s),
        ConvertedV::Bytes(b) => ScalarV::Bytes(b),
        _ => ScalarV::Bool(false),
    }
}

pub type FieldErr = (Seq<u8>, ErrorOrigin);

/// A scalar, its float read by Go's parser.
pub open spec fn finish_scalar(c: ConvertedV, r: ReadsV) -> Result<ScalarV, FieldErr> {
    match c {
        ConvertedV::Float(_, bits) => if bits == 32 {
            match r.float32 {
                Ok(b) => Ok(ScalarV::F32(b)),
                Err(e) => Err((e, ErrorOrigin::Gateway)),
            }
        } else {
            match r.float64 {
                Ok(b) => Ok(ScalarV::F64(b)),
                Err(e) => Err((e, ErrorOrigin::Gateway)),
            }
        },
        _ => Ok(plain_scalar(c)),
    }
}

/// `time.Duration` nanoseconds as seconds and nanoseconds, both truncated
/// toward zero (Go's and Rust's `/` and `%`).
pub open spec fn duration_seconds(d: int) -> int {
    if d >= 0 {
        d / 1_000_000_000
    } else {
        -((-d) / 1_000_000_000)
    }
}

pub open spec fn duration_nanos(d: int) -> int {
    d - duration_seconds(d) * 1_000_000_000
}

/// A converted value as a field's value in message type `t`: well-known
/// types as their messages, floats and durations as read outside, and a
/// `Struct` or `Value` as its text once the codec accepted it.
pub open spec fn spec_finish(sc: Schema, t: int, c: ConvertedV, r: ReadsV) -> Result<ElemV, FieldErr> {
    match c {
        ConvertedV::Timestamp(s, n) => Ok(pair_message(sc, t, ScalarV::I64(s), ScalarV::I32(n))),
        ConvertedV::Duration(s, n) => Ok(pair_message(sc, t, ScalarV::I64(s), ScalarV::I32(n))),
        ConvertedV::DurationText(_) => match r.duration {
            Ok(d) => Ok(pair_message(sc, t, ScalarV::I64(duration_seconds(d)), ScalarV::I32(duration_nanos(d)))),
            Err(e) => Err((e, ErrorOrigin::Gateway)),
        },
        ConvertedV::Wrapper(b) => match finish_scalar(*b, r) {
            Ok(x) => Ok(one_field_message(sc, t, FieldV::Single(ElemV::Scalar(x)))),
            Err(e) => Err(e),
        },
        ConvertedV::FieldMask(ps) => Ok(
            one_field_message(sc, t, FieldV::List(ps.map_values(|p: Seq<u8>| ElemV::Scalar(ScalarV::Str(p))))),
        ),
        ConvertedV::Json(j) => {
            let verdict = if sc.messages@[t].full_name@ == "google.protobuf.Struct".spec_bytes() {
                r.as_struct
            } else {
                r.as_value
            };
            match verdict {
                Some(e) => Err((e, ErrorOrigin::Decoder)),
                None => Ok(ElemV::Json(j)),
            }
        },
        _ => match finish_scalar(c, r) {
            Ok(x) => Ok(ElemV::Scalar(x)),
            Err(e) => Err(e),
        },
    }
}

pub open spec fn kind_message(kind: FieldKind) -> int {
    match kind {
        FieldKind::Message(t) => t as int,
        _ => 0,
    }
}

/// One value of a field of `kind`: `runtime.parseField`, then what is read
/// outside.
pub open spec fn spec_value(sc: Schema, kind: FieldKind, v: Seq<u8>, r: ReadsV) -> Result<ElemV, FieldErr> {
    match spec_parse_field(sc, kind, v) {
        Err(e) => Err((e, ErrorOrigin::Gateway)),
        Ok(c) => spec_finish(sc, kind_message(kind), c, r),
    }
}

/// The values of a list from the `i`-th on, until one fails.
pub open spec fn spec_list(sc: Schema, kind: FieldKind, vs: Seq<Seq<u8>>, rs: Seq<ReadsV>, i: int) -> Result<
    Seq<ElemV>,
    FieldErr,
>
    decreases vs.len() - i,
{
    if i < 0 || i >= vs.len() {
        Ok(Seq::empty())
    } else {
        match spec_value(sc, kind, vs[i], rs[i]) {
            Err(e) => Err(e),
            Ok(x) => match spec_list(sc, kind, vs, rs, i + 1) {
                Ok(rest) => Ok(seq![x] + rest),
                Err(e) => Err(e),
            },
        }
    }
}

pub open spec fn prefixed(p: Seq<u8>, e: FieldErr) -> FieldErr {
    (p + e.0, e.1)
}

pub open spec fn key_scalar(e: ElemV) -> ScalarV {
    match e {
        ElemV::Scalar(s) => s,
        _ => ScalarV::Bool(false),
    }
}

/// The values of field `f` of message `m`, converted for a list, a map
/// entry, or a single value; an error names the field.
pub open spec fn spec_write(sc: Schema, m: int, f: int, vs: Seq<Seq<u8>>, rs: Seq<ReadsV>) -> Result<WriteV, FieldErr> {
    let fd = sc.messages@[m].fields@[f];
    let name = spec_quote(fd.name@);
    if fd.is_list {
        match spec_list(sc, fd.kind, vs, rs, 0) {
            Ok(items) => Ok(WriteV::List(items)),
            Err(e) => Err(prefixed("parsing list ".spec_bytes() + name + ": ".spec_bytes(), e)),
        }
    } else if fd.is_map {
        let entry = sc.messages@[kind_message(fd.kind)].fields@;
        match spec_value(sc, entry[0].kind, vs[0], rs[0]) {
            Err(e) => Err(prefixed("parsing map key ".spec_bytes() + name + ": ".spec_bytes(), e)),
            Ok(k) => match spec_value(sc, entry[1].kind, vs[1], rs[1]) {
                Err(e) => Err(prefixed("parsing map value ".spec_bytes() + name + ": ".spec_bytes(), e)),
                Ok(v) => Ok(WriteV::Entry(key_scalar(k), v)),
            },
        }
    } else {
        match spec_value(sc, fd.kind, vs[0], rs[0]) {
            Err(e) => Err(prefixed("parsing field ".spec_bytes() + name + ": ".spec_bytes(), e)),
            Ok(v) => Ok(WriteV::Single(v)),
        }
    }
}

/// `runtime.populateFieldValueFromPath` on message `m` whose set fields are
/// `fs`: its fields afterwards, or the error.
pub open spec fn spec_populate(
    sc: Schema,
    m: int,
    fs: Seq<(int, FieldV)>,
    path: Seq<Seq<u8>>,
    vs: Seq<Seq<u8>>,
    rs: Seq<ReadsV>,
) -> Result<Seq<(int, FieldV)>, FieldErr> {
    match spec_resolve_path(sc, m, fs, path, vs) {
        Err(e) => Err((e, ErrorOrigin::Gateway)),
        Ok((chain, end)) => match end {
            None => Ok(store_from(sc, m, fs, chain, 0, None, WriteV::Nothing)),
            Some((em, f)) => match spec_write(sc, em, f, vs, rs) {
                Err(e) => Err(e),
                Ok(w) => Ok(store_from(sc, m, fs, chain, 0, Some(f), w)),
            },
        },
    }
}

fn number_index_at(fs: &Vec<FieldShape>, n: u32) -> (r: usize)
    ensures
        r == number_index(fs@, n, 0),
        r <= fs@.len(),
{
    let mut i: usize = 0;
    while i < fs.len()
        invariant
            i <= fs@.len(),
            number_index(fs@, n, 0) == number_index(fs@, n, i as int),
        decreases fs@.len() - i,
    {
        if fs[i].number == n {
            return i;
        }
        i = i + 1;
    }
    i
}

fn set_number_exec(schema: &Schema, t: usize, fields: &mut Vec<(usize, FieldValue)>, n: u32, v: FieldValue)
    requires
        t < schema.messages@.len(),
    ensures
        entries_v(final(fields)@) == set_number(*schema, t as int, entries_v(old(fields)@), n, field_v(v)),
{
    let idx = number_index_at(&schema.messages[t].fields, n);
    if idx < schema.messages[t].fields.len() {
        set_entry(fields, idx, v);
    }
}

fn pair_message_exec(schema: &Schema, t: usize, a: Scalar, b: Scalar) -> (r: Elem)
    requires
        t < schema.messages@.len(),
    ensures
        elem_v(r) == pair_message(*schema, t as int, scalar_v(a), scalar_v(b)),
{
    let mut fields: Vec<(usize, FieldValue)> = Vec::new();
    assert(entries_v(fields@) =~= Seq::<(int, FieldV)>::empty());
    set_number_exec(schema, t, &mut fields, 1, FieldValue::Single(Elem::Scalar(a)));
    set_number_exec(schema, t, &mut fields, 2, FieldValue::Single(Elem::Scalar(b)));
    Elem::Message(MessageValue { msg: t, fields })
}

fn one_field_message_exec(schema: &Schema, t: usize, v: FieldValue) -> (r: Elem)
    requires
        t < schema.messages@.len(),
    ensures
        elem_v(r) == one_field_message(*schema, t as int, field_v(v)),
{
    let mut fields: Vec<(usize, FieldValue)> = Vec::new();
    assert(entries_v(fields@) =~= Seq::<(int, FieldV)>::empty());
    set_number_exec(schema, t, &mut fields, 1, v);
    Elem::Message(MessageValue { msg: t, fields })
}

fn plain_scalar_exec(c: Converted) -> (r: Scalar)
    ensures
        scalar_v(r) == plain_scalar(converted_v(c)),
{
    match c {
        Converted::Bool(b) => Scalar::Bool(b),
        Converted::Enum(n) => Scalar::Enum(n),
        Converted::I32(n) => Scalar::I32(n),
        Converted::I64(n) => Scalar::I64(n),
        Converted::U32(n) => Scalar::U32(n),
        Converted::U64(n) => Scalar::U64(n),
        Converted::String(s) => Scalar::String(s),
        Converted::Bytes(b) => Scalar::Bytes(b),
        _ => Scalar::Bool(false),
    }
}

pub(crate) fn gateway_copy(e: &Vec<u8>) -> (r: FieldError)
    ensures
        r.message@ == e@,
        r.origin == ErrorOrigin::Gateway,
{
    FieldError::gateway(copy_bytes(e.as_slice()))
}

fn finish_scalar_exec(c: Converted, r: &OutsideReads) -> (res: Result<Scalar, FieldError>)
    ensures
        match finish_scalar(converted_v(c), reads_v(*r)) {
            Ok(x) => res matches Ok(y) && scalar_v(y) == x,
            Err((m, o)) => res matches Err(e) && e.message@ == m && e.origin == o,
        },
{
    match c {
        Converted::Float { text, bits } => {
            if bits == 32 {
                match &r.float32 {
                    Ok(b) => Ok(Scalar::F32(*b)),
                    Err(e) => Err(gateway_copy(e)),
                }
            } else {
                match &r.float64 {
                    Ok(b) => Ok(Scalar::F64(*b)),
                    Err(e) => Err(gateway_copy(e)),
                }
            }
        },
        other => Ok(plain_scalar_exec(other)),
    }
}

/// `time.Duration` nanoseconds as (seconds, nanoseconds), truncated toward
/// zero.
fn split_duration(d: i64) -> (r: (i64, i32))
    ensures
        r.0 as int == duration_seconds(d as int),
        r.1 as int == duration_nanos(d as int),
{
    let a: u64 = if d >= 0 {
        d as u64
    } else if d == i64::MIN {
        0x8000_0000_0000_0000u64
    } else {
        (-d) as u64
    };
    let q = a / 1_000_000_000;
    let rm = a % 1_000_000_000;
    assert(a == q * 1_000_000_000 + rm) by (nonlinear_arith)
        requires
            q == a / 1_000_000_000,
            rm == a % 1_000_000_000,
    ;
    assert(q <= 0x8000_0000_0000_0000u64 / 1_000_000_000) by (nonlinear_arith)
        requires
            q == a / 1_000_000_000,
            a <= 0x8000_0000_0000_0000u64,
    ;
    if d >= 0 {
        (q as i64, rm as i32)
    } else {
        (-(q as i64), -(rm as i32))
    }
}

pub(crate) fn finish_exec(schema: &Schema, t: usize, c: Converted, r: &OutsideReads) -> (res: Result<Elem, FieldError>)
    requires
        t < schema.messages@.len(),
    ensures
        match spec_finish(*schema, t as int, converted_v(c), reads_v(*r)) {
            Ok(x) => res matches Ok(y) && elem_v(y) == x,
            Err((m, o)) => res matches Err(e) && e.message@ == m && e.origin == o,
        },
{
    match c {
        Converted::Timestamp { seconds, nanos } => Ok(pair_message_exec(schema, t, Scalar::I64(seconds), Scalar::I32(nanos))),
        Converted::Duration { seconds, nanos } => Ok(pair_message_exec(schema, t, Scalar::I64(seconds), Scalar::I32(nanos))),
        Converted::DurationText(_) => match &r.duration {
            Ok(d) => {
                let (secs, nanos) = split_duration(*d);
                Ok(pair_message_exec(schema, t, Scalar::I64(secs), Scalar::I32(nanos)))
            },
            Err(e) => Err(gateway_copy(e)),
        },
        Converted::Wrapper(b) => match finish_scalar_exec(*b, r) {
            Ok(x) => Ok(one_field_message_exec(schema, t, FieldValue::Single(Elem::Scalar(x)))),
            Err(e) => Err(e),
        },
        Converted::FieldMask(ps) => {
            let ghost pv = strings_v(ps@);
            let mut items: Vec<Elem> = Vec::new();
            let mut k: usize = 0;
            while k < ps.len()
                invariant
                    k <= ps@.len(),
                    pv == strings_v(ps@),
                    elems_v(items@) == pv.subrange(0, k as int).map_values(|p: Seq<u8>| ElemV::Scalar(ScalarV::Str(p))),
                decreases ps@.len() - k,
            {
                let c = copy_bytes(ps[k].as_slice());
                assert(c@ == pv[k as int]);
                let ghost before = elems_v(items@);
                items.push(Elem::Scalar(Scalar::String(c)));
                assert(elems_v(items@) =~= before.push(ElemV::Scalar(ScalarV::Str(pv[k as int]))));
                assert(elems_v(items@) =~= pv.subrange(0, k + 1).map_values(
                    |p: Seq<u8>| ElemV::Scalar(ScalarV::Str(p)),
                ));
                k = k + 1;
            }
            assert(pv.subrange(0, k as int) =~= pv);
            Ok(one_field_message_exec(schema, t, FieldValue::List(items)))
        },
        Converted::Json(j) => {
            let verdict = if bytes_eq(schema.messages[t].full_name.as_slice(), "google.protobuf.Struct".as_bytes()) {
                &r.as_struct
            } else {
                &r.as_value
            };
            match verdict {
                Some(e) => Err(FieldError { message: copy_bytes(e.as_slice()), origin: ErrorOrigin::Decoder }),
                None => Ok(Elem::Json(j)),
            }
        },
        other => match finish_scalar_exec(other, r) {
            Ok(x) => Ok(Elem::Scalar(x)),
            Err(e) => Err(e),
        },
    }
}

pub(crate) fn value_exec(schema: &Schema, kind: FieldKind, v: &[u8], r: &OutsideReads) -> (res: Result<Elem, FieldError>)
    requires
        crate::request::convert::kind_in(*schema, kind),
        schema.messages@.len() > 0,
    ensures
        match spec_value(*schema, kind, v@, reads_v(*r)) {
            Ok(x) => res matches Ok(y) && elem_v(y) == x,
            Err((m, o)) => res matches Err(e) && e.message@ == m && e.origin == o,
        },
{
    let c = match parse_field(schema, kind, v) {
        Ok(c) => c,
        Err(m) => {
            return Err(FieldError::gateway(m));
        },
    };
    let t = match kind {
        FieldKind::Message(t) => t,
        _ => 0,
    };
    finish_exec(schema, t, c, r)
}

fn list_exec(schema: &Schema, kind: FieldKind, values: &Vec<Vec<u8>>, reads: &Vec<OutsideReads>) -> (res: Result<
    Vec<Elem>,
    FieldError,
>)
    requires
        crate::request::convert::kind_in(*schema, kind),
        schema.messages@.len() > 0,
        reads@.len() == values@.len(),
    ensures
        match spec_list(*schema, kind, strings_v(values@), all_reads_v(reads@), 0) {
            Ok(xs) => res matches Ok(ys) && elems_v(ys@) == xs,
            Err((m, o)) => res matches Err(e) && e.message@ == m && e.origin == o,
        },
{
    let ghost vv = strings_v(values@);
    let ghost rv = all_reads_v(reads@);
    let mut items: Vec<Elem> = Vec::new();
    let mut i: usize = 0;
    assert(elems_v(items@) =~= Seq::<ElemV>::empty());
    while i < values.len()
        invariant
            i <= values@.len(),
            reads@.len() == values@.len(),
            vv == strings_v(values@),
            rv == all_reads_v(reads@),
            crate::request::convert::kind_in(*schema, kind),
            schema.messages@.len() > 0,
            spec_list(*schema, kind, vv, rv, 0) == match spec_list(*schema, kind, vv, rv, i as int) {
                Ok(rest) => Ok(elems_v(items@) + rest),
                Err(e) => Err(e),
            },
        decreases values@.len() - i,
    {
        assert(vv[i as int] == values@[i as int]@);
        assert(rv[i as int] == reads_v(reads@[i as int]));
        let x = match value_exec(schema, kind, values[i].as_slice(), &reads[i]) {
            Ok(x) => x,
            Err(e) => {
                return Err(e);
            },
        };
        let ghost xv = elem_v(x);
        let ghost before = elems_v(items@);
        items.push(x);
        proof {
            assert(elems_v(items@) =~= before.push(xv));
            match spec_list(*schema, kind, vv, rv, i + 1) {
                Ok(rest) => assert(before + (seq![xv] + rest) =~= elems_v(items@) + rest),
                Err(_) => {},
            }
        }
        i = i + 1;
    }
    assert(elems_v(items@) + Seq::<ElemV>::empty() =~= elems_v(items@));
    Ok(items)
}

fn prefix_error(p: &[u8], name: &[u8], e: FieldError) -> (r: FieldError)
    ensures
        r.message@ == p@ + spec_quote(name@) + ": ".spec_bytes() + e.message@,
        r.origin == e.origin,
{
    let mut pre = copy_bytes(p);
    push_all(&mut pre, quote(name).as_slice());
    push_all(&mut pre, ": ".as_bytes());
    e.wrap(pre.as_slice())
}

fn key_scalar_exec(e: Elem) -> (r: Scalar)
    ensures
        scalar_v(r) == key_scalar(elem_v(e)),
{
    match e {
        Elem::Scalar(s) => s,
        _ => Scalar::Bool(false),
    }
}

/// The checks [`resolve_path`] made on the last field, as facts about the
/// values.
pub open spec fn counts_fit(sc: Schema, m: int, f: int, vs: Seq<Seq<u8>>) -> bool {
    let fd = sc.messages@[m].fields@[f];
    &&& vs.len() >= 1
    &&& (fd.is_map && !fd.is_list ==> vs.len() == 2)
    &&& (!fd.is_list && !fd.is_map ==> vs.len() == 1)
}

fn write_exec(schema: &Schema, m: usize, f: usize, values: &Vec<Vec<u8>>, reads: &Vec<OutsideReads>) -> (res: Result<
    Write,
    FieldError,
>)
    requires
        schema.wf(),
        m < schema.messages@.len(),
        f < schema.messages@[m as int].fields@.len(),
        reads@.len() == values@.len(),
        counts_fit(*schema, m as int, f as int, strings_v(values@)),
    ensures
        match spec_write(*schema, m as int, f as int, strings_v(values@), all_reads_v(reads@)) {
            Ok(w) => res matches Ok(x) && write_v(x) == w,
            Err((msg, o)) => res matches Err(e) && e.message@ == msg && e.origin == o,
        },
{
    let fd = &schema.messages[m].fields[f];
    assert(schema.messages@[m as int].fields@[f as int] == *fd);
    let ghost vv = strings_v(values@);
    let ghost rv = all_reads_v(reads@);
    if fd.is_list {
        match list_exec(schema, fd.kind, values, reads) {
            Ok(items) => Ok(Write::List(items)),
            Err(e) => Err(prefix_error("parsing list ".as_bytes(), fd.name.as_slice(), e)),
        }
    } else if fd.is_map {
        let t = match fd.kind {
            FieldKind::Message(t) => t,
            _ => 0,
        };
        let entry = &schema.messages[t].fields;
        assert(schema.messages@[t as int].fields@[0] == entry@[0]);
        assert(schema.messages@[t as int].fields@[1] == entry@[1]);
        assert(vv[0] == values@[0]@ && vv[1] == values@[1]@);
        assert(rv[0] == reads_v(reads@[0]) && rv[1] == reads_v(reads@[1]));
        let k = match value_exec(schema, entry[0].kind, values[0].as_slice(), &reads[0]) {
            Ok(k) => k,
            Err(e) => {
                return Err(prefix_error("parsing map key ".as_bytes(), fd.name.as_slice(), e));
            },
        };
        let v = match value_exec(schema, entry[1].kind, values[1].as_slice(), &reads[1]) {
            Ok(v) => v,
            Err(e) => {
                return Err(prefix_error("parsing map value ".as_bytes(), fd.name.as_slice(), e));
            },
        };
        Ok(Write::Entry(key_scalar_exec(k), v))
    } else {
        assert(vv[0] == values@[0]@);
        assert(rv[0] == reads_v(reads@[0]));
        match value_exec(schema, fd.kind, values[0].as_slice(), &reads[0]) {
            Ok(v) => Ok(Write::Single(v)),
            Err(e) => Err(prefix_error("parsing field ".as_bytes(), fd.name.as_slice(), e)),
        }
    }
}

proof fn lemma_resolve_end(
    sc: Schema,
    m: int,
    fs: Seq<(int, FieldV)>,
    path: Seq<Seq<u8>>,
    i: int,
    level: int,
    vs: Seq<Seq<u8>>,
)
    requires
        sc.wf(),
        0 <= m < sc.messages@.len(),
        vs.len() >= 1,
    ensures
        resolve_from(sc, m, fs, path, i, level, vs) matches Ok((c, Some((em, f)))) ==> (0 <= em
            < sc.messages@.len() && 0 <= f < sc.messages@[em].fields@.len() && counts_fit(sc, em, f, vs)),
    decreases path.len() - i,
{
    if 0 <= i < path.len() {
        let shapes = sc.messages@[m].fields@;
        let f = lookup_field(shapes, path[i]);
        lemma_lookup_range(shapes, path[i]);
        if f < shapes.len() {
            assert(sc.messages@[m].fields@[f] == shapes[f]);
            if i < path.len() - 1 {
                if let FieldKind::Message(t) = shapes[f].kind {
                    lemma_resolve_end(sc, t as int, child_fields(fs, f), path, i + 1, level + 1, vs);
                }
            } else {
                let fd = shapes[f];
                if last_check(sc, m, f, level, vs) is None {
                    assert(fd.is_map && !fd.is_list ==> vs.len() == 2);
                    assert(!fd.is_list && !fd.is_map ==> vs.len() == 1);
                    assert(counts_fit(sc, m, f, vs));
                }
            }
        }
    }
}

/// `runtime.populateFieldValueFromPath`: walks `path` (proto or JSON names)
/// through `mv`, creating messages on the way, and sets the last field from
/// `values`, which `reads` give what code outside the library reads from
/// (one each). An unknown name ends the walk without an error. On an error
/// `mv` is left as it was.
pub fn populate_field_value_from_path(
    schema: &Schema,
    mv: &mut MessageValue,
    path: &Vec<Vec<u8>>,
    values: &Vec<Vec<u8>>,
    reads: &Vec<OutsideReads>,
) -> (r: Result<(), FieldError>)
    requires
        schema.wf(),
        old(mv).msg < schema.messages@.len(),
        reads@.len() == values@.len(),
    ensures
        final(mv).msg == old(mv).msg,
        match spec_populate(
            *schema,
            old(mv).msg as int,
            entries_v(old(mv).fields@),
            strings_v(path@),
            strings_v(values@),
            all_reads_v(reads@),
        ) {
            Ok(fs) => r is Ok && entries_v(final(mv).fields@) == fs,
            Err((m, o)) => r matches Err(e) && e.message@ == m && e.origin == o && *final(mv) == *old(mv),
        },
{
    if values.len() > 0 {
        proof {
            lemma_resolve_end(*schema, mv.msg as int, entries_v(mv.fields@), strings_v(path@), 0, 1, strings_v(values@));
        }
    }
    let target = match resolve_path(schema, mv, path, values) {
        Ok(t) => t,
        Err(e) => {
            return Err(FieldError::gateway(e));
        },
    };
    let w = match target.end {
        None => Write::Nothing,
        Some((m, f)) => match write_exec(schema, m, f, values, reads) {
            Ok(w) => w,
            Err(e) => {
                return Err(e);
            },
        },
    };
    store(schema, mv, &target, w);
    Ok(())
}

proof fn lemma_entry_index(fs: Seq<(int, FieldV)>, f: int, k: int)
    requires
        0 <= k <= fs.len(),
    ensures
        k <= entry_index(fs, f, k) <= fs.len(),
        entry_index(fs, f, k) < fs.len() ==> fs[entry_index(fs, f, k)].0 == f,
        forall|j: int| k <= j < entry_index(fs, f, k) ==> fs[j].0 != f,
    decreases fs.len() - k,
{
    if k < fs.len() && fs[k].0 != f {
        lemma_entry_index(fs, f, k + 1);
    }
}

proof fn lemma_entry_index_is(fs: Seq<(int, FieldV)>, f: int, k: int, i: int)
    requires
        0 <= k <= i <= fs.len(),
        i < fs.len() ==> fs[i].0 == f,
        forall|j: int| k <= j < i ==> fs[j].0 != f,
    ensures
        entry_index(fs, f, k) == i,
    decreases i - k,
{
    if k < i {
        lemma_entry_index_is(fs, f, k + 1, i);
    }
}

/// Setting a field twice keeps the second value, in the place the field
/// took when it was first set.
pub proof fn lemma_later_value_wins(fs: Seq<(int, FieldV)>, f: int, a: FieldV, b: FieldV)
    ensures
        with_field(with_field(fs, f, a), f, b) == with_field(fs, f, b),
{
    lemma_entry_index(fs, f, 0);
    let k = entry_index(fs, f, 0);
    let once = with_field(fs, f, a);
    if k < fs.len() {
        lemma_entry_index_is(once, f, 0, k);
        assert(once.update(k, (f, b)) =~= fs.update(k, (f, b)));
    } else {
        lemma_entry_index_is(once, f, 0, fs.len() as int);
        assert(once.update(fs.len() as int, (f, b)) =~= fs.push((f, b)));
    }
}

/// Every string in a scalar is UTF-8.
pub open spec fn scalar_utf8(s: ScalarV) -> bool {
    match s {
        ScalarV::Str(b) => crate::json::token::utf8_valid(b),
        _ => true,
    }
}

/// Every string in an element, nested messages included, is UTF-8.
pub open spec fn elem_utf8(e: ElemV) -> bool
    decreases e, 0int,
{
    match e {
        ElemV::Scalar(s) => scalar_utf8(s),
        ElemV::Message(m) => {
            proof {
                assert(decreases_to!(e => m));
            }
            fields_utf8(m.fields, 0)
        },
        ElemV::Json(_) => true,
    }
}

/// Every string in the fields of a message from the `i`-th on, nested
/// messages included, is UTF-8.
pub open spec fn fields_utf8(fs: Seq<(int, FieldV)>, i: int) -> bool
    decreases fs, fs.len() - i,
{
    if i < 0 || i >= fs.len() {
        true
    } else {
        proof {
            assert(decreases_to!(fs => fs[i]));
        }
        field_utf8(fs[i].1) && fields_utf8(fs, i + 1)
    }
}

pub open spec fn field_utf8(f: FieldV) -> bool
    decreases f, 0int,
{
    match f {
        FieldV::Single(e) => elem_utf8(e),
        FieldV::List(es) => elems_utf8(es, 0),
        FieldV::MapEntries(ps) => pairs_utf8(ps, 0),
    }
}

pub open spec fn elems_utf8(es: Seq<ElemV>, i: int) -> bool
    decreases es, es.len() - i,
{
    if i < 0 || i >= es.len() {
        true
    } else {
        elem_utf8(es[i]) && elems_utf8(es, i + 1)
    }
}

pub open spec fn pairs_utf8(ps: Seq<(ScalarV, ElemV)>, i: int) -> bool
    decreases ps, ps.len() - i,
{
    if i < 0 || i >= ps.len() {
        true
    } else {
        proof {
            assert(decreases_to!(ps => ps[i]));
        }
        scalar_utf8(ps[i].0) && elem_utf8(ps[i].1) && pairs_utf8(ps, i + 1)
    }
}

fn scalar_is_utf8(s: &Scalar) -> (r: bool)
    ensures
        r == scalar_utf8(scalar_v(*s)),
{
    match s {
        Scalar::String(b) => crate::json::token::valid_utf8(b.as_slice()),
        _ => true,
    }
}

fn elem_is_utf8(e: &Elem) -> (r: bool)
    ensures
        r == elem_utf8(elem_v(*e)),
    decreases e, 1int,
{
    match e {
        Elem::Scalar(s) => scalar_is_utf8(s),
        Elem::Message(m) => fields_are_utf8(&m.fields),
        Elem::Json(_) => true,
    }
}

/// Whether every string in the fields, nested messages included, is UTF-8.
pub fn fields_are_utf8(fs: &Vec<(usize, FieldValue)>) -> (r: bool)
    ensures
        r == fields_utf8(entries_v(fs@), 0),
    decreases fs, 0int,
{
    let ghost fv = entries_v(fs@);
    let mut i: usize = 0;
    while i < fs.len()
        invariant
            i <= fs@.len(),
            fv == entries_v(fs@),
            fields_utf8(fv, 0) == fields_utf8(fv, i as int),
        decreases fs@.len() - i,
    {
        proof {
            assert(decreases_to!(fs => fs@[i as int].1));
        }
        assert(fv[i as int].1 == field_v(fs@[i as int].1));
        if !field_is_utf8(&fs[i].1) {
            return false;
        }
        i = i + 1;
    }
    true
}

fn field_is_utf8(f: &FieldValue) -> (r: bool)
    ensures
        r == field_utf8(field_v(*f)),
    decreases f, 2int,
{
    match f {
        FieldValue::Single(e) => elem_is_utf8(e),
        FieldValue::List(es) => {
            let ghost ev = elems_v(es@);
            let mut i: usize = 0;
            while i < es.len()
                invariant
                    i <= es@.len(),
                    *f == FieldValue::List(*es),
                    ev == elems_v(es@),
                    elems_utf8(ev, 0) == elems_utf8(ev, i as int),
                decreases es@.len() - i,
            {
                proof {
                    assert(decreases_to!(*f => *es));
                    assert(decreases_to!(*es => es@));
                    assert(decreases_to!(es@ => es@[i as int]));
                }
                assert(ev[i as int] == elem_v(es@[i as int]));
                if !elem_is_utf8(&es[i]) {
                    return false;
                }
                i = i + 1;
            }
            true
        },
        FieldValue::MapEntries(ps) => {
            let ghost pv = pairs_v(ps@);
            let mut i: usize = 0;
            while i < ps.len()
                invariant
                    i <= ps@.len(),
                    *f == FieldValue::MapEntries(*ps),
                    pv == pairs_v(ps@),
                    pairs_utf8(pv, 0) == pairs_utf8(pv, i as int),
                decreases ps@.len() - i,
            {
                proof {
                    assert(decreases_to!(*f => *ps));
                    assert(decreases_to!(*ps => ps@));
                    assert(decreases_to!(ps@ => ps@[i as int]));
                    assert(decreases_to!(ps@[i as int] => ps@[i as int].1));
                }
                assert(pv[i as int] == (scalar_v(ps@[i as int].0), elem_v(ps@[i as int].1)));
                if !scalar_is_utf8(&ps[i].0) {
                    return false;
                }
                if !elem_is_utf8(&ps[i].1) {
                    return false;
                }
                i = i + 1;
            }
            true
        },
    }
}

} // verus!
