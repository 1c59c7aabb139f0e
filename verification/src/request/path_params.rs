//! Path variables into the request message, as the generated handler sets
//! them: a top-level field through its `runtime.<Kind>` converter (a
//! repeated one split on the separator), a nested one through
//! `runtime.PopulateFieldFromPath`, an enum under a nested path read again
//! with `runtime.Enum`.
use vstd::prelude::*;
use vstd::string::StringSliceAdditionalSpecFns;
use crate::bytes::{copy_bytes, push_all, strings_v};
use crate::error::{CODE_INTERNAL, CODE_INVALID_ARGUMENT};
use crate::request::binding::{
    has_converter, has_runtime_converter, path_field_view, FieldKind, PathConv, PathField, PathFieldV, RequestBinding, Schema,
};
use crate::request::convert::{runtime_convert, runtime_enum, spec_runtime_convert, spec_runtime_enum};
use crate::request::fields::FieldError;
use crate::request::form::{form_view, opt_view, parse_form_method, spec_parse_form, split_bytes, split_on, Form, FormV};
use crate::path::pattern::PathParams;
use crate::request::binding::{path_fields_view, spec_query_target};
use crate::request::populate::{
    fields_are_utf8, fields_utf8, populate_field_value_from_path, Elem, Scalar, Target, Write, all_reads_v, chain_ok, end_field, entries_v, reads_v, target_v, elem_v, elems_v, field_v,
    entry_index_at, finish_exec, is_present, kind_message, message_of, present, set_entry, spec_finish, spec_populate,
    store, store_from, with_field, ElemV, FieldErr, FieldV, FieldValue, MessageValue, OutsideReads, ReadsV, ScalarV, WriteV,
};
use crate::request::{ErrorOrigin, RequestError};
use crate::path::template::view_tokens;

verus! {

/// The path variable names fields that chain from message `root`, each in
/// the message of the one before; a top-level variable of a message type
/// has a converter, and a variable read again as an enum ends on an enum.
pub open spec fn path_field_ok(sc: Schema, root: int, p: PathFieldV) -> bool {
    &&& p.fields.len() >= 1
    &&& p.fields[0].0 == root
    &&& forall|k: int|
        0 <= k < p.fields.len() ==> 0 <= (#[trigger] p.fields[k]).0 < sc.messages@.len() && 0 <= p.fields[k].1
            < sc.messages@[p.fields[k].0].fields@.len()
    &&& forall|k: int|
        0 <= k < p.fields.len() - 1 ==> (sc.messages@[(#[trigger] p.fields[k]).0].fields@[p.fields[k].1].kind is Message
            && message_of(sc, p.fields[k].0, p.fields[k].1) == p.fields[k + 1].0)
    &&& (p.conv is Top ==> (sc.messages@[root].fields@[p.fields[0].1].kind matches FieldKind::Message(t)
        ==> has_converter(sc.messages@[t as int].full_name@)))
    &&& (p.conv matches PathConv::Nested { reparse_enum } && reparse_enum ==> sc.messages@[p.fields.last().0].fields@[
        p.fields.last().1].kind is Enum)
}

/// The texts of a path variable whose outside reads it needs: its parts
/// for a repeated top-level field, else the value.
pub open spec fn spec_path_texts(sep: u8, p: PathFieldV, val: Seq<u8>) -> Seq<Seq<u8>> {
    match p.conv {
        PathConv::Top { repeated } => if repeated {
            split_on(val, sep)
        } else {
            seq![val]
        },
        _ => seq![val],
    }
}

/// A top-level variable's value: its converter, then what is read outside.
pub open spec fn spec_runtime_value(sc: Schema, kind: FieldKind, v: Seq<u8>, r: ReadsV) -> Result<ElemV, FieldErr> {
    match spec_runtime_convert(sc, kind, v) {
        Err(e) => Err((e, ErrorOrigin::Gateway)),
        Ok(c) => spec_finish(sc, kind_message(kind), c, r),
    }
}

pub open spec fn spec_runtime_list(sc: Schema, kind: FieldKind, parts: Seq<Seq<u8>>, rs: Seq<ReadsV>, i: int) -> Result<
    Seq<ElemV>,
    FieldErr,
>
    decreases parts.len() - i,
{
    if i < 0 || i >= parts.len() {
        Ok(Seq::empty())
    } else {
        match spec_runtime_value(sc, kind, parts[i], rs[i]) {
            Err(e) => Err(e),
            Ok(x) => match spec_runtime_list(sc, kind, parts, rs, i + 1) {
                Ok(rest) => Ok(seq![x] + rest),
                Err(e) => Err(e),
            },
        }
    }
}

pub open spec fn mismatch_text(name: Seq<u8>, e: Seq<u8>) -> Seq<u8> {
    "type mismatch, parameter: ".spec_bytes() + name + ", error: ".spec_bytes() + e
}

/// The first other field of oneof `o` that is set, from the `g`-th on.
pub open spec fn other_in_oneof(sc: Schema, m: int, fs: Seq<(int, FieldV)>, o: usize, f: int, g: int) -> int
    decreases sc.messages@[m].fields@.len() - g,
{
    let shapes = sc.messages@[m].fields@;
    if g < 0 || g >= shapes.len() {
        shapes.len() as int
    } else if shapes[g].oneof == Some(o) && g != f && present(fs, g) {
        g
    } else {
        other_in_oneof(sc, m, fs, o, f, g + 1)
    }
}

/// The numbers of enum `e` for each part, until one is refused.
pub open spec fn spec_enum_list(sc: Schema, e: int, parts: Seq<Seq<u8>>, i: int) -> Result<Seq<ElemV>, Seq<u8>>
    decreases parts.len() - i,
{
    if i < 0 || i >= parts.len() {
        Ok(Seq::empty())
    } else {
        match spec_runtime_enum(sc.enums@[e].values@, parts[i]) {
            Err(x) => Err(x),
            Ok(n) => match spec_enum_list(sc, e, parts, i + 1) {
                Ok(rest) => Ok(seq![ElemV::Scalar(ScalarV::Enum(n))] + rest),
                Err(x) => Err(x),
            },
        }
    }
}

pub open spec fn kind_enum(kind: FieldKind) -> int {
    match kind {
        FieldKind::Enum(e) => e as int,
        _ => 0,
    }
}

/// The fields a path variable passes through, before its last.
pub open spec fn path_chain(p: PathFieldV) -> Seq<int> {
    p.fields.subrange(0, p.fields.len() - 1).map_values(|s: (int, int)| s.1)
}

/// A path variable `p` with value `val` set in message `m` whose set fields
/// are `fs`: the fields afterwards, or the error and who wrote it.
pub open spec fn spec_populate_path(
    sc: Schema,
    sep: u8,
    m: int,
    fs: Seq<(int, FieldV)>,
    p: PathFieldV,
    val: Seq<u8>,
    rs: Seq<ReadsV>,
) -> Result<Seq<(int, FieldV)>, FieldErr> {
    match p.conv {
        PathConv::Top { repeated } => {
            let f = p.fields[0].1;
            let desc = sc.messages@[m];
            let fd = desc.fields@[f];
            let conv = if repeated {
                match spec_runtime_list(sc, fd.kind, split_on(val, sep), rs, 0) {
                    Ok(items) => Ok(FieldV::List(items)),
                    Err(e) => Err(e),
                }
            } else {
                match spec_runtime_value(sc, fd.kind, val, rs[0]) {
                    Ok(x) => Ok(FieldV::Single(x)),
                    Err(e) => Err(e),
                }
            };
            match conv {
                Err(e) => Err((mismatch_text(p.name, e.0), ErrorOrigin::Gateway)),
                Ok(v) => {
                    let other = match fd.oneof {
                        Some(o) => other_in_oneof(sc, m, fs, o, f, 0),
                        None => desc.fields@.len() as int,
                    };
                    if other < desc.fields@.len() {
                        Err(
                            (
                                "expect type: *".spec_bytes() + desc.name@ + seq![95u8] + fd.name@ + ", but: ".spec_bytes()
                                    + desc.fields@[other].name@ + seq![10u8],
                                ErrorOrigin::Gateway,
                            ),
                        )
                    } else {
                        Ok(with_field(fs, f, v))
                    }
                },
            }
        },
        PathConv::Nested { reparse_enum } => match spec_populate(
            sc,
            m,
            fs,
            split_on(p.name, 46),
            seq![val],
            rs,
        ) {
            Err(e) => Err((mismatch_text(p.name, e.0), e.1)),
            Ok(fs2) => if reparse_enum {
                let last = p.fields.last();
                let target = sc.messages@[last.0].fields@[last.1];
                let e = kind_enum(target.kind);
                let reparsed = if target.is_list {
                    match spec_enum_list(sc, e, split_on(val, sep), 0) {
                        Ok(items) => Ok(FieldV::List(items)),
                        Err(x) => Err(x),
                    }
                } else {
                    match spec_runtime_enum(sc.enums@[e].values@, val) {
                        Ok(n) => Ok(FieldV::Single(ElemV::Scalar(ScalarV::Enum(n)))),
                        Err(x) => Err(x),
                    }
                };
                match reparsed {
                    Err(x) => Err(
                        (
                            "could not parse path as enum value, parameter: ".spec_bytes() + p.name + ", error: ".spec_bytes()
                                + x,
                            ErrorOrigin::Gateway,
                        ),
                    ),
                    Ok(v) => Ok(store_from(sc, m, fs2, path_chain(p), 0, Some(last.1), WriteV::Replace(v))),
                }
            } else {
                Ok(fs2)
            },
        },
    }
}

proof fn lemma_path_chain_ok(sc: Schema, root: int, p: PathFieldV, k: int)
    requires
        path_field_ok(sc, root, p),
        0 <= k < p.fields.len(),
    ensures
        chain_ok(sc, p.fields[k].0, path_chain(p), k, Some(p.fields.last().1)),
    decreases p.fields.len() - k,
{
    let chain = path_chain(p);
    let _ = p.fields[k];
    if k < p.fields.len() - 1 {
        lemma_path_chain_ok(sc, root, p, k + 1);
        let _ = p.fields[k + 1];
        assert(chain[k] == p.fields[k].1);
    } else {
        assert(p.fields[k] == p.fields.last());
    }
}

fn runtime_value_exec(schema: &Schema, kind: FieldKind, v: &[u8], r: &OutsideReads) -> (res: Result<Elem, FieldError>)
    requires
        crate::request::convert::kind_in(*schema, kind),
        kind matches FieldKind::Message(t) ==> has_converter(schema.messages@[t as int].full_name@),
        schema.messages@.len() > 0,
    ensures
        match spec_runtime_value(*schema, kind, v@, reads_v(*r)) {
            Ok(x) => res matches Ok(y) && elem_v(y) == x,
            Err((m, o)) => res matches Err(e) && e.message@ == m && e.origin == o,
        },
{
    let c = match runtime_convert(schema, kind, v) {
        Ok(c) => c,
        Err(m) => {
            return Err(FieldError::gateway(m));
        },
    };
    let t = match kind {
        FieldKind::Message(t) => t,
        _ => 0,
    };
    finish_exec(schema, t, c, r)
}

fn runtime_list_exec(schema: &Schema, kind: FieldKind, parts: &Vec<Vec<u8>>, reads: &Vec<OutsideReads>) -> (res: Result<
    Vec<Elem>,
    FieldError,
>)
    requires
        crate::request::convert::kind_in(*schema, kind),
        kind matches FieldKind::Message(t) ==> has_converter(schema.messages@[t as int].full_name@),
        schema.messages@.len() > 0,
        reads@.len() == parts@.len(),
    ensures
        match spec_runtime_list(*schema, kind, strings_v(parts@), all_reads_v(reads@), 0) {
            Ok(xs) => res matches Ok(ys) && elems_v(ys@) == xs,
            Err((m, o)) => res matches Err(e) && e.message@ == m && e.origin == o,
        },
{
    let ghost pv = strings_v(parts@);
    let ghost rv = all_reads_v(reads@);
    let mut items: Vec<Elem> = Vec::new();
    let mut i: usize = 0;
    assert(elems_v(items@) =~= Seq::<ElemV>::empty());
    while i < parts.len()
        invariant
            i <= parts@.len(),
            reads@.len() == parts@.len(),
            pv == strings_v(parts@),
            rv == all_reads_v(reads@),
            crate::request::convert::kind_in(*schema, kind),
            kind matches FieldKind::Message(t) ==> has_converter(schema.messages@[t as int].full_name@),
            schema.messages@.len() > 0,
            spec_runtime_list(*schema, kind, pv, rv, 0) == match spec_runtime_list(*schema, kind, pv, rv, i as int) {
                Ok(rest) => Ok(elems_v(items@) + rest),
                Err(e) => Err(e),
            },
        decreases parts@.len() - i,
    {
        assert(pv[i as int] == parts@[i as int]@);
        assert(rv[i as int] == reads_v(reads@[i as int]));
        let x = match runtime_value_exec(schema, kind, parts[i].as_slice(), &reads[i]) {
            Ok(x) => x,
            Err(e) => {
                return Err(e);
            },
        };
        let ghost xv = elem_v(x);
        let ghost before = elems_v(items@);
        items.push(x);
        proof {
            assert(elems_v(items@) =~= before.push(xv));
            match spec_runtime_list(*schema, kind, pv, rv, i + 1) {
                Ok(rest) => assert(before + (seq![xv] + rest) =~= elems_v(items@) + rest),
                Err(_) => {},
            }
        }
        i = i + 1;
    }
    assert(elems_v(items@) + Seq::<ElemV>::empty() =~= elems_v(items@));
    Ok(items)
}

fn enum_list_exec(schema: &Schema, e: usize, parts: &Vec<Vec<u8>>) -> (res: Result<Vec<Elem>, Vec<u8>>)
    requires
        e < schema.enums@.len(),
    ensures
        match spec_enum_list(*schema, e as int, strings_v(parts@), 0) {
            Ok(xs) => res matches Ok(ys) && elems_v(ys@) == xs,
            Err(m) => res matches Err(x) && x@ == m,
        },
{
    let ghost pv = strings_v(parts@);
    let mut items: Vec<Elem> = Vec::new();
    let mut i: usize = 0;
    assert(elems_v(items@) =~= Seq::<ElemV>::empty());
    while i < parts.len()
        invariant
            i <= parts@.len(),
            e < schema.enums@.len(),
            pv == strings_v(parts@),
            spec_enum_list(*schema, e as int, pv, 0) == match spec_enum_list(*schema, e as int, pv, i as int) {
                Ok(rest) => Ok(elems_v(items@) + rest),
                Err(x) => Err(x),
            },
        decreases parts@.len() - i,
    {
        assert(pv[i as int] == parts@[i as int]@);
        let n = match runtime_enum(&schema.enums[e], parts[i].as_slice()) {
            Ok(n) => n,
            Err(x) => {
                return Err(x);
            },
        };
        let ghost xv = ElemV::Scalar(ScalarV::Enum(n as int));
        let ghost before = elems_v(items@);
        items.push(Elem::Scalar(Scalar::Enum(n)));
        proof {
            assert(elems_v(items@) =~= before.push(xv));
            match spec_enum_list(*schema, e as int, pv, i + 1) {
                Ok(rest) => assert(before + (seq![xv] + rest) =~= elems_v(items@) + rest),
                Err(_) => {},
            }
        }
        i = i + 1;
    }
    assert(elems_v(items@) + Seq::<ElemV>::empty() =~= elems_v(items@));
    Ok(items)
}

fn other_in_oneof_at(schema: &Schema, m: usize, fields: &Vec<(usize, FieldValue)>, o: usize, f: usize) -> (r: usize)
    requires
        m < schema.messages@.len(),
    ensures
        r == other_in_oneof(*schema, m as int, entries_v(fields@), o, f as int, 0),
        r <= schema.messages@[m as int].fields@.len(),
{
    let shapes = &schema.messages[m].fields;
    let ghost fsv = entries_v(fields@);
    let mut g: usize = 0;
    while g < shapes.len() && !other_set(shapes, fields, o, f, g)
        invariant
            g <= shapes@.len(),
            m < schema.messages@.len(),
            shapes == schema.messages@[m as int].fields,
            fsv == entries_v(fields@),
            other_in_oneof(*schema, m as int, fsv, o, f as int, 0) == other_in_oneof(
                *schema,
                m as int,
                fsv,
                o,
                f as int,
                g as int,
            ),
        decreases shapes@.len() - g,
    {
        g = g + 1;
    }
    g
}

fn other_set(shapes: &Vec<crate::request::binding::FieldShape>, fields: &Vec<(usize, FieldValue)>, o: usize, f: usize, g: usize) -> (r: bool)
    requires
        g < shapes@.len(),
    ensures
        r == (shapes@[g as int].oneof == Some(o) && g != f && present(entries_v(fields@), g as int)),
{
    let same = match shapes[g].oneof {
        Some(x) => x == o,
        None => false,
    };
    same && g != f && entry_index_at(fields, g) < fields.len()
}

fn mismatch_error(name: &[u8], e: &[u8]) -> (r: Vec<u8>)
    ensures
        r@ == mismatch_text(name@, e@),
{
    let mut m = copy_bytes("type mismatch, parameter: ".as_bytes());
    push_all(&mut m, name);
    push_all(&mut m, ", error: ".as_bytes());
    push_all(&mut m, e);
    m
}

impl RequestBinding {
    /// The texts of path variable `p` with value `val` that
    /// [`RequestBinding::populate_path`] needs read outside, in order: the
    /// parts of a repeated top-level variable, else the value.
    pub fn path_texts(&self, p: &PathField, val: &[u8]) -> (r: Vec<Vec<u8>>)
        ensures
            strings_v(r@) == spec_path_texts(self.plan().separator, path_field_view(*p), val@),
    {
        let repeated = match p.conv {
            PathConv::Top { repeated } => repeated,
            _ => false,
        };
        if repeated {
            let parts = split_bytes(val, self.separator());
            assert(strings_v(parts@) =~= view_tokens(parts@));
            parts
        } else {
            let mut v: Vec<Vec<u8>> = Vec::new();
            v.push(copy_bytes(val));
            assert(strings_v(v@) =~= seq![val@]);
            v
        }
    }

    /// Sets path variable `p` to `val` in the request message, as the
    /// generated handler does; `reads` are the outside reads of
    /// [`RequestBinding::path_texts`].
    pub fn populate_path(
        &self,
        schema: &Schema,
        mv: &mut MessageValue,
        p: &PathField,
        val: &[u8],
        reads: &Vec<OutsideReads>,
    ) -> (r: Result<(), RequestError>)
        requires
            schema.wf(),
            old(mv).msg < schema.messages@.len(),
            path_field_ok(*schema, old(mv).msg as int, path_field_view(*p)),
            reads@.len() == spec_path_texts(self.plan().separator, path_field_view(*p), val@).len(),
        ensures
            final(mv).msg == old(mv).msg,
            match spec_populate_path(
                *schema,
                self.plan().separator,
                old(mv).msg as int,
                entries_v(old(mv).fields@),
                path_field_view(*p),
                val@,
                all_reads_v(reads@),
            ) {
                Ok(fs) => r is Ok && entries_v(final(mv).fields@) == fs,
                Err((m, o)) => r matches Err(e) && e.code_v() == CODE_INVALID_ARGUMENT && e.message_v() == m
                    && e.origin_v() == o,
            },
    {
        let ghost pv = path_field_view(*p);
        let ghost fs0 = entries_v(mv.fields@);
        let _ = p.fields.len();
        assert(pv.fields[0] == (p.fields@[0].0 as int, p.fields@[0].1 as int));
        match p.conv {
            PathConv::Top { repeated } => {
                let f = p.fields[0].1;
                let m = mv.msg;
                let desc = &schema.messages[m];
                let fd = &desc.fields[f];
                assert(schema.messages@[m as int].fields@[f as int] == *fd);
                let conv: Result<FieldValue, FieldError> = if repeated {
                    let parts = split_bytes(val, self.separator());
                    assert(strings_v(parts@) =~= view_tokens(parts@));
                    match runtime_list_exec(schema, fd.kind, &parts, reads) {
                        Ok(items) => Ok(FieldValue::List(items)),
                        Err(e) => Err(e),
                    }
                } else {
                    assert(all_reads_v(reads@)[0] == reads_v(reads@[0]));
                    match runtime_value_exec(schema, fd.kind, val, &reads[0]) {
                        Ok(x) => Ok(FieldValue::Single(x)),
                        Err(e) => Err(e),
                    }
                };
                let v = match conv {
                    Ok(v) => v,
                    Err(e) => {
                        return Err(RequestError::invalid(mismatch_error(p.name.as_slice(), e.message.as_slice())));
                    },
                };
                if let Some(o) = fd.oneof {
                    let g = other_in_oneof_at(schema, m, &mv.fields, o, f);
                    if g < desc.fields.len() {
                        let mut e = copy_bytes("expect type: *".as_bytes());
                        push_all(&mut e, desc.name.as_slice());
                        e.push(95);
                        push_all(&mut e, fd.name.as_slice());
                        push_all(&mut e, ", but: ".as_bytes());
                        push_all(&mut e, desc.fields[g].name.as_slice());
                        e.push(10);
                        return Err(RequestError::invalid(e));
                    }
                }
                set_entry(&mut mv.fields, f, v);
                Ok(())
            },
            PathConv::Nested { reparse_enum } => {
                let path = split_bytes(p.name.as_slice(), 46);
                assert(strings_v(path@) =~= view_tokens(path@));
                let mut vals: Vec<Vec<u8>> = Vec::new();
                vals.push(copy_bytes(val));
                assert(strings_v(vals@) =~= seq![val@]);
                match populate_field_value_from_path(schema, mv, &path, &vals, reads) {
                    Err(e) => {
                        return Err(
                            RequestError::invalid(mismatch_error(p.name.as_slice(), e.message.as_slice())).with_origin(
                                e.origin,
                            ),
                        );
                    },
                    Ok(()) => {},
                }
                if !reparse_enum {
                    return Ok(());
                }
                let n = p.fields.len();
                let (mt, ft) = p.fields[n - 1];
                assert(pv.fields.last() == (mt as int, ft as int));
                let target = &schema.messages[mt].fields[ft];
                assert(schema.messages@[mt as int].fields@[ft as int] == *target);
                let e = match target.kind {
                    FieldKind::Enum(e) => e,
                    _ => 0,
                };
                let reparsed: Result<FieldValue, Vec<u8>> = if target.is_list {
                    let parts = split_bytes(val, self.separator());
                    assert(strings_v(parts@) =~= view_tokens(parts@));
                    match enum_list_exec(schema, e, &parts) {
                        Ok(items) => Ok(FieldValue::List(items)),
                        Err(x) => Err(x),
                    }
                } else {
                    match runtime_enum(&schema.enums[e], val) {
                        Ok(k) => Ok(FieldValue::Single(Elem::Scalar(Scalar::Enum(k)))),
                        Err(x) => Err(x),
                    }
                };
                let v = match reparsed {
                    Ok(v) => v,
                    Err(x) => {
                        let mut m = copy_bytes("could not parse path as enum value, parameter: ".as_bytes());
                        push_all(&mut m, p.name.as_slice());
                        push_all(&mut m, ", error: ".as_bytes());
                        push_all(&mut m, x.as_slice());
                        return Err(RequestError::invalid(m));
                    },
                };
                let mut chain: Vec<usize> = Vec::new();
                let mut k: usize = 0;
                while k < n - 1
                    invariant
                        n == p.fields@.len(),
                        n >= 1,
                        k <= n - 1,
                        pv == path_field_view(*p),
                        chain@.map_values(|f: usize| f as int) == path_chain(pv).subrange(0, k as int),
                    decreases n - 1 - k,
                {
                    assert(pv.fields[k as int] == (p.fields@[k as int].0 as int, p.fields@[k as int].1 as int));
                    assert(path_chain(pv)[k as int] == pv.fields[k as int].1);
                    let ghost before = chain@.map_values(|f: usize| f as int);
                    chain.push(p.fields[k].1);
                    assert(chain@.map_values(|f: usize| f as int) =~= before.push(p.fields@[k as int].1 as int));
                    assert(path_chain(pv).subrange(0, k + 1) =~= path_chain(pv).subrange(0, k as int).push(
                        path_chain(pv)[k as int],
                    ));
                    k = k + 1;
                }
                assert(path_chain(pv).subrange(0, k as int) =~= path_chain(pv));
                proof {
                    lemma_path_chain_ok(*schema, mv.msg as int, pv, 0);
                }
                let t = Target { chain, end: Some((mt, ft)) };
                store(schema, mv, &t, Write::Replace(v));
                Ok(())
            },
        }
    }
}

/// Whether path variable `p` fits message `root` of the schema
/// ([`path_field_ok`]).
pub fn path_field_fits(schema: &Schema, root: usize, p: &PathField) -> (r: bool)
    requires
        schema.wf(),
    ensures
        r == path_field_ok(*schema, root as int, path_field_view(*p)),
{
    let ghost pv = path_field_view(*p);
    let n = p.fields.len();
    if n == 0 || p.fields[0].0 != root {
        return false;
    }
    let mut k: usize = 0;
    while k < n
        invariant
            n == p.fields@.len(),
            k <= n,
            pv == path_field_view(*p),
            forall|j: int|
                0 <= j < k ==> 0 <= (#[trigger] pv.fields[j]).0 < schema.messages@.len() && 0 <= pv.fields[j].1
                    < schema.messages@[pv.fields[j].0].fields@.len(),
            forall|j: int|
                0 <= j < k && j < n - 1 ==> (schema.messages@[(#[trigger] pv.fields[j]).0].fields@[pv.fields[j].1].kind is Message
                    && message_of(*schema, pv.fields[j].0, pv.fields[j].1) == pv.fields[j + 1].0),
        decreases n - k,
    {
        let (m, f) = p.fields[k];
        assert(pv.fields[k as int] == (m as int, f as int));
        if m >= schema.messages.len() || f >= schema.messages[m].fields.len() {
            return false;
        }
        if k + 1 < n {
            let next = p.fields[k + 1].0;
            assert(pv.fields[k + 1].0 == next as int);
            match schema.messages[m].fields[f].kind {
                FieldKind::Message(t) => {
                    if t != next {
                        return false;
                    }
                },
                _ => {
                    return false;
                },
            }
        }
        k = k + 1;
    }
    let (m0, f0) = p.fields[0];
    assert(pv.fields[0] == (m0 as int, f0 as int));
    assert(schema.messages@[m0 as int].fields@[f0 as int] == schema.messages@[m0 as int].fields@[f0 as int]);
    match p.conv {
        PathConv::Top { .. } => match schema.messages[m0].fields[f0].kind {
            FieldKind::Message(t) => {
                if !has_runtime_converter(schema.messages[t].full_name.as_slice()) {
                    return false;
                }
            },
            _ => {},
        },
        PathConv::Nested { reparse_enum } => {
            if reparse_enum {
                let (mt, ft) = p.fields[n - 1];
                assert(pv.fields.last() == (mt as int, ft as int));
                match schema.messages[mt].fields[ft].kind {
                    FieldKind::Enum(_) => {},
                    _ => {
                        return false;
                    },
                }
            }
        },
    }
    true
}

/// `DefaultQueryParser.Parse` from the `q`-th form entry on: each key the
/// filter keeps is written into the fields `fs`, in the form's order, with
/// the reads of its values. The fields at the end, and the first error, if
/// any (the entries before it stay written).
pub open spec fn spec_populate_query(
    sc: Schema,
    input: int,
    filter: Seq<Seq<Seq<u8>>>,
    fs: Seq<(int, FieldV)>,
    form: FormV,
    reads: Seq<Seq<ReadsV>>,
    q: int,
) -> (Seq<(int, FieldV)>, Option<FieldErr>)
    decreases form.len() - q,
{
    if q < 0 || q >= form.len() {
        (fs, None)
    } else {
        match spec_query_target(sc, input, filter, form[q].0, form[q].1) {
            None => spec_populate_query(sc, input, filter, fs, form, reads, q + 1),
            Some((path, vals)) => match spec_populate(sc, input, fs, path, vals, reads[q]) {
                Err(e) => (fs, Some(e)),
                Ok(fs2) => spec_populate_query(sc, input, filter, fs2, form, reads, q + 1),
            },
        }
    }
}

/// The reads fit the values each query key gives.
pub open spec fn query_reads_fit(sc: Schema, input: int, filter: Seq<Seq<Seq<u8>>>, form: FormV, reads: Seq<Seq<OutsideReads>>) -> bool {
    &&& reads.len() == form.len()
    &&& forall|q: int| 0 <= q < form.len() ==> match #[trigger] spec_query_target(sc, input, filter, form[q].0, form[q].1) {
        Some((_, vals)) => reads[q].len() == vals.len(),
        None => true,
    }
}

impl RequestBinding {
    /// The query into the request message `mv`: nothing when the handler
    /// does not read the query, else each key the filter keeps, in the
    /// form's order. `reads[q]` holds what is read outside the library from
    /// the values of the `q`-th form entry (see [`RequestBinding::query_field`]).
    /// On error the entries before it stay written.
    pub fn populate_query(
        &self,
        schema: &Schema,
        mv: &mut MessageValue,
        form: &Form,
        reads: &Vec<Vec<OutsideReads>>,
    ) -> (r: Result<(), RequestError>)
        requires
            schema.wf(),
            self.plan().input < schema.messages@.len(),
            old(mv).msg == self.plan().input,
            self.plan().query_filter matches Some(f) ==> query_reads_fit(
                *schema,
                self.plan().input,
                f,
                form.view_v(),
                reads@.map_values(|v: Vec<OutsideReads>| v@),
            ),
        ensures
            final(mv).msg == old(mv).msg,
            match self.plan().query_filter {
                None => r is Ok && *final(mv) == *old(mv),
                Some(f) => {
                    let reads_v = reads@.map_values(|v: Vec<OutsideReads>| all_reads_v(v@));
                    let (fs, err) = spec_populate_query(
                        *schema,
                        self.plan().input,
                        f,
                        entries_v(old(mv).fields@),
                        form.view_v(),
                        reads_v,
                        0,
                    );
                    entries_v(final(mv).fields@) == fs && match err {
                        None => r is Ok,
                        Some((m, o)) => r matches Err(e) && e.code_v() == CODE_INVALID_ARGUMENT
                            && e.message_v() == m && e.origin_v() == o,
                    }
                },
            },
    {
        let entries = form.entries();
        let ghost fv = form.view_v();
        let ghost reads_v = reads@.map_values(|v: Vec<OutsideReads>| all_reads_v(v@));
        let ghost input = self.plan().input;
        if !self.reads_query() {
            return Ok(());
        }
        let ghost f = self.plan().query_filter.unwrap();
        let mut q: usize = 0;
        while q < entries.len()
            invariant
                schema.wf(),
                self.plan().input < schema.messages@.len(),
                input == self.plan().input,
                mv.msg == old(mv).msg,
                mv.msg == input,
                self.plan().query_filter == Some(f),
                form_view(entries@) == fv,
                fv == form.view_v(),
                q <= entries@.len(),
                reads_v == reads@.map_values(|v: Vec<OutsideReads>| all_reads_v(v@)),
                query_reads_fit(*schema, input, f, fv, reads@.map_values(|v: Vec<OutsideReads>| v@)),
                spec_populate_query(*schema, input, f, entries_v(old(mv).fields@), fv, reads_v, 0)
                    == spec_populate_query(*schema, input, f, entries_v(mv.fields@), fv, reads_v, q as int),
            decreases entries@.len() - q,
        {
            let ghost here = entries_v(mv.fields@);
            assert(fv[q as int] == (entries@[q as int].0@, view_tokens(entries@[q as int].1@)));
            match self.query_field(schema, entries[q].0.as_slice(), entries[q].1.as_slice()) {
                None => {},
                Some((path, vals)) => {
                    assert(reads@.map_values(|v: Vec<OutsideReads>| v@)[q as int] == reads@[q as int]@);
                    assert(reads_v[q as int] == all_reads_v(reads@[q as int]@));
                    assert(strings_v(path@) =~= view_tokens(path@));
                    assert(strings_v(vals@) =~= view_tokens(vals@));
                    match populate_field_value_from_path(schema, mv, &path, &vals, &reads[q]) {
                        Ok(()) => {},
                        Err(e) => {
                            return Err(e.into_request_error());
                        },
                    }
                },
            }
            q = q + 1;
        }
        Ok(())
    }
}

/// One path variable written into the fields `fs` ([`spec_populate_path`]).
#[verifier::opaque]
pub open spec fn path_var(
    sc: Schema,
    sep: u8,
    m: int,
    fs: Seq<(int, FieldV)>,
    p: PathFieldV,
    val: Seq<u8>,
    rs: Seq<ReadsV>,
) -> Result<Seq<(int, FieldV)>, FieldErr> {
    spec_populate_path(sc, sep, m, fs, p, val, rs)
}

/// The path variables from the `i`-th on written into the fields `fs`, in
/// the binding's order; a variable the match did not bind is refused.
pub open spec fn spec_path_step(
    sc: Schema,
    sep: u8,
    m: int,
    fs: Seq<(int, FieldV)>,
    pfs: Seq<PathFieldV>,
    params: Map<Seq<u8>, Seq<u8>>,
    reads: Seq<Seq<ReadsV>>,
    i: int,
) -> Result<Seq<(int, FieldV)>, FieldErr>
    decreases pfs.len() - i,
{
    if i < 0 || i >= pfs.len() {
        Ok(fs)
    } else if !params.contains_key(pfs[i].name) {
        Err(("missing parameter ".spec_bytes() + pfs[i].name, ErrorOrigin::Gateway))
    } else {
        match path_var(sc, sep, m, fs, pfs[i], params[pfs[i].name], reads[i]) {
            Err(e) => Err(e),
            Ok(fs2) => spec_path_step(sc, sep, m, fs2, pfs, params, reads, i + 1),
        }
    }
}

/// All the path variables ([`spec_path_step`]).
#[verifier::opaque]
pub open spec fn path_vars(
    sc: Schema,
    sep: u8,
    m: int,
    fs: Seq<(int, FieldV)>,
    pfs: Seq<PathFieldV>,
    params: Map<Seq<u8>, Seq<u8>>,
    reads: Seq<Seq<ReadsV>>,
) -> Result<Seq<(int, FieldV)>, FieldErr> {
    spec_path_step(sc, sep, m, fs, pfs, params, reads, 0)
}

/// The whole query ([`spec_populate_query`]).
#[verifier::opaque]
pub open spec fn query_step(
    sc: Schema,
    input: int,
    filter: Seq<Seq<Seq<u8>>>,
    fs: Seq<(int, FieldV)>,
    form: FormV,
    reads: Seq<Seq<ReadsV>>,
) -> (Seq<(int, FieldV)>, Option<FieldErr>) {
    spec_populate_query(sc, input, filter, fs, form, reads, 0)
}

/// The form the query step reads: the one `ServeMux` parsed, or the query
/// alone (the body was read by the body step or discarded).
#[verifier::opaque]
pub open spec fn query_form(
    form: Option<FormV>,
    method: Seq<u8>,
    content_type: Option<Seq<u8>>,
    raw_query: Seq<u8>,
) -> (FormV, Option<Seq<u8>>) {
    match form {
        Some(f) => (f, None),
        None => spec_parse_form(method, content_type, raw_query, Seq::empty()),
    }
}

/// What the request message becomes after its body: the path variables,
/// then the query. The fields at the end (meaningful on success and for a
/// refused query), and the refusal, if any.
pub open spec fn spec_after_body(
    sc: Schema,
    plan: crate::request::binding::PlanV,
    fs: Seq<(int, FieldV)>,
    params: Map<Seq<u8>, Seq<u8>>,
    form: FormV,
    form_error: Option<Seq<u8>>,
    path_reads: Seq<Seq<ReadsV>>,
    query_reads: Seq<Seq<ReadsV>>,
) -> Result<Seq<(int, FieldV)>, FieldErr> {
    match path_vars(sc, plan.separator, plan.input, fs, plan.path_fields, params, path_reads) {
        Err(e) => Err(e),
        Ok(fs1) => match plan.query_filter {
            None => Ok(fs1),
            Some(f) => match form_error {
                Some(e) => Err((e, ErrorOrigin::Gateway)),
                None => {
                    let (fs2, err) = query_step(sc, plan.input, f, fs1, form, query_reads);
                    match err {
                        Some(e) => Err(e),
                        None => Ok(fs2),
                    }
                },
            },
        },
    }
}

/// The reads fit the values of each path variable the match bound.
pub open spec fn path_reads_fit(
    sep: u8,
    pfs: Seq<PathFieldV>,
    params: Map<Seq<u8>, Seq<u8>>,
    reads: Seq<Seq<OutsideReads>>,
) -> bool {
    &&& reads.len() == pfs.len()
    &&& forall|i: int|
        0 <= i < pfs.len() && params.contains_key(#[trigger] pfs[i].name) ==> reads[i].len() == spec_path_texts(
            sep,
            pfs[i],
            params[pfs[i].name],
        ).len()
}

impl RequestBinding {
    /// Each path variable, in the binding's order, into `mv`; a variable
    /// the match did not bind is refused.
    #[verifier::rlimit(50)]
    pub fn populate_path_vars(
        &self,
        schema: &Schema,
        mv: &mut MessageValue,
        params: &PathParams,
        path_reads: &Vec<Vec<OutsideReads>>,
    ) -> (r: Result<(), RequestError>)
        requires
            schema.wf(),
            self.plan().input < schema.messages@.len(),
            old(mv).msg == self.plan().input,
            forall|i: int| 0 <= i < self.plan().path_fields.len() ==> path_field_ok(
                *schema,
                self.plan().input,
                #[trigger] self.plan().path_fields[i],
            ),
            path_reads_fit(self.plan().separator, self.plan().path_fields, params@, path_reads@.map_values(|v: Vec<OutsideReads>| v@)),
        ensures
            final(mv).msg == old(mv).msg,
            match spec_path_step(
                *schema,
                self.plan().separator,
                self.plan().input,
                entries_v(old(mv).fields@),
                self.plan().path_fields,
                params@,
                path_reads@.map_values(|v: Vec<OutsideReads>| all_reads_v(v@)),
                0,
            ) {
                Ok(fs) => r is Ok && entries_v(final(mv).fields@) == fs,
                Err((m, o)) => r matches Err(e) && e.code_v() == CODE_INVALID_ARGUMENT && e.message_v() == m
                    && e.origin_v() == o,
            },
    {
        let ghost plan = self.plan();
        let ghost preads = path_reads@.map_values(|v: Vec<OutsideReads>| all_reads_v(v@));
        let pfs = self.path_fields();
        let mut i: usize = 0;
        while i < pfs.len()
            invariant
                schema.wf(),
                plan == self.plan(),
                plan.input < schema.messages@.len(),
                mv.msg == plan.input,
                old(mv).msg == plan.input,
                path_fields_view(pfs@) == plan.path_fields,
                i <= pfs@.len(),
                forall|k: int| 0 <= k < plan.path_fields.len() ==> path_field_ok(*schema, plan.input, #[trigger] plan.path_fields[k]),
                path_reads_fit(plan.separator, plan.path_fields, params@, path_reads@.map_values(|v: Vec<OutsideReads>| v@)),
                preads == path_reads@.map_values(|v: Vec<OutsideReads>| all_reads_v(v@)),
                spec_path_step(*schema, plan.separator, plan.input, entries_v(old(mv).fields@), plan.path_fields, params@, preads, 0)
                    == spec_path_step(*schema, plan.separator, plan.input, entries_v(mv.fields@), plan.path_fields, params@, preads, i as int),
            decreases pfs@.len() - i,
        {
            let p = &pfs[i];
            assert(path_field_view(*p) == plan.path_fields[i as int]);
            let val = match params.get(p.name.as_slice()) {
                Some(v) => v,
                None => {
                    let mut m = copy_bytes("missing parameter ".as_bytes());
                    push_all(&mut m, p.name.as_slice());
                    return Err(RequestError::invalid(m));
                },
            };
            assert(path_reads@.map_values(|v: Vec<OutsideReads>| v@)[i as int] == path_reads@[i as int]@);
            assert(preads[i as int] == all_reads_v(path_reads@[i as int]@));
            let ghost before = entries_v(mv.fields@);
            proof {
                assert(path_var(*schema, plan.separator, plan.input, before, plan.path_fields[i as int], val@, preads[i as int])
                    == spec_populate_path(*schema, plan.separator, plan.input, before, plan.path_fields[i as int], val@, preads[i as int])) by {
                    reveal(path_var);
                }
            }
            let res = self.populate_path(schema, mv, p, val, &path_reads[i]);
            match res {
                Ok(()) => {},
                Err(e) => {
                    return Err(e);
                },
            }
            i = i + 1;
        }
        Ok(())
    }

    /// The part of building the request message that follows its body, as
    /// the generated handler runs it: each path variable (a variable the
    /// match did not bind is refused), then, when the handler reads the
    /// query, the form `ServeMux` parsed or else the query alone. `mv` is
    /// the message the body gave. `path_reads[i]` and `query_reads[q]` hold
    /// what is read outside the library from the values of the `i`-th path
    /// variable and the `q`-th form entry. Last, a string in the message
    /// that is not UTF-8 is refused with `Internal`, as the gRPC client
    /// refuses to marshal it.
    #[verifier::rlimit(60)]
    pub fn decode_after_body(
        &self,
        schema: &Schema,
        mv: &mut MessageValue,
        params: &PathParams,
        form: Option<&Form>,
        method: &[u8],
        content_type: Option<&[u8]>,
        raw_query: &[u8],
        path_reads: &Vec<Vec<OutsideReads>>,
        query_reads: &Vec<Vec<OutsideReads>>,
    ) -> (r: Result<(), RequestError>)
        requires
            schema.wf(),
            self.plan().input < schema.messages@.len(),
            old(mv).msg == self.plan().input,
            forall|i: int| 0 <= i < self.plan().path_fields.len() ==> path_field_ok(
                *schema,
                self.plan().input,
                #[trigger] self.plan().path_fields[i],
            ),
            path_reads_fit(self.plan().separator, self.plan().path_fields, params@, path_reads@.map_values(|v: Vec<OutsideReads>| v@)),
            self.plan().query_filter matches Some(f) ==> query_reads_fit(
                *schema,
                self.plan().input,
                f,
                query_form(
                    match form {
                        Some(x) => Some(x.view_v()),
                        None => None,
                    },
                    method@,
                    match content_type {
                        Some(c) => Some(c@),
                        None => None,
                    },
                    raw_query@,
                ).0,
                query_reads@.map_values(|v: Vec<OutsideReads>| v@),
            ),
        ensures
            final(mv).msg == old(mv).msg,
            ({
                let (fv, ferr) = query_form(
                    match form {
                        Some(x) => Some(x.view_v()),
                        None => None,
                    },
                    method@,
                    match content_type {
                        Some(c) => Some(c@),
                        None => None,
                    },
                    raw_query@,
                );
                match spec_after_body(
                    *schema,
                    self.plan(),
                    entries_v(old(mv).fields@),
                    params@,
                    fv,
                    ferr,
                    path_reads@.map_values(|v: Vec<OutsideReads>| all_reads_v(v@)),
                    query_reads@.map_values(|v: Vec<OutsideReads>| all_reads_v(v@)),
                ) {
                    Ok(fs) => entries_v(final(mv).fields@) == fs && if fields_utf8(fs, 0) {
                        r is Ok
                    } else {
                        r matches Err(e) && e.code_v() == CODE_INTERNAL && e.message_v()
                            == "grpc: error while marshaling: string field contains invalid UTF-8".spec_bytes()
                    },
                    Err((m, o)) => r matches Err(e) && e.code_v() == CODE_INVALID_ARGUMENT && e.message_v() == m
                        && e.origin_v() == o,
                }
            }),
    {
        let ghost fs0 = entries_v(mv.fields@);
        let ghost plan = self.plan();
        let ghost preads = path_reads@.map_values(|v: Vec<OutsideReads>| all_reads_v(v@));
        let ghost qreads = query_reads@.map_values(|v: Vec<OutsideReads>| all_reads_v(v@));
        proof {
            assert(path_vars(*schema, plan.separator, plan.input, fs0, plan.path_fields, params@, preads)
                == spec_path_step(*schema, plan.separator, plan.input, fs0, plan.path_fields, params@, preads, 0)) by {
                reveal(path_vars);
            }
        }
        match self.populate_path_vars(schema, mv, params, path_reads) {
            Ok(()) => {},
            Err(e) => {
                return Err(e);
            },
        }
        let ghost fs1 = entries_v(mv.fields@);
        proof {
            if let Some(f) = plan.query_filter {
                let fv = query_form(
                    match form {
                        Some(x) => Some(x.view_v()),
                        None => None,
                    },
                    method@,
                    match content_type {
                        Some(c) => Some(c@),
                        None => None,
                    },
                    raw_query@,
                ).0;
                assert(query_step(*schema, plan.input, f, fs1, fv, qreads)
                    == spec_populate_query(*schema, plan.input, f, fs1, fv, qreads, 0)) by {
                    reveal(query_step);
                }
            }
        }
        if !self.reads_query() {
            return self.utf8_check(mv);
        }
        let parsed;
        let f: &Form = match form {
            Some(x) => {
                proof {
                    reveal(query_form);
                }
                x
            },
            None => {
                let (pf, err) = parse_form_method(method, content_type, raw_query, &[]);
                proof {
                    reveal(query_form);
                    let e: &[u8] = &[];
                    assert(e@ =~= Seq::<u8>::empty());
                }
                match err {
                    Some(e) => {
                        return Err(RequestError::invalid(e));
                    },
                    None => {},
                }
                parsed = pf;
                &parsed
            },
        };
        match self.populate_query(schema, mv, f, query_reads) {
            Ok(()) => {},
            Err(e) => {
                return Err(e);
            },
        }
        self.utf8_check(mv)
    }

    /// `Internal` when a string written holds bytes that are not UTF-8:
    /// the gRPC client cannot marshal it.
    fn utf8_check(&self, mv: &MessageValue) -> (r: Result<(), RequestError>)
        ensures
            if fields_utf8(entries_v(mv.fields@), 0) {
                r is Ok
            } else {
                r matches Err(e) && e.code_v() == CODE_INTERNAL && e.message_v()
                    == "grpc: error while marshaling: string field contains invalid UTF-8".spec_bytes()
            },
    {
        if fields_are_utf8(&mv.fields) {
            Ok(())
        } else {
            Err(RequestError::invalid_utf8())
        }
    }
}

} // verus!
