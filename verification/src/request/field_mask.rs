//! `runtime.FieldMaskFromRequestBody`: the paths a `PATCH` body sets, when
//! the request message has exactly one `FieldMask` and the client sent none.
//! The walk is breadth first, so of two faults in the body the shallower one
//! is reported; the paths come out sorted the way Go's `sort.Strings` sorts.
use vstd::prelude::*;
use vstd::string::StringSliceAdditionalSpecFns;
use crate::bytes::{bytes_eq, copy_bytes, push_all, sort_byte_strings, strings_v, byte_order};
use crate::request::binding::{lookup_field, lookup_field_at, FieldKind, Schema};
use crate::request::json::{first_node, members_v, node_v, parse_value, scan_message, scan_value, Json, JsonV, Node, NodeV};
use crate::request::json::skip_ws;
use crate::request::strconv::{quote, spec_quote};

verus! {

/// The messages whose JSON form is any JSON value.
pub open spec fn is_dynamic(full_name: Seq<u8>) -> bool {
    full_name == "google.protobuf.Struct".spec_bytes() || full_name == "google.protobuf.Value".spec_bytes()
}

/// `p.k`.
pub open spec fn dotted(p: Seq<u8>, k: Seq<u8>) -> Seq<u8> {
    p + seq![46u8] + k
}

/// `k` under the path `p`; at the top (an empty `p`) just `k`.
pub open spec fn join_path(p: Seq<u8>, k: Seq<u8>) -> Seq<u8> {
    if p.len() == 0 {
        k
    } else {
        dotted(p, k)
    }
}

/// How many values and keys a JSON value holds, counting into objects only.
pub open spec fn node_size(n: NodeV) -> nat
    decreases n,
{
    match n.json {
        JsonV::Object(ms) => 1 + members_size(ms),
        _ => 1,
    }
}

pub open spec fn members_size(ms: Seq<(Seq<u8>, NodeV)>) -> nat
    decreases ms,
{
    if ms.len() == 0 {
        0
    } else {
        1 + node_size(ms[0].1) + members_size(ms.subrange(1, ms.len() as int))
    }
}

/// The leaves of an object's members under the path `p`: each member that
/// is not an object, by its dotted path; an empty object has none.
pub open spec fn blind_members(p: Seq<u8>, ms: Seq<(Seq<u8>, NodeV)>) -> Seq<Seq<u8>>
    decreases ms,
{
    if ms.len() == 0 {
        Seq::empty()
    } else {
        let c = dotted(p, ms[0].0);
        let head = match ms[0].1.json {
            JsonV::Object(inner) => blind_members(c, inner),
            _ => seq![c],
        };
        head + blind_members(p, ms.subrange(1, ms.len() as int))
    }
}

/// `buildPathsBlindly`: every leaf of a JSON value by its key path, without
/// a descriptor; a value that is not an object is its own leaf.
pub open spec fn blind_paths(name: Seq<u8>, n: NodeV) -> Seq<Seq<u8>> {
    match n.json {
        JsonV::Object(ms) => blind_members(name, ms),
        _ => seq![name],
    }
}

/// A pending part of the body: its path, its value where the walk still
/// reads it, and the message it is read as.
pub struct ItemV {
    pub path: Seq<u8>,
    pub node: Option<NodeV>,
    pub msg: Option<int>,
}

pub open spec fn item_size(it: ItemV) -> nat {
    match it.node {
        Some(n) => 1 + node_size(n),
        None => 1,
    }
}

pub open spec fn queue_size(q: Seq<ItemV>) -> nat
    decreases q.len(),
{
    if q.len() == 0 {
        0
    } else {
        item_size(q[0]) + queue_size(q.subrange(1, q.len() as int))
    }
}

/// Whether a JSON value is an object with an `@type` key.
pub open spec fn has_type_key(n: NodeV) -> bool {
    match n.json {
        JsonV::Object(ms) => exists|i: int| 0 <= i < ms.len() && (#[trigger] ms[i]).0 == "@type".spec_bytes(),
        _ => false,
    }
}

proof fn lemma_has_type(n: NodeV, ms: Seq<(Seq<u8>, NodeV)>, i: int)
    requires
        n.json == JsonV::Object(ms),
        0 <= i < ms.len(),
        ms[i].0 == "@type".spec_bytes(),
    ensures
        has_type_key(n),
{
    assert(exists|j: int| 0 <= j < ms.len() && (#[trigger] ms[j]).0 == "@type".spec_bytes());
    match n.json {
        JsonV::Object(m2) => {
            assert(m2 == ms);
        },
        _ => {},
    }
}

pub open spec fn unknown_field_text(k: Seq<u8>, message: Seq<u8>) -> Seq<u8> {
    "could not find field ".spec_bytes() + spec_quote(k) + " in ".spec_bytes() + spec_quote(message)
}

pub open spec fn missing_type_text(k: Seq<u8>, message: Seq<u8>) -> Seq<u8> {
    "could not find field @type in ".spec_bytes() + spec_quote(k) + " in message ".spec_bytes() + spec_quote(
        message,
    )
}

/// What the walk adds for one member `k: v` of an object read as `msg`:
/// pending parts, finished paths, or the error that stops it.
pub open spec fn member_step(sc: Schema, p: Seq<u8>, msg: Option<int>, k: Seq<u8>, v: NodeV) -> Result<
    (Seq<ItemV>, Seq<Seq<u8>>),
    Seq<u8>,
> {
    match msg {
        None => Err("JSON structure did not match request type".spec_bytes()),
        Some(m) => {
            let desc = sc.messages@[m];
            let fs = desc.fields@;
            let f = lookup_field(fs, k);
            if f >= fs.len() {
                Err(unknown_field_text(k, desc.full_name@))
            } else {
                let fd = fs[f];
                let fmsg: Option<int> = match fd.kind {
                    FieldKind::Message(t) => Some(t as int),
                    _ => None,
                };
                if fmsg is Some && is_dynamic(sc.messages@[fmsg.unwrap()].full_name@) {
                    Ok(
                        (
                            blind_paths(fd.name@, v).map_values(
                                |b: Seq<u8>| ItemV { path: join_path(p, b), node: None, msg: None },
                            ),
                            Seq::empty(),
                        ),
                    )
                } else if fmsg is Some && sc.messages@[fmsg.unwrap()].full_name@
                    == "google.protobuf.Any".spec_bytes() && !fd.is_list {
                    if has_type_key(v) {
                        Ok((seq![ItemV { path: k, node: None, msg: None }], Seq::empty()))
                    } else {
                        Err(missing_type_text(k, desc.full_name@))
                    }
                } else if fd.is_list || fd.is_map {
                    Ok((Seq::empty(), seq![join_path(p, fd.name@)]))
                } else {
                    Ok((seq![ItemV { path: join_path(p, fd.name@), node: Some(v), msg: fmsg }], Seq::empty()))
                }
            }
        },
    }
}

/// The members from the `k`-th on, in order, until one fails.
pub open spec fn members_step(
    sc: Schema,
    p: Seq<u8>,
    msg: Option<int>,
    ms: Seq<(Seq<u8>, NodeV)>,
    k: int,
) -> Result<(Seq<ItemV>, Seq<Seq<u8>>), Seq<u8>>
    decreases ms.len() - k,
{
    if k < 0 || k >= ms.len() {
        Ok((Seq::empty(), Seq::empty()))
    } else {
        match member_step(sc, p, msg, ms[k].0, ms[k].1) {
            Err(e) => Err(e),
            Ok((is, ps)) => match members_step(sc, p, msg, ms, k + 1) {
                Err(e) => Err(e),
                Ok((is2, ps2)) => Ok((is + is2, ps + ps2)),
            },
        }
    }
}

/// A part that is not read further: its path, unless it is the top.
pub open spec fn leaf_step(p: Seq<u8>) -> Result<(Seq<ItemV>, Seq<Seq<u8>>), Seq<u8>> {
    if p.len() > 0 {
        Ok((Seq::empty(), seq![p]))
    } else {
        Ok((Seq::empty(), Seq::empty()))
    }
}

/// One pending part: a non-empty object is read member by member; an empty
/// object is a path even at the top, where its path is empty.
pub open spec fn item_step(sc: Schema, it: ItemV) -> Result<(Seq<ItemV>, Seq<Seq<u8>>), Seq<u8>> {
    match it.node {
        Some(n) => match n.json {
            JsonV::Object(ms) => if ms.len() > 0 {
                members_step(sc, it.path, it.msg, ms, 0)
            } else {
                Ok((Seq::empty(), seq![it.path]))
            },
            _ => leaf_step(it.path),
        },
        None => leaf_step(it.path),
    }
}

/// The walk over a queue of pending parts, first in first out.
pub open spec fn run(sc: Schema, q: Seq<ItemV>, paths: Seq<Seq<u8>>) -> Result<Seq<Seq<u8>>, Seq<u8>>
    decreases queue_size(q),
{
    if q.len() == 0 {
        Ok(paths)
    } else {
        match item_step(sc, q[0]) {
            Err(e) => Err(e),
            Ok((is, ps)) => {
                proof {
                    lemma_item_step_size(sc, q[0]);
                    lemma_queue_size_concat(q.subrange(1, q.len() as int), is);
                }
                run(sc, q.subrange(1, q.len() as int) + is, paths + ps)
            },
        }
    }
}

/// `runtime.FieldMaskFromRequestBody` on a decoded body read as message
/// `msg`: the paths, sorted, or the error of the walk.
pub open spec fn spec_mask_paths(sc: Schema, root: NodeV, msg: int) -> Result<Seq<Seq<u8>>, Seq<u8>> {
    match run(sc, seq![ItemV { path: Seq::empty(), node: Some(root), msg: Some(msg) }], Seq::empty()) {
        Ok(ps) => Ok(ps.sort_by(byte_order())),
        Err(e) => Err(e),
    }
}

pub proof fn lemma_queue_size_concat(a: Seq<ItemV>, b: Seq<ItemV>)
    ensures
        queue_size(a + b) == queue_size(a) + queue_size(b),
    decreases a.len(),
{
    if a.len() > 0 {
        lemma_queue_size_concat(a.subrange(1, a.len() as int), b);
        assert((a + b).subrange(1, (a + b).len() as int) =~= a.subrange(1, a.len() as int) + b);
    } else {
        assert(a + b =~= b);
    }
}

pub proof fn lemma_members_size_split(ms: Seq<(Seq<u8>, NodeV)>, k: int)
    requires
        0 <= k < ms.len(),
    ensures
        members_size(ms.subrange(k, ms.len() as int)) == 1 + node_size(ms[k].1) + members_size(
            ms.subrange(k + 1, ms.len() as int),
        ),
{
    let s = ms.subrange(k, ms.len() as int);
    assert(s.subrange(1, s.len() as int) =~= ms.subrange(k + 1, ms.len() as int));
}

pub proof fn lemma_blind_members_len(p: Seq<u8>, ms: Seq<(Seq<u8>, NodeV)>)
    ensures
        blind_members(p, ms).len() <= members_size(ms),
    decreases ms,
{
    if ms.len() > 0 {
        let c = dotted(p, ms[0].0);
        let rest = ms.subrange(1, ms.len() as int);
        lemma_blind_members_len(p, rest);
        match ms[0].1.json {
            JsonV::Object(inner) => {
                lemma_blind_members_len(c, inner);
                assert(node_size(ms[0].1) == 1 + members_size(inner));
                assert(blind_members(p, ms) == blind_members(c, inner) + blind_members(p, rest));
            },
            _ => {
                assert(node_size(ms[0].1) == 1);
                assert(blind_members(p, ms) == seq![c] + blind_members(p, rest));
            },
        }
    }
}

pub proof fn lemma_all_ones(q: Seq<ItemV>)
    requires
        forall|i: int| 0 <= i < q.len() ==> (#[trigger] q[i]).node is None,
    ensures
        queue_size(q) == q.len(),
    decreases q.len(),
{
    if q.len() > 0 {
        lemma_all_ones(q.subrange(1, q.len() as int));
    }
}

pub proof fn lemma_blind_len(v: NodeV)
    ensures
        forall|name: Seq<u8>| #[trigger] blind_paths(name, v).len() <= node_size(v),
{
    assert forall|name: Seq<u8>| #[trigger] blind_paths(name, v).len() <= node_size(v) by {
        match v.json {
            JsonV::Object(ms) => lemma_blind_members_len(name, ms),
            _ => {},
        }
    }
}

pub proof fn lemma_member_step_size(sc: Schema, p: Seq<u8>, msg: Option<int>, k: Seq<u8>, v: NodeV)
    ensures
        member_step(sc, p, msg, k, v) matches Ok((is, ps)) ==> queue_size(is) <= 1 + node_size(v),
{
    lemma_blind_len(v);
    assert(queue_size(Seq::<ItemV>::empty()) == 0);
    if let Some(m) = msg {
        let desc = sc.messages@[m];
        let fs = desc.fields@;
        let f = lookup_field(fs, k);
        if f < fs.len() {
            let fd = fs[f];
            let fmsg: Option<int> = match fd.kind {
                FieldKind::Message(t) => Some(t as int),
                _ => None,
            };
            if fmsg is Some && is_dynamic(sc.messages@[fmsg.unwrap()].full_name@) {
                let is = blind_paths(fd.name@, v).map_values(
                    |b: Seq<u8>| ItemV { path: join_path(p, b), node: None, msg: None },
                );
                lemma_all_ones(is);
            } else if !(fmsg is Some && sc.messages@[fmsg.unwrap()].full_name@
                == "google.protobuf.Any".spec_bytes() && !fd.is_list) && !(fd.is_list || fd.is_map) {
                let is = seq![ItemV { path: join_path(p, fd.name@), node: Some(v), msg: fmsg }];
                assert(is.subrange(1, 1) =~= Seq::<ItemV>::empty());
                assert(queue_size(is) == item_size(is[0]));
            } else {
                let is = seq![ItemV { path: k, node: None, msg: None }];
                assert(is.subrange(1, 1) =~= Seq::<ItemV>::empty());
            }
        }
    }
}

pub proof fn lemma_members_step_size(sc: Schema, p: Seq<u8>, msg: Option<int>, ms: Seq<(Seq<u8>, NodeV)>, k: int)
    requires
        0 <= k <= ms.len(),
    ensures
        members_step(sc, p, msg, ms, k) matches Ok((is, ps)) ==> queue_size(is) <= members_size(
            ms.subrange(k, ms.len() as int),
        ),
    decreases ms.len() - k,
{
    if k < ms.len() {
        lemma_member_step_size(sc, p, msg, ms[k].0, ms[k].1);
        lemma_members_step_size(sc, p, msg, ms, k + 1);
        lemma_members_size_split(ms, k);
        if let Ok((is, ps)) = member_step(sc, p, msg, ms[k].0, ms[k].1) {
            if let Ok((is2, ps2)) = members_step(sc, p, msg, ms, k + 1) {
                lemma_queue_size_concat(is, is2);
            }
        }
    } else {
        assert(queue_size(Seq::<ItemV>::empty()) == 0);
    }
}

pub proof fn lemma_item_step_size(sc: Schema, it: ItemV)
    ensures
        item_step(sc, it) matches Ok((is, ps)) ==> queue_size(is) < item_size(it),
{
    if let Some(n) = it.node {
        if let JsonV::Object(ms) = n.json {
            if ms.len() > 0 {
                lemma_members_step_size(sc, it.path, it.msg, ms, 0);
                assert(ms.subrange(0, ms.len() as int) =~= ms);
            }
        }
    }
    assert(queue_size(Seq::<ItemV>::empty()) == 0);
}

/// A pending part of the body, as the walk holds it.
struct Item<'a> {
    path: Vec<u8>,
    node: Option<&'a Node>,
    msg: Option<usize>,
}

spec fn opt_node_v(n: Option<&Node>) -> Option<NodeV> {
    match n {
        Some(n) => Some(node_v(*n)),
        None => None,
    }
}

spec fn opt_int(m: Option<usize>) -> Option<int> {
    match m {
        Some(m) => Some(m as int),
        None => None,
    }
}

spec fn item_v(it: Item) -> ItemV {
    ItemV { path: it.path@, node: opt_node_v(it.node), msg: opt_int(it.msg) }
}

spec fn items_v(q: Seq<Item>) -> Seq<ItemV> {
    q.map_values(|it: Item| item_v(it))
}

/// Every message a pending part is read as is in the schema.
spec fn msgs_ok(n: int, q: Seq<ItemV>) -> bool {
    forall|i: int| 0 <= i < q.len() ==> ((#[trigger] q[i]).msg matches Some(m) ==> 0 <= m < n)
}

proof fn lemma_msgs_ok_push(n: int, q: Seq<ItemV>, it: ItemV)
    requires
        msgs_ok(n, q),
        it.msg matches Some(m) ==> 0 <= m < n,
    ensures
        msgs_ok(n, q.push(it)),
{
    assert forall|i: int| 0 <= i < q.push(it).len() implies ((#[trigger] q.push(it)[i]).msg matches Some(m) ==> 0 <= m < n) by {
        if i < q.len() {
            assert(q.push(it)[i] == q[i]);
        }
    }
}

fn is_dynamic_name(full_name: &[u8]) -> (r: bool)
    ensures
        r == is_dynamic(full_name@),
{
    bytes_eq(full_name, "google.protobuf.Struct".as_bytes()) || bytes_eq(full_name, "google.protobuf.Value".as_bytes())
}

fn dotted_bytes(p: &[u8], k: &[u8]) -> (r: Vec<u8>)
    ensures
        r@ == dotted(p@, k@),
{
    let mut r = copy_bytes(p);
    r.push(46);
    push_all(&mut r, k);
    r
}

fn join_bytes(p: &[u8], k: &[u8]) -> (r: Vec<u8>)
    ensures
        r@ == join_path(p@, k@),
{
    if p.len() == 0 {
        copy_bytes(k)
    } else {
        dotted_bytes(p, k)
    }
}

fn blind_into(p: &Vec<u8>, ms: &Vec<(Vec<u8>, Node)>, out: &mut Vec<Vec<u8>>)
    ensures
        strings_v(final(out)@) == strings_v(old(out)@) + blind_members(p@, members_v(ms@)),
    decreases members_size(members_v(ms@)),
{
    let ghost msv = members_v(ms@);
    let mut k: usize = 0;
    assert(msv.subrange(0, msv.len() as int) =~= msv);
    assert(strings_v(out@) + blind_members(p@, msv) =~= strings_v(old(out)@) + blind_members(p@, msv));
    while k < ms.len()
        invariant
            k <= ms@.len(),
            msv == members_v(ms@),
            strings_v(out@) + blind_members(p@, msv.subrange(k as int, msv.len() as int))
                == strings_v(old(out)@) + blind_members(p@, msv),
            members_size(msv.subrange(k as int, msv.len() as int)) <= members_size(msv),
        decreases ms@.len() - k,
    {
        let ghost s = msv.subrange(k as int, msv.len() as int);
        let ghost rest = msv.subrange(k + 1, msv.len() as int);
        proof {
            lemma_members_size_split(msv, k as int);
            assert(s.subrange(1, s.len() as int) =~= rest);
            assert(s[0] == msv[k as int]);
        }
        let ghost before = strings_v(out@);
        let c = dotted_bytes(p.as_slice(), ms[k].0.as_slice());
        match &ms[k].1.json {
            Json::Object(inner) => {
                blind_into(&c, inner, out);
                assert(blind_members(p@, s) == blind_members(c@, members_v(inner@)) + blind_members(p@, rest));
                assert(strings_v(out@) + blind_members(p@, rest) =~= before + blind_members(p@, s));
            },
            _ => {
                out.push(c);
                assert(blind_members(p@, s) == seq![c@] + blind_members(p@, rest));
                assert(strings_v(out@) =~= before.push(c@));
                assert(strings_v(out@) + blind_members(p@, rest) =~= before + blind_members(p@, s));
            },
        }
        k = k + 1;
    }
    assert(msv.subrange(k as int, msv.len() as int) =~= Seq::<(Seq<u8>, NodeV)>::empty());
    assert(strings_v(out@) + Seq::<Seq<u8>>::empty() =~= strings_v(out@));
}

/// `buildPathsBlindly`.
fn paths_blindly(name: &[u8], node: &Node) -> (r: Vec<Vec<u8>>)
    ensures
        strings_v(r@) == blind_paths(name@, node_v(*node)),
{
    let mut out: Vec<Vec<u8>> = Vec::new();
    assert(strings_v(out@) =~= Seq::<Seq<u8>>::empty());
    match &node.json {
        Json::Object(ms) => {
            let p = copy_bytes(name);
            blind_into(&p, ms, &mut out);
            assert(strings_v(out@) =~= blind_members(name@, members_v(ms@)));
        },
        _ => {
            out.push(copy_bytes(name));
            assert(strings_v(out@) =~= seq![name@]);
        },
    }
    out
}

fn has_type(v: &Node) -> (r: bool)
    ensures
        r == has_type_key(node_v(*v)),
{
    match &v.json {
        Json::Object(ms) => {
            let ghost msv = members_v(ms@);
            assert(node_v(*v).json == JsonV::Object(msv));
            let mut i: usize = 0;
            while i < ms.len()
                invariant
                    i <= ms@.len(),
                    msv == members_v(ms@),
                    node_v(*v).json == JsonV::Object(msv),
                    forall|j: int| 0 <= j < i ==> (#[trigger] msv[j]).0 != "@type".spec_bytes(),
                decreases ms@.len() - i,
            {
                if bytes_eq(ms[i].0.as_slice(), "@type".as_bytes()) {
                    proof {
                        lemma_has_type(node_v(*v), msv, i as int);
                    }
                    return true;
                }
                i = i + 1;
            }
            false
        },
        _ => false,
    }
}

fn unknown_field_error(k: &[u8], message: &[u8]) -> (r: Vec<u8>)
    ensures
        r@ == unknown_field_text(k@, message@),
{
    let mut e = copy_bytes("could not find field ".as_bytes());
    push_all(&mut e, quote(k).as_slice());
    push_all(&mut e, " in ".as_bytes());
    push_all(&mut e, quote(message).as_slice());
    e
}

fn missing_type_error(k: &[u8], message: &[u8]) -> (r: Vec<u8>)
    ensures
        r@ == missing_type_text(k@, message@),
{
    let mut e = copy_bytes("could not find field @type in ".as_bytes());
    push_all(&mut e, quote(k).as_slice());
    push_all(&mut e, " in message ".as_bytes());
    push_all(&mut e, quote(message).as_slice());
    e
}

fn member_step_exec<'a>(
    schema: &Schema,
    p: &Vec<u8>,
    msg: Option<usize>,
    k: &Vec<u8>,
    v: &'a Node,
    items: &mut Vec<Item<'a>>,
    paths: &mut Vec<Vec<u8>>,
) -> (r: Result<(), Vec<u8>>)
    requires
        schema.wf(),
        msg matches Some(m) ==> m < schema.messages@.len(),
        msgs_ok(schema.messages@.len() as int, items_v(old(items)@)),
    ensures
        msgs_ok(schema.messages@.len() as int, items_v(final(items)@)),
        match member_step(*schema, p@, opt_int(msg), k@, node_v(*v)) {
            Ok((is, ps)) => r is Ok && items_v(final(items)@) == items_v(old(items)@) + is && strings_v(
                final(paths)@,
            ) == strings_v(old(paths)@) + ps,
            Err(e) => r matches Err(m) && m@ == e,
        },
{
    let m = match msg {
        None => {
            return Err(copy_bytes("JSON structure did not match request type".as_bytes()));
        },
        Some(m) => m,
    };
    let desc = &schema.messages[m];
    let f = lookup_field_at(&desc.fields, k.as_slice());
    if f >= desc.fields.len() {
        return Err(unknown_field_error(k.as_slice(), desc.full_name.as_slice()));
    }
    let fd = &desc.fields[f];
    assert(schema.messages@[m as int].fields@[f as int] == fd);
    let fmsg: Option<usize> = match fd.kind {
        FieldKind::Message(t) => Some(t),
        _ => None,
    };
    let ghost n = schema.messages@.len() as int;
    let ghost old_items = items_v(items@);
    let ghost old_paths = strings_v(paths@);
    if let Some(t) = fmsg {
        let full = schema.messages[t].full_name.as_slice();
        if is_dynamic_name(full) {
            let blind = paths_blindly(fd.name.as_slice(), v);
            let ghost bv = strings_v(blind@);
            let mut i: usize = 0;
            while i < blind.len()
                invariant
                    i <= blind@.len(),
                    bv == strings_v(blind@),
                    items_v(items@) == old_items + bv.subrange(0, i as int).map_values(
                        |b: Seq<u8>| ItemV { path: join_path(p@, b), node: None, msg: None },
                    ),
                    msgs_ok(n, items_v(items@)),
                    n == schema.messages@.len(),
                decreases blind@.len() - i,
            {
                let it = Item { path: join_bytes(p.as_slice(), blind[i].as_slice()), node: None, msg: None };
                let ghost iv = item_v(it);
                let ghost q = items_v(items@);
                assert(bv[i as int] == blind@[i as int]@);
                proof {
                    lemma_msgs_ok_push(n, q, iv);
                }
                items.push(it);
                assert(items_v(items@) =~= q.push(iv));
                assert(items_v(items@) =~= old_items + bv.subrange(0, i + 1).map_values(
                    |b: Seq<u8>| ItemV { path: join_path(p@, b), node: None, msg: None },
                ));
                i = i + 1;
            }
            assert(bv.subrange(0, i as int) =~= bv);
            assert(strings_v(paths@) =~= old_paths + Seq::<Seq<u8>>::empty());
            return Ok(());
        }
        if bytes_eq(full, "google.protobuf.Any".as_bytes()) && !fd.is_list {
            if !has_type(v) {
                return Err(missing_type_error(k.as_slice(), desc.full_name.as_slice()));
            }
            items.push(Item { path: copy_bytes(k.as_slice()), node: None, msg: None });
            assert(items_v(items@) =~= old_items + seq![ItemV { path: k@, node: None, msg: None }]);
            assert(strings_v(paths@) =~= old_paths + Seq::<Seq<u8>>::empty());
            return Ok(());
        }
    }
    let path = join_bytes(p.as_slice(), fd.name.as_slice());
    if fd.is_list || fd.is_map {
        paths.push(path);
        assert(strings_v(paths@) =~= old_paths + seq![join_path(p@, fd.name@)]);
        assert(items_v(items@) =~= old_items + Seq::<ItemV>::empty());
    } else {
        items.push(Item { path, node: Some(v), msg: fmsg });
        assert(items_v(items@) =~= old_items + seq![
            ItemV { path: join_path(p@, fd.name@), node: Some(node_v(*v)), msg: opt_int(fmsg) },
        ]);
        assert(strings_v(paths@) =~= old_paths + Seq::<Seq<u8>>::empty());
    }
    Ok(())
}

fn item_step_exec<'a>(
    schema: &Schema,
    path: Vec<u8>,
    node: Option<&'a Node>,
    msg: Option<usize>,
    items: &mut Vec<Item<'a>>,
    paths: &mut Vec<Vec<u8>>,
) -> (r: Result<(), Vec<u8>>)
    requires
        schema.wf(),
        msg matches Some(m) ==> m < schema.messages@.len(),
        msgs_ok(schema.messages@.len() as int, items_v(old(items)@)),
    ensures
        msgs_ok(schema.messages@.len() as int, items_v(final(items)@)),
        match item_step(*schema, ItemV { path: path@, node: opt_node_v(node), msg: opt_int(msg) }) {
            Ok((is, ps)) => r is Ok && items_v(final(items)@) == items_v(old(items)@) + is && strings_v(
                final(paths)@,
            ) == strings_v(old(paths)@) + ps,
            Err(e) => r matches Err(m) && m@ == e,
        },
{
    let ghost it = ItemV { path: path@, node: opt_node_v(node), msg: opt_int(msg) };
    let ghost old_items = items_v(items@);
    let ghost old_paths = strings_v(paths@);
    if let Some(n) = node {
        if let Json::Object(ms) = &n.json {
            let ghost msv = members_v(ms@);
            assert(node_v(*n).json == JsonV::Object(msv));
            if ms.len() == 0 {
                paths.push(path);
                assert(strings_v(paths@) =~= old_paths + seq![it.path]);
                assert(items_v(items@) =~= old_items + Seq::<ItemV>::empty());
                return Ok(());
            }
            let mut k: usize = 0;
            assert(item_step(*schema, it) == members_step(*schema, path@, opt_int(msg), msv, 0));
            assert(old_items + Seq::<ItemV>::empty() =~= old_items);
            assert(old_paths + Seq::<Seq<u8>>::empty() =~= old_paths);
            while k < ms.len()
                invariant
                    k <= ms@.len(),
                    msv == members_v(ms@),
                    schema.wf(),
                    msg matches Some(m) ==> m < schema.messages@.len(),
                    item_step(*schema, it) == members_step(*schema, path@, opt_int(msg), msv, 0),
                    it == (ItemV { path: path@, node: opt_node_v(node), msg: opt_int(msg) }),
                    old_items == items_v(old(items)@),
                    old_paths == strings_v(old(paths)@),
                    msgs_ok(schema.messages@.len() as int, items_v(items@)),
                    items_v(items@).len() >= old_items.len(),
                    strings_v(paths@).len() >= old_paths.len(),
                    items_v(items@).subrange(0, old_items.len() as int) == old_items,
                    strings_v(paths@).subrange(0, old_paths.len() as int) == old_paths,
                    members_step(*schema, path@, opt_int(msg), msv, 0) == match members_step(
                        *schema,
                        path@,
                        opt_int(msg),
                        msv,
                        k as int,
                    ) {
                        Ok((is, ps)) => Ok(
                            (
                                items_v(items@).subrange(old_items.len() as int, items_v(items@).len() as int)
                                    + is,
                                strings_v(paths@).subrange(old_paths.len() as int, strings_v(paths@).len() as int)
                                    + ps,
                            ),
                        ),
                        Err(e) => Err(e),
                    },
                decreases ms@.len() - k,
            {
                let ghost qi = items_v(items@);
                let ghost qp = strings_v(paths@);
                let res = member_step_exec(schema, &path, msg, &ms[k].0, &ms[k].1, items, paths);
                assert(msv[k as int] == (ms@[k as int].0@, node_v(ms@[k as int].1)));
                match res {
                    Err(e) => {
                        assert(members_step(*schema, path@, opt_int(msg), msv, k as int) == Err::<
                            (Seq<ItemV>, Seq<Seq<u8>>),
                            Seq<u8>,
                        >(e@));
                        return Err(e);
                    },
                    Ok(()) => {},
                }
                proof {
                    let ni = items_v(items@);
                    let np = strings_v(paths@);
                    assert(ni.subrange(0, old_items.len() as int) =~= qi.subrange(0, old_items.len() as int));
                    assert(np.subrange(0, old_paths.len() as int) =~= qp.subrange(0, old_paths.len() as int));
                    if let Ok((is1, ps1)) = member_step(*schema, path@, opt_int(msg), msv[k as int].0, msv[k as int].1) {
                        assert(ni.subrange(old_items.len() as int, ni.len() as int) =~= qi.subrange(
                            old_items.len() as int,
                            qi.len() as int,
                        ) + is1);
                        assert(np.subrange(old_paths.len() as int, np.len() as int) =~= qp.subrange(
                            old_paths.len() as int,
                            qp.len() as int,
                        ) + ps1);
                        match members_step(*schema, path@, opt_int(msg), msv, k + 1) {
                            Ok((is2, ps2)) => {
                                assert(qi.subrange(old_items.len() as int, qi.len() as int) + (is1 + is2)
                                    =~= ni.subrange(old_items.len() as int, ni.len() as int) + is2);
                                assert(qp.subrange(old_paths.len() as int, qp.len() as int) + (ps1 + ps2)
                                    =~= np.subrange(old_paths.len() as int, np.len() as int) + ps2);
                            },
                            Err(e) => {},
                        }
                    }
                }
                k = k + 1;
            }
            proof {
                let ni = items_v(items@);
                let np = strings_v(paths@);
                assert(ni =~= old_items + ni.subrange(old_items.len() as int, ni.len() as int));
                assert(np =~= old_paths + np.subrange(old_paths.len() as int, np.len() as int));
                assert(ni.subrange(old_items.len() as int, ni.len() as int) + Seq::<ItemV>::empty() =~= ni.subrange(old_items.len() as int, ni.len() as int));
                assert(np.subrange(old_paths.len() as int, np.len() as int) + Seq::<Seq<u8>>::empty() =~= np.subrange(old_paths.len() as int, np.len() as int));
            }
            return Ok(());
        }
    }
    if path.len() > 0 {
        paths.push(path);
        assert(strings_v(paths@) =~= old_paths + seq![it.path]);
    } else {
        assert(strings_v(paths@) =~= old_paths + Seq::<Seq<u8>>::empty());
    }
    assert(items_v(items@) =~= old_items + Seq::<ItemV>::empty());
    Ok(())
}

/// `runtime.FieldMaskFromRequestBody` after the body's first JSON value was
/// read and decoded (and its numbers found to fit a `float64`): the paths
/// the body sets in message `msg`, sorted, or why the body does not match.
pub fn field_mask_paths(root: &Node, schema: &Schema, msg: usize) -> (r: Result<Vec<Vec<u8>>, Vec<u8>>)
    requires
        schema.wf(),
        msg < schema.messages@.len(),
    ensures
        match spec_mask_paths(*schema, node_v(*root), msg as int) {
            Ok(ps) => r matches Ok(v) && strings_v(v@) == ps,
            Err(e) => r matches Err(m) && m@ == e,
        },
{
    let mut queue: Vec<Item> = Vec::new();
    queue.push(Item { path: Vec::new(), node: Some(root), msg: Some(msg) });
    let ghost init = items_v(queue@);
    let ghost n = schema.messages@.len() as int;
    assert(init =~= seq![ItemV { path: Seq::empty(), node: Some(node_v(*root)), msg: Some(msg as int) }]);
    let mut paths: Vec<Vec<u8>> = Vec::new();
    assert(strings_v(paths@) =~= Seq::<Seq<u8>>::empty());
    let mut head: usize = 0;
    assert(init.subrange(0, 1) =~= init);
    while head < queue.len()
        invariant
            schema.wf(),
            n == schema.messages@.len(),
            head <= queue@.len(),
            init == seq![ItemV { path: Seq::empty(), node: Some(node_v(*root)), msg: Some(msg as int) }],
            msgs_ok(n, items_v(queue@)),
            run(*schema, items_v(queue@).subrange(head as int, queue@.len() as int), strings_v(paths@))
                == run(*schema, init, Seq::empty()),
        decreases queue_size(items_v(queue@).subrange(head as int, queue@.len() as int)),
    {
        let ghost q0 = items_v(queue@);
        let ghost n0 = q0.len();
        let ghost p0 = strings_v(paths@);
        let ghost it = q0[head as int];
        let node = queue[head].node;
        let imsg = queue[head].msg;
        let path = copy_bytes(queue[head].path.as_slice());
        assert(it == ItemV { path: path@, node: opt_node_v(node), msg: opt_int(imsg) });
        assert(imsg matches Some(m) ==> m < schema.messages@.len());
        let res = item_step_exec(schema, path, node, imsg, &mut queue, &mut paths);
        proof {
            let sub = q0.subrange(head as int, n0 as int);
            assert(sub[0] == it);
            assert(sub.subrange(1, sub.len() as int) =~= q0.subrange(head + 1, n0 as int));
            lemma_item_step_size(*schema, it);
        }
        match res {
            Err(e) => {
                assert(item_step(*schema, it) == Err::<(Seq<ItemV>, Seq<Seq<u8>>), Seq<u8>>(e@));
                assert(run(*schema, q0.subrange(head as int, n0 as int), p0) == Err::<Seq<Seq<u8>>, Seq<u8>>(e@));
                return Err(e);
            },
            Ok(()) => {},
        }
        proof {
            if let Ok((is, ps)) = item_step(*schema, it) {
                let q1 = items_v(queue@);
                assert(q1.subrange(head + 1, q1.len() as int) =~= q0.subrange(head + 1, n0 as int) + is);
                lemma_queue_size_concat(q0.subrange(head + 1, n0 as int), is);
            }
        }
        head = head + 1;
    }
    proof {
        assert(items_v(queue@).subrange(head as int, queue@.len() as int) =~= Seq::<ItemV>::empty());
    }
    Ok(sort_byte_strings(&paths))
}

/// The paths come out in Go's string order.
pub proof fn lemma_mask_paths_sorted(sc: Schema, root: NodeV, msg: int)
    ensures
        spec_mask_paths(sc, root, msg) matches Ok(ps) ==> vstd::relations::sorted_by(ps, byte_order()),
{
    crate::bytes::lemma_byte_order_total();
    if let Ok(ps) = run(sc, seq![ItemV { path: Seq::empty(), node: Some(root), msg: Some(msg) }], Seq::empty()) {
        ps.lemma_sort_by_ensures(byte_order());
    }
}

/// `runtime.FieldMaskFromRequestBody`: the paths the body's first JSON value
/// sets in message `msg`, sorted; none for a blank body. `numbers` is the
/// verdict on that value's numbers, which must each fit a `float64` (the
/// caller reads them as floats): its error comes after a syntax error and
/// before the walk.
pub fn field_mask_from_body(body: &[u8], schema: &Schema, msg: usize, numbers: Result<(), Vec<u8>>) -> (r: Result<
    Vec<Vec<u8>>,
    Vec<u8>,
>)
    requires
        schema.wf(),
        msg < schema.messages@.len(),
    ensures
        ({
            let j = skip_ws(body@, 0);
            if j >= body@.len() {
                r matches Ok(v) && v@.len() == 0
            } else {
                match scan_value(body@, j) {
                    Err(x) => r matches Err(m) && m@ == scan_message(x),
                    Ok(_) => match numbers {
                        Err(e) => r matches Err(m) && m@ == e@,
                        Ok(()) => match spec_mask_paths(*schema, parse_value(body@, j), msg as int) {
                            Ok(ps) => r matches Ok(v) && strings_v(v@) == ps,
                            Err(e) => r matches Err(m) && m@ == e,
                        },
                    },
                }
            }
        }),
{
    match first_node(body) {
        Ok(None) => Ok(Vec::new()),
        Err(m) => Err(m),
        Ok(Some(root)) => match numbers {
            Err(e) => Err(e),
            Ok(()) => field_mask_paths(&root, schema, msg),
        },
    }
}

} // verus!
