//! One HTTP rule bound to its RPC: what the generator decides once per
//! binding (which fields the path variables fill and how, the body target,
//! the response field, which query keys are ignored, whether `PATCH`
//! computes a field mask). The messages are read through [`Schema`], the
//! parts of their descriptors these decisions look at.
use vstd::prelude::*;
use vstd::string::StringSliceAdditionalSpecFns;
use crate::bytes::{bytes_eq, copy_bytes, push_all};
use crate::path::template::{fields_of, view_tokens, PathTemplate};
use crate::json::token::{utf8_valid, valid_utf8};
use crate::request::form::{split_bytes, split_on};

verus! {

/// The kinds of a field that is neither a message nor an enum.
#[derive(Debug, Clone, Copy, PartialEq, Eq, Structural)]
pub enum ScalarKind {
    Bool,
    /// `int32`, `sint32`, `sfixed32`.
    Int32,
    /// `int64`, `sint64`, `sfixed64`.
    Int64,
    /// `uint32`, `fixed32`.
    Uint32,
    /// `uint64`, `fixed64`.
    Uint64,
    Float,
    Double,
    String,
    Bytes,
}

/// What a field holds.
#[derive(Debug, Clone, Copy, PartialEq, Eq, Structural)]
pub enum FieldKind {
    Scalar(ScalarKind),
    /// An enum, by its index in the [`Schema`].
    Enum(usize),
    /// A message, by its index in the [`Schema`].
    Message(usize),
}

/// A field as the binding rules read it.
#[derive(Debug, Clone, PartialEq, Eq)]
pub struct FieldShape {
    pub name: Vec<u8>,
    pub json_name: Vec<u8>,
    /// The field's number.
    pub number: u32,
    pub kind: FieldKind,
    pub is_list: bool,
    pub is_map: bool,
    /// Part of the synthetic oneof of a `proto3 optional` field.
    pub synthetic_oneof: bool,
    /// The (not synthetic) oneof the field belongs to, by its index in the
    /// message's `oneofs`.
    pub oneof: Option<usize>,
}

/// A message as the binding rules read it.
#[derive(Debug, Clone, PartialEq, Eq)]
pub struct MessageShape {
    pub name: Vec<u8>,
    pub full_name: Vec<u8>,
    /// Declared in a proto2 file.
    pub proto2: bool,
    pub fields: Vec<FieldShape>,
    /// The names of its oneofs that are not synthetic.
    pub oneofs: Vec<Vec<u8>>,
}

/// An enum: the names it declares, with their numbers.
#[derive(Debug, Clone, PartialEq, Eq)]
pub struct EnumShape {
    pub values: Vec<(Vec<u8>, i32)>,
}

/// The messages and enums a binding can reach; fields name them by index.
#[derive(Debug, Clone, PartialEq, Eq)]
pub struct Schema {
    pub messages: Vec<MessageShape>,
    pub enums: Vec<EnumShape>,
}

impl Schema {
    /// Every message, enum and oneof a field names is in the schema.
    pub open spec fn wf(&self) -> bool {
        forall|m: int, f: int|
            #![trigger self.messages@[m].fields@[f]]
            0 <= m < self.messages@.len() && 0 <= f < self.messages@[m].fields@.len() ==> ({
                let fd = self.messages@[m].fields@[f];
                &&& (fd.kind matches FieldKind::Message(t) ==> t < self.messages@.len())
                &&& (fd.kind matches FieldKind::Enum(t) ==> t < self.enums@.len())
                &&& (fd.oneof matches Some(o) ==> o < self.messages@[m].oneofs@.len())
                &&& (fd.is_map ==> (fd.kind matches FieldKind::Message(t) && t < self.messages@.len()
                    && self.messages@[t as int].fields@.len() >= 2))
            })
    }
}

impl Schema {
    /// Whether every index a field holds is in the schema ([`Schema::wf`]).
    pub fn is_closed(&self) -> (r: bool)
        ensures
            r == self.wf(),
    {
        let n = self.messages.len();
        let mut m: usize = 0;
        while m < n
            invariant
                n == self.messages@.len(),
                m <= n,
                forall|a: int, f: int|
                    #![trigger self.messages@[a].fields@[f]]
                    0 <= a < m && 0 <= f < self.messages@[a].fields@.len() ==> ({
                        let fd = self.messages@[a].fields@[f];
                        &&& (fd.kind matches FieldKind::Message(t) ==> t < self.messages@.len())
                        &&& (fd.kind matches FieldKind::Enum(t) ==> t < self.enums@.len())
                        &&& (fd.oneof matches Some(o) ==> o < self.messages@[a].oneofs@.len())
                        &&& (fd.is_map ==> (fd.kind matches FieldKind::Message(t) && t < self.messages@.len()
                            && self.messages@[t as int].fields@.len() >= 2))
                    }),
            decreases n - m,
        {
            let fs = &self.messages[m].fields;
            let mut f: usize = 0;
            while f < fs.len()
                invariant
                    n == self.messages@.len(),
                    m < n,
                    fs == self.messages@[m as int].fields,
                    f <= fs@.len(),
                    forall|a: int, g: int|
                        #![trigger self.messages@[a].fields@[g]]
                        0 <= a < m && 0 <= g < self.messages@[a].fields@.len() ==> ({
                            let fd = self.messages@[a].fields@[g];
                            &&& (fd.kind matches FieldKind::Message(t) ==> t < self.messages@.len())
                            &&& (fd.kind matches FieldKind::Enum(t) ==> t < self.enums@.len())
                            &&& (fd.oneof matches Some(o) ==> o < self.messages@[a].oneofs@.len())
                            &&& (fd.is_map ==> (fd.kind matches FieldKind::Message(t) && t < self.messages@.len()
                                && self.messages@[t as int].fields@.len() >= 2))
                        }),
                    forall|g: int|
                        #![trigger self.messages@[m as int].fields@[g]]
                        0 <= g < f ==> ({
                            let fd = self.messages@[m as int].fields@[g];
                            &&& (fd.kind matches FieldKind::Message(t) ==> t < self.messages@.len())
                            &&& (fd.kind matches FieldKind::Enum(t) ==> t < self.enums@.len())
                            &&& (fd.oneof matches Some(o) ==> o < self.messages@[m as int].oneofs@.len())
                            &&& (fd.is_map ==> (fd.kind matches FieldKind::Message(t) && t < self.messages@.len()
                                && self.messages@[t as int].fields@.len() >= 2))
                        }),
                decreases fs@.len() - f,
            {
                let fd = &fs[f];
                let kind_ok = match fd.kind {
                    FieldKind::Message(t) => t < n,
                    FieldKind::Enum(t) => t < self.enums.len(),
                    FieldKind::Scalar(_) => true,
                };
                let oneof_ok = match fd.oneof {
                    Some(o) => o < self.messages[m].oneofs.len(),
                    None => true,
                };
                let map_ok = if fd.is_map {
                    match fd.kind {
                        FieldKind::Message(t) => t < n && self.messages[t].fields.len() >= 2,
                        _ => false,
                    }
                } else {
                    true
                };
                if !kind_ok || !oneof_ok || !map_ok {
                    assert(self.messages@[m as int].fields@[f as int] == *fd);
                    return false;
                }
                f = f + 1;
            }
            m = m + 1;
        }
        true
    }
}

/// Generator options that change the request step.
#[derive(Debug, Clone, Copy, PartialEq, Eq, Structural)]
pub struct BindingOptions {
    /// `allow_patch_feature` (default `true`).
    pub allow_patch_feature: bool,
    /// `repeated_path_param_separator` (default `csv`, a comma).
    pub repeated_path_param_separator: u8,
}

impl Default for BindingOptions {
    fn default() -> (r: BindingOptions)
        ensures
            r.allow_patch_feature,
            r.repeated_path_param_separator == 44,
    {
        BindingOptions { allow_patch_feature: true, repeated_path_param_separator: 44 }
    }
}

/// Why a rule cannot be bound to its RPC, as the generator reports it.
#[derive(Debug, Clone, PartialEq, Eq)]
pub enum BindingError {
    /// `no field %q found in %s`.
    NoField { path: Vec<u8>, message: Vec<u8> },
    /// `not an aggregate type: %s in %s`.
    NotAggregate { field: Vec<u8>, path: Vec<u8> },
    /// A `proto3 optional` field in a path variable.
    OptionalInPath { field: Vec<u8>, path: Vec<u8> },
    /// A message (or map) path variable that is not a well-known type.
    MessageInPath { path: Vec<u8> },
    /// A path variable of a type without a runtime converter.
    UnsupportedPathType { path: Vec<u8> },
    /// `body: "a.b"`: the generated Go code dereferences a nil message.
    NestedBodyField { path: Vec<u8> },
    /// A field mask computed into a body field that is not a singular
    /// message, or into a repeated mask.
    UnsupportedPatchBody { path: Vec<u8> },
    /// proto2 request messages are not accepted.
    Proto2 { message: Vec<u8> },
}

/// A binding error as plain values.
pub enum BindingErrorV {
    NoField(Seq<u8>, Seq<u8>),
    NotAggregate(Seq<u8>, Seq<u8>),
    OptionalInPath(Seq<u8>, Seq<u8>),
    MessageInPath(Seq<u8>),
    UnsupportedPathType(Seq<u8>),
    NestedBodyField(Seq<u8>),
    UnsupportedPatchBody(Seq<u8>),
    Proto2(Seq<u8>),
}

pub open spec fn binding_error_v(e: BindingError) -> BindingErrorV {
    match e {
        BindingError::NoField { path, message } => BindingErrorV::NoField(path@, message@),
        BindingError::NotAggregate { field, path } => BindingErrorV::NotAggregate(field@, path@),
        BindingError::OptionalInPath { field, path } => BindingErrorV::OptionalInPath(field@, path@),
        BindingError::MessageInPath { path } => BindingErrorV::MessageInPath(path@),
        BindingError::UnsupportedPathType { path } => BindingErrorV::UnsupportedPathType(path@),
        BindingError::NestedBodyField { path } => BindingErrorV::NestedBodyField(path@),
        BindingError::UnsupportedPatchBody { path } => BindingErrorV::UnsupportedPatchBody(path@),
        BindingError::Proto2 { message } => BindingErrorV::Proto2(message@),
    }
}

/// The first field named `name` from `i` on, or the number of fields.
pub open spec fn find_field(fs: Seq<FieldShape>, name: Seq<u8>, i: int) -> int
    decreases fs.len() - i,
{
    if i < 0 || i >= fs.len() {
        fs.len() as int
    } else if fs[i].name@ == name {
        i
    } else {
        find_field(fs, name, i + 1)
    }
}

pub open spec fn prepend_step(step: (int, int), r: Result<Seq<(int, int)>, BindingErrorV>) -> Result<
    Seq<(int, int)>,
    BindingErrorV,
> {
    match r {
        Ok(s) => Ok(seq![step] + s),
        Err(e) => Err(e),
    }
}

/// The fields the components of `path` from the `k`-th on name, starting in
/// message `msg`: each as (message, field) indices.
pub open spec fn resolve_from(
    sc: Schema,
    root: int,
    comps: Seq<Seq<u8>>,
    path: Seq<u8>,
    param: bool,
    k: int,
    msg: int,
) -> Result<Seq<(int, int)>, BindingErrorV>
    decreases comps.len() - k,
{
    if k < 0 || k >= comps.len() {
        Ok(Seq::empty())
    } else if !(0 <= msg < sc.messages@.len()) || !(0 <= root < sc.messages@.len()) {
        Err(BindingErrorV::NoField(path, Seq::empty()))
    } else {
        let fs = sc.messages@[msg].fields@;
        let f = find_field(fs, comps[k], 0);
        if f >= fs.len() {
            Err(BindingErrorV::NoField(path, sc.messages@[root].name@))
        } else if param && fs[f].synthetic_oneof {
            Err(BindingErrorV::OptionalInPath(fs[f].name@, path))
        } else if k + 1 < comps.len() {
            match fs[f].kind {
                FieldKind::Message(m) => prepend_step((msg, f), resolve_from(sc, root, comps, path, param, k + 1, m as int)),
                _ => Err(BindingErrorV::NotAggregate(fs[f].name@, path)),
            }
        } else {
            Ok(seq![(msg, f)])
        }
    }
}

/// `resolve`: the fields a dotted path names from message `root`.
pub open spec fn spec_resolve(sc: Schema, root: int, path: Seq<u8>, param: bool) -> Result<
    Seq<(int, int)>,
    BindingErrorV,
> {
    resolve_from(sc, root, split_on(path, 46), path, param, 0, root)
}

pub open spec fn steps_v(v: Seq<(usize, usize)>) -> Seq<(int, int)> {
    v.map_values(|p: (usize, usize)| (p.0 as int, p.1 as int))
}

pub(crate) fn find_field_at(fs: &Vec<FieldShape>, name: &[u8]) -> (r: usize)
    ensures
        r == find_field(fs@, name@, 0),
        r <= fs@.len(),
{
    let mut i: usize = 0;
    while i < fs.len()
        invariant
            i <= fs@.len(),
            find_field(fs@, name@, 0) == find_field(fs@, name@, i as int),
        decreases fs@.len() - i,
    {
        if bytes_eq(fs[i].name.as_slice(), name) {
            return i;
        }
        i = i + 1;
    }
    i
}

/// `resolve`.
pub fn resolve(schema: &Schema, root: usize, path: &[u8], is_path_param: bool) -> (r: Result<
    Vec<(usize, usize)>,
    BindingError,
>)
    requires
        schema.wf(),
        root < schema.messages@.len(),
    ensures
        match r {
            Ok(v) => spec_resolve(*schema, root as int, path@, is_path_param) == Ok::<Seq<(int, int)>, BindingErrorV>(
                steps_v(v@),
            ) && v@.len() >= 1 && forall|k: int| 0 <= k < v@.len() ==> #[trigger] v@[k].0 < schema.messages@.len()
                && v@[k].1 < schema.messages@[v@[k].0 as int].fields@.len(),
            Err(e) => spec_resolve(*schema, root as int, path@, is_path_param) == Err::<Seq<(int, int)>, BindingErrorV>(
                binding_error_v(e),
            ),
        },
{
    let comps = split_bytes(path, 46);
    let ghost cs = view_tokens(comps@);
    let mut out: Vec<(usize, usize)> = Vec::new();
    let mut msg = root;
    let mut k: usize = 0;
    proof {
        crate::request::form::lemma_split_on_nonempty(path@, 46);
    }
    loop
        invariant
            schema.wf(),
            root < schema.messages@.len(),
            msg < schema.messages@.len(),
            cs == view_tokens(comps@),
            cs == split_on(path@, 46),
            cs.len() >= 1,
            k < cs.len(),
            out@.len() == k,
            forall|j: int| 0 <= j < out@.len() ==> #[trigger] out@[j].0 < schema.messages@.len() && out@[j].1
                < schema.messages@[out@[j].0 as int].fields@.len(),
            spec_resolve(*schema, root as int, path@, is_path_param) == match resolve_from(
                *schema,
                root as int,
                cs,
                path@,
                is_path_param,
                k as int,
                msg as int,
            ) {
                Ok(s) => Ok(steps_v(out@) + s),
                Err(e) => Err::<Seq<(int, int)>, BindingErrorV>(e),
            },
        decreases cs.len() - k,
    {
        let fs = &schema.messages[msg].fields;
        let f = find_field_at(fs, comps[k].as_slice());
        assert(comps@[k as int]@ == cs[k as int]);
        if f >= fs.len() {
            return Err(BindingError::NoField { path: copy_bytes(path), message: copy_bytes(schema.messages[root].name.as_slice()) });
        }
        if is_path_param && fs[f].synthetic_oneof {
            return Err(BindingError::OptionalInPath { field: copy_bytes(fs[f].name.as_slice()), path: copy_bytes(path) });
        }
        let ghost before = steps_v(out@);
        out.push((msg, f));
        assert(steps_v(out@) =~= before.push((msg as int, f as int)));
        if k >= comps.len() - 1 {
            assert(before + seq![(msg as int, f as int)] =~= steps_v(out@));
            return Ok(out);
        }
        match fs[f].kind {
            FieldKind::Message(m) => {
                proof {
                    match resolve_from(*schema, root as int, cs, path@, is_path_param, k + 1, m as int) {
                        Ok(s) => assert(before + (seq![(msg as int, f as int)] + s) =~= steps_v(out@) + s),
                        Err(_) => {},
                    }
                }
                msg = m;
                k = k + 1;
            },
            _ => {
                return Err(BindingError::NotAggregate { field: copy_bytes(fs[f].name.as_slice()), path: copy_bytes(path) });
            },
        }
    }
}


/// The well-known types grpc-gateway converts a path variable into.
pub open spec fn has_converter(full_name: Seq<u8>) -> bool {
    full_name == "google.protobuf.Timestamp".spec_bytes() || full_name == "google.protobuf.Duration".spec_bytes()
        || full_name == "google.protobuf.StringValue".spec_bytes() || full_name
        == "google.protobuf.FloatValue".spec_bytes() || full_name == "google.protobuf.DoubleValue".spec_bytes()
        || full_name == "google.protobuf.BoolValue".spec_bytes() || full_name
        == "google.protobuf.BytesValue".spec_bytes() || full_name == "google.protobuf.Int32Value".spec_bytes()
        || full_name == "google.protobuf.UInt32Value".spec_bytes() || full_name
        == "google.protobuf.Int64Value".spec_bytes() || full_name == "google.protobuf.UInt64Value".spec_bytes()
}

/// Whether grpc-gateway has a runtime converter for a path variable of this
/// message type.
pub fn has_runtime_converter(full_name: &[u8]) -> (r: bool)
    ensures
        r == has_converter(full_name@),
{
    bytes_eq(full_name, "google.protobuf.Timestamp".as_bytes()) || bytes_eq(full_name, "google.protobuf.Duration".as_bytes())
        || bytes_eq(full_name, "google.protobuf.StringValue".as_bytes()) || bytes_eq(
        full_name,
        "google.protobuf.FloatValue".as_bytes(),
    ) || bytes_eq(full_name, "google.protobuf.DoubleValue".as_bytes()) || bytes_eq(
        full_name,
        "google.protobuf.BoolValue".as_bytes(),
    ) || bytes_eq(full_name, "google.protobuf.BytesValue".as_bytes()) || bytes_eq(
        full_name,
        "google.protobuf.Int32Value".as_bytes(),
    ) || bytes_eq(full_name, "google.protobuf.UInt32Value".as_bytes()) || bytes_eq(
        full_name,
        "google.protobuf.Int64Value".as_bytes(),
    ) || bytes_eq(full_name, "google.protobuf.UInt64Value".as_bytes())
}

/// How a path variable reaches its field.
#[derive(Debug, Clone, Copy, PartialEq, Eq, Structural)]
pub enum PathConv {
    /// A top-level field: `runtime.<Kind>` or `runtime.<Kind>Slice`.
    Top { repeated: bool },
    /// A nested field: `runtime.PopulateFieldFromPath`, then, for an enum,
    /// `runtime.Enum`/`EnumSlice` again.
    Nested { reparse_enum: bool },
}

/// A path variable: its dotted name, the fields it names, and how it is
/// converted.
#[derive(Debug, Clone, PartialEq, Eq)]
pub struct PathField {
    pub name: Vec<u8>,
    pub fields: Vec<(usize, usize)>,
    pub conv: PathConv,
}

pub struct PathFieldV {
    pub name: Seq<u8>,
    pub fields: Seq<(int, int)>,
    pub conv: PathConv,
}

pub open spec fn path_field_view(p: PathField) -> PathFieldV {
    PathFieldV { name: p.name@, fields: steps_v(p.fields@), conv: p.conv }
}

/// Where the body goes.
#[derive(Debug, Clone, Copy, PartialEq, Eq, Structural)]
pub enum BodySelector {
    /// No `body`: the generated handler discards it.
    NoBody,
    /// `body: "*"`.
    Whole,
    /// `body: "<field>"`, a top-level field of the request message, by index.
    Field(usize),
}

/// A path variable bound to the request message `input`.
pub open spec fn spec_path_field(sc: Schema, input: int, name: Seq<u8>) -> Result<PathFieldV, BindingErrorV> {
    match spec_resolve(sc, input, name, true) {
        Err(e) => Err(e),
        Ok(fields) => {
            let target = sc.messages@[fields.last().0].fields@[fields.last().1];
            if target.kind matches FieldKind::Message(m) && !has_converter(sc.messages@[m as int].full_name@) {
                Err(BindingErrorV::MessageInPath(name))
            } else if fields.len() == 1 {
                if target.is_list && target.kind is Message {
                    Err(BindingErrorV::UnsupportedPathType(name))
                } else {
                    Ok(PathFieldV { name, fields, conv: PathConv::Top { repeated: target.is_list } })
                }
            } else {
                Ok(PathFieldV { name, fields, conv: PathConv::Nested { reparse_enum: target.kind is Enum } })
            }
        },
    }
}

/// The path variables from the `k`-th on, in order; the first refusal wins.
pub open spec fn spec_path_fields(sc: Schema, input: int, names: Seq<Seq<u8>>, k: int) -> Result<
    Seq<PathFieldV>,
    BindingErrorV,
>
    decreases names.len() - k,
{
    if k < 0 || k >= names.len() {
        Ok(Seq::empty())
    } else {
        match spec_path_field(sc, input, names[k]) {
            Err(e) => Err(e),
            Ok(p) => match spec_path_fields(sc, input, names, k + 1) {
                Err(e) => Err(e),
                Ok(rest) => Ok(seq![p] + rest),
            },
        }
    }
}

/// The body selector of `body` as the rule writes it.
pub open spec fn spec_body(sc: Schema, input: int, body: Seq<u8>) -> Result<BodySelector, BindingErrorV> {
    if body.len() == 0 {
        Ok(BodySelector::NoBody)
    } else if body == seq![42u8] {
        Ok(BodySelector::Whole)
    } else {
        match spec_resolve(sc, input, body, false) {
            Err(e) => Err(e),
            Ok(fs) => if fs.len() > 1 {
                Err(BindingErrorV::NestedBodyField(body))
            } else {
                Ok(BodySelector::Field(fs[0].1 as usize))
            },
        }
    }
}

/// The response field a `response_body` names, outermost first; empty for
/// the whole response.
pub open spec fn spec_response_body(sc: Schema, output: int, rb: Seq<u8>) -> Result<Seq<(int, int)>, BindingErrorV> {
    if rb.len() == 0 || rb == seq![42u8] {
        Ok(Seq::empty())
    } else {
        spec_resolve(sc, output, rb, false)
    }
}

pub open spec fn path_names(ps: Seq<PathFieldV>) -> Seq<Seq<u8>> {
    ps.map_values(|p: PathFieldV| p.name)
}

/// `HasQueryParam`: a top-level field of the request that is neither the
/// body field nor a path variable (compared as dotted names).
pub open spec fn has_query_param(fs: Seq<FieldShape>, body_name: Option<Seq<u8>>, names: Seq<Seq<u8>>) -> bool {
    exists|i: int| 0 <= i < fs.len() && body_name != Some(#[trigger] fs[i].name@) && !names.contains(fs[i].name@)
}

/// The query keys the generated handler ignores, split at dots; `None` when
/// it never parses the query.
pub open spec fn spec_query_filter(fs: Seq<FieldShape>, body: BodySelector, ps: Seq<PathFieldV>) -> Option<
    Seq<Seq<Seq<u8>>>,
> {
    let body_name: Option<Seq<u8>> = match body {
        BodySelector::Field(f) => Some(fs[f as int].name@),
        _ => None,
    };
    if body is Whole || !has_query_param(fs, body_name, path_names(ps)) {
        None
    } else {
        let head: Seq<Seq<Seq<u8>>> = match body_name {
            Some(b) => seq![split_on(b, 46)],
            None => Seq::empty(),
        };
        Some(head + path_names(ps).map_values(|n: Seq<u8>| split_on(n, 46)))
    }
}

pub open spec fn is_field_mask(sc: Schema, f: FieldShape) -> bool {
    f.kind matches FieldKind::Message(m) && sc.messages@[m as int].full_name@
        == "google.protobuf.FieldMask".spec_bytes()
}

/// The fields of `fs` from `i` on that are field masks.
pub open spec fn mask_fields(sc: Schema, fs: Seq<FieldShape>, i: int) -> Seq<int>
    decreases fs.len() - i,
{
    if i < 0 || i >= fs.len() {
        Seq::empty()
    } else if is_field_mask(sc, fs[i]) {
        seq![i] + mask_fields(sc, fs, i + 1)
    } else {
        mask_fields(sc, fs, i + 1)
    }
}

/// The field `PATCH` fills from the body's keys, when there is one.
pub open spec fn spec_patch_mask(
    sc: Schema,
    input: int,
    body: BodySelector,
    body_text: Seq<u8>,
    http_method: Seq<u8>,
    allow_patch: bool,
) -> Result<Option<int>, BindingErrorV> {
    let fs = sc.messages@[input].fields@;
    match body {
        BodySelector::Field(b) => if allow_patch && http_method == "PATCH".spec_bytes() {
            let masks = mask_fields(sc, fs, 0);
            if masks.len() == 1 {
                let mask = fs[masks[0]];
                let bf = fs[b as int];
                if mask.is_list || !(bf.kind is Message) || bf.is_list || bf.is_map {
                    Err(BindingErrorV::UnsupportedPatchBody(body_text))
                } else {
                    Ok(Some(masks[0]))
                }
            } else {
                Ok(None)
            }
        } else {
            Ok(None)
        },
        _ => Ok(None),
    }
}

/// A binding as plain values.
pub struct PlanV {
    pub input: int,
    pub output: int,
    pub http_method: Seq<u8>,
    pub path_fields: Seq<PathFieldV>,
    pub body: BodySelector,
    pub response_body: Seq<(int, int)>,
    pub query_filter: Option<Seq<Seq<Seq<u8>>>>,
    pub patch_mask: Option<int>,
    pub separator: u8,
}

/// `RequestBinding::new`: the decisions for a rule, or the first refusal.
pub open spec fn spec_new_binding(
    sc: Schema,
    input: int,
    output: int,
    http_method: Seq<u8>,
    template_fields: Seq<Seq<u8>>,
    body: Seq<u8>,
    response_body: Seq<u8>,
    options: BindingOptions,
) -> Result<PlanV, BindingErrorV> {
    if sc.messages@[input].proto2 {
        Err(BindingErrorV::Proto2(sc.messages@[input].full_name@))
    } else {
        match spec_path_fields(sc, input, template_fields, 0) {
            Err(e) => Err(e),
            Ok(ps) => match spec_body(sc, input, body) {
                Err(e) => Err(e),
                Ok(sel) => match spec_response_body(sc, output, response_body) {
                    Err(e) => Err(e),
                    Ok(rb) => match spec_patch_mask(sc, input, sel, body, http_method, options.allow_patch_feature) {
                        Err(e) => Err(e),
                        Ok(mask) => Ok(
                            PlanV {
                                input,
                                output,
                                http_method,
                                path_fields: ps,
                                body: sel,
                                response_body: rb,
                                query_filter: spec_query_filter(sc.messages@[input].fields@, sel, ps),
                                patch_mask: mask,
                                separator: options.repeated_path_param_separator,
                            },
                        ),
                    },
                },
            },
        }
    }
}


pub open spec fn path_fields_view(ps: Seq<PathField>) -> Seq<PathFieldV> {
    ps.map_values(|p: PathField| path_field_view(p))
}

pub open spec fn filter_view(f: Option<Vec<Vec<Vec<u8>>>>) -> Option<Seq<Seq<Seq<u8>>>> {
    match f {
        Some(v) => Some(v@.map_values(|x: Vec<Vec<u8>>| view_tokens(x@))),
        None => None,
    }
}

fn path_field(schema: &Schema, input: usize, name: &[u8]) -> (r: Result<PathField, BindingError>)
    requires
        schema.wf(),
        input < schema.messages@.len(),
    ensures
        match r {
            Ok(p) => spec_path_field(*schema, input as int, name@) == Ok::<PathFieldV, BindingErrorV>(path_field_view(p))
                && p.fields@.len() >= 1,
            Err(e) => spec_path_field(*schema, input as int, name@) == Err::<PathFieldV, BindingErrorV>(binding_error_v(e)),
        },
{
    let fields = resolve(schema, input, name, true)?;
    let (m, f) = fields[fields.len() - 1];
    let target = &schema.messages[m].fields[f];
    assert(steps_v(fields@).last() == (m as int, f as int));
    if let FieldKind::Message(t) = target.kind {
        assert(t < schema.messages@.len());
        if !has_runtime_converter(schema.messages[t].full_name.as_slice()) {
            return Err(BindingError::MessageInPath { path: copy_bytes(name) });
        }
    }
    let is_message = matches!(target.kind, FieldKind::Message(_));
    let conv = if fields.len() == 1 {
        if target.is_list && is_message {
            return Err(BindingError::UnsupportedPathType { path: copy_bytes(name) });
        }
        PathConv::Top { repeated: target.is_list }
    } else {
        PathConv::Nested { reparse_enum: matches!(target.kind, FieldKind::Enum(_)) }
    };
    Ok(PathField { name: copy_bytes(name), fields, conv })
}

fn body_selector(schema: &Schema, input: usize, body: &[u8]) -> (r: Result<BodySelector, BindingError>)
    requires
        schema.wf(),
        input < schema.messages@.len(),
    ensures
        match r {
            Ok(b) => spec_body(*schema, input as int, body@) == Ok::<BodySelector, BindingErrorV>(b) && (b matches BodySelector::Field(f) ==> f < schema.messages@[input as int].fields@.len()),
            Err(e) => spec_body(*schema, input as int, body@) == Err::<BodySelector, BindingErrorV>(binding_error_v(e)),
        },
{
    if body.len() == 0 {
        return Ok(BodySelector::NoBody);
    }
    if body.len() == 1 && body[0] == 42 {
        assert(body@ =~= seq![42u8]);
        return Ok(BodySelector::Whole);
    }
    assert(body@ != seq![42u8]) by {
        if body@ == seq![42u8] {
            assert(body@[0] == 42 && body@.len() == 1);
        }
    }
    let fields = resolve(schema, input, body, false)?;
    if fields.len() > 1 {
        return Err(BindingError::NestedBodyField { path: copy_bytes(body) });
    }
    proof {
        let fs = steps_v(fields@);
        assert(fs[0].1 == fields@[0].1 as int);
        assert(fs[0].0 == input) by {
            crate::request::form::lemma_split_on_nonempty(body@, 46);
        }
    }
    Ok(BodySelector::Field(fields[0].1))
}

fn names_contain(ps: &Vec<PathField>, name: &[u8]) -> (r: bool)
    ensures
        r == path_names(path_fields_view(ps@)).contains(name@),
{
    let ghost names = path_names(path_fields_view(ps@));
    let mut i: usize = 0;
    while i < ps.len()
        invariant
            i <= ps@.len(),
            names == path_names(path_fields_view(ps@)),
            names.len() == ps@.len(),
            forall|k: int| 0 <= k < i ==> names[k] != name@,
        decreases ps@.len() - i,
    {
        assert(names[i as int] == ps@[i as int].name@);
        if bytes_eq(ps[i].name.as_slice(), name) {
            assert(names[i as int] == name@);
            return true;
        }
        i = i + 1;
    }
    assert(!names.contains(name@));
    false
}

fn query_filter(fs: &Vec<FieldShape>, body: BodySelector, ps: &Vec<PathField>) -> (r: Option<Vec<Vec<Vec<u8>>>>)
    requires
        body matches BodySelector::Field(b) ==> b < fs@.len(),
    ensures
        filter_view(r) == spec_query_filter(fs@, body, path_fields_view(ps@)),
{
    if matches!(body, BodySelector::Whole) {
        return None;
    }
    let ghost body_name: Option<Seq<u8>> = match body {
        BodySelector::Field(f) => Some(fs@[f as int].name@),
        _ => None,
    };
    let ghost names = path_names(path_fields_view(ps@));
    let mut remaining = false;
    let mut i: usize = 0;
    while i < fs.len() && !remaining
        invariant
            i <= fs@.len(),
            body matches BodySelector::Field(b) ==> b < fs@.len(),
            body_name == (match body {
                BodySelector::Field(f) => Some(fs@[f as int].name@),
                _ => None,
            }),
            names == path_names(path_fields_view(ps@)),
            remaining ==> has_query_param(fs@, body_name, names),
            !remaining ==> forall|k: int| 0 <= k < i ==> !(body_name != Some(#[trigger] fs@[k].name@) && !names.contains(fs@[k].name@)),
        decreases fs@.len() - i,
    {
        let is_body = match body {
            BodySelector::Field(b) => bytes_eq(fs[b].name.as_slice(), fs[i].name.as_slice()),
            _ => false,
        };
        if !is_body && !names_contain(ps, fs[i].name.as_slice()) {
            remaining = true;
            assert(body_name != Some(fs@[i as int].name@) && !names.contains(fs@[i as int].name@));
        }
        i = i + 1;
    }
    if !remaining {
        return None;
    }
    let mut out: Vec<Vec<Vec<u8>>> = Vec::new();
    if let BodySelector::Field(b) = body {
        out.push(split_bytes(fs[b].name.as_slice(), 46));
    }
    let ghost head = out@.map_values(|x: Vec<Vec<u8>>| view_tokens(x@));
    let mut k: usize = 0;
    while k < ps.len()
        invariant
            k <= ps@.len(),
            names == path_names(path_fields_view(ps@)),
            names.len() == ps@.len(),
            out@.map_values(|x: Vec<Vec<u8>>| view_tokens(x@)) == head + names.subrange(0, k as int).map_values(
                |n: Seq<u8>| split_on(n, 46),
            ),
        decreases ps@.len() - k,
    {
        let ghost before = out@.map_values(|x: Vec<Vec<u8>>| view_tokens(x@));
        let piece = split_bytes(ps[k].name.as_slice(), 46);
        out.push(piece);
        assert(names[k as int] == ps@[k as int].name@);
        assert(out@.map_values(|x: Vec<Vec<u8>>| view_tokens(x@)) =~= before.push(split_on(names[k as int], 46)));
        assert(names.subrange(0, k + 1).map_values(|n: Seq<u8>| split_on(n, 46)) =~= names.subrange(0, k as int).map_values(
            |n: Seq<u8>| split_on(n, 46),
        ).push(split_on(names[k as int], 46)));
        k = k + 1;
    }
    assert(names.subrange(0, ps@.len() as int) =~= names);
    proof {
        match body {
            BodySelector::Field(b) => assert(head =~= seq![split_on(fs@[b as int].name@, 46)]),
            _ => assert(head =~= Seq::<Seq<Seq<u8>>>::empty()),
        }
    }
    Some(out)
}

fn is_mask(schema: &Schema, f: &FieldShape) -> (r: bool)
    requires
        f.kind matches FieldKind::Message(t) ==> t < schema.messages@.len(),
    ensures
        r == is_field_mask(*schema, *f),
{
    match f.kind {
        FieldKind::Message(t) => bytes_eq(schema.messages[t].full_name.as_slice(), "google.protobuf.FieldMask".as_bytes()),
        _ => false,
    }
}

fn patch_mask(schema: &Schema, input: usize, body: BodySelector, body_text: &[u8], http_method: &[u8], allow_patch: bool) -> (r: Result<Option<usize>, BindingError>)
    requires
        schema.wf(),
        input < schema.messages@.len(),
        body matches BodySelector::Field(b) ==> b < schema.messages@[input as int].fields@.len(),
    ensures
        match r {
            Ok(m) => spec_patch_mask(*schema, input as int, body, body_text@, http_method@, allow_patch) == Ok::<Option<int>, BindingErrorV>(
                match m {
                    Some(i) => Some(i as int),
                    None => None,
                },
            ),
            Err(e) => spec_patch_mask(*schema, input as int, body, body_text@, http_method@, allow_patch) == Err::<Option<int>, BindingErrorV>(binding_error_v(e)),
        },
{
    let b = match body {
        BodySelector::Field(b) => b,
        _ => {
            return Ok(None);
        },
    };
    if !(allow_patch && bytes_eq(http_method, "PATCH".as_bytes())) {
        return Ok(None);
    }
    let fs = &schema.messages[input].fields;
    let mut masks: Vec<usize> = Vec::new();
    let mut i: usize = 0;
    while i < fs.len()
        invariant
            i <= fs@.len(),
            schema.wf(),
            input < schema.messages@.len(),
            fs@ == schema.messages@[input as int].fields@,
            masks@.map_values(|x: usize| x as int) + mask_fields(*schema, fs@, i as int) == mask_fields(*schema, fs@, 0),
            forall|k: int| 0 <= k < masks@.len() ==> #[trigger] masks@[k] < fs@.len(),
        decreases fs@.len() - i,
    {
        let ghost before = masks@.map_values(|x: usize| x as int);
        assert(fs@[i as int] == schema.messages@[input as int].fields@[i as int]);
        if is_mask(schema, &fs[i]) {
            masks.push(i);
            assert(masks@.map_values(|x: usize| x as int) =~= before.push(i as int));
            assert(before.push(i as int) + mask_fields(*schema, fs@, i + 1) =~= before + (seq![i as int] + mask_fields(*schema, fs@, i + 1)));
        }
        i = i + 1;
    }
    assert(masks@.map_values(|x: usize| x as int) + Seq::<int>::empty() =~= masks@.map_values(|x: usize| x as int));
    if masks.len() != 1 {
        return Ok(None);
    }
    let mask = &fs[masks[0]];
    let bf = &fs[b];
    assert(masks@.map_values(|x: usize| x as int)[0] == masks@[0] as int);
    if mask.is_list || !matches!(bf.kind, FieldKind::Message(_)) || bf.is_list || bf.is_map {
        return Err(BindingError::UnsupportedPatchBody { path: copy_bytes(body_text) });
    }
    Ok(Some(masks[0]))
}

/// The request step of one generated handler.
#[derive(Debug, Clone, PartialEq, Eq)]
pub struct RequestBinding {
    input: usize,
    output: usize,
    http_method: Vec<u8>,
    path_fields: Vec<PathField>,
    body: BodySelector,
    response_body: Vec<(usize, usize)>,
    /// `None` when the generated handler never parses the query.
    query_filter: Option<Vec<Vec<Vec<u8>>>>,
    patch_mask: Option<usize>,
    separator: u8,
}

impl RequestBinding {
    /// The binding as plain values.
    pub closed spec fn plan(&self) -> PlanV {
        PlanV {
            input: self.input as int,
            output: self.output as int,
            http_method: self.http_method@,
            path_fields: path_fields_view(self.path_fields@),
            body: self.body,
            response_body: steps_v(self.response_body@),
            query_filter: filter_view(self.query_filter),
            patch_mask: match self.patch_mask {
                Some(i) => Some(i as int),
                None => None,
            },
            separator: self.separator,
        }
    }

    /// Binds `template`, `body` and `response_body` (as written in the rule)
    /// to the RPC whose request is message `input` and whose response is
    /// message `output`.
    pub fn new(
        schema: &Schema,
        input: usize,
        output: usize,
        http_method: &str,
        template: &PathTemplate,
        body: &str,
        response_body: &str,
        options: &BindingOptions,
    ) -> (r: Result<RequestBinding, BindingError>)
        requires
            schema.wf(),
            input < schema.messages@.len(),
            output < schema.messages@.len(),
        ensures
            match r {
                Ok(b) => spec_new_binding(
                    *schema,
                    input as int,
                    output as int,
                    http_method.spec_bytes(),
                    fields_of(template.segs()),
                    body.spec_bytes(),
                    response_body.spec_bytes(),
                    *options,
                ) == Ok::<PlanV, BindingErrorV>(b.plan()),
                Err(e) => spec_new_binding(
                    *schema,
                    input as int,
                    output as int,
                    http_method.spec_bytes(),
                    fields_of(template.segs()),
                    body.spec_bytes(),
                    response_body.spec_bytes(),
                    *options,
                ) == Err::<PlanV, BindingErrorV>(binding_error_v(e)),
            },
    {
        let msg = &schema.messages[input];
        if msg.proto2 {
            return Err(BindingError::Proto2 { message: copy_bytes(msg.full_name.as_slice()) });
        }
        let names = template.fields();
        let ghost ns = view_tokens(names@);
        let mut path_fields: Vec<PathField> = Vec::new();
        let mut k: usize = 0;
        assert(path_fields_view(path_fields@) =~= Seq::<PathFieldV>::empty());
        while k < names.len()
            invariant
                k <= names@.len(),
                schema.wf(),
                input < schema.messages@.len(),
                ns == view_tokens(names@),
                ns == fields_of(template.segs()),
                !schema.messages@[input as int].proto2,
                spec_path_fields(*schema, input as int, ns, 0) == match spec_path_fields(*schema, input as int, ns, k as int) {
                    Ok(rest) => Ok(path_fields_view(path_fields@) + rest),
                    Err(e) => Err::<Seq<PathFieldV>, BindingErrorV>(e),
                },
            decreases names@.len() - k,
        {
            assert(names@[k as int]@ == ns[k as int]);
            let p = path_field(schema, input, names[k].as_slice())?;
            let ghost before = path_fields_view(path_fields@);
            let ghost pv = path_field_view(p);
            path_fields.push(p);
            proof {
                assert(path_fields_view(path_fields@) =~= before.push(pv));
                match spec_path_fields(*schema, input as int, ns, k + 1) {
                    Ok(rest) => assert(before + (seq![pv] + rest) =~= before.push(pv) + rest),
                    Err(_) => {},
                }
            }
            k = k + 1;
        }
        assert(path_fields_view(path_fields@) + Seq::<PathFieldV>::empty() =~= path_fields_view(path_fields@));
        let body_sel = body_selector(schema, input, body.as_bytes())?;
        let rb = response_body.as_bytes();
        let response: Vec<(usize, usize)> = if rb.len() == 0 || (rb.len() == 1 && rb[0] == 42) {
            proof {
                if rb.len() == 1 {
                    assert(rb@ =~= seq![42u8]);
                }
            }
            Vec::new()
        } else {
            assert(rb@ != seq![42u8]) by {
                if rb@ == seq![42u8] {
                    assert(rb@[0] == 42 && rb@.len() == 1);
                }
            }
            resolve(schema, output, rb, false)?
        };
        assert(spec_response_body(*schema, output as int, rb@) == Ok::<Seq<(int, int)>, BindingErrorV>(steps_v(response@))) by {
            if rb@.len() == 0 || rb@ == seq![42u8] {
                assert(steps_v(response@) =~= Seq::<(int, int)>::empty());
            }
        }
        let mask = patch_mask(schema, input, body_sel, body.as_bytes(), http_method.as_bytes(), options.allow_patch_feature)?;
        let filter = query_filter(&msg.fields, body_sel, &path_fields);
        Ok(
            RequestBinding {
                input,
                output,
                http_method: copy_bytes(http_method.as_bytes()),
                path_fields,
                body: body_sel,
                response_body: response,
                query_filter: filter,
                patch_mask: mask,
                separator: options.repeated_path_param_separator,
            },
        )
    }

    /// The HTTP method of the rule.
    pub fn http_method(&self) -> (r: &[u8])
        ensures
            r@ == self.plan().http_method,
    {
        self.http_method.as_slice()
    }

    /// The request and response messages.
    pub fn method(&self) -> (r: (usize, usize))
        ensures
            r.0 == self.plan().input && r.1 == self.plan().output,
    {
        (self.input, self.output)
    }

    /// Where the body goes.
    pub fn body(&self) -> (r: BodySelector)
        ensures
            r == self.plan().body,
    {
        self.body
    }

    /// The path variables, in the template's order.
    pub fn path_fields(&self) -> (r: &[PathField])
        ensures
            path_fields_view(r@) == self.plan().path_fields,
    {
        self.path_fields.as_slice()
    }

    /// The response field the writer encodes (`response_body`), outermost
    /// first; empty for the whole response.
    pub fn response_body(&self) -> (r: &[(usize, usize)])
        ensures
            steps_v(r@) == self.plan().response_body,
    {
        self.response_body.as_slice()
    }

    /// Whether the generated handler parses the query at all.
    pub fn reads_query(&self) -> (r: bool)
        ensures
            r == self.plan().query_filter is Some,
    {
        self.query_filter.is_some()
    }

    /// The field `PATCH` fills from the body's keys when the client sent no
    /// mask.
    pub fn patch_field_mask(&self) -> (r: Option<usize>)
        ensures
            r matches Some(i) ==> self.plan().patch_mask == Some(i as int),
            r is None ==> self.plan().patch_mask is None,
    {
        self.patch_mask
    }

    /// The separator of a repeated path variable.
    pub fn separator(&self) -> (r: u8)
        ensures
            r == self.plan().separator,
    {
        self.separator
    }
}


/// The last `[` in `key`, or -1.
pub open spec fn last_open(key: Seq<u8>, j: int) -> int
    decreases j,
{
    if j <= 0 {
        -1
    } else if key[j - 1] == 91 {
        j - 1
    } else {
        last_open(key, j - 1)
    }
}

/// The part of `regexp.MustCompile(`^(.*)\[(.*)\]$`)` that matters: `.`
/// does not match a newline, and the first group is greedy.
pub open spec fn spec_split_map_key(key: Seq<u8>) -> Option<(Seq<u8>, Seq<u8>)> {
    if key.contains(10u8) || key.len() == 0 || key.last() != 93 {
        None
    } else {
        let open = last_open(key, key.len() as int);
        if open < 0 {
            None
        } else {
            Some((key.subrange(0, open), key.subrange(open + 1, key.len() - 1)))
        }
    }
}

proof fn lemma_last_open(key: Seq<u8>, j: int)
    requires
        0 <= j <= key.len(),
    ensures
        -1 <= last_open(key, j) < j,
        last_open(key, j) >= 0 ==> key[last_open(key, j)] == 91,
    decreases j,
{
    if j > 0 && key[j - 1] != 91 {
        lemma_last_open(key, j - 1);
    }
}

/// A query key `a[b]`, as `a` and the map key `b`.
pub fn split_map_key(key: &[u8]) -> (r: Option<(&[u8], &[u8])>)
    ensures
        match r {
            Some((k, m)) => spec_split_map_key(key@) == Some((k@, m@)),
            None => spec_split_map_key(key@) is None,
        },
{
    let mut i: usize = 0;
    while i < key.len()
        invariant
            i <= key@.len(),
            forall|k: int| 0 <= k < i ==> key@[k] != 10,
        decreases key@.len() - i,
    {
        if key[i] == 10 {
            assert(key@.contains(10u8));
            return None;
        }
        i = i + 1;
    }
    assert(!key@.contains(10u8));
    let n = key.len();
    if n == 0 || key[n - 1] != 93 {
        return None;
    }
    let mut j = n;
    while j > 0 && key[j - 1] != 91
        invariant
            j <= n,
            n == key@.len(),
            last_open(key@, n as int) == last_open(key@, j as int),
        decreases j,
    {
        j = j - 1;
    }
    if j == 0 {
        return None;
    }
    proof {
        lemma_last_open(key@, n as int);
    }
    let open = j - 1;
    Some((vstd::slice::slice_subrange(key, 0, open), vstd::slice::slice_subrange(key, open + 1, n - 1)))
}

/// The first field whose JSON name is `name` from `i` on.
pub open spec fn find_json(fs: Seq<FieldShape>, name: Seq<u8>, i: int) -> int
    decreases fs.len() - i,
{
    if i < 0 || i >= fs.len() {
        fs.len() as int
    } else if fs[i].json_name@ == name {
        i
    } else {
        find_json(fs, name, i + 1)
    }
}

/// A field by its proto name, else by its JSON name.
pub open spec fn lookup_field(fs: Seq<FieldShape>, name: Seq<u8>) -> int {
    let i = find_field(fs, name, 0);
    if i < fs.len() {
        i
    } else {
        find_json(fs, name, 0)
    }
}

/// The proto names of a path from the `k`-th component, starting in `msg`;
/// `None` as soon as a component is unknown or passes through something
/// that is not a singular message.
pub open spec fn normalize_from(sc: Schema, msg: int, path: Seq<Seq<u8>>, k: int) -> Option<Seq<Seq<u8>>>
    decreases path.len() - k,
{
    if k < 0 || k >= path.len() {
        Some(Seq::empty())
    } else if !(0 <= msg < sc.messages@.len()) || !utf8_valid(path[k]) {
        None
    } else {
        let fs = sc.messages@[msg].fields@;
        let f = lookup_field(fs, path[k]);
        if f >= fs.len() {
            None
        } else if k == path.len() - 1 {
            Some(seq![fs[f].name@])
        } else {
            match fs[f].kind {
                FieldKind::Message(m) => if fs[f].is_list || fs[f].is_map {
                    None
                } else {
                    match normalize_from(sc, m as int, path, k + 1) {
                        Some(rest) => Some(seq![fs[f].name@] + rest),
                        None => None,
                    }
                },
                _ => None,
            }
        }
    }
}

/// `runtime.normalizeFieldPath`.
pub open spec fn spec_normalize_path(sc: Schema, msg: int, path: Seq<Seq<u8>>) -> Seq<Seq<u8>> {
    match normalize_from(sc, msg, path, 0) {
        Some(v) => v,
        None => path,
    }
}

pub(crate) fn find_json_at(fs: &Vec<FieldShape>, name: &[u8]) -> (r: usize)
    ensures
        r == find_json(fs@, name@, 0),
        r <= fs@.len(),
{
    let mut i: usize = 0;
    while i < fs.len()
        invariant
            i <= fs@.len(),
            find_json(fs@, name@, 0) == find_json(fs@, name@, i as int),
        decreases fs@.len() - i,
    {
        if bytes_eq(fs[i].json_name.as_slice(), name) {
            return i;
        }
        i = i + 1;
    }
    i
}

/// A field by its proto name, else by its JSON name; the number of fields
/// when neither names one.
pub(crate) fn lookup_field_at(fs: &Vec<FieldShape>, name: &[u8]) -> (r: usize)
    ensures
        r == lookup_field(fs@, name@),
        r <= fs@.len(),
{
    let i = find_field_at(fs, name);
    if i < fs.len() {
        i
    } else {
        find_json_at(fs, name)
    }
}

/// `runtime.normalizeFieldPath`: proto names for known fields, or the path
/// as given as soon as one component is unknown or not a singular message.
pub fn normalize_field_path(schema: &Schema, msg: usize, path: &Vec<Vec<u8>>) -> (r: Vec<Vec<u8>>)
    requires
        schema.wf(),
        msg < schema.messages@.len(),
    ensures
        view_tokens(r@) == spec_normalize_path(*schema, msg as int, view_tokens(path@)),
{
    let ghost p = view_tokens(path@);
    let mut out: Vec<Vec<u8>> = Vec::new();
    let mut m = msg;
    let mut k: usize = 0;
    assert(view_tokens(out@) =~= Seq::<Seq<u8>>::empty());
    while k < path.len()
        invariant
            schema.wf(),
            m < schema.messages@.len(),
            k <= path@.len(),
            p == view_tokens(path@),
            out@.len() == k,
            normalize_from(*schema, msg as int, p, 0) == match normalize_from(*schema, m as int, p, k as int) {
                Some(rest) => Some(view_tokens(out@) + rest),
                None => None::<Seq<Seq<u8>>>,
            },
        decreases path@.len() - k,
    {
        let name = path[k].as_slice();
        assert(name@ == p[k as int]);
        if !valid_utf8(name) {
            return copy_tokens(path);
        }
        let fs = &schema.messages[m].fields;
        let mut f = find_field_at(fs, name);
        if f >= fs.len() {
            f = find_json_at(fs, name);
        }
        if f >= fs.len() {
            return copy_tokens(path);
        }
        let ghost before = view_tokens(out@);
        out.push(copy_bytes(fs[f].name.as_slice()));
        assert(view_tokens(out@) =~= before.push(fs@[f as int].name@));
        if k == path.len() - 1 {
            assert(before + seq![fs@[f as int].name@] =~= view_tokens(out@));
            assert(view_tokens(out@) + Seq::<Seq<u8>>::empty() =~= view_tokens(out@));
            return out;
        }
        match fs[f].kind {
            FieldKind::Message(t) => {
                if fs[f].is_list || fs[f].is_map {
                    return copy_tokens(path);
                }
                proof {
                    assert(fs@[f as int] == schema.messages@[m as int].fields@[f as int]);
                    match normalize_from(*schema, t as int, p, k + 1) {
                        Some(rest) => assert(before + (seq![fs@[f as int].name@] + rest) =~= view_tokens(out@) + rest),
                        None => {},
                    }
                }
                m = t;
            },
            _ => {
                return copy_tokens(path);
            },
        }
        k = k + 1;
    }
    assert(view_tokens(out@) + Seq::<Seq<u8>>::empty() =~= view_tokens(out@));
    out
}

fn copy_tokens(v: &Vec<Vec<u8>>) -> (r: Vec<Vec<u8>>)
    ensures
        view_tokens(r@) == view_tokens(v@),
{
    let mut out: Vec<Vec<u8>> = Vec::new();
    let mut i: usize = 0;
    while i < v.len()
        invariant
            i <= v@.len(),
            view_tokens(out@) == view_tokens(v@).subrange(0, i as int),
        decreases v@.len() - i,
    {
        let ghost before = view_tokens(out@);
        let c = copy_bytes(v[i].as_slice());
        out.push(c);
        assert(view_tokens(out@) =~= before.push(c@));
        assert(view_tokens(v@).subrange(0, i + 1) =~= view_tokens(v@).subrange(0, i as int).push(v@[i as int]@));
        i = i + 1;
    }
    assert(view_tokens(v@).subrange(0, v@.len() as int) =~= view_tokens(v@));
    out
}

/// Whether a filter entry is a prefix of the path.
pub open spec fn is_prefix_of(a: Seq<Seq<u8>>, b: Seq<Seq<u8>>) -> bool {
    a.len() <= b.len() && forall|j: int| 0 <= j < a.len() ==> #[trigger] a[j] == b[j]
}

/// Whether the query key's path starts with a path variable or the body
/// field: grpc-gateway then ignores it.
pub open spec fn filtered(filter: Seq<Seq<Seq<u8>>>, path: Seq<Seq<u8>>) -> bool {
    exists|i: int| 0 <= i < filter.len() && is_prefix_of(#[trigger] filter[i], path)
}

fn prefix_of(a: &Vec<Vec<u8>>, b: &Vec<Vec<u8>>) -> (r: bool)
    ensures
        r == is_prefix_of(view_tokens(a@), view_tokens(b@)),
{
    if a.len() > b.len() {
        return false;
    }
    let mut j: usize = 0;
    while j < a.len()
        invariant
            j <= a@.len() <= b@.len(),
            forall|k: int| 0 <= k < j ==> view_tokens(a@)[k] == view_tokens(b@)[k],
        decreases a@.len() - j,
    {
        if !bytes_eq(a[j].as_slice(), b[j].as_slice()) {
            assert(view_tokens(a@)[j as int] != view_tokens(b@)[j as int]);
            return false;
        }
        j = j + 1;
    }
    true
}

/// What `DefaultQueryParser.Parse` makes of one query key and its values:
/// `None` when the key is ignored, else the field path it fills and the
/// values (a map key first, for `a[b]`).
pub open spec fn spec_query_target(
    sc: Schema,
    input: int,
    filter: Seq<Seq<Seq<u8>>>,
    key: Seq<u8>,
    values: Seq<Seq<u8>>,
) -> Option<(Seq<Seq<u8>>, Seq<Seq<u8>>)> {
    let (k, vals) = match spec_split_map_key(key) {
        Some((k, mk)) => (k, seq![mk] + values),
        None => (key, values),
    };
    let norm = spec_normalize_path(sc, input, split_on(k, 46));
    if filtered(filter, norm) {
        None
    } else {
        Some((norm, vals))
    }
}

impl RequestBinding {
    /// Where one query key goes: `None` when the handler does not read the
    /// query or ignores this key, else the field path and the values.
    pub fn query_field(&self, schema: &Schema, key: &[u8], values: &[Vec<u8>]) -> (r: Option<(Vec<Vec<u8>>, Vec<Vec<u8>>)>)
        requires
            schema.wf(),
            self.plan().input < schema.messages@.len(),
        ensures
            match r {
                Some((path, vals)) => self.plan().query_filter matches Some(f) && spec_query_target(
                    *schema,
                    self.plan().input,
                    f,
                    key@,
                    view_tokens(values@),
                ) == Some((view_tokens(path@), view_tokens(vals@))),
                None => match self.plan().query_filter {
                    Some(f) => spec_query_target(*schema, self.plan().input, f, key@, view_tokens(values@)) is None,
                    None => true,
                },
            },
    {
        let filter = match &self.query_filter {
            Some(f) => f,
            None => {
                return None;
            },
        };
        let mut vals: Vec<Vec<u8>> = Vec::new();
        let k: &[u8] = match split_map_key(key) {
            Some((k, mk)) => {
                vals.push(copy_bytes(mk));
                k
            },
            None => key,
        };
        let ghost head = view_tokens(vals@);
        let mut i: usize = 0;
        while i < values.len()
            invariant
                i <= values@.len(),
                view_tokens(vals@) == head + view_tokens(values@).subrange(0, i as int),
            decreases values@.len() - i,
        {
            let ghost before = view_tokens(vals@);
            let c = copy_bytes(values[i].as_slice());
            vals.push(c);
            assert(view_tokens(vals@) =~= before.push(c@));
            assert(view_tokens(values@).subrange(0, i + 1) =~= view_tokens(values@).subrange(0, i as int).push(
                values@[i as int]@,
            ));
            assert(head + view_tokens(values@).subrange(0, i + 1) =~= (head + view_tokens(values@).subrange(0, i as int)).push(
                values@[i as int]@,
            ));
            i = i + 1;
        }
        assert(view_tokens(values@).subrange(0, values@.len() as int) =~= view_tokens(values@));
        proof {
            if head.len() == 0 {
                assert(head + view_tokens(values@) =~= view_tokens(values@));
            }
        }
        let path = split_bytes(k, 46);
        let norm = normalize_field_path(schema, self.input, &path);
        let ghost fv = filter@.map_values(|x: Vec<Vec<u8>>| view_tokens(x@));
        let mut j: usize = 0;
        let mut hit = false;
        while j < filter.len() && !hit
            invariant
                j <= filter@.len(),
                fv == filter@.map_values(|x: Vec<Vec<u8>>| view_tokens(x@)),
                hit ==> filtered(fv, view_tokens(norm@)),
                !hit ==> forall|q: int| 0 <= q < j ==> !is_prefix_of(#[trigger] fv[q], view_tokens(norm@)),
            decreases filter@.len() - j,
        {
            if prefix_of(&filter[j], &norm) {
                assert(is_prefix_of(fv[j as int], view_tokens(norm@)));
                hit = true;
            }
            j = j + 1;
        }
        if hit {
            return None;
        }
        assert(!filtered(fv, view_tokens(norm@)));
        Some((norm, vals))
    }
}

} // verus!
