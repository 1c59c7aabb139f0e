//! Turning the text of a path variable or a query value into a field's
//! value: the converters grpc-gateway's generated code calls for a
//! top-level path variable (`runtime.Int32`, `runtime.Enum`,
//! `runtime.Timestamp`, …), and `runtime.parseField`, which the query parser
//! and `runtime.PopulateFieldFromPath` apply.
//!
//! Three values are handed on as text: a float (Go's `strconv.ParseFloat`
//! reads it), a `time.ParseDuration` duration (its last step is in floating
//! point) and a `Struct` or `Value` (the protojson codec reads it).
use vstd::prelude::*;
use vstd::string::StringSliceAdditionalSpecFns;
use crate::bytes::{bytes_eq, copy_bytes, push_all, spec_decimal, strings_v};
use crate::request::binding::{has_converter, has_runtime_converter, EnumShape, FieldKind, ScalarKind, Schema};
use crate::request::form::{encode_runes, lossy, lossy_runes, split_bytes, split_on};
use crate::request::gotime::{
    parse_rfc3339_nano, runtime_duration, runtime_timestamp, spec_parse_rfc3339_nano, spec_runtime_duration,
    spec_runtime_timestamp, timestamp_is_valid, MAX_TIMESTAMP_SECONDS, MIN_TIMESTAMP_SECONDS,
};
use crate::request::strconv::{
    decode_from, num_error_text, parse_bool, parse_int, parse_uint, quote, runtime_bytes, spec_parse_bool,
    spec_parse_int, spec_parse_uint, spec_quote, Alphabet, NumErrorKind, NumFunc,
};
use crate::path::template::view_tokens;

verus! {

/// A field's value made from text, before it is stored in a message.
#[derive(Debug, PartialEq, Eq)]
pub enum Converted {
    Bool(bool),
    /// An enum's number.
    Enum(i32),
    I32(i32),
    I64(i64),
    U32(u32),
    U64(u64),
    /// A `float` (`bits` 32) or `double` (64), as the text Go's
    /// `strconv.ParseFloat` reads.
    Float { text: Vec<u8>, bits: u32 },
    /// A string, as received: it may not be UTF-8.
    String(Vec<u8>),
    Bytes(Vec<u8>),
    /// A `google.protobuf.Timestamp`.
    Timestamp { seconds: i64, nanos: i32 },
    /// A `google.protobuf.Duration`.
    Duration { seconds: i64, nanos: i32 },
    /// A `google.protobuf.Duration` as the text `time.ParseDuration` reads.
    DurationText(Vec<u8>),
    /// A wrapper message (`google.protobuf.Int32Value` and the like) around
    /// its value.
    Wrapper(Box<Converted>),
    /// A `google.protobuf.FieldMask`'s paths.
    FieldMask(Vec<Vec<u8>>),
    /// A `google.protobuf.Struct` or `Value`, as the JSON text the protojson
    /// codec reads.
    Json(Vec<u8>),
}

/// A [`Converted`] as a value of the logic.
pub enum ConvertedV {
    Bool(bool),
    Enum(int),
    I32(int),
    I64(int),
    U32(int),
    U64(int),
    Float(Seq<u8>, int),
    Str(Seq<u8>),
    Bytes(Seq<u8>),
    Timestamp(int, int),
    Duration(int, int),
    DurationText(Seq<u8>),
    Wrapper(Box<ConvertedV>),
    FieldMask(Seq<Seq<u8>>),
    Json(Seq<u8>),
}

pub open spec fn converted_v(c: Converted) -> ConvertedV
    decreases c,
{
    match c {
        Converted::Bool(b) => ConvertedV::Bool(b),
        Converted::Enum(n) => ConvertedV::Enum(n as int),
        Converted::I32(n) => ConvertedV::I32(n as int),
        Converted::I64(n) => ConvertedV::I64(n as int),
        Converted::U32(n) => ConvertedV::U32(n as int),
        Converted::U64(n) => ConvertedV::U64(n as int),
        Converted::Float { text, bits } => ConvertedV::Float(text@, bits as int),
        Converted::String(s) => ConvertedV::Str(s@),
        Converted::Bytes(b) => ConvertedV::Bytes(b@),
        Converted::Timestamp { seconds, nanos } => ConvertedV::Timestamp(seconds as int, nanos as int),
        Converted::Duration { seconds, nanos } => ConvertedV::Duration(seconds as int, nanos as int),
        Converted::DurationText(t) => ConvertedV::DurationText(t@),
        Converted::Wrapper(b) => ConvertedV::Wrapper(Box::new(converted_v(*b))),
        Converted::FieldMask(ps) => ConvertedV::FieldMask(strings_v(ps@)),
        Converted::Json(t) => ConvertedV::Json(t@),
    }
}

/// `runtime.Bytes`: standard base64, else URL-safe; the error is the
/// URL-safe decoder's offset.
pub open spec fn spec_runtime_bytes(val: Seq<u8>) -> Result<Seq<u8>, int> {
    match decode_from(Alphabet::Std, val, 0) {
        Ok(v) => Ok(v),
        Err(_) => decode_from(Alphabet::Url, val, 0),
    }
}

pub open spec fn base64_error_text(offset: int) -> Seq<u8> {
    "illegal base64 data at input byte ".spec_bytes() + spec_decimal(offset as nat)
}

/// A scalar from text: `strconv` with base prefixes when `base0` (the
/// `runtime.<Kind>` converters) or plain decimal (`runtime.parseField`).
pub open spec fn spec_scalar(k: ScalarKind, val: Seq<u8>, base0: bool) -> Result<ConvertedV, Seq<u8>> {
    match k {
        ScalarKind::Bool => match spec_parse_bool(val) {
            Some(b) => Ok(ConvertedV::Bool(b)),
            None => Err(num_error_text(NumFunc::ParseBool, val, NumErrorKind::Syntax)),
        },
        ScalarKind::Int32 => match spec_parse_int(val, base0, 32) {
            Ok(n) => Ok(ConvertedV::I32(n)),
            Err(e) => Err(num_error_text(NumFunc::ParseInt, val, e)),
        },
        ScalarKind::Int64 => match spec_parse_int(val, base0, 64) {
            Ok(n) => Ok(ConvertedV::I64(n)),
            Err(e) => Err(num_error_text(NumFunc::ParseInt, val, e)),
        },
        ScalarKind::Uint32 => match spec_parse_uint(val, base0, 32) {
            Ok(n) => Ok(ConvertedV::U32(n)),
            Err(e) => Err(num_error_text(NumFunc::ParseUint, val, e)),
        },
        ScalarKind::Uint64 => match spec_parse_uint(val, base0, 64) {
            Ok(n) => Ok(ConvertedV::U64(n)),
            Err(e) => Err(num_error_text(NumFunc::ParseUint, val, e)),
        },
        ScalarKind::Float => Ok(ConvertedV::Float(val, 32)),
        ScalarKind::Double => Ok(ConvertedV::Float(val, 64)),
        ScalarKind::String => Ok(ConvertedV::Str(val)),
        ScalarKind::Bytes => match spec_runtime_bytes(val) {
            Ok(b) => Ok(ConvertedV::Bytes(b)),
            Err(off) => Err(base64_error_text(off)),
        },
    }
}

/// The first value of an enum named `name`, from the `i`-th on; the number
/// of values when there is none.
pub open spec fn find_enum_name(vs: Seq<(Vec<u8>, i32)>, name: Seq<u8>, i: int) -> int
    decreases vs.len() - i,
{
    if i < 0 || i >= vs.len() {
        vs.len() as int
    } else if vs[i].0@ == name {
        i
    } else {
        find_enum_name(vs, name, i + 1)
    }
}

/// Whether an enum declares the number `n`.
pub open spec fn declares(vs: Seq<(Vec<u8>, i32)>, n: int) -> bool {
    exists|i: int| 0 <= i < vs.len() && (#[trigger] vs[i]).1 == n
}

/// `String::from_utf8_lossy` of the bytes.
pub open spec fn lossy_text(s: Seq<u8>) -> Seq<u8> {
    encode_runes(lossy_runes(s))
}

/// `runtime.Enum`: a name, or a number (`strconv.ParseInt`, base prefixes
/// allowed, 32 bits) the enum declares.
pub open spec fn spec_runtime_enum(vs: Seq<(Vec<u8>, i32)>, val: Seq<u8>) -> Result<int, Seq<u8>> {
    let i = find_enum_name(vs, val, 0);
    if i < vs.len() {
        Ok(vs[i].1 as int)
    } else {
        match spec_parse_int(val, true, 32) {
            Ok(n) => if declares(vs, n) {
                Ok(n)
            } else {
                Err(lossy_text(val) + " is not valid".spec_bytes())
            },
            Err(_) => Err(lossy_text(val) + " is not valid".spec_bytes()),
        }
    }
}

/// `runtime.parseField` for an enum: a name, or a decimal 64-bit number
/// truncated to 32 bits that the enum declares.
pub open spec fn spec_enum_by_name_or_atoi(vs: Seq<(Vec<u8>, i32)>, val: Seq<u8>) -> Result<int, Seq<u8>> {
    let i = find_enum_name(vs, val, 0);
    if i < vs.len() {
        Ok(vs[i].1 as int)
    } else {
        match spec_parse_int(val, false, 64) {
            Ok(n) => if declares(vs, (n as i32) as int) {
                Ok((n as i32) as int)
            } else {
                Err(spec_quote(val) + " is not a valid value".spec_bytes())
            },
            Err(_) => Err(spec_quote(val) + " is not a valid value".spec_bytes()),
        }
    }
}

pub open spec fn wrap(r: Result<ConvertedV, Seq<u8>>) -> Result<ConvertedV, Seq<u8>> {
    match r {
        Ok(v) => Ok(ConvertedV::Wrapper(Box::new(v))),
        Err(e) => Err(e),
    }
}

/// `runtime.Timestamp`, `runtime.Duration` and the wrapper converters, for
/// a path variable of a well-known type.
pub open spec fn spec_runtime_message(full: Seq<u8>, val: Seq<u8>) -> Result<ConvertedV, Seq<u8>> {
    if full == "google.protobuf.Timestamp".spec_bytes() {
        match spec_runtime_timestamp(val) {
            Ok((s, n)) => Ok(ConvertedV::Timestamp(s, n)),
            Err(e) => Err(e),
        }
    } else if full == "google.protobuf.Duration".spec_bytes() {
        match spec_runtime_duration(val) {
            Ok((s, n)) => Ok(ConvertedV::Duration(s, n)),
            Err(e) => Err(e),
        }
    } else if full == "google.protobuf.StringValue".spec_bytes() {
        wrap(spec_scalar(ScalarKind::String, val, true))
    } else if full == "google.protobuf.FloatValue".spec_bytes() {
        wrap(spec_scalar(ScalarKind::Float, val, true))
    } else if full == "google.protobuf.DoubleValue".spec_bytes() {
        wrap(spec_scalar(ScalarKind::Double, val, true))
    } else if full == "google.protobuf.BoolValue".spec_bytes() {
        wrap(spec_scalar(ScalarKind::Bool, val, true))
    } else if full == "google.protobuf.BytesValue".spec_bytes() {
        wrap(spec_scalar(ScalarKind::Bytes, val, true))
    } else if full == "google.protobuf.Int32Value".spec_bytes() {
        wrap(spec_scalar(ScalarKind::Int32, val, true))
    } else if full == "google.protobuf.UInt32Value".spec_bytes() {
        wrap(spec_scalar(ScalarKind::Uint32, val, true))
    } else if full == "google.protobuf.Int64Value".spec_bytes() {
        wrap(spec_scalar(ScalarKind::Int64, val, true))
    } else {
        wrap(spec_scalar(ScalarKind::Uint64, val, true))
    }
}

/// `runtime.parseField` for a message field: the well-known types Go can
/// read from text, and the error for any other.
pub open spec fn spec_parse_message(full: Seq<u8>, val: Seq<u8>) -> Result<ConvertedV, Seq<u8>> {
    if full == "google.protobuf.Timestamp".spec_bytes() {
        match spec_parse_rfc3339_nano(val) {
            Err(m) => Err(m),
            Ok((s, n)) => if MIN_TIMESTAMP_SECONDS <= s <= MAX_TIMESTAMP_SECONDS && 0 <= n < 1_000_000_000 {
                Ok(ConvertedV::Timestamp(s, n))
            } else {
                Err(lossy_text(val) + " before 0001-01-01".spec_bytes())
            },
        }
    } else if full == "google.protobuf.Duration".spec_bytes() {
        Ok(ConvertedV::DurationText(val))
    } else if full == "google.protobuf.DoubleValue".spec_bytes() {
        wrap(spec_scalar(ScalarKind::Double, val, false))
    } else if full == "google.protobuf.FloatValue".spec_bytes() {
        wrap(spec_scalar(ScalarKind::Float, val, false))
    } else if full == "google.protobuf.Int64Value".spec_bytes() {
        wrap(spec_scalar(ScalarKind::Int64, val, false))
    } else if full == "google.protobuf.Int32Value".spec_bytes() {
        wrap(spec_scalar(ScalarKind::Int32, val, false))
    } else if full == "google.protobuf.UInt64Value".spec_bytes() {
        wrap(spec_scalar(ScalarKind::Uint64, val, false))
    } else if full == "google.protobuf.UInt32Value".spec_bytes() {
        wrap(spec_scalar(ScalarKind::Uint32, val, false))
    } else if full == "google.protobuf.BoolValue".spec_bytes() {
        wrap(spec_scalar(ScalarKind::Bool, val, false))
    } else if full == "google.protobuf.StringValue".spec_bytes() {
        wrap(spec_scalar(ScalarKind::String, val, false))
    } else if full == "google.protobuf.BytesValue".spec_bytes() {
        wrap(spec_scalar(ScalarKind::Bytes, val, false))
    } else if full == "google.protobuf.FieldMask".spec_bytes() {
        Ok(ConvertedV::FieldMask(split_on(val, 44)))
    } else if full == "google.protobuf.Value".spec_bytes() || full == "google.protobuf.Struct".spec_bytes() {
        Ok(ConvertedV::Json(val))
    } else {
        Err("unsupported message type: ".spec_bytes() + spec_quote(full))
    }
}

/// `runtime.parseField`: the conversion the query parser and
/// `runtime.PopulateFieldFromPath` apply to a field of `kind`.
pub open spec fn spec_parse_field(sc: Schema, kind: FieldKind, val: Seq<u8>) -> Result<ConvertedV, Seq<u8>> {
    match kind {
        FieldKind::Scalar(k) => spec_scalar(k, val, false),
        FieldKind::Enum(e) => match spec_enum_by_name_or_atoi(sc.enums@[e as int].values@, val) {
            Ok(n) => Ok(ConvertedV::Enum(n)),
            Err(m) => Err(m),
        },
        FieldKind::Message(m) => spec_parse_message(sc.messages@[m as int].full_name@, val),
    }
}

/// The converter grpc-gateway's generated code calls for a top-level path
/// variable of `kind`.
pub open spec fn spec_runtime_convert(sc: Schema, kind: FieldKind, val: Seq<u8>) -> Result<ConvertedV, Seq<u8>> {
    match kind {
        FieldKind::Scalar(k) => spec_scalar(k, val, true),
        FieldKind::Enum(e) => match spec_runtime_enum(sc.enums@[e as int].values@, val) {
            Ok(n) => Ok(ConvertedV::Enum(n)),
            Err(m) => Err(m),
        },
        FieldKind::Message(m) => spec_runtime_message(sc.messages@[m as int].full_name@, val),
    }
}

/// Whether the schema holds what `kind` names.
pub open spec fn kind_in(sc: Schema, kind: FieldKind) -> bool {
    &&& (kind matches FieldKind::Enum(e) ==> e < sc.enums@.len())
    &&& (kind matches FieldKind::Message(m) ==> m < sc.messages@.len())
}

fn scalar(k: ScalarKind, val: &[u8], base0: bool) -> (r: Result<Converted, Vec<u8>>)
    ensures
        match spec_scalar(k, val@, base0) {
            Ok(c) => r matches Ok(x) && converted_v(x) == c,
            Err(e) => r matches Err(m) && m@ == e,
        },
{
    match k {
        ScalarKind::Bool => match parse_bool(val) {
            Ok(b) => Ok(Converted::Bool(b)),
            Err(e) => Err(e.message()),
        },
        ScalarKind::Int32 => match parse_int(val, base0, 32) {
            Ok(n) => {
                proof {
                    crate::request::strconv::lemma_parse_int_range(val@, base0, 32);
                    crate::request::strconv::lemma_pow2_bound_32();
                }
                Ok(Converted::I32(n as i32))
            },
            Err(e) => Err(e.message()),
        },
        ScalarKind::Int64 => match parse_int(val, base0, 64) {
            Ok(n) => Ok(Converted::I64(n)),
            Err(e) => Err(e.message()),
        },
        ScalarKind::Uint32 => match parse_uint(val, base0, 32) {
            Ok(n) => {
                proof {
                    crate::request::strconv::lemma_parse_uint_range(val@, base0, 32);
                    crate::request::strconv::lemma_pow2_bound_32();
                }
                Ok(Converted::U32(n as u32))
            },
            Err(e) => Err(e.message()),
        },
        ScalarKind::Uint64 => match parse_uint(val, base0, 64) {
            Ok(n) => Ok(Converted::U64(n)),
            Err(e) => Err(e.message()),
        },
        ScalarKind::Float => Ok(Converted::Float { text: copy_bytes(val), bits: 32 }),
        ScalarKind::Double => Ok(Converted::Float { text: copy_bytes(val), bits: 64 }),
        ScalarKind::String => Ok(Converted::String(copy_bytes(val))),
        ScalarKind::Bytes => match runtime_bytes(val) {
            Ok(b) => Ok(Converted::Bytes(b)),
            Err(e) => Err(e.message()),
        },
    }
}

fn find_enum_name_at(vs: &Vec<(Vec<u8>, i32)>, name: &[u8]) -> (r: usize)
    ensures
        r == find_enum_name(vs@, name@, 0),
        r <= vs@.len(),
{
    let mut i: usize = 0;
    while i < vs.len()
        invariant
            i <= vs@.len(),
            find_enum_name(vs@, name@, 0) == find_enum_name(vs@, name@, i as int),
        decreases vs@.len() - i,
    {
        if bytes_eq(vs[i].0.as_slice(), name) {
            return i;
        }
        i = i + 1;
    }
    i
}

fn declares_number(vs: &Vec<(Vec<u8>, i32)>, n: i64) -> (r: bool)
    ensures
        r == declares(vs@, n as int),
{
    let mut i: usize = 0;
    while i < vs.len()
        invariant
            i <= vs@.len(),
            forall|j: int| 0 <= j < i ==> (#[trigger] vs@[j]).1 != n,
        decreases vs@.len() - i,
    {
        if vs[i].1 as i64 == n {
            return true;
        }
        i = i + 1;
    }
    false
}

/// `runtime.Enum`.
pub fn runtime_enum(e: &EnumShape, val: &[u8]) -> (r: Result<i32, Vec<u8>>)
    ensures
        match spec_runtime_enum(e.values@, val@) {
            Ok(n) => r matches Ok(x) && x == n,
            Err(m) => r matches Err(x) && x@ == m,
        },
{
    let i = find_enum_name_at(&e.values, val);
    if i < e.values.len() {
        return Ok(e.values[i].1);
    }
    let invalid = {
        let mut m = lossy(val);
        push_all(&mut m, " is not valid".as_bytes());
        m
    };
    match parse_int(val, true, 32) {
        Ok(n) => {
            if declares_number(&e.values, n) {
                proof {
                    crate::request::strconv::lemma_parse_int_range(val@, true, 32);
                    crate::request::strconv::lemma_pow2_bound_32();
                }
                Ok(n as i32)
            } else {
                Err(invalid)
            }
        },
        Err(_) => Err(invalid),
    }
}

fn enum_by_name_or_atoi(e: &EnumShape, val: &[u8]) -> (r: Result<i32, Vec<u8>>)
    ensures
        match spec_enum_by_name_or_atoi(e.values@, val@) {
            Ok(n) => r matches Ok(x) && x == n,
            Err(m) => r matches Err(x) && x@ == m,
        },
{
    let i = find_enum_name_at(&e.values, val);
    if i < e.values.len() {
        return Ok(e.values[i].1);
    }
    let invalid = {
        let mut m = quote(val);
        push_all(&mut m, " is not a valid value".as_bytes());
        m
    };
    match parse_int(val, false, 64) {
        Ok(n) => {
            let t = n as i32;
            if declares_number(&e.values, t as i64) {
                Ok(t)
            } else {
                Err(invalid)
            }
        },
        Err(_) => Err(invalid),
    }
}

fn wrapped(r: Result<Converted, Vec<u8>>) -> (w: Result<Converted, Vec<u8>>)
    ensures
        match r {
            Ok(c) => w matches Ok(x) && converted_v(x) == ConvertedV::Wrapper(Box::new(converted_v(c))),
            Err(e) => w matches Err(m) && m == e,
        },
{
    match r {
        Ok(c) => Ok(Converted::Wrapper(Box::new(c))),
        Err(e) => Err(e),
    }
}

fn is_name(full: &[u8], name: &str) -> (r: bool)
    ensures
        r == (full@ == name.spec_bytes()),
{
    bytes_eq(full, name.as_bytes())
}

fn runtime_message(full: &[u8], val: &[u8]) -> (r: Result<Converted, Vec<u8>>)
    ensures
        match spec_runtime_message(full@, val@) {
            Ok(c) => r matches Ok(x) && converted_v(x) == c,
            Err(e) => r matches Err(m) && m@ == e,
        },
{
    if is_name(full, "google.protobuf.Timestamp") {
        match runtime_timestamp(val) {
            Ok(t) => Ok(Converted::Timestamp { seconds: t.seconds, nanos: t.nanos }),
            Err(e) => Err(e),
        }
    } else if is_name(full, "google.protobuf.Duration") {
        match runtime_duration(val) {
            Ok((s, n)) => Ok(Converted::Duration { seconds: s, nanos: n }),
            Err(e) => Err(e),
        }
    } else if is_name(full, "google.protobuf.StringValue") {
        wrapped(scalar(ScalarKind::String, val, true))
    } else if is_name(full, "google.protobuf.FloatValue") {
        wrapped(scalar(ScalarKind::Float, val, true))
    } else if is_name(full, "google.protobuf.DoubleValue") {
        wrapped(scalar(ScalarKind::Double, val, true))
    } else if is_name(full, "google.protobuf.BoolValue") {
        wrapped(scalar(ScalarKind::Bool, val, true))
    } else if is_name(full, "google.protobuf.BytesValue") {
        wrapped(scalar(ScalarKind::Bytes, val, true))
    } else if is_name(full, "google.protobuf.Int32Value") {
        wrapped(scalar(ScalarKind::Int32, val, true))
    } else if is_name(full, "google.protobuf.UInt32Value") {
        wrapped(scalar(ScalarKind::Uint32, val, true))
    } else if is_name(full, "google.protobuf.Int64Value") {
        wrapped(scalar(ScalarKind::Int64, val, true))
    } else {
        wrapped(scalar(ScalarKind::Uint64, val, true))
    }
}

fn parse_message(full: &[u8], val: &[u8]) -> (r: Result<Converted, Vec<u8>>)
    ensures
        match spec_parse_message(full@, val@) {
            Ok(c) => r matches Ok(x) && converted_v(x) == c,
            Err(e) => r matches Err(m) && m@ == e,
        },
{
    if is_name(full, "google.protobuf.Timestamp") {
        match parse_rfc3339_nano(val) {
            Err(m) => Err(m),
            Ok(t) => {
                if timestamp_is_valid(t) {
                    Ok(Converted::Timestamp { seconds: t.seconds, nanos: t.nanos })
                } else {
                    let mut m = lossy(val);
                    push_all(&mut m, " before 0001-01-01".as_bytes());
                    Err(m)
                }
            },
        }
    } else if is_name(full, "google.protobuf.Duration") {
        Ok(Converted::DurationText(copy_bytes(val)))
    } else if is_name(full, "google.protobuf.DoubleValue") {
        wrapped(scalar(ScalarKind::Double, val, false))
    } else if is_name(full, "google.protobuf.FloatValue") {
        wrapped(scalar(ScalarKind::Float, val, false))
    } else if is_name(full, "google.protobuf.Int64Value") {
        wrapped(scalar(ScalarKind::Int64, val, false))
    } else if is_name(full, "google.protobuf.Int32Value") {
        wrapped(scalar(ScalarKind::Int32, val, false))
    } else if is_name(full, "google.protobuf.UInt64Value") {
        wrapped(scalar(ScalarKind::Uint64, val, false))
    } else if is_name(full, "google.protobuf.UInt32Value") {
        wrapped(scalar(ScalarKind::Uint32, val, false))
    } else if is_name(full, "google.protobuf.BoolValue") {
        wrapped(scalar(ScalarKind::Bool, val, false))
    } else if is_name(full, "google.protobuf.StringValue") {
        wrapped(scalar(ScalarKind::String, val, false))
    } else if is_name(full, "google.protobuf.BytesValue") {
        wrapped(scalar(ScalarKind::Bytes, val, false))
    } else if is_name(full, "google.protobuf.FieldMask") {
        let parts = split_bytes(val, 44);
        assert(strings_v(parts@) =~= view_tokens(parts@));
        Ok(Converted::FieldMask(parts))
    } else if is_name(full, "google.protobuf.Value") || is_name(full, "google.protobuf.Struct") {
        Ok(Converted::Json(copy_bytes(val)))
    } else {
        let mut m = copy_bytes("unsupported message type: ".as_bytes());
        push_all(&mut m, quote(full).as_slice());
        Err(m)
    }
}

/// `runtime.parseField`: a query value, or the last component of a field
/// path, as a value of a field of `kind`.
pub fn parse_field(schema: &Schema, kind: FieldKind, val: &[u8]) -> (r: Result<Converted, Vec<u8>>)
    requires
        kind_in(*schema, kind),
    ensures
        match spec_parse_field(*schema, kind, val@) {
            Ok(c) => r matches Ok(x) && converted_v(x) == c,
            Err(e) => r matches Err(m) && m@ == e,
        },
{
    match kind {
        FieldKind::Scalar(k) => scalar(k, val, false),
        FieldKind::Enum(e) => match enum_by_name_or_atoi(&schema.enums[e], val) {
            Ok(n) => Ok(Converted::Enum(n)),
            Err(m) => Err(m),
        },
        FieldKind::Message(m) => parse_message(schema.messages[m].full_name.as_slice(), val),
    }
}

/// The converter the generated code calls for a top-level path variable of
/// `kind` (`runtime.<Kind>`, base prefixes allowed for integers), or of a
/// well-known type.
pub fn runtime_convert(schema: &Schema, kind: FieldKind, val: &[u8]) -> (r: Result<Converted, Vec<u8>>)
    requires
        kind_in(*schema, kind),
        kind matches FieldKind::Message(m) ==> has_converter(schema.messages@[m as int].full_name@),
    ensures
        match spec_runtime_convert(*schema, kind, val@) {
            Ok(c) => r matches Ok(x) && converted_v(x) == c,
            Err(e) => r matches Err(m) && m@ == e,
        },
{
    match kind {
        FieldKind::Scalar(k) => scalar(k, val, true),
        FieldKind::Enum(e) => match runtime_enum(&schema.enums[e], val) {
            Ok(n) => Ok(Converted::Enum(n)),
            Err(m) => Err(m),
        },
        FieldKind::Message(m) => runtime_message(schema.messages[m].full_name.as_slice(), val),
    }
}

} // verus!
