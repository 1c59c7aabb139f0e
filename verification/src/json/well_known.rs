//! protojson's encoding of the well-known types whose JSON form is their
//! own: `Timestamp` (RFC 3339), `Duration` (seconds with an `s`), the
//! wrapper types (their one value), `FieldMask` (its paths in camel case)
//! and `Empty`.
use vstd::prelude::*;
use vstd::string::StringSliceAdditionalSpecFns;
use vstd::arithmetic::div_mod::lemma_fundamental_div_mod_converse;
use crate::bytes::{copy_bytes, decimal, push_all, signed_decimal, spec_decimal, spec_signed_decimal};
use crate::error::{json_string, spec_json_string};
use crate::json::{JsonError, JsonErrorKind};
use crate::bytes::bytes_eq;
use crate::json::names::{camel_from, full_name_from, is_valid_full_name, json_camel_case, json_snake_case, spec_snake_case};
use crate::json::go::{append_base64, spec_encode_std};
use crate::request::binding::{FieldKind, FieldShape, ScalarKind, Schema};
use crate::request::populate::{entry_index, entry_index_at, entries_v, message_v, number_index, scalar_v, Elem, FieldV, FieldValue, ElemV, MessageV, MessageValue, Scalar, ScalarV};
use crate::request::gotime::{MAX_SECONDS_IN_DURATION, MAX_TIMESTAMP_SECONDS, MIN_TIMESTAMP_SECONDS};

verus! {

/// `v` in `w` decimal digits, zero-padded (`{v:0w}` for a `v` that fits).
pub open spec fn spec_pad(v: int, w: int) -> Seq<u8>
    decreases w,
{
    if w <= 0 {
        Seq::empty()
    } else {
        spec_pad(v / 10, w - 1).push((48 + v % 10) as u8)
    }
}

fn pad(v: u64, w: usize) -> (r: Vec<u8>)
    ensures
        r@ == spec_pad(v as int, w as int),
    decreases w,
{
    if w == 0 {
        Vec::new()
    } else {
        let mut r = pad(v / 10, w - 1);
        r.push((48 + v % 10) as u8);
        r
    }
}

/// The fraction of a second: nothing for zero, else a dot and three, six
/// or nine digits, the fewest that hold it.
pub open spec fn spec_fraction(n: int) -> Seq<u8> {
    if n == 0 {
        Seq::empty()
    } else if n % 1_000_000 == 0 {
        seq![46u8] + spec_pad(n / 1_000_000, 3)
    } else if n % 1000 == 0 {
        seq![46u8] + spec_pad(n / 1000, 6)
    } else {
        seq![46u8] + spec_pad(n, 9)
    }
}

fn fraction(n: u64) -> (r: Vec<u8>)
    ensures
        r@ == spec_fraction(n as int),
{
    if n == 0 {
        Vec::new()
    } else {
        let mut r: Vec<u8> = Vec::new();
        r.push(46);
        let digits = if n % 1_000_000 == 0 {
            pad(n / 1_000_000, 3)
        } else if n % 1000 == 0 {
            pad(n / 1000, 6)
        } else {
            pad(n, 9)
        };
        push_all(&mut r, digits.as_slice());
        r
    }
}

/// The proleptic Gregorian date of a day counted from 1970-01-01: year,
/// month, day.
pub open spec fn spec_civil_from_days(days: int) -> (int, int, int) {
    let z = days + 719468;
    let era = z / 146097;
    let doe = z - era * 146097;
    let yoe = (doe - doe / 1460 + doe / 36524 - doe / 146096) / 365;
    let doy = doe - (365 * yoe + yoe / 4 - yoe / 100);
    let mp = (5 * doy + 2) / 153;
    let day = doy - (153 * mp + 2) / 5 + 1;
    let month = if mp < 10 { mp + 3 } else { mp - 9 };
    (if month <= 2 { yoe + era * 400 + 1 } else { yoe + era * 400 }, month, day)
}

fn civil_from_days(days: i64) -> (r: (u64, u64, u64))
    requires
        -719162 <= days <= 2932896,
    ensures
        (r.0 as int, r.1 as int, r.2 as int) == spec_civil_from_days(days as int),
{
    let z = (days + 719468) as u64;
    let era = z / 146097;
    assert(era <= 25);
    let doe = z - era * 146097;
    assert(doe < 146097) by {
        lemma_fundamental_div_mod_converse(z as int, 146097, era as int, (z % 146097) as int);
    }
    let yoe = (doe - doe / 1460 + doe / 36524 - doe / 146096) / 365;
    assert(yoe <= 400);
    assert(365 * yoe + yoe / 4 - yoe / 100 <= doe) by (nonlinear_arith)
        requires
            yoe == (doe - doe / 1460 + doe / 36524 - doe / 146096) / 365,
            doe < 146097,
    ;
    let doy = doe - (365 * yoe + yoe / 4 - yoe / 100);
    assert(doy <= 365) by (nonlinear_arith)
        requires
            yoe == (doe - doe / 1460 + doe / 36524 - doe / 146096) / 365,
            doy == doe - (365 * yoe + yoe / 4 - yoe / 100),
            doe < 146097,
    ;
    let mp = (5 * doy + 2) / 153;
    assert((153 * mp + 2) / 5 <= doy + 1) by (nonlinear_arith)
        requires
            mp == (5 * doy + 2) / 153,
    ;
    let day = doy + 1 - (153 * mp + 2) / 5;
    let month = if mp < 10 { mp + 3 } else { mp - 9 };
    let year = if month <= 2 { yoe + era * 400 + 1 } else { yoe + era * 400 };
    (year, month, day)
}

/// protojson's `google.protobuf.Timestamp`: the RFC 3339 text in UTC,
/// quoted, or the range error.
pub open spec fn spec_timestamp_json(seconds: int, nanos: int) -> Result<Seq<u8>, Seq<u8>> {
    if !(MIN_TIMESTAMP_SECONDS <= seconds <= MAX_TIMESTAMP_SECONDS) {
        Err("google.protobuf.Timestamp: seconds out of range ".spec_bytes() + spec_signed_decimal(seconds))
    } else if !(0 <= nanos <= 999_999_999) {
        Err("google.protobuf.Timestamp: nanos out of range ".spec_bytes() + spec_signed_decimal(nanos))
    } else {
        let (y, mo, d) = spec_civil_from_days(seconds / 86400);
        let s = seconds % 86400;
        Ok(
            spec_json_string(
                spec_pad(y, 4) + seq![45u8] + spec_pad(mo, 2) + seq![45u8] + spec_pad(d, 2) + seq![84u8] + spec_pad(
                    s / 3600,
                    2,
                ) + seq![58u8] + spec_pad(s / 60 % 60, 2) + seq![58u8] + spec_pad(s % 60, 2) + spec_fraction(nanos)
                    + seq![90u8],
            ),
        )
    }
}

fn marshal_error(prefix: &str, v: i64) -> (e: JsonError)
    ensures
        e.kind_v() == JsonErrorKind::Marshal,
        e.message_v() == prefix.spec_bytes() + spec_signed_decimal(v as int),
{
    let mut m = copy_bytes(prefix.as_bytes());
    let d = signed_decimal(v);
    push_all(&mut m, d.as_slice());
    JsonError::new(JsonErrorKind::Marshal, m)
}

/// protojson's `google.protobuf.Timestamp` of `seconds` and `nanos`.
pub fn encode_timestamp(seconds: i64, nanos: i64) -> (r: Result<Vec<u8>, JsonError>)
    ensures
        match spec_timestamp_json(seconds as int, nanos as int) {
            Ok(t) => r matches Ok(v) && v@ == t,
            Err(m) => r matches Err(e) && e.kind_v() == JsonErrorKind::Marshal && e.message_v() == m,
        },
{
    if seconds < MIN_TIMESTAMP_SECONDS || seconds > MAX_TIMESTAMP_SECONDS {
        return Err(marshal_error("google.protobuf.Timestamp: seconds out of range ", seconds));
    }
    if nanos < 0 || nanos > 999_999_999 {
        return Err(marshal_error("google.protobuf.Timestamp: nanos out of range ", nanos));
    }
    let shifted = (seconds - MIN_TIMESTAMP_SECONDS) as u64;
    let q = shifted / 86400;
    let s = shifted % 86400;
    proof {
        lemma_fundamental_div_mod_converse(seconds as int, 86400, q - 719162, s as int);
    }
    let days = q as i64 - 719162;
    let (y, mo, d) = civil_from_days(days);
    let mut text = pad(y, 4);
    text.push(45);
    push_all(&mut text, pad(mo, 2).as_slice());
    text.push(45);
    push_all(&mut text, pad(d, 2).as_slice());
    text.push(84);
    push_all(&mut text, pad(s / 3600, 2).as_slice());
    text.push(58);
    push_all(&mut text, pad(s / 60 % 60, 2).as_slice());
    text.push(58);
    push_all(&mut text, pad(s % 60, 2).as_slice());
    push_all(&mut text, fraction(nanos as u64).as_slice());
    text.push(90);
    let mut out: Vec<u8> = Vec::new();
    json_string(text.as_slice(), &mut out);
    proof {
        let (ys, ms, ds) = spec_civil_from_days(seconds as int / 86400);
        let si: int = seconds as int % 86400;
        assert(text@ =~= spec_pad(ys, 4) + seq![45u8] + spec_pad(ms, 2) + seq![45u8] + spec_pad(ds, 2) + seq![84u8]
            + spec_pad(si / 3600, 2) + seq![58u8] + spec_pad(si / 60 % 60, 2) + seq![58u8] + spec_pad(si % 60, 2)
            + spec_fraction(nanos as int) + seq![90u8]);
        assert(out@ =~= spec_json_string(text@));
    }
    Ok(out)
}

/// protojson's `google.protobuf.Duration`: seconds, the fraction and `s`,
/// signed and quoted, or the range or sign error.
pub open spec fn spec_duration_json(seconds: int, nanos: int) -> Result<Seq<u8>, Seq<u8>> {
    if !(-MAX_SECONDS_IN_DURATION <= seconds <= MAX_SECONDS_IN_DURATION) {
        Err("google.protobuf.Duration: seconds out of range ".spec_bytes() + spec_signed_decimal(seconds))
    } else if !(-999_999_999 <= nanos <= 999_999_999) {
        Err("google.protobuf.Duration: nanos out of range ".spec_bytes() + spec_signed_decimal(nanos))
    } else if (seconds > 0 && nanos < 0) || (seconds < 0 && nanos > 0) {
        Err("google.protobuf.Duration: signs of seconds and nanos do not match".spec_bytes())
    } else {
        let neg = seconds < 0 || nanos < 0;
        let sign: Seq<u8> = if neg { seq![45u8] } else { Seq::empty() };
        let a = if neg { -seconds } else { seconds };
        let b = if neg { -nanos } else { nanos };
        Ok(spec_json_string(sign + spec_decimal(a as nat) + spec_fraction(b) + seq![115u8]))
    }
}

/// protojson's `google.protobuf.Duration` of `seconds` and `nanos`.
pub fn encode_duration(seconds: i64, nanos: i64) -> (r: Result<Vec<u8>, JsonError>)
    ensures
        match spec_duration_json(seconds as int, nanos as int) {
            Ok(t) => r matches Ok(v) && v@ == t,
            Err(m) => r matches Err(e) && e.kind_v() == JsonErrorKind::Marshal && e.message_v() == m,
        },
{
    if seconds < -MAX_SECONDS_IN_DURATION || seconds > MAX_SECONDS_IN_DURATION {
        return Err(marshal_error("google.protobuf.Duration: seconds out of range ", seconds));
    }
    if nanos < -999_999_999 || nanos > 999_999_999 {
        return Err(marshal_error("google.protobuf.Duration: nanos out of range ", nanos));
    }
    if (seconds > 0 && nanos < 0) || (seconds < 0 && nanos > 0) {
        let m = copy_bytes("google.protobuf.Duration: signs of seconds and nanos do not match".as_bytes());
        return Err(JsonError::new(JsonErrorKind::Marshal, m));
    }
    let neg = seconds < 0 || nanos < 0;
    let mut text: Vec<u8> = Vec::new();
    if neg {
        text.push(45);
    }
    let a: u64 = if neg { (-seconds) as u64 } else { seconds as u64 };
    let b: u64 = if neg { (-nanos) as u64 } else { nanos as u64 };
    push_all(&mut text, decimal(a).as_slice());
    push_all(&mut text, fraction(b).as_slice());
    text.push(115);
    let mut out: Vec<u8> = Vec::new();
    json_string(text.as_slice(), &mut out);
    proof {
        let sign: Seq<u8> = if neg { seq![45u8] } else { Seq::empty() };
        assert(text@ =~= sign + spec_decimal(a as nat) + spec_fraction(b as int) + seq![115u8]);
        assert(out@ =~= spec_json_string(text@));
    }
    Ok(out)
}

/// The well-known types whose JSON form this module writes.
pub enum OwnForm {
    Timestamp,
    Duration,
    Wrapper,
    FieldMask,
    Empty,
}

pub open spec fn own_form(name: Seq<u8>) -> Option<OwnForm> {
    if name == "google.protobuf.Timestamp".spec_bytes() {
        Some(OwnForm::Timestamp)
    } else if name == "google.protobuf.Duration".spec_bytes() {
        Some(OwnForm::Duration)
    } else if name == "google.protobuf.Empty".spec_bytes() {
        Some(OwnForm::Empty)
    } else if name == "google.protobuf.FieldMask".spec_bytes() {
        Some(OwnForm::FieldMask)
    } else if name == "google.protobuf.BoolValue".spec_bytes() || name == "google.protobuf.Int32Value".spec_bytes()
        || name == "google.protobuf.Int64Value".spec_bytes() || name == "google.protobuf.UInt32Value".spec_bytes()
        || name == "google.protobuf.UInt64Value".spec_bytes() || name == "google.protobuf.FloatValue".spec_bytes()
        || name == "google.protobuf.DoubleValue".spec_bytes() || name == "google.protobuf.StringValue".spec_bytes()
        || name == "google.protobuf.BytesValue".spec_bytes() {
        Some(OwnForm::Wrapper)
    } else {
        None
    }
}

/// The scalar set in the field numbered `n` of message `m`, if any.
pub open spec fn scalar_at(sc: Schema, m: MessageV, n: u32) -> Option<ScalarV> {
    let shapes = sc.messages@[m.msg].fields@;
    let idx = number_index(shapes, n, 0);
    let k = entry_index(m.fields, idx, 0);
    if idx < shapes.len() && k < m.fields.len() {
        match m.fields[k].1 {
            FieldV::Single(ElemV::Scalar(s)) => Some(s),
            _ => None,
        }
    } else {
        None
    }
}

/// A signed value set, or zero.
pub open spec fn int_of(v: Option<ScalarV>) -> int {
    match v {
        Some(ScalarV::I32(n)) => n,
        Some(ScalarV::I64(n)) => n,
        _ => 0,
    }
}

/// An unsigned value set, or zero.
pub open spec fn uint_of(v: Option<ScalarV>) -> int {
    match v {
        Some(ScalarV::U32(n)) => n,
        Some(ScalarV::U64(n)) => n,
        _ => 0,
    }
}

/// protojson's form of one scalar of `kind` (unset: the zero value); a
/// float is written as `float_token`, its JSON token.
pub open spec fn spec_scalar_json(kind: ScalarKind, v: Option<ScalarV>, float_token: Seq<u8>) -> Seq<u8> {
    match kind {
        ScalarKind::Bool => if v == Some(ScalarV::Bool(true)) {
            "true".spec_bytes()
        } else {
            "false".spec_bytes()
        },
        ScalarKind::Int32 => spec_signed_decimal(int_of(v)),
        ScalarKind::Uint32 => spec_decimal(uint_of(v) as nat),
        ScalarKind::Int64 => seq![34u8] + spec_signed_decimal(int_of(v)) + seq![34u8],
        ScalarKind::Uint64 => seq![34u8] + spec_decimal(uint_of(v) as nat) + seq![34u8],
        ScalarKind::Float | ScalarKind::Double => float_token,
        ScalarKind::String => spec_json_string(
            match v {
                Some(ScalarV::Str(b)) => b,
                _ => Seq::empty(),
            },
        ),
        ScalarKind::Bytes => seq![34u8] + spec_encode_std(
            match v {
                Some(ScalarV::Bytes(b)) => b,
                _ => Seq::empty(),
            },
        ) + seq![34u8],
    }
}

/// The well-known message `m` as protojson writes it.
pub open spec fn spec_well_known_json(sc: Schema, m: MessageV, float_token: Seq<u8>) -> Result<Seq<u8>, Seq<u8>> {
    match own_form(sc.messages@[m.msg].full_name@) {
        Some(OwnForm::Timestamp) => spec_timestamp_json(int_of(scalar_at(sc, m, 1)), int_of(scalar_at(sc, m, 2))),
        Some(OwnForm::Duration) => spec_duration_json(int_of(scalar_at(sc, m, 1)), int_of(scalar_at(sc, m, 2))),
        Some(OwnForm::Wrapper) => {
            let shapes = sc.messages@[m.msg].fields@;
            match shapes[number_index(shapes, 1, 0)].kind {
                FieldKind::Scalar(k) => Ok(spec_scalar_json(k, scalar_at(sc, m, 1), float_token)),
                _ => Ok(Seq::empty()),
            }
        },
        Some(OwnForm::FieldMask) => spec_field_mask_from(paths_of(sc, m), 0, Seq::empty()),
        _ => Ok("{}".spec_bytes()),
    }
}

/// The strings of the list in field 1 (a `FieldMask`'s paths).
pub open spec fn paths_of(sc: Schema, m: MessageV) -> Seq<Seq<u8>> {
    let shapes = sc.messages@[m.msg].fields@;
    let k = entry_index(m.fields, number_index(shapes, 1, 0), 0);
    if k < m.fields.len() {
        match m.fields[k].1 {
            FieldV::List(es) => es.map_values(|e: ElemV| match e {
                ElemV::Scalar(ScalarV::Str(b)) => b,
                _ => Seq::empty(),
            }),
            _ => Seq::empty(),
        }
    } else {
        Seq::empty()
    }
}

/// The shape the well-known types have: `Timestamp` and `Duration` with a
/// 64-bit field 1 and a 32-bit field 2, a wrapper with a scalar field 1.
pub open spec fn well_known_shape(sc: Schema, msg: int) -> bool {
    let shapes = sc.messages@[msg].fields@;
    match own_form(sc.messages@[msg].full_name@) {
        Some(OwnForm::Timestamp) | Some(OwnForm::Duration) => number_index(shapes, 1, 0) < shapes.len()
            && number_index(shapes, 2, 0) < shapes.len(),
        Some(OwnForm::Wrapper) => number_index(shapes, 1, 0) < shapes.len()
            && shapes[number_index(shapes, 1, 0)].kind is Scalar,
        Some(OwnForm::Empty) | Some(OwnForm::FieldMask) => true,
        None => false,
    }
}

fn number_index_at(shapes: &Vec<FieldShape>, n: u32) -> (r: usize)
    ensures
        r == number_index(shapes@, n, 0),
        r <= shapes@.len(),
{
    let mut i: usize = 0;
    while i < shapes.len() && shapes[i].number != n
        invariant
            i <= shapes@.len(),
            number_index(shapes@, n, 0) == number_index(shapes@, n, i as int),
        decreases shapes@.len() - i,
    {
        i = i + 1;
    }
    i
}

fn scalar_at_exec<'a>(schema: &Schema, mv: &'a MessageValue, n: u32) -> (r: Option<&'a Scalar>)
    requires
        mv.msg < schema.messages@.len(),
    ensures
        match r {
            Some(s) => scalar_at(*schema, message_v(*mv), n) == Some(scalar_v(*s)),
            None => scalar_at(*schema, message_v(*mv), n) is None,
        },
{
    let shapes = &schema.messages[mv.msg].fields;
    let idx = number_index_at(shapes, n);
    let k = entry_index_at(&mv.fields, idx);
    if idx < shapes.len() && k < mv.fields.len() {
        let ghost ev = entries_v(mv.fields@);
        assert(ev[k as int].1 == crate::request::populate::field_v(mv.fields@[k as int].1));
        match &mv.fields[k].1 {
            FieldValue::Single(Elem::Scalar(s)) => Some(s),
            _ => None,
        }
    } else {
        None
    }
}

fn int_of_exec(v: Option<&Scalar>) -> (r: i64)
    ensures
        r == int_of(
            match v {
                Some(s) => Some(scalar_v(*s)),
                None => None,
            },
        ),
{
    match v {
        Some(Scalar::I32(n)) => *n as i64,
        Some(Scalar::I64(n)) => *n,
        _ => 0,
    }
}

fn uint_of_exec(v: Option<&Scalar>) -> (r: u64)
    ensures
        r == uint_of(
            match v {
                Some(s) => Some(scalar_v(*s)),
                None => None,
            },
        ),
{
    match v {
        Some(Scalar::U32(n)) => *n as u64,
        Some(Scalar::U64(n)) => *n,
        _ => 0,
    }
}

fn scalar_json(kind: ScalarKind, v: Option<&Scalar>, float_token: &[u8]) -> (r: Vec<u8>)
    ensures
        r@ == spec_scalar_json(
            kind,
            match v {
                Some(s) => Some(scalar_v(*s)),
                None => None,
            },
            float_token@,
        ),
{
    let ghost sv = match v {
        Some(s) => Some(scalar_v(*s)),
        None => None,
    };
    match kind {
        ScalarKind::Bool => {
            let t = match v {
                Some(Scalar::Bool(b)) => *b,
                _ => false,
            };
            assert(t == (sv == Some(ScalarV::Bool(true))));
            if t {
                copy_bytes("true".as_bytes())
            } else {
                copy_bytes("false".as_bytes())
            }
        },
        ScalarKind::Int32 => signed_decimal(int_of_exec(v)),
        ScalarKind::Uint32 => decimal(uint_of_exec(v)),
        ScalarKind::Int64 => {
            let mut r: Vec<u8> = Vec::new();
            r.push(34);
            push_all(&mut r, signed_decimal(int_of_exec(v)).as_slice());
            r.push(34);
            r
        },
        ScalarKind::Uint64 => {
            let mut r: Vec<u8> = Vec::new();
            r.push(34);
            push_all(&mut r, decimal(uint_of_exec(v)).as_slice());
            r.push(34);
            r
        },
        ScalarKind::Float | ScalarKind::Double => copy_bytes(float_token),
        ScalarKind::String => {
            let mut r: Vec<u8> = Vec::new();
            match v {
                Some(Scalar::String(b)) => json_string(b.as_slice(), &mut r),
                _ => {
                    let e: Vec<u8> = Vec::new();
                    json_string(e.as_slice(), &mut r);
                },
            }
            r
        },
        ScalarKind::Bytes => {
            let mut r: Vec<u8> = Vec::new();
            r.push(34);
            match v {
                Some(Scalar::Bytes(b)) => append_base64(&mut r, b.as_slice()),
                _ => {
                    let e: Vec<u8> = Vec::new();
                    append_base64(&mut r, e.as_slice());
                },
            }
            r.push(34);
            r
        },
    }
}

/// protojson's encoding of a `Timestamp`, a `Duration`, a wrapper or an
/// `Empty` held in `mv`: `float_token` is the JSON token of a `FloatValue`
/// or `DoubleValue`'s value (an unset one is zero), written by the caller.
pub fn encode_well_known(schema: &Schema, mv: &MessageValue, float_token: &[u8]) -> (r: Result<Vec<u8>, JsonError>)
    requires
        mv.msg < schema.messages@.len(),
        well_known_shape(*schema, mv.msg as int),
    ensures
        match spec_well_known_json(*schema, message_v(*mv), float_token@) {
            Ok(t) => r matches Ok(v) && v@ == t,
            Err(m) => r matches Err(e) && e.kind_v() == JsonErrorKind::Marshal && e.message_v() == m,
        },
{
    let name = schema.messages[mv.msg].full_name.as_slice();
    let ghost m = message_v(*mv);
    if bytes_eq(name, "google.protobuf.Timestamp".as_bytes()) {
        let secs = int_of_exec(scalar_at_exec(schema, mv, 1));
        let nanos = int_of_exec(scalar_at_exec(schema, mv, 2));
        return encode_timestamp(secs, nanos);
    }
    if bytes_eq(name, "google.protobuf.Duration".as_bytes()) {
        let secs = int_of_exec(scalar_at_exec(schema, mv, 1));
        let nanos = int_of_exec(scalar_at_exec(schema, mv, 2));
        return encode_duration(secs, nanos);
    }
    if bytes_eq(name, "google.protobuf.Empty".as_bytes()) {
        return Ok(copy_bytes("{}".as_bytes()));
    }
    if bytes_eq(name, "google.protobuf.FieldMask".as_bytes()) {
        let paths = paths_exec(schema, mv);
        return encode_field_mask(&paths);
    }
    let shapes = &schema.messages[mv.msg].fields;
    let idx = number_index_at(shapes, 1);
    match shapes[idx].kind {
        FieldKind::Scalar(k) => Ok(scalar_json(k, scalar_at_exec(schema, mv, 1), float_token)),
        _ => Ok(Vec::new()),
    }
}

/// What Rust's `{:?}` writes for the text `s` (decoded with U+FFFD for bytes
/// that are not UTF-8): quoted, with Rust's escapes.
pub uninterp spec fn rust_debug_str(s: Seq<u8>) -> Seq<u8>;

/// `format!("{:?}", ..)` of the text `s`, as the error of a path names it.
/// The contract claims only that the result is a function of `s`: Rust's
/// `Debug` escaping depends on Unicode tables that are not stated here.
#[verifier::external_body]
fn debug_quote(s: &[u8]) -> (r: Vec<u8>)
    ensures
        r@ == rust_debug_str(s@),
{
    format!("{:?}", String::from_utf8_lossy(s)).into_bytes()
}

/// protojson's `google.protobuf.FieldMask` from path `i` on, the paths
/// before it already joined in `acc`: the paths in camel case, joined by
/// commas and quoted, or the first path that is not a valid name or does not
/// come back from camel case.
pub open spec fn spec_field_mask_from(paths: Seq<Seq<u8>>, i: int, acc: Seq<u8>) -> Result<Seq<u8>, Seq<u8>>
    decreases paths.len() - i,
{
    if i < 0 || i >= paths.len() {
        Ok(spec_json_string(acc))
    } else {
        let p = paths[i];
        let camel = camel_from(p, 0, false);
        if !full_name_from(p, 0) {
            Err("google.protobuf.FieldMask.paths contains invalid path: ".spec_bytes() + rust_debug_str(p))
        } else if p != spec_snake_case(camel) {
            Err("google.protobuf.FieldMask.paths contains irreversible value ".spec_bytes() + rust_debug_str(p))
        } else {
            spec_field_mask_from(paths, i + 1, if i > 0 { acc + seq![44u8] + camel } else { acc + camel })
        }
    }
}

/// protojson's `google.protobuf.FieldMask` of `paths`.
pub fn encode_field_mask(paths: &Vec<Vec<u8>>) -> (r: Result<Vec<u8>, JsonError>)
    ensures
        match spec_field_mask_from(paths@.map_values(|p: Vec<u8>| p@), 0, Seq::empty()) {
            Ok(t) => r matches Ok(v) && v@ == t,
            Err(m) => r matches Err(e) && e.kind_v() == JsonErrorKind::Marshal && e.message_v() == m,
        },
{
    let ghost pv = paths@.map_values(|p: Vec<u8>| p@);
    let mut joined: Vec<u8> = Vec::new();
    let mut i: usize = 0;
    while i < paths.len()
        invariant
            i <= paths@.len(),
            pv == paths@.map_values(|p: Vec<u8>| p@),
            spec_field_mask_from(pv, 0, Seq::empty()) == spec_field_mask_from(pv, i as int, joined@),
        decreases paths@.len() - i,
    {
        let p = paths[i].as_slice();
        assert(pv[i as int] == p@);
        if !is_valid_full_name(p) {
            let mut m = copy_bytes("google.protobuf.FieldMask.paths contains invalid path: ".as_bytes());
            push_all(&mut m, debug_quote(p).as_slice());
            return Err(JsonError::new(JsonErrorKind::Marshal, m));
        }
        let camel = json_camel_case(p);
        let back = json_snake_case(camel.as_slice());
        if !bytes_eq(back.as_slice(), p) {
            let mut m = copy_bytes("google.protobuf.FieldMask.paths contains irreversible value ".as_bytes());
            push_all(&mut m, debug_quote(p).as_slice());
            return Err(JsonError::new(JsonErrorKind::Marshal, m));
        }
        let ghost before = joined@;
        if i > 0 {
            joined.push(44);
        }
        push_all(&mut joined, camel.as_slice());
        proof {
            assert(p@ == spec_snake_case(camel@));
            if i > 0 {
                assert(joined@ =~= before + seq![44u8] + camel@);
            } else {
                assert(joined@ =~= before + camel@);
            }
        }
        i = i + 1;
    }
    let mut out: Vec<u8> = Vec::new();
    json_string(joined.as_slice(), &mut out);
    Ok(out)
}

fn paths_exec(schema: &Schema, mv: &MessageValue) -> (r: Vec<Vec<u8>>)
    requires
        mv.msg < schema.messages@.len(),
    ensures
        r@.map_values(|p: Vec<u8>| p@) == paths_of(*schema, message_v(*mv)),
{
    let shapes = &schema.messages[mv.msg].fields;
    let idx = number_index_at(shapes, 1);
    let k = entry_index_at(&mv.fields, idx);
    let mut out: Vec<Vec<u8>> = Vec::new();
    if k < mv.fields.len() {
        let ghost ev = entries_v(mv.fields@);
        assert(ev[k as int].1 == crate::request::populate::field_v(mv.fields@[k as int].1));
        match &mv.fields[k].1 {
            FieldValue::List(es) => {
                let ghost want = crate::request::populate::elems_v(es@).map_values(|e: ElemV| match e {
                    ElemV::Scalar(ScalarV::Str(b)) => b,
                    _ => Seq::empty(),
                });
                let mut i: usize = 0;
                while i < es.len()
                    invariant
                        i <= es@.len(),
                        want.len() == es@.len(),
                        want == crate::request::populate::elems_v(es@).map_values(|e: ElemV| match e {
                            ElemV::Scalar(ScalarV::Str(b)) => b,
                            _ => Seq::empty(),
                        }),
                        out@.map_values(|p: Vec<u8>| p@) == want.subrange(0, i as int),
                    decreases es@.len() - i,
                {
                    let ghost before = out@;
                    let p = match &es[i] {
                        Elem::Scalar(Scalar::String(b)) => copy_bytes(b.as_slice()),
                        _ => Vec::new(),
                    };
                    assert(crate::request::populate::elems_v(es@)[i as int] == crate::request::populate::elem_v(es@[i as int]));
                    assert(p@ == want[i as int]);
                    out.push(p);
                    assert(out@.map_values(|p: Vec<u8>| p@) =~= want.subrange(0, i + 1)) by {
                        assert(out@ == before.push(p));
                        let ov = out@.map_values(|p: Vec<u8>| p@);
                        let bv = before.map_values(|p: Vec<u8>| p@);
                        assert(bv == want.subrange(0, i as int));
                        assert(bv.len() == i);
                        assert(before.len() == i);
                        assert(out@.len() == i + 1);
                        assert(ov.len() == i + 1);
                        assert forall|q: int| 0 <= q < i + 1 implies ov[q] == want.subrange(0, i + 1)[q] by {
                            if q < i {
                                assert(out@[q] == before[q]);
                                assert(bv[q] == want.subrange(0, i as int)[q]);
                            }
                        }
                    }
                    i = i + 1;
                }
                assert(want.subrange(0, es@.len() as int) =~= want);
            },
            _ => {
                assert(out@.map_values(|p: Vec<u8>| p@) =~= Seq::<Seq<u8>>::empty());
            },
        }
    } else {
        assert(out@.map_values(|p: Vec<u8>| p@) =~= Seq::<Seq<u8>>::empty());
    }
    out
}

/// Whether message `msg` of the schema is a well-known type this module
/// writes, with the shape it needs ([`well_known_shape`]).
pub fn has_well_known_shape(schema: &Schema, msg: usize) -> (r: bool)
    requires
        msg < schema.messages@.len(),
    ensures
        r == well_known_shape(*schema, msg as int),
{
    let name = schema.messages[msg].full_name.as_slice();
    let shapes = &schema.messages[msg].fields;
    let one = number_index_at(shapes, 1);
    let two = number_index_at(shapes, 2);
    if bytes_eq(name, "google.protobuf.Timestamp".as_bytes()) || bytes_eq(name, "google.protobuf.Duration".as_bytes()) {
        return one < shapes.len() && two < shapes.len();
    }
    if bytes_eq(name, "google.protobuf.Empty".as_bytes()) || bytes_eq(name, "google.protobuf.FieldMask".as_bytes()) {
        return true;
    }
    if bytes_eq(name, "google.protobuf.BoolValue".as_bytes()) || bytes_eq(name, "google.protobuf.Int32Value".as_bytes())
        || bytes_eq(name, "google.protobuf.Int64Value".as_bytes()) || bytes_eq(name, "google.protobuf.UInt32Value".as_bytes())
        || bytes_eq(name, "google.protobuf.UInt64Value".as_bytes()) || bytes_eq(name, "google.protobuf.FloatValue".as_bytes())
        || bytes_eq(name, "google.protobuf.DoubleValue".as_bytes()) || bytes_eq(name, "google.protobuf.StringValue".as_bytes())
        || bytes_eq(name, "google.protobuf.BytesValue".as_bytes()) {
        if one < shapes.len() {
            return match shapes[one].kind {
                FieldKind::Scalar(_) => true,
                _ => false,
            };
        }
        return false;
    }
    false
}

} // verus!
