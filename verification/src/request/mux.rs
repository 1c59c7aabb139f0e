//! What `runtime.ServeMux.ServeHTTP` does between reading the request line and
//! calling a handler, besides routing: `X-HTTP-Method-Override` and the
//! `POST` to `GET` path-length fallback, both only for a `POST` whose first
//! `Content-Type` is exactly `application/x-www-form-urlencoded`, and both
//! calling `ParseForm`, which consumes the body.
use vstd::prelude::*;
use vstd::string::StringSliceAdditionalSpecFns;
use crate::bytes::{bytes_eq, copy_bytes, to_upper, ascii_to_upper};
use crate::path::router::{outcome_is, routing_path, spec_route, RequestPath, RouteOutcome, Router};
use crate::path::template::view_tokens;
use crate::request::form::{encode_runes, lossy_decode, lossy_runes, next_sep, opt_view, parse_form_method, push_rune, spec_parse_form, Form, FormV};
use crate::request::RequestError;

verus! {

#[derive(Debug, Clone, Copy, PartialEq, Eq, Structural)]
pub struct MuxOptions {
    /// `runtime.WithDisablePathLengthFallback`.
    pub disable_path_length_fallback: bool,
}

/// The parts of a request `ServeMux` looks at.
#[derive(Debug, Clone, Copy)]
pub struct Incoming<'a> {
    pub method: &'a str,
    /// The origin-form request target.
    pub target: &'a str,
    /// The first `Content-Type` value.
    pub content_type: Option<&'a [u8]>,
    /// The first `X-HTTP-Method-Override` value.
    pub method_override: Option<&'a [u8]>,
    pub body: &'a [u8],
}

/// Where the request goes.
#[derive(Debug)]
pub struct Dispatch<'a, T> {
    /// The method routing used: the request's, or the override's.
    pub method: Vec<u8>,
    pub outcome: DispatchOutcome<'a, T>,
    /// Set when `ServeMux` parsed the form. The handler must not read the
    /// body again: it is empty to it.
    pub form: Option<Form>,
}

#[derive(Debug)]
pub enum DispatchOutcome<'a, T> {
    Route(RouteOutcome<'a, T>),
    /// `ParseForm` failed: grpc-gateway answers `InvalidArgument`, after the
    /// error bodies of any malformed escapes met on the way.
    FormError { escapes: Vec<Vec<u8>>, error: RequestError },
}

/// The raw query of an origin-form target: what follows the first `?`.
pub open spec fn spec_raw_query(target: Seq<u8>) -> Seq<u8> {
    let i = next_sep(target, 63, 0);
    if i < target.len() {
        target.subrange(i + 1, target.len() as int)
    } else {
        Seq::empty()
    }
}

/// The raw query of an origin-form target, as `url.ParseRequestURI` splits it.
pub fn raw_query(target: &str) -> (r: &[u8])
    ensures
        r@ == spec_raw_query(target.spec_bytes()),
{
    let t = target.as_bytes();
    let mut i: usize = 0;
    while i < t.len() && t[i] != 63
        invariant
            i <= t@.len(),
            forall|j: int| 0 <= j < i ==> #[trigger] t@[j] != 63,
        decreases t@.len() - i,
    {
        i = i + 1;
    }
    proof {
        crate::request::form::lemma_next_sep_at(t@, 63, 0, i as int);
    }
    if i < t.len() {
        vstd::slice::slice_subrange(t, i + 1, t.len())
    } else {
        vstd::slice::slice_subrange(t, 0, 0)
    }
}

/// The rune Rust's `char::to_uppercase` yields first for `r`, and how many
/// runes it yields.
pub uninterp spec fn unicode_upper(r: u32) -> (u32, nat);

/// `char::to_uppercase` on a rune: its first char and how many it yields.
/// Its result is a function of the rune alone; the first is a `char`.
#[verifier::external_body]
fn rune_to_upper(r: u32) -> (u: (u32, usize))
    requires
        r < 0x110000,
        !(0xd800 <= r < 0xe000),
    ensures
        (u.0, u.1 as nat) == unicode_upper(r),
        u.0 < 0x110000,
        !(0xd800 <= u.0 < 0xe000),
{
    match char::from_u32(r) {
        Some(c) => {
            let mut up = c.to_uppercase();
            let n = up.len();
            (up.next().unwrap_or(c) as u32, n)
        },
        None => (r, 1),
    }
}

/// `strings.ToUpper` on one rune: ASCII by its case, others by
/// `char::to_uppercase` when that yields one rune.
pub open spec fn upper_rune(r: int) -> int {
    if r < 0x80 {
        to_upper(r as u8) as int
    } else if unicode_upper(r as u32).1 == 1 {
        unicode_upper(r as u32).0 as int
    } else {
        r
    }
}

/// `strings.ToUpper`: simple case mapping, rune by rune, invalid UTF-8
/// replaced.
pub open spec fn spec_go_to_upper(b: Seq<u8>) -> Seq<u8> {
    encode_runes(lossy_runes(b).map_values(|r: int| upper_rune(r)))
}

/// `strings.ToUpper`.
pub fn go_to_upper(b: &[u8]) -> (r: Vec<u8>)
    ensures
        r@ == spec_go_to_upper(b@),
{
    let runes = lossy_decode(b);
    let ghost rs = lossy_runes(b@).map_values(|r: int| upper_rune(r));
    let mut out: Vec<u8> = Vec::new();
    let mut i: usize = 0;
    while i < runes.len()
        invariant
            i <= runes@.len(),
            runes@.map_values(|x: u32| x as int) == lossy_runes(b@),
            forall|k: int| 0 <= k < runes@.len() ==> #[trigger] runes@[k] < 0x110000 && !(0xd800 <= runes@[k] < 0xe000),
            rs == lossy_runes(b@).map_values(|r: int| upper_rune(r)),
            out@ == encode_runes(rs.subrange(0, i as int)),
        decreases runes@.len() - i,
    {
        let c = runes[i];
        assert(lossy_runes(b@)[i as int] == c as int);
        let u: u32 = if c < 0x80 {
            ascii_to_upper(c as u8) as u32
        } else {
            let (first, n) = rune_to_upper(c);
            if n == 1 {
                first
            } else {
                c
            }
        };
        assert(u as int == rs[i as int]);
        push_rune(&mut out, u);
        assert(rs.subrange(0, i + 1).drop_last() =~= rs.subrange(0, i as int));
        i = i + 1;
    }
    assert(rs.subrange(0, i as int) =~= rs);
    out
}

pub open spec fn form_content_type() -> Seq<u8> {
    "application/x-www-form-urlencoded".spec_bytes()
}

/// Whether the path-length fallback (and the method override) applies.
pub open spec fn path_length_fallback(disabled: bool, method: Seq<u8>, content_type: Option<Seq<u8>>) -> bool {
    !disabled && method == "POST".spec_bytes() && content_type == Some(form_content_type())
}

fn fallback_applies(options: &MuxOptions, method: &[u8], content_type: Option<&[u8]>) -> (r: bool)
    ensures
        r == path_length_fallback(options.disable_path_length_fallback, method@, match content_type {
            Some(c) => Some(c@),
            None => None,
        }),
{
    if options.disable_path_length_fallback || !bytes_eq(method, "POST".as_bytes()) {
        return false;
    }
    match content_type {
        Some(c) => bytes_eq(c, "application/x-www-form-urlencoded".as_bytes()),
        None => false,
    }
}

/// What `ServeMux` decides, as plain values: the method routing used, the
/// form it parsed, and whether `ParseForm` failed (with the escapes met
/// before) or routing went ahead.
pub enum DispatchV {
    FormError { method: Seq<u8>, escapes: Seq<Seq<u8>>, error: Seq<u8> },
    Route { method: Seq<u8>, fallback: bool, form: Option<FormV> },
}

/// `ServeMux.ServeHTTP` before the handler: the override (for a form `POST`),
/// routing with the path-length fallback, and `ParseForm` where either needs it.
pub open spec fn spec_dispatch<T>(
    ms: Seq<(Seq<u8>, Seq<(crate::path::pattern::Pattern, T)>)>,
    mode: crate::path::pattern::UnescapingMode,
    rpath: Seq<u8>,
    method: Seq<u8>,
    target: Seq<u8>,
    content_type: Option<Seq<u8>>,
    method_override: Option<Seq<u8>>,
    body: Seq<u8>,
    disabled: bool,
) -> DispatchV {
    let query = spec_raw_query(target);
    let overridden = method_override matches Some(o) && o.len() > 0 && path_length_fallback(disabled, method, content_type);
    let (f1, e1) = spec_parse_form(method, content_type, query, body);
    if overridden && e1 is Some {
        DispatchV::FormError { method, escapes: Seq::empty(), error: e1->0 }
    } else {
        let method2 = if overridden { spec_go_to_upper(method_override->0) } else { method };
        let fb = path_length_fallback(disabled, method2, content_type);
        let (rv, esc, fell_back) = spec_route(ms, method2, rpath, mode, fb);
        let (f2, e2) = spec_parse_form(method2, content_type, query, body);
        if fell_back && !overridden && e2 is Some {
            DispatchV::FormError { method: method2, escapes: esc, error: e2->0 }
        } else {
            DispatchV::Route {
                method: method2,
                fallback: fb,
                form: if overridden {
                    Some(f1)
                } else if fell_back {
                    Some(f2)
                } else {
                    None
                },
            }
        }
    }
}

/// Whether a dispatch is what `spec_dispatch` describes, its routing outcome
/// the one routing gives for its method and fallback.
pub open spec fn dispatch_is<'a, T>(
    d: Dispatch<'a, T>,
    v: DispatchV,
    ms: Seq<(Seq<u8>, Seq<(crate::path::pattern::Pattern, T)>)>,
    mode: crate::path::pattern::UnescapingMode,
    rpath: Seq<u8>,
) -> bool {
    match v {
        DispatchV::FormError { method, escapes, error } => d.method@ == method && d.form is None && (d.outcome matches DispatchOutcome::FormError {
            escapes: es,
            error: e,
        } && view_tokens(es@) == escapes && e.code_v() == crate::error::CODE_INVALID_ARGUMENT && e.message_v() == error
            && e.origin_v() == crate::request::ErrorOrigin::Gateway),
        DispatchV::Route { method, fallback, form } => {
            let (rv, esc, f) = spec_route(ms, method, rpath, mode, fallback);
            &&& d.method@ == method
            &&& d.outcome matches DispatchOutcome::Route(o) && outcome_is(o, rv, esc, ms)
            &&& match form {
                Some(fv) => d.form matches Some(x) && x.view_v() == fv,
                None => d.form is None,
            }
        },
    }
}

/// `ServeMux.ServeHTTP` before the handler: the method override and the
/// path-length fallback, with the `ParseForm` each implies.
pub fn dispatch<'a, T>(router: &'a Router<T>, path: &RequestPath, incoming: &Incoming<'_>, options: &MuxOptions) -> (r: Dispatch<'a, T>)
    ensures
        dispatch_is(
            r,
            spec_dispatch(
                router.methods_v(),
                router.mode_v(),
                routing_path(path.path_v(), path.raw_path_v(), router.mode_v()),
                incoming.method.spec_bytes(),
                incoming.target.spec_bytes(),
                match incoming.content_type {
                    Some(c) => Some(c@),
                    None => None,
                },
                match incoming.method_override {
                    Some(o) => Some(o@),
                    None => None,
                },
                incoming.body@,
                options.disable_path_length_fallback,
            ),
            router.methods_v(),
            router.mode_v(),
            routing_path(path.path_v(), path.raw_path_v(), router.mode_v()),
        ),
{
    let query = raw_query(incoming.target);
    let mut method: Vec<u8> = copy_bytes(incoming.method.as_bytes());
    let mut form: Option<Form> = None;
    let mut overridden = false;
    match incoming.method_override {
        Some(ov) => {
            if ov.len() > 0 && fallback_applies(options, method.as_slice(), incoming.content_type) {
                let (parsed, err) = parse_form_method(method.as_slice(), incoming.content_type, query, incoming.body);
                match err {
                    Some(e) => {
                        let escapes: Vec<Vec<u8>> = Vec::new();
                        assert(view_tokens(escapes@) =~= Seq::<Seq<u8>>::empty());
                        return Dispatch {
                            method,
                            outcome: DispatchOutcome::FormError { escapes, error: RequestError::invalid(e) },
                            form: None,
                        };
                    },
                    None => {},
                }
                form = Some(parsed);
                method = go_to_upper(ov);
                overridden = true;
            }
        },
        None => {},
    }
    let fb = fallback_applies(options, method.as_slice(), incoming.content_type);
    let (outcome, fell_back) = router.route_method(method.as_slice(), path, fb);
    let ghost rpath = routing_path(path.path_v(), path.raw_path_v(), router.mode_v());
    let ghost routed = spec_route(router.methods_v(), method@, rpath, router.mode_v(), fb);
    let ghost esc = routed.1;
    assert(outcome_is(outcome, routed.0, esc, router.methods_v()));
    if fell_back && !overridden {
        let (parsed, err) = parse_form_method(method.as_slice(), incoming.content_type, query, incoming.body);
        match err {
            Some(e) => {
                let escapes = match outcome {
                    RouteOutcome::BadRequest { escapes, .. } => {
                        assert(esc.len() > 0);
                        escapes
                    },
                    _ => {
                        let none: Vec<Vec<u8>> = Vec::new();
                        assert(view_tokens(none@) =~= Seq::<Seq<u8>>::empty());
                        none
                    },
                };
                assert(view_tokens(escapes@) == esc);
                return Dispatch {
                    method,
                    outcome: DispatchOutcome::FormError { escapes, error: RequestError::invalid(e) },
                    form: None,
                };
            },
            None => {},
        }
        form = Some(parsed);
    }
    Dispatch { method, outcome: DispatchOutcome::Route(outcome), form }
}

} // verus!
