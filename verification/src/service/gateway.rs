//! What the gateway decides for a request before the message is decoded:
//! the target read as a path, `ServeMux`'s dispatch, and the error response
//! for a request that goes no further. Reading the body, decoding it and
//! calling the service are the caller's, which runs the exchange.
use vstd::prelude::*;
use vstd::string::StringSliceAdditionalSpecFns;
use crate::bytes::push_all;
use crate::error::{
    escape_bodies, response_view, spec_for_route, spec_from_status, spec_malformed_escape, spec_routing, ErrorResponse,
    ResponseV, RoutingError, CODE_INVALID_ARGUMENT,
};
use crate::path::pattern::{Pattern, PathParams, UnescapingMode};
use crate::path::router::{outcome_is, plain_outcome_is, routing_path, spec_request_path, spec_route, RequestPath, RouteOutcome, RouteV, Router};
use crate::path::template::view_tokens;
use crate::request::form::{Form, FormV};
use crate::request::mux::{dispatch, spec_dispatch, Dispatch, DispatchOutcome, DispatchV, Incoming, MuxOptions};

verus! {

/// The response to a routing decision: none for a clean match; after
/// malformed escapes one `400` whose body holds one error per escape, then
/// what the decision itself adds.
pub open spec fn spec_route_response(rv: RouteV, esc: Seq<Seq<u8>>) -> Option<ResponseV> {
    let plain: Option<ResponseV> = match rv {
        RouteV::Matched(_, _, _) => None,
        RouteV::NotFound => Some(spec_routing(RoutingError::NotFound)),
        RouteV::MethodNotAllowed => Some(spec_routing(RoutingError::MethodNotAllowed)),
    };
    if esc.len() == 0 {
        plain
    } else {
        let first = spec_malformed_escape(esc[0]);
        let tail = match plain {
            Some(t) => t.2,
            None => Seq::empty(),
        };
        Some((first.0, first.1, escape_bodies(esc) + tail, first.3))
    }
}

/// The response to a form that does not parse: the `400`s of the escapes
/// met on the way, then the `InvalidArgument`, in one body.
pub open spec fn spec_form_error(escapes: Seq<Seq<u8>>, message: Seq<u8>) -> ResponseV {
    let s = spec_from_status(CODE_INVALID_ARGUMENT, message, Seq::empty(), None, false);
    (s.0, s.1, escape_bodies(escapes) + s.2, s.3)
}

/// What the gateway decides before decoding.
pub enum PreparedV {
    /// Answered at once with this response.
    Refused(ResponseV),
    /// The `hi`-th handler registered for the `mi`-th method matched: the
    /// method routing used, the form `ServeMux` parsed, the path variables.
    Ready { method: Seq<u8>, form: Option<FormV>, mi: int, hi: int, params: Map<Seq<u8>, Seq<u8>> },
}

pub open spec fn spec_prepare<T>(
    ms: Seq<(Seq<u8>, Seq<(Pattern, T)>)>,
    mode: UnescapingMode,
    method: Seq<u8>,
    target: Seq<u8>,
    content_type: Option<Seq<u8>>,
    method_override: Option<Seq<u8>>,
    body: Seq<u8>,
    disabled: bool,
) -> PreparedV {
    match spec_request_path(target) {
        None => PreparedV::Refused(spec_routing(RoutingError::BadRequest)),
        Some((p, raw)) => {
            let rp = routing_path(p, raw, mode);
            match spec_dispatch(ms, mode, rp, method, target, content_type, method_override, body, disabled) {
                DispatchV::FormError { method: _, escapes, error } => PreparedV::Refused(spec_form_error(escapes, error)),
                DispatchV::Route { method: m2, fallback, form } => {
                    let (rv, esc, _) = spec_route(ms, m2, rp, mode, fallback);
                    match spec_route_response(rv, esc) {
                        Some(x) => PreparedV::Refused(x),
                        None => match rv {
                            RouteV::Matched(mi, hi, params) => PreparedV::Ready { method: m2, form, mi, hi, params },
                            _ => PreparedV::Refused(spec_routing(RoutingError::NotFound)),
                        },
                    }
                },
            }
        },
    }
}

proof fn lemma_route_response<'a, T>(o: RouteOutcome<'a, T>, rv: RouteV, esc: Seq<Seq<u8>>, ms: Seq<(Seq<u8>, Seq<(Pattern, T)>)>)
    requires
        outcome_is(o, rv, esc, ms),
    ensures
        spec_for_route(o) == spec_route_response(rv, esc),
{
    match o {
        RouteOutcome::BadRequest { escapes, then } => {
            assert(plain_outcome_is(*then, rv, ms));
            assert(spec_for_route(*then) == spec_route_response(rv, Seq::empty()));
        },
        _ => {},
    }
}

fn form_error_response(escapes: &Vec<Vec<u8>>, error: &crate::request::RequestError) -> (r: ErrorResponse)
    requires
        error.code_v() == CODE_INVALID_ARGUMENT,
    ensures
        response_view(&r) == spec_form_error(view_tokens(escapes@), error.message_v()),
{
    let ghost es = view_tokens(escapes@);
    let mut body: Vec<u8> = Vec::new();
    let mut i: usize = 0;
    while i < escapes.len()
        invariant
            i <= escapes@.len(),
            es == view_tokens(escapes@),
            body@ == escape_bodies(es.subrange(0, i as int)),
        decreases escapes@.len() - i,
    {
        let x = ErrorResponse::malformed_escape(escapes[i].as_slice());
        push_all(&mut body, x.body.as_slice());
        proof {
            assert(es.subrange(0, i + 1).drop_last() =~= es.subrange(0, i as int));
        }
        i = i + 1;
    }
    assert(es.subrange(0, es.len() as int) =~= es);
    let status = error.status();
    let mut response = ErrorResponse::from_status(&status, None, false);
    assert(status.details@ =~= Seq::empty());
    push_all(&mut body, response.body.as_slice());
    response.body = body;
    response
}

/// A request the gateway goes on with.
pub struct Prepared<'a, T> {
    /// The method routing used: the request's, or the override's.
    pub method: Vec<u8>,
    /// Set when `ServeMux` parsed the form; the body is then empty to the
    /// handler.
    pub form: Option<Form>,
    pub handler: &'a T,
    pub params: PathParams,
}

/// The request line and what `ServeMux` reads of the headers and body, up to
/// the handler: refused with the response grpc-gateway writes (a `400` for a
/// target that is not a path, a form that does not parse, the routing
/// errors), or matched.
#[verifier::rlimit(50)]
pub fn prepare<'a, T>(router: &'a Router<T>, incoming: &Incoming<'_>, options: &MuxOptions) -> (r: Result<Prepared<'a, T>, ErrorResponse>)
    ensures
        match spec_prepare(
            router.methods_v(),
            router.mode_v(),
            incoming.method.spec_bytes(),
            incoming.target.spec_bytes(),
            match incoming.content_type {
                Some(c) => Some(c@),
                None => None,
            },
            match incoming.method_override {
                Some(o) => Some(o@),
                None => None,
            },
            incoming.body@,
            options.disable_path_length_fallback,
        ) {
            PreparedV::Refused(x) => r matches Err(e) && response_view(&e) == x,
            PreparedV::Ready { method, form, mi, hi, params } => r matches Ok(p) && p.method@ == method
                && 0 <= mi < router.methods_v().len() && 0 <= hi < router.methods_v()[mi].1.len()
                && *p.handler == router.methods_v()[mi].1[hi].1 && p.params@ == params
                && match form {
                Some(fv) => p.form matches Some(f) && f.view_v() == fv,
                None => p.form is None,
            },
        },
{
    let rp = match RequestPath::parse(incoming.target) {
        Ok(p) => p,
        Err(_) => {
            return Err(ErrorResponse::routing(RoutingError::BadRequest));
        },
    };
    let d = dispatch(router, &rp, incoming, options);
    let Dispatch { method, outcome, form } = d;
    match outcome {
        DispatchOutcome::FormError { escapes, error } => Err(form_error_response(&escapes, &error)),
        DispatchOutcome::Route(outcome) => {
            let ghost o = outcome;
            match outcome {
                RouteOutcome::Matched { handler, params } => Ok(Prepared { method, form, handler, params }),
                other => {
                    proof {
                        let rpath = routing_path(rp.path_v(), rp.raw_path_v(), router.mode_v());
                        let v = spec_dispatch(
                            router.methods_v(),
                            router.mode_v(),
                            rpath,
                            incoming.method.spec_bytes(),
                            incoming.target.spec_bytes(),
                            match incoming.content_type {
                                Some(c) => Some(c@),
                                None => None,
                            },
                            match incoming.method_override {
                                Some(o) => Some(o@),
                                None => None,
                            },
                            incoming.body@,
                            options.disable_path_length_fallback,
                        );
                        if let DispatchV::Route { method: m2, fallback, form: _ } = v {
                            let (rv, esc, _) = spec_route(router.methods_v(), m2, rpath, router.mode_v(), fallback);
                            lemma_route_response(other, rv, esc, router.methods_v());
                        }
                    }
                    match ErrorResponse::for_route(&other) {
                        Some(x) => Err(x),
                        None => {
                            proof {
                                assert(false);
                            }
                            Err(ErrorResponse::routing(RoutingError::NotFound))
                        },
                    }
                },
            }
        },
    }
}

} // verus!
