//! Every HTTP binding a descriptor set declares, in declaration order.
use vstd::prelude::*;
use vstd::string::{StringExecFns, StringSliceAdditionalSpecFns};
use vstd::utf8::encode_utf8;
use crate::codegen::descriptor::{
    FileDescriptorProto, FileDescriptorSet, HttpRule, MethodDescriptorProto, Pattern, ServiceDescriptorProto,
};
use crate::path::pattern::{spec_pattern, Pattern as PathPattern, PatternError};
use crate::path::template::spec_parse;

verus! {

/// One HTTP route to one RPC. A rule with `additional_bindings` gives several.
#[derive(Debug, Clone, PartialEq, Eq)]
pub struct Binding {
    /// Fully-qualified service, e.g. `delonix.node.v1.Compute`.
    pub service: String,
    pub method: String,
    pub http_method: String,
    pub template: String,
    /// `""` (no body), `"*"` or a field path.
    pub body: String,
    pub response_body: String,
    pub client_streaming: bool,
    pub server_streaming: bool,
    /// Index among the bindings of the same RPC; 0 is the primary rule.
    pub index: usize,
}

/// Why the bindings cannot be read.
#[derive(Debug, Clone, PartialEq, Eq)]
pub enum ExtractError {
    /// A rule without a pattern, which grpc-gateway also refuses.
    NoPattern { rpc: String },
    /// grpc-gateway forbids nesting past the first level.
    NestedAdditionalBindings { rpc: String },
    InvalidTemplate { rpc: String, error: PatternError },
}

/// A binding as plain values.
pub struct BindingV {
    pub service: Seq<char>,
    pub method: Seq<char>,
    pub http_method: Seq<char>,
    pub template: Seq<char>,
    pub body: Seq<char>,
    pub response_body: Seq<char>,
    pub client_streaming: bool,
    pub server_streaming: bool,
    pub index: int,
}

/// An extraction error as plain values: which kind, and the RPC.
pub enum ExtractErrorV {
    NoPattern(Seq<char>),
    NestedAdditionalBindings(Seq<char>),
    InvalidTemplate(Seq<char>),
}

pub open spec fn binding_view(b: Binding) -> BindingV {
    BindingV {
        service: b.service@,
        method: b.method@,
        http_method: b.http_method@,
        template: b.template@,
        body: b.body@,
        response_body: b.response_body@,
        client_streaming: b.client_streaming,
        server_streaming: b.server_streaming,
        index: b.index as int,
    }
}

pub open spec fn extract_error_view(e: ExtractError) -> ExtractErrorV {
    match e {
        ExtractError::NoPattern { rpc } => ExtractErrorV::NoPattern(rpc@),
        ExtractError::NestedAdditionalBindings { rpc } => ExtractErrorV::NestedAdditionalBindings(rpc@),
        ExtractError::InvalidTemplate { rpc, .. } => ExtractErrorV::InvalidTemplate(rpc@),
    }
}

pub open spec fn name_of(o: Option<String>) -> Seq<char> {
    match o {
        Some(s) => s@,
        None => Seq::empty(),
    }
}

pub open spec fn flag_of(o: Option<bool>) -> bool {
    match o {
        Some(b) => b,
        None => false,
    }
}

/// Whether `Pattern::new` accepts the template.
pub open spec fn template_ok(t: Seq<char>) -> bool {
    spec_parse(encode_utf8(t)) matches Some((s, _)) && spec_pattern(s) is Some
}

/// The HTTP method and template a rule names, if it has a pattern.
pub open spec fn rule_target(r: HttpRule) -> Option<(Seq<char>, Seq<char>)> {
    match r.pattern {
        Some(Pattern::Get(t)) => Some(("GET"@, t@)),
        Some(Pattern::Put(t)) => Some(("PUT"@, t@)),
        Some(Pattern::Post(t)) => Some(("POST"@, t@)),
        Some(Pattern::Delete(t)) => Some(("DELETE"@, t@)),
        Some(Pattern::Patch(t)) => Some(("PATCH"@, t@)),
        Some(Pattern::Custom(c)) => Some((c.kind@, c.path@)),
        None => None,
    }
}

/// The binding one rule gives, numbered `index` among its RPC's.
pub open spec fn rule_binding(svc: Seq<char>, m: MethodDescriptorProto, rule: HttpRule, rpc: Seq<char>, index: int) -> Result<
    BindingV,
    ExtractErrorV,
> {
    match rule_target(rule) {
        None => Err(ExtractErrorV::NoPattern(rpc)),
        Some((hm, t)) => if !template_ok(t) {
            Err(ExtractErrorV::InvalidTemplate(rpc))
        } else {
            Ok(
                BindingV {
                    service: svc,
                    method: name_of(m.name),
                    http_method: hm,
                    template: t,
                    body: rule.body@,
                    response_body: rule.response_body@,
                    client_streaming: flag_of(m.client_streaming),
                    server_streaming: flag_of(m.server_streaming),
                    index,
                },
            )
        },
    }
}

/// The bindings of the additional rules, numbered from 1.
pub open spec fn extra_bindings(svc: Seq<char>, m: MethodDescriptorProto, rpc: Seq<char>, xs: Seq<HttpRule>) -> Result<
    Seq<BindingV>,
    ExtractErrorV,
>
    decreases xs.len(),
{
    if xs.len() == 0 {
        Ok(Seq::empty())
    } else {
        match extra_bindings(svc, m, rpc, xs.drop_last()) {
            Err(e) => Err(e),
            Ok(prev) => if xs.last().additional_bindings@.len() > 0 {
                Err(ExtractErrorV::NestedAdditionalBindings(rpc))
            } else {
                match rule_binding(svc, m, xs.last(), rpc, xs.len() as int) {
                    Err(e) => Err(e),
                    Ok(b) => Ok(prev.push(b)),
                }
            },
        }
    }
}

/// The bindings of one method of service `svc`.
pub open spec fn method_bindings(svc: Seq<char>, m: MethodDescriptorProto) -> Result<Seq<BindingV>, ExtractErrorV> {
    match m.options {
        Some(o) => match o.http {
            Some(rule) => {
                let rpc = svc + "."@ + name_of(m.name);
                match rule_binding(svc, m, rule, rpc, 0) {
                    Err(e) => Err(e),
                    Ok(b) => match extra_bindings(svc, m, rpc, rule.additional_bindings@) {
                        Err(e) => Err(e),
                        Ok(bs) => Ok(seq![b] + bs),
                    },
                }
            },
            None => Ok(Seq::empty()),
        },
        None => Ok(Seq::empty()),
    }
}

/// The fully-qualified name of a service of a file.
pub open spec fn service_name(f: FileDescriptorProto, s: ServiceDescriptorProto) -> Seq<char> {
    match f.package {
        Some(p) => if p@.len() > 0 {
            p@ + "."@ + name_of(s.name)
        } else {
            name_of(s.name)
        },
        None => name_of(s.name),
    }
}

/// The bindings of the first `n` methods of a service.
pub open spec fn methods_bindings(svc: Seq<char>, ms: Seq<MethodDescriptorProto>) -> Result<Seq<BindingV>, ExtractErrorV>
    decreases ms.len(),
{
    if ms.len() == 0 {
        Ok(Seq::empty())
    } else {
        match methods_bindings(svc, ms.drop_last()) {
            Err(e) => Err(e),
            Ok(prev) => match method_bindings(svc, ms.last()) {
                Err(e) => Err(e),
                Ok(bs) => Ok(prev + bs),
            },
        }
    }
}

pub open spec fn services_bindings(f: FileDescriptorProto, ss: Seq<ServiceDescriptorProto>) -> Result<Seq<BindingV>, ExtractErrorV>
    decreases ss.len(),
{
    if ss.len() == 0 {
        Ok(Seq::empty())
    } else {
        match services_bindings(f, ss.drop_last()) {
            Err(e) => Err(e),
            Ok(prev) => match methods_bindings(service_name(f, ss.last()), ss.last().method@) {
                Err(e) => Err(e),
                Ok(bs) => Ok(prev + bs),
            },
        }
    }
}

/// Every binding of the files, in declaration order, or the first error.
pub open spec fn files_bindings(fs: Seq<FileDescriptorProto>) -> Result<Seq<BindingV>, ExtractErrorV>
    decreases fs.len(),
{
    if fs.len() == 0 {
        Ok(Seq::empty())
    } else {
        match files_bindings(fs.drop_last()) {
            Err(e) => Err(e),
            Ok(prev) => match services_bindings(fs.last(), fs.last().service@) {
                Err(e) => Err(e),
                Ok(bs) => Ok(prev + bs),
            },
        }
    }
}

pub open spec fn bindings_view(v: Seq<Binding>) -> Seq<BindingV> {
    v.map_values(|b: Binding| binding_view(b))
}

fn opt_string(o: &Option<String>) -> (r: String)
    ensures
        r@ == name_of(*o),
{
    match o {
        Some(s) => s.clone(),
        None => String::new(),
    }
}

fn opt_flag(o: &Option<bool>) -> (r: bool)
    ensures
        r == flag_of(*o),
{
    match o {
        Some(b) => *b,
        None => false,
    }
}

fn full_service_name(f: &FileDescriptorProto, s: &ServiceDescriptorProto) -> (r: String)
    ensures
        r@ == service_name(*f, *s),
{
    let name = opt_string(&s.name);
    match &f.package {
        Some(p) => {
            if !p.as_str().is_empty() {
                let mut out = p.clone();
                out.append(".");
                out.append(name.as_str());
                out
            } else {
                name
            }
        },
        None => name,
    }
}

/// The binding one rule gives.
fn rule_to_binding(svc: &String, m: &MethodDescriptorProto, rule: &HttpRule, rpc: &String, index: usize) -> (r: Result<
    Binding,
    ExtractError,
>)
    ensures
        match r {
            Ok(b) => rule_binding(svc@, *m, *rule, rpc@, index as int) == Ok::<BindingV, ExtractErrorV>(binding_view(b)),
            Err(e) => rule_binding(svc@, *m, *rule, rpc@, index as int) == Err::<BindingV, ExtractErrorV>(
                extract_error_view(e),
            ),
        },
{
    let (http_method, template): (String, String) = match &rule.pattern {
        Some(Pattern::Get(t)) => ("GET".to_owned(), t.clone()),
        Some(Pattern::Put(t)) => ("PUT".to_owned(), t.clone()),
        Some(Pattern::Post(t)) => ("POST".to_owned(), t.clone()),
        Some(Pattern::Delete(t)) => ("DELETE".to_owned(), t.clone()),
        Some(Pattern::Patch(t)) => ("PATCH".to_owned(), t.clone()),
        Some(Pattern::Custom(c)) => (c.kind.clone(), c.path.clone()),
        None => return Err(ExtractError::NoPattern { rpc: rpc.clone() }),
    };
    match PathPattern::new(template.as_str()) {
        Err(error) => {
            return Err(ExtractError::InvalidTemplate { rpc: rpc.clone(), error });
        },
        Ok(_) => {},
    }
    Ok(
        Binding {
            service: svc.clone(),
            method: opt_string(&m.name),
            http_method,
            template,
            body: rule.body.clone(),
            response_body: rule.response_body.clone(),
            client_streaming: opt_flag(&m.client_streaming),
            server_streaming: opt_flag(&m.server_streaming),
            index,
        },
    )
}

proof fn lemma_extra_error_persists(svc: Seq<char>, m: MethodDescriptorProto, rpc: Seq<char>, xs: Seq<HttpRule>, n: int)
    requires
        0 <= n <= xs.len(),
        extra_bindings(svc, m, rpc, xs.subrange(0, n)) is Err,
    ensures
        extra_bindings(svc, m, rpc, xs) == extra_bindings(svc, m, rpc, xs.subrange(0, n)),
    decreases xs.len() - n,
{
    if n < xs.len() {
        assert(xs.subrange(0, n + 1).drop_last() =~= xs.subrange(0, n));
        lemma_extra_error_persists(svc, m, rpc, xs, n + 1);
    } else {
        assert(xs.subrange(0, n) =~= xs);
    }
}

/// Appends the bindings of one method.
fn add_method(out: &mut Vec<Binding>, svc: &String, m: &MethodDescriptorProto) -> (r: Result<(), ExtractError>)
    ensures
        match method_bindings(svc@, *m) {
            Ok(bs) => r is Ok && bindings_view(final(out)@) == bindings_view(old(out)@) + bs,
            Err(e) => r matches Err(x) && extract_error_view(x) == e,
        },
{
    let ghost o = bindings_view(out@);
    let rule = match &m.options {
        Some(opts) => match &opts.http {
            Some(rule) => rule,
            None => {
                assert(o =~= o + Seq::<BindingV>::empty());
                return Ok(());
            },
        },
        None => {
            assert(o =~= o + Seq::<BindingV>::empty());
            return Ok(());
        },
    };
    let mut rpc = svc.clone();
    rpc.append(".");
    let mname = opt_string(&m.name);
    rpc.append(mname.as_str());
    let first = match rule_to_binding(svc, m, rule, &rpc, 0) {
        Ok(b) => b,
        Err(e) => return Err(e),
    };
    let ghost fv = binding_view(first);
    out.push(first);
    assert(bindings_view(out@) =~= o + seq![fv]);
    let xs = &rule.additional_bindings;
    let mut i: usize = 0;
    assert(xs@.subrange(0, 0) =~= Seq::<HttpRule>::empty());
    assert(o + seq![fv] + Seq::<BindingV>::empty() =~= o + seq![fv]);
    while i < xs.len()
        invariant
            i <= xs@.len(),
            xs@ == rule.additional_bindings@,
            m.options matches Some(opts) && opts.http == Some(*rule),
            rpc@ == svc@ + "."@ + name_of(m.name),
            rule_binding(svc@, *m, *rule, rpc@, 0) == Ok::<BindingV, ExtractErrorV>(fv),
            extra_bindings(svc@, *m, rpc@, xs@.subrange(0, i as int)) matches Ok(prev) && bindings_view(out@) == o + seq![fv]
                + prev,
        decreases xs@.len() - i,
    {
        let x = &xs[i];
        let ghost sub = xs@.subrange(0, i + 1);
        assert(sub.drop_last() =~= xs@.subrange(0, i as int));
        assert(sub.last() == *x);
        if x.additional_bindings.len() > 0 {
            proof {
                lemma_extra_error_persists(svc@, *m, rpc@, xs@, i + 1);
            }
            return Err(ExtractError::NestedAdditionalBindings { rpc });
        }
        match rule_to_binding(svc, m, x, &rpc, i + 1) {
            Ok(b) => {
                let ghost before = bindings_view(out@);
                out.push(b);
                assert(bindings_view(out@) =~= before.push(binding_view(b)));
            },
            Err(e) => {
                proof {
                    lemma_extra_error_persists(svc@, *m, rpc@, xs@, i + 1);
                }
                return Err(e);
            },
        }
        i = i + 1;
    }
    assert(xs@.subrange(0, i as int) =~= xs@);
    proof {
        let prev = extra_bindings(svc@, *m, rpc@, xs@)->Ok_0;
        assert(o + seq![fv] + prev =~= o + (seq![fv] + prev));
    }
    Ok(())
}

/// Every HTTP binding the descriptor set declares, in declaration order.
pub fn bindings(set: &FileDescriptorSet) -> (r: Result<Vec<Binding>, ExtractError>)
    ensures
        match files_bindings(set.file@) {
            Ok(bs) => r matches Ok(v) && bindings_view(v@) == bs,
            Err(e) => r matches Err(x) && extract_error_view(x) == e,
        },
{
    let mut out: Vec<Binding> = Vec::new();
    let mut fi: usize = 0;
    assert(set.file@.subrange(0, 0) =~= Seq::<FileDescriptorProto>::empty());
    assert(bindings_view(out@) =~= Seq::<BindingV>::empty());
    while fi < set.file.len()
        invariant
            fi <= set.file@.len(),
            files_bindings(set.file@.subrange(0, fi as int)) == Ok::<Seq<BindingV>, ExtractErrorV>(bindings_view(out@)),
        decreases set.file@.len() - fi,
    {
        let f = &set.file[fi];
        let ghost fs = set.file@.subrange(0, fi + 1);
        assert(fs.drop_last() =~= set.file@.subrange(0, fi as int));
        assert(fs.last() == *f);
        let ghost before_file = bindings_view(out@);
        let mut si: usize = 0;
        assert(f.service@.subrange(0, 0) =~= Seq::<ServiceDescriptorProto>::empty());
        assert(before_file + Seq::<BindingV>::empty() =~= before_file);
        while si < f.service.len()
            invariant
                si <= f.service@.len(),
                fi < set.file@.len(),
                *f == set.file@[fi as int],
                files_bindings(set.file@.subrange(0, fi as int)) == Ok::<Seq<BindingV>, ExtractErrorV>(before_file),
                services_bindings(*f, f.service@.subrange(0, si as int)) matches Ok(sb) && bindings_view(out@) == before_file
                    + sb,
            decreases f.service@.len() - si,
        {
            let s = &f.service[si];
            let ghost ss = f.service@.subrange(0, si + 1);
            assert(ss.drop_last() =~= f.service@.subrange(0, si as int));
            assert(ss.last() == *s);
            let name = full_service_name(f, s);
            let ghost before_service = bindings_view(out@);
            let mut mi: usize = 0;
            assert(s.method@.subrange(0, 0) =~= Seq::<MethodDescriptorProto>::empty());
            assert(before_service + Seq::<BindingV>::empty() =~= before_service);
            while mi < s.method.len()
                invariant
                    mi <= s.method@.len(),
                    fi < set.file@.len(),
                    *f == set.file@[fi as int],
                    si < f.service@.len(),
                    *s == f.service@[si as int],
                    name@ == service_name(*f, *s),
                    files_bindings(set.file@.subrange(0, fi as int)) == Ok::<Seq<BindingV>, ExtractErrorV>(before_file),
                    services_bindings(*f, f.service@.subrange(0, si as int)) matches Ok(sb) && before_service == before_file + sb,
                    methods_bindings(name@, s.method@.subrange(0, mi as int)) matches Ok(mb) && bindings_view(out@)
                        == before_service + mb,
                decreases s.method@.len() - mi,
            {
                let m = &s.method[mi];
                let ghost ms = s.method@.subrange(0, mi + 1);
                assert(ms.drop_last() =~= s.method@.subrange(0, mi as int));
                assert(ms.last() == *m);
                let ghost before_method = bindings_view(out@);
                match add_method(&mut out, &name, m) {
                    Ok(()) => {
                        proof {
                            let mb = methods_bindings(name@, s.method@.subrange(0, mi as int))->Ok_0;
                            let nb = method_bindings(name@, *m)->Ok_0;
                            assert(before_service + mb + nb =~= before_service + (mb + nb));
                        }
                    },
                    Err(e) => {
                        proof {
                            lemma_methods_error(name@, s.method@, mi + 1);
                            lemma_services_error(*f, f.service@, si as int, s.method@);
                            lemma_files_error(set.file@, fi as int);
                        }
                        return Err(e);
                    },
                }
                mi = mi + 1;
            }
            assert(s.method@.subrange(0, mi as int) =~= s.method@);
            proof {
                let sb = services_bindings(*f, f.service@.subrange(0, si as int))->Ok_0;
                let mb = methods_bindings(name@, s.method@)->Ok_0;
                assert(before_file + sb + mb =~= before_file + (sb + mb));
            }
            si = si + 1;
        }
        assert(f.service@.subrange(0, si as int) =~= f.service@);
        proof {
            let sb = services_bindings(*f, f.service@)->Ok_0;
            assert(before_file + sb == bindings_view(out@));
        }
        fi = fi + 1;
    }
    assert(set.file@.subrange(0, fi as int) =~= set.file@);
    Ok(out)
}

proof fn lemma_methods_error(svc: Seq<char>, ms: Seq<MethodDescriptorProto>, n: int)
    requires
        0 < n <= ms.len(),
        methods_bindings(svc, ms.subrange(0, n - 1)) is Ok,
        method_bindings(svc, ms[n - 1]) is Err,
    ensures
        methods_bindings(svc, ms) == Err::<Seq<BindingV>, ExtractErrorV>(method_bindings(svc, ms[n - 1])->Err_0),
    decreases ms.len() - n,
{
    assert(ms.subrange(0, n).drop_last() =~= ms.subrange(0, n - 1));
    assert(ms.subrange(0, n).last() == ms[n - 1]);
    lemma_methods_error_up(svc, ms, n);
}

proof fn lemma_methods_error_up(svc: Seq<char>, ms: Seq<MethodDescriptorProto>, n: int)
    requires
        0 <= n <= ms.len(),
        methods_bindings(svc, ms.subrange(0, n)) is Err,
    ensures
        methods_bindings(svc, ms) == methods_bindings(svc, ms.subrange(0, n)),
    decreases ms.len() - n,
{
    if n < ms.len() {
        assert(ms.subrange(0, n + 1).drop_last() =~= ms.subrange(0, n));
        lemma_methods_error_up(svc, ms, n + 1);
    } else {
        assert(ms.subrange(0, n) =~= ms);
    }
}

proof fn lemma_services_error(f: FileDescriptorProto, ss: Seq<ServiceDescriptorProto>, n: int, ms: Seq<MethodDescriptorProto>)
    requires
        0 <= n < ss.len(),
        ss[n].method@ == ms,
        services_bindings(f, ss.subrange(0, n)) is Ok,
        methods_bindings(service_name(f, ss[n]), ms) is Err,
    ensures
        services_bindings(f, ss) == Err::<Seq<BindingV>, ExtractErrorV>(methods_bindings(service_name(f, ss[n]), ms)->Err_0),
{
    assert(ss.subrange(0, n + 1).drop_last() =~= ss.subrange(0, n));
    assert(ss.subrange(0, n + 1).last() == ss[n]);
    lemma_services_error_up(f, ss, n + 1);
}

proof fn lemma_services_error_up(f: FileDescriptorProto, ss: Seq<ServiceDescriptorProto>, n: int)
    requires
        0 <= n <= ss.len(),
        services_bindings(f, ss.subrange(0, n)) is Err,
    ensures
        services_bindings(f, ss) == services_bindings(f, ss.subrange(0, n)),
    decreases ss.len() - n,
{
    if n < ss.len() {
        assert(ss.subrange(0, n + 1).drop_last() =~= ss.subrange(0, n));
        lemma_services_error_up(f, ss, n + 1);
    } else {
        assert(ss.subrange(0, n) =~= ss);
    }
}

proof fn lemma_files_error(fs: Seq<FileDescriptorProto>, n: int)
    requires
        0 <= n < fs.len(),
        files_bindings(fs.subrange(0, n)) is Ok,
        services_bindings(fs[n], fs[n].service@) is Err,
    ensures
        files_bindings(fs) == Err::<Seq<BindingV>, ExtractErrorV>(services_bindings(fs[n], fs[n].service@)->Err_0),
{
    assert(fs.subrange(0, n + 1).drop_last() =~= fs.subrange(0, n));
    assert(fs.subrange(0, n + 1).last() == fs[n]);
    lemma_files_error_up(fs, n + 1);
}

proof fn lemma_files_error_up(fs: Seq<FileDescriptorProto>, n: int)
    requires
        0 <= n <= fs.len(),
        files_bindings(fs.subrange(0, n)) is Err,
    ensures
        files_bindings(fs) == files_bindings(fs.subrange(0, n)),
    decreases fs.len() - n,
{
    if n < fs.len() {
        assert(fs.subrange(0, n + 1).drop_last() =~= fs.subrange(0, n));
        lemma_files_error_up(fs, n + 1);
    } else {
        assert(fs.subrange(0, n) =~= fs);
    }
}

} // verus!
