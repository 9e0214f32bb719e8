use vstd::prelude::*;

use crate::descriptor::{
    FieldCardinality, FieldKind, FieldKindModel, FieldModel, MethodInfo, MethodModel, Pool,
    PoolModel, ServiceInfo, ServiceModel,
};
use crate::names::{kebab_of, lemma_normalized_kebab, names_match, normalized, to_kebab};
use crate::names::is_ascii_digit_char;
use crate::order::{
    contains_seq, first_where, is_first_where, lemma_first_where_congruence,
    lemma_first_where_none, lemma_first_where_some, lemma_sorted_insert_at,
    lemma_sorted_insert_preserves, sorted_by_key, sorted_insert, starts_with_seq, str_contains,
    str_lex_lt, str_starts_with,
};

verus! {

// Name resolution over the descriptor pool: a service is found by its
// declared name, its hyphenated command name, or its fully-qualified name;
// a method by its declared name, its hyphenated name, or its
// fully-qualified path. Matching is case- and punctuation-insensitive and
// always picks the first hit in pool order.

/// The namespace every visible service's fully-qualified name begins with.
pub open spec fn ads_namespace_prefix() -> Seq<char> {
    "google.ads.googleads."@
}

/// The path segment every visible service's fully-qualified name contains.
pub open spec fn services_segment() -> Seq<char> {
    ".services."@
}

/// Only services inside the target API namespace are visible to lookup and
/// to the command tree.
pub open spec fn is_visible_service_name(full: Seq<char>) -> bool {
    starts_with_seq(full, ads_namespace_prefix()) && contains_seq(full, services_segment())
}

/// A service name matches an input when the input equals, up to
/// normalization, the declared name, its hyphenated form, or the
/// fully-qualified name.
pub open spec fn service_name_matches(svc: ServiceModel, input: Seq<char>) -> bool {
    ||| normalized(svc.name) == normalized(input)
    ||| normalized(kebab_of(svc.name)) == normalized(input)
    ||| normalized(svc.full_name) == normalized(input)
}

/// A visible service that the input resolves to.
pub open spec fn service_hit(svc: ServiceModel, input: Seq<char>) -> bool {
    is_visible_service_name(svc.full_name) && service_name_matches(svc, input)
}

/// A method name matches an input when the input equals, up to
/// normalization, the declared name, its hyphenated form, or the
/// fully-qualified path through the owning service.
pub open spec fn method_hit(m: MethodModel, input: Seq<char>) -> bool {
    ||| normalized(m.name) == normalized(input)
    ||| normalized(kebab_of(m.name)) == normalized(input)
    ||| normalized(m.service_full_name + seq!['/'] + m.name) == normalized(input)
}

/// The index of the first service the input resolves to, if any.
pub open spec fn first_service_hit(services: Seq<ServiceModel>, input: Seq<char>) -> Option<int> {
    first_where(|i: int| service_hit(services[i], input), services.len() as int)
}

/// The index of the first method the input resolves to, if any.
pub open spec fn first_method_hit(methods: Seq<MethodModel>, input: Seq<char>) -> Option<int> {
    first_where(|j: int| method_hit(methods[j], input), methods.len() as int)
}

/// A failed name resolution, carrying the token that did not resolve.
#[derive(Clone, Debug)]
pub enum ResolveError {
    /// No visible service matched the given service token.
    UnknownService(String),
    /// The service resolved, but no method matched the given method token;
    /// carries the service token and the method token.
    UnknownMethod(String, String),
    /// A method resolved, but its input type is not declared in the pool;
    /// carries the type's fully-qualified name.
    UnresolvedType(String),
}

impl ResolveError {
    /// A human-readable description of the failure, naming the token that
    /// did not resolve.
    pub fn message(&self) -> (r: String)
        ensures
            match self {
                ResolveError::UnknownService(s) => r@ == "unknown service "@ + s@,
                ResolveError::UnknownMethod(s, m) => r@ == "unknown method "@ + s@ + " "@ + m@,
                ResolveError::UnresolvedType(t) => r@ == "unresolved type "@ + t@,
            },
    {
        match self {
            ResolveError::UnknownService(s) => String::from_str("unknown service ").concat(
                s.as_str(),
            ),
            ResolveError::UnknownMethod(s, m) => String::from_str("unknown method ").concat(
                s.as_str(),
            ).concat(" ").concat(m.as_str()),
            ResolveError::UnresolvedType(t) => String::from_str("unresolved type ").concat(
                t.as_str(),
            ),
        }
    }
}

/// Whether this service belongs to the target API namespace and is
/// therefore visible to lookup and to the command tree.
pub fn is_google_ads_service(service: &ServiceInfo) -> (r: bool)
    ensures
        r == is_visible_service_name(service@.full_name),
{
    str_starts_with(service.full_name.as_str(), "google.ads.googleads.") && str_contains(
        service.full_name.as_str(),
        ".services.",
    )
}

/// Whether the input resolves to this service under any of the three
/// accepted name forms.
pub fn service_matches(service: &ServiceInfo, input: &str) -> (r: bool)
    ensures
        r == service_name_matches(service@, input@),
{
    if names_match(service.name.as_str(), input) {
        return true;
    }
    let kb = to_kebab(service.name.as_str());
    if names_match(kb.as_str(), input) {
        return true;
    }
    names_match(service.full_name.as_str(), input)
}

/// Whether the input resolves to this method under any accepted name form.
pub fn method_matches(method: &MethodInfo, input: &str) -> (r: bool)
    ensures
        r == method_hit(method@, input@),
{
    if names_match(method.name.as_str(), input) {
        return true;
    }
    let kb = to_kebab(method.name.as_str());
    if names_match(kb.as_str(), input) {
        return true;
    }
    let full = method.service_full_name.clone().concat("/").concat(method.name.as_str());
    proof {
        reveal_strlit("/");
        assert("/"@ =~= seq!['/']);
        assert(full@ == method@.service_full_name + seq!['/'] + method@.name);
    }
    names_match(full.as_str(), input)
}

/// Finds the first visible service the input resolves to.
fn find_service_index(pool: &Pool, service: &str) -> (r: Option<usize>)
    ensures
        match r {
            Option::Some(i) => i < pool.services@.len() && first_service_hit(
                pool@.services,
                service@,
            ) == Option::Some(i as int),
            Option::None => first_service_hit(pool@.services, service@)
                == Option::<int>::None,
        },
{
    let ghost p = |i: int| service_hit(pool@.services[i], service@);
    let n = pool.services.len();
    let mut i: usize = 0;
    while i < n
        invariant
            n == pool.services@.len(),
            i <= n,
            p == (|i: int| service_hit(pool@.services[i], service@)),
            forall|k: int| 0 <= k < i ==> !(#[trigger] p(k)),
        decreases n - i,
    {
        let svc = &pool.services[i];
        if is_google_ads_service(svc) && service_matches(svc, service) {
            proof {
                assert(pool@.services[i as int] == svc@);
                assert(p(i as int));
                lemma_first_where_some(p, n as int, i as int);
            }
            return Some(i);
        }
        proof {
            assert(pool@.services[i as int] == svc@);
            assert(!p(i as int));
        }
        i += 1;
    }
    proof {
        lemma_first_where_none(p, n as int);
    }
    None
}

/// Resolves a service token and a method token to the method they name.
/// Resolution is deterministic: the first visible service in pool order
/// that matches, then the first of its methods that matches. On failure
/// the error carries exactly the token that did not resolve.
pub fn find_method(pool: &Pool, service: &str, method: &str) -> (r: Result<
    MethodInfo,
    ResolveError,
>)
    ensures
        match first_service_hit(pool@.services, service@) {
            Option::Some(i) => match first_method_hit(pool@.services[i].methods, method@) {
                Option::Some(j) => r matches Result::Ok(m) && m@ == pool@.services[i].methods[j],
                Option::None => r matches Result::Err(e) && e matches ResolveError::UnknownMethod(
                    s,
                    mm,
                ) && s@ == service@ && mm@ == method@,
            },
            Option::None => r matches Result::Err(e) && e matches ResolveError::UnknownService(s)
                && s@ == service@,
        },
{
    let found = find_service_index(pool, service);
    let i = match found {
        Some(i) => i,
        None => {
            return Err(ResolveError::UnknownService(String::from_str(service)));
        },
    };
    let svc = &pool.services[i];
    let ghost ms = pool@.services[i as int].methods;
    proof {
        assert(pool@.services[i as int] == svc@);
    }
    let ghost q = |j: int| method_hit(ms[j], method@);
    let nm = svc.methods.len();
    let mut j: usize = 0;
    while j < nm
        invariant
            nm == svc.methods@.len(),
            j <= nm,
            i < pool.services@.len(),
            first_service_hit(pool@.services, service@) == Option::Some(i as int),
            svc == &pool.services[i as int],
            ms == svc@.methods,
            q == (|j: int| method_hit(ms[j], method@)),
            forall|k: int| 0 <= k < j ==> !(#[trigger] q(k)),
        decreases nm - j,
    {
        let m = &svc.methods[j];
        proof {
            assert(svc@.methods[j as int] == m@);
        }
        if method_matches(m, method) {
            proof {
                assert(q(j as int));
                lemma_first_where_some(q, nm as int, j as int);
                assert(first_method_hit(ms, method@) == Option::Some(j as int));
            }
            return Ok(m.duplicate());
        }
        proof {
            assert(!q(j as int));
        }
        j += 1;
    }
    proof {
        lemma_first_where_none(q, nm as int);
    }
    Err(
        ResolveError::UnknownMethod(String::from_str(service), String::from_str(method)),
    )
}

/// One method of the command tree: hyphenated name, gRPC path, input and
/// output type names, and the two streaming flags.
#[derive(Clone, Debug)]
pub struct MethodDef {
    pub name: String,
    pub full_name: String,
    pub input_type: String,
    pub output_type: String,
    pub client_streaming: bool,
    pub server_streaming: bool,
}

/// One service of the command tree: hyphenated name, fully-qualified name,
/// and its methods sorted by hyphenated name.
#[derive(Clone, Debug)]
pub struct ServiceDef {
    pub name: String,
    pub full_name: String,
    pub methods: Vec<MethodDef>,
}

/// A deterministic snapshot of every visible service, sorted by hyphenated
/// name at both the service and the method level.
#[derive(Clone, Debug)]
pub struct CommandTree {
    pub version: u32,
    pub api_version: String,
    pub services: Vec<ServiceDef>,
}

pub ghost struct MethodDefModel {
    pub name: Seq<char>,
    pub full_name: Seq<char>,
    pub input_type: Seq<char>,
    pub output_type: Seq<char>,
    pub client_streaming: bool,
    pub server_streaming: bool,
}

pub ghost struct ServiceDefModel {
    pub name: Seq<char>,
    pub full_name: Seq<char>,
    pub methods: Seq<MethodDefModel>,
}

pub ghost struct TreeModel {
    pub version: u32,
    pub api_version: Seq<char>,
    pub services: Seq<ServiceDefModel>,
}

impl View for MethodDef {
    type V = MethodDefModel;

    open spec fn view(&self) -> MethodDefModel {
        MethodDefModel {
            name: self.name@,
            full_name: self.full_name@,
            input_type: self.input_type@,
            output_type: self.output_type@,
            client_streaming: self.client_streaming,
            server_streaming: self.server_streaming,
        }
    }
}

impl View for ServiceDef {
    type V = ServiceDefModel;

    open spec fn view(&self) -> ServiceDefModel {
        ServiceDefModel {
            name: self.name@,
            full_name: self.full_name@,
            methods: self.methods@.map_values(|m: MethodDef| m@),
        }
    }
}

impl View for CommandTree {
    type V = TreeModel;

    open spec fn view(&self) -> TreeModel {
        TreeModel {
            version: self.version,
            api_version: self.api_version@,
            services: self.services@.map_values(|s: ServiceDef| s@),
        }
    }
}

/// The command-tree entry for one method of a service.
pub open spec fn method_def_of(service_full: Seq<char>, m: MethodModel) -> MethodDefModel {
    MethodDefModel {
        name: kebab_of(m.name),
        full_name: service_full + seq!['/'] + m.name,
        input_type: m.input_type,
        output_type: m.output_type,
        client_streaming: m.client_streaming,
        server_streaming: m.server_streaming,
    }
}

/// A service's method entries, sorted ascending by hyphenated name.
pub open spec fn sorted_method_defs(service_full: Seq<char>, ms: Seq<MethodModel>) -> Seq<
    MethodDefModel,
>
    decreases ms.len(),
{
    if ms.len() == 0 {
        Seq::empty()
    } else {
        sorted_insert(
            sorted_method_defs(service_full, ms.drop_last()),
            method_def_of(service_full, ms.last()),
            |d: MethodDefModel| d.name,
        )
    }
}

/// The command-tree entry for one service.
pub open spec fn service_def_of(svc: ServiceModel) -> ServiceDefModel {
    ServiceDefModel {
        name: kebab_of(svc.name),
        full_name: svc.full_name,
        methods: sorted_method_defs(svc.full_name, svc.methods),
    }
}

/// The visible services' entries, sorted ascending by hyphenated name.
pub open spec fn sorted_service_defs(services: Seq<ServiceModel>) -> Seq<ServiceDefModel>
    decreases services.len(),
{
    if services.len() == 0 {
        Seq::empty()
    } else {
        let rest = sorted_service_defs(services.drop_last());
        if is_visible_service_name(services.last().full_name) {
            sorted_insert(rest, service_def_of(services.last()), |d: ServiceDefModel| d.name)
        } else {
            rest
        }
    }
}

/// Length of the leading dot-free run of `s`: where its first name segment
/// ends.
pub open spec fn seg_len(s: Seq<char>) -> nat
    decreases s.len(),
{
    if s.len() == 0 {
        0
    } else if s[0] == '.' {
        0
    } else {
        1 + seg_len(s.drop_first())
    }
}

/// An API version token: the letter `v` followed by one or more digits and
/// nothing else.
pub open spec fn is_version_seg_chars(p: Seq<char>) -> bool {
    p.len() > 1 && p[0] == 'v' && forall|k: int| 1 <= k < p.len() ==> is_ascii_digit_char(#[trigger] p[k])
}

/// The first dot-delimited version token of a fully-qualified name, if any.
pub open spec fn first_version_in(s: Seq<char>) -> Option<Seq<char>>
    decreases s.len(),
{
    let e = seg_len(s);
    let seg = s.take(e as int);
    if is_version_seg_chars(seg) {
        Option::Some(seg)
    } else if e >= s.len() {
        Option::None
    } else {
        first_version_in(s.skip(e + 1 as int))
    }
}

/// The version token taken from the first visible service whose
/// fully-qualified name carries one, scanning services in pool order.
pub open spec fn api_version_of(services: Seq<ServiceModel>) -> Option<Seq<char>>
    decreases services.len(),
{
    if services.len() == 0 {
        Option::None
    } else if is_visible_service_name(services[0].full_name) {
        match first_version_in(services[0].full_name) {
            Option::Some(v) => Option::Some(v),
            Option::None => api_version_of(services.drop_first()),
        }
    } else {
        api_version_of(services.drop_first())
    }
}

pub open spec fn api_version_or_unknown(services: Seq<ServiceModel>) -> Seq<char> {
    match api_version_of(services) {
        Option::Some(v) => v,
        Option::None => "unknown"@,
    }
}

/// The deterministic command tree of a pool: a pure function of the pool's
/// model, so repeated builds over the same pool agree exactly.
pub open spec fn tree_of(pool: PoolModel) -> TreeModel {
    TreeModel {
        version: 1,
        api_version: api_version_or_unknown(pool.services),
        services: sorted_service_defs(pool.services),
    }
}

/// Resolution reads its input tokens only through their normalized forms:
/// two service tokens that normalize alike, and two method tokens that
/// normalize alike, resolve to exactly the same service and method. In
/// particular a declared name, its hyphenated command form, and any
/// re-punctuated or re-cased variant all yield the identical method.
pub proof fn lemma_resolution_normalization_invariant(
    pool: PoolModel,
    s1: Seq<char>,
    s2: Seq<char>,
    m1: Seq<char>,
    m2: Seq<char>,
)
    requires
        normalized(s1) == normalized(s2),
        normalized(m1) == normalized(m2),
    ensures
        first_service_hit(pool.services, s1) == first_service_hit(pool.services, s2),
        forall|i: int|
            0 <= i < pool.services.len() ==> first_method_hit(
                (#[trigger] pool.services[i]).methods,
                m1,
            ) == first_method_hit(pool.services[i].methods, m2),
{
    let p1 = |i: int| service_hit(pool.services[i], s1);
    let p2 = |i: int| service_hit(pool.services[i], s2);
    let n = pool.services.len() as int;
    lemma_first_where_congruence(p1, p2, n);
    assert forall|i: int| 0 <= i < pool.services.len() implies first_method_hit(
        (#[trigger] pool.services[i]).methods,
        m1,
    ) == first_method_hit(pool.services[i].methods, m2) by {
        let ms = pool.services[i].methods;
        let q1 = |j: int| method_hit(ms[j], m1);
        let q2 = |j: int| method_hit(ms[j], m2);
        lemma_first_where_congruence(q1, q2, ms.len() as int);
    }
}

/// Each of the three accepted name forms does match its own service or
/// method: a visible service is a hit for its declared name, its
/// hyphenated form, and its fully-qualified name, and a method for its
/// declared name, its hyphenated form, and its fully-qualified path.
pub proof fn lemma_name_forms_hit(svc: ServiceModel, m: MethodModel)
    requires
        is_visible_service_name(svc.full_name),
    ensures
        service_hit(svc, svc.name),
        service_hit(svc, kebab_of(svc.name)),
        service_hit(svc, svc.full_name),
        method_hit(m, m.name),
        method_hit(m, kebab_of(m.name)),
        method_hit(m, m.service_full_name + seq!['/'] + m.name),
{
    lemma_normalized_kebab(svc.name);
    lemma_normalized_kebab(m.name);
}

/// When exactly one service matches a token and exactly one of its methods
/// matches another, resolution lands on that pair, whichever accepted form
/// each token takes.
pub proof fn lemma_unambiguous_resolution(
    pool: PoolModel,
    i: int,
    j: int,
    s_form: Seq<char>,
    m_form: Seq<char>,
)
    requires
        0 <= i < pool.services.len(),
        service_hit(pool.services[i], s_form),
        forall|k: int|
            0 <= k < pool.services.len() && k != i ==> !service_hit(
                #[trigger] pool.services[k],
                s_form,
            ),
        0 <= j < pool.services[i].methods.len(),
        method_hit(pool.services[i].methods[j], m_form),
        forall|l: int|
            0 <= l < pool.services[i].methods.len() && l != j ==> !method_hit(
                #[trigger] pool.services[i].methods[l],
                m_form,
            ),
    ensures
        first_service_hit(pool.services, s_form) == Option::Some(i),
        first_method_hit(pool.services[i].methods, m_form) == Option::Some(j),
{
    let p = |k: int| service_hit(pool.services[k], s_form);
    assert(is_first_where(p, pool.services.len() as int, i));
    lemma_first_where_some(p, pool.services.len() as int, i);
    let q = |l: int| method_hit(pool.services[i].methods[l], m_form);
    assert(is_first_where(q, pool.services[i].methods.len() as int, j));
    lemma_first_where_some(q, pool.services[i].methods.len() as int, j);
}


/// Inserts a method entry at its sorted position by hyphenated name.
fn insert_method_sorted(v: &mut Vec<MethodDef>, x: MethodDef)
    ensures
        final(v)@.map_values(|d: MethodDef| d@) == sorted_insert(
            old(v)@.map_values(|d: MethodDef| d@),
            x@,
            |d: MethodDefModel| d.name,
        ),
{
    let ghost s = v@.map_values(|d: MethodDef| d@);
    let ghost key = |d: MethodDefModel| d.name;
    let n = v.len();
    let mut k: usize = 0;
    while k < n && !str_lex_lt(x.name.as_str(), v[k].name.as_str())
        invariant
            n == v.len(),
            s == v@.map_values(|d: MethodDef| d@),
            key == (|d: MethodDefModel| d.name),
            k <= n,
            forall|j: int| 0 <= j < k ==> !crate::order::lex_lt(key(x@), key(#[trigger] s[j])),
        decreases n - k,
    {
        proof {
            assert(s[k as int] == v@[k as int]@);
        }
        k += 1;
    }
    proof {
        assert(k < n ==> s[k as int] == v@[k as int]@ && crate::order::lex_lt(
            key(x@),
            key(s[k as int]),
        ));
        lemma_sorted_insert_at(s, x@, key, k as int);
    }
    v.insert(k, x);
    proof {
        assert(v@.map_values(|d: MethodDef| d@) =~= s.take(k as int) + seq![x@] + s.skip(
            k as int,
        ));
    }
}

/// Inserts a service entry at its sorted position by hyphenated name.
fn insert_service_sorted(v: &mut Vec<ServiceDef>, x: ServiceDef)
    ensures
        final(v)@.map_values(|d: ServiceDef| d@) == sorted_insert(
            old(v)@.map_values(|d: ServiceDef| d@),
            x@,
            |d: ServiceDefModel| d.name,
        ),
{
    let ghost s = v@.map_values(|d: ServiceDef| d@);
    let ghost key = |d: ServiceDefModel| d.name;
    let n = v.len();
    let mut k: usize = 0;
    while k < n && !str_lex_lt(x.name.as_str(), v[k].name.as_str())
        invariant
            n == v.len(),
            s == v@.map_values(|d: ServiceDef| d@),
            key == (|d: ServiceDefModel| d.name),
            k <= n,
            forall|j: int| 0 <= j < k ==> !crate::order::lex_lt(key(x@), key(#[trigger] s[j])),
        decreases n - k,
    {
        proof {
            assert(s[k as int] == v@[k as int]@);
        }
        k += 1;
    }
    proof {
        assert(k < n ==> s[k as int] == v@[k as int]@ && crate::order::lex_lt(
            key(x@),
            key(s[k as int]),
        ));
        lemma_sorted_insert_at(s, x@, key, k as int);
    }
    v.insert(k, x);
    proof {
        assert(v@.map_values(|d: ServiceDef| d@) =~= s.take(k as int) + seq![x@] + s.skip(
            k as int,
        ));
    }
}

/// Builds one service's command-tree entry, its methods sorted by
/// hyphenated name.
fn build_service_def(svc: &ServiceInfo) -> (r: ServiceDef)
    ensures
        r@ == service_def_of(svc@),
{
    let mut methods: Vec<MethodDef> = Vec::new();
    let nm = svc.methods.len();
    let mut j: usize = 0;
    proof {
        assert(methods@.map_values(|d: MethodDef| d@) =~= sorted_method_defs(
            svc@.full_name,
            svc@.methods.take(0),
        ));
    }
    while j < nm
        invariant
            nm == svc.methods@.len(),
            j <= nm,
            methods@.map_values(|d: MethodDef| d@) == sorted_method_defs(
                svc@.full_name,
                svc@.methods.take(j as int),
            ),
        decreases nm - j,
    {
        let m = &svc.methods[j];
        let def = MethodDef {
            name: to_kebab(m.name.as_str()),
            full_name: svc.full_name.clone().concat("/").concat(m.name.as_str()),
            input_type: m.input_type.clone(),
            output_type: m.output_type.clone(),
            client_streaming: m.client_streaming,
            server_streaming: m.server_streaming,
        };
        proof {
            reveal_strlit("/");
            assert("/"@ =~= seq!['/']);
            assert(svc@.methods[j as int] == m@);
            assert(def@ == method_def_of(svc@.full_name, svc@.methods[j as int]));
            assert(svc@.methods.take(j + 1).drop_last() =~= svc@.methods.take(j as int));
            assert(svc@.methods.take(j + 1).last() == svc@.methods[j as int]);
        }
        insert_method_sorted(&mut methods, def);
        j += 1;
    }
    proof {
        assert(svc@.methods.take(nm as int) =~= svc@.methods);
    }
    ServiceDef { name: to_kebab(svc.name.as_str()), full_name: svc.full_name.clone(), methods }
}

/// Whether every character in `[from, to)` is an ASCII digit.
fn all_digits(s: &str, from: usize, to: usize) -> (r: bool)
    requires
        from <= to <= s@.len(),
    ensures
        r == forall|k: int| from <= k < to ==> is_ascii_digit_char(#[trigger] s@[k]),
{
    let mut d: usize = from;
    while d < to
        invariant
            from <= d <= to <= s@.len(),
            forall|k: int| from <= k < d ==> is_ascii_digit_char(#[trigger] s@[k]),
        decreases to - d,
    {
        let c = s.get_char(d);
        if !('0' <= c && c <= '9') {
            return false;
        }
        d += 1;
    }
    true
}

/// Scans a fully-qualified name for its first dot-delimited version token.
fn scan_version(s: &str) -> (r: Option<String>)
    ensures
        match r {
            Option::Some(v) => first_version_in(s@) == Option::Some(v@),
            Option::None => first_version_in(s@) == Option::<Seq<char>>::None,
        },
{
    let n: usize = s.unicode_len();
    let mut pos: usize = 0;
    proof {
        assert(s@.skip(0) =~= s@);
    }
    while pos < n
        invariant
            n == s@.len(),
            pos <= n,
            first_version_in(s@) == first_version_in(s@.skip(pos as int)),
        decreases n - pos,
    {
        let ghost suffix = s@.skip(pos as int);
        let mut e: usize = pos;
        while e < n && s.get_char(e) != '.'
            invariant
                n == s@.len(),
                pos <= e <= n,
                forall|k: int| pos <= k < e ==> s@[k] != '.',
            decreases n - e,
        {
            e += 1;
        }
        proof {
            assert forall|k: int| 0 <= k < e - pos implies suffix[k] != '.' by {
                assert(suffix[k] == s@[pos + k]);
            }
            if e < n {
                assert(suffix[e - pos] == s@[e as int]);
            }
            lemma_seg_len_eq(suffix, e - pos);
            assert(seg_len(suffix) == e - pos);
        }
        let ghost seg = suffix.take(e - pos);
        proof {
            assert(seg.len() == e - pos);
            assert forall|k: int| 0 <= k < seg.len() implies #[trigger] seg[k] == s@[pos + k] by {}
        }
        let head_ok = e - pos >= 2 && s.get_char(pos) == 'v';
        let is_version = if head_ok {
            all_digits(s, pos + 1, e)
        } else {
            false
        };
        proof {
            if head_ok {
                assert(seg[0] == s@[pos as int]);
                if is_version {
                    assert forall|k: int| 1 <= k < seg.len() implies is_ascii_digit_char(
                        #[trigger] seg[k],
                    ) by {
                        assert(seg[k] == s@[pos + k]);
                        assert(is_ascii_digit_char(s@[pos + k]));
                    }
                    assert(is_version_seg_chars(seg));
                } else {
                    assert(exists|kk: int|
                        pos + 1 <= kk < e && !is_ascii_digit_char(#[trigger] s@[kk]));
                    let kk = choose|kk: int|
                        pos + 1 <= kk < e && !is_ascii_digit_char(#[trigger] s@[kk]);
                    assert(seg[kk - pos] == s@[pos + (kk - pos)]);
                    assert(!is_ascii_digit_char(seg[kk - pos]));
                    assert(!is_version_seg_chars(seg));
                }
            } else {
                if e - pos >= 1 {
                    assert(seg[0] == s@[pos as int]);
                }
                assert(!is_version_seg_chars(seg));
            }
        }
        if is_version {
            let sub = s.substring_char(pos, e);
            proof {
                assert(sub@ =~= seg);
                assert(first_version_in(suffix) == Option::Some(seg));
            }
            return Some(String::from_str(sub));
        }
        if e == n {
            proof {
                assert(seg_len(suffix) >= suffix.len());
                assert(first_version_in(suffix) == Option::<Seq<char>>::None);
            }
            return None;
        }
        proof {
            assert(suffix.skip(e - pos + 1) =~= s@.skip(e + 1));
            assert(first_version_in(suffix) == first_version_in(s@.skip(e + 1)));
        }
        pos = e + 1;
    }
    proof {
        let suffix = s@.skip(pos as int);
        assert(suffix.len() == 0);
        assert(suffix.take(seg_len(suffix) as int).len() == 0);
        assert(first_version_in(suffix) == Option::<Seq<char>>::None);
    }
    None
}

proof fn lemma_seg_len_eq(t: Seq<char>, d: int)
    requires
        0 <= d <= t.len(),
        forall|k: int| 0 <= k < d ==> t[k] != '.',
        d < t.len() ==> t[d] == '.',
    ensures
        seg_len(t) == d,
    decreases d,
{
    if d == 0 {
    } else {
        let u = t.drop_first();
        assert forall|k: int| 0 <= k < d - 1 implies u[k] != '.' by {
            assert(u[k] == t[k + 1]);
        }
        assert(d - 1 < u.len() ==> u[d - 1] == t[d as int]);
        lemma_seg_len_eq(u, d - 1);
    }
}

/// The version token reported by the command tree, or "unknown" when no
/// visible service's name carries one.
pub fn detect_api_version(pool: &Pool) -> (r: String)
    ensures
        r@ == api_version_or_unknown(pool@.services),
{
    let n = pool.services.len();
    let mut i: usize = 0;
    proof {
        assert(pool@.services.skip(0) =~= pool@.services);
    }
    while i < n
        invariant
            n == pool.services@.len(),
            i <= n,
            api_version_of(pool@.services) == api_version_of(pool@.services.skip(i as int)),
        decreases n - i,
    {
        let svc = &pool.services[i];
        let ghost rest = pool@.services.skip(i as int);
        proof {
            assert(rest[0] == pool@.services[i as int]);
            assert(pool@.services[i as int] == svc@);
            assert(rest.drop_first() =~= pool@.services.skip(i + 1));
        }
        if is_google_ads_service(svc) {
            match scan_version(svc.full_name.as_str()) {
                Some(v) => {
                    proof {
                        assert(api_version_of(rest) == Option::Some(v@));
                    }
                    return v;
                },
                None => {},
            }
        }
        i += 1;
    }
    proof {
        assert(pool@.services.skip(n as int).len() == 0);
    }
    String::from_str("unknown")
}

/// Builds the command tree: every visible service with its methods, both
/// levels sorted ascending by hyphenated name, together with the detected
/// API version. The tree is a pure function of the pool, so repeated
/// builds over the same pool are identical.
pub fn build_tree(pool: &Pool) -> (r: CommandTree)
    ensures
        r@ == tree_of(pool@),
{
    let mut services: Vec<ServiceDef> = Vec::new();
    let n = pool.services.len();
    let mut i: usize = 0;
    proof {
        assert(services@.map_values(|d: ServiceDef| d@) =~= sorted_service_defs(
            pool@.services.take(0),
        ));
    }
    while i < n
        invariant
            n == pool.services@.len(),
            i <= n,
            services@.map_values(|d: ServiceDef| d@) == sorted_service_defs(
                pool@.services.take(i as int),
            ),
        decreases n - i,
    {
        let svc = &pool.services[i];
        proof {
            assert(pool@.services[i as int] == svc@);
            assert(pool@.services.take(i + 1).drop_last() =~= pool@.services.take(i as int));
            assert(pool@.services.take(i + 1).last() == pool@.services[i as int]);
        }
        if is_google_ads_service(svc) {
            let def = build_service_def(svc);
            insert_service_sorted(&mut services, def);
        }
        i += 1;
    }
    proof {
        assert(pool@.services.take(n as int) =~= pool@.services);
    }
    let api_version = detect_api_version(pool);
    CommandTree { version: 1, api_version, services }
}

/// Both levels of the command tree are sorted ascending by hyphenated
/// name: the services, and each service's methods.
pub proof fn lemma_tree_sorted(pool: PoolModel)
    ensures
        sorted_by_key(tree_of(pool).services, |d: ServiceDefModel| d.name),
        forall|i: int|
            0 <= i < tree_of(pool).services.len() ==> sorted_by_key(
                (#[trigger] tree_of(pool).services[i]).methods,
                |d: MethodDefModel| d.name,
            ),
{
    lemma_sorted_service_defs_sorted(pool.services);
}

proof fn lemma_sorted_method_defs_sorted(service_full: Seq<char>, ms: Seq<MethodModel>)
    ensures
        sorted_by_key(sorted_method_defs(service_full, ms), |d: MethodDefModel| d.name),
    decreases ms.len(),
{
    if ms.len() == 0 {
    } else {
        lemma_sorted_method_defs_sorted(service_full, ms.drop_last());
        lemma_sorted_insert_preserves(
            sorted_method_defs(service_full, ms.drop_last()),
            method_def_of(service_full, ms.last()),
            |d: MethodDefModel| d.name,
        );
    }
}

proof fn lemma_sorted_service_defs_sorted(services: Seq<ServiceModel>)
    ensures
        sorted_by_key(sorted_service_defs(services), |d: ServiceDefModel| d.name),
        forall|i: int|
            0 <= i < sorted_service_defs(services).len() ==> sorted_by_key(
                (#[trigger] sorted_service_defs(services)[i]).methods,
                |d: MethodDefModel| d.name,
            ),
    decreases services.len(),
{
    if services.len() == 0 {
    } else {
        let rest = sorted_service_defs(services.drop_last());
        lemma_sorted_service_defs_sorted(services.drop_last());
        if is_visible_service_name(services.last().full_name) {
            let x = service_def_of(services.last());
            lemma_sorted_insert_preserves(rest, x, |d: ServiceDefModel| d.name);
            lemma_sorted_method_defs_sorted(services.last().full_name, services.last().methods);
            let out = sorted_insert(rest, x, |d: ServiceDefModel| d.name);
            assert forall|i: int| 0 <= i < out.len() implies sorted_by_key(
                (#[trigger] out[i]).methods,
                |d: MethodDefModel| d.name,
            ) by {
                crate::order::lemma_sorted_insert_elem(rest, x, |d: ServiceDefModel| d.name, i);
                if out[i] != x {
                    let w = choose|w: int| 0 <= w < rest.len() && rest[w] == out[i];
                    assert(sorted_by_key(rest[w].methods, |d: MethodDefModel| d.name));
                }
            }
        }
    }
}


/// One field of a method's input type, projected for display: name,
/// wire-safe alternate name, cardinality, kind tag, and referenced type.
#[derive(Clone, Debug)]
pub struct FieldDef {
    pub name: String,
    pub json_name: String,
    pub cardinality: String,
    pub kind: String,
    pub type_ref: Option<String>,
}

/// A resolved method together with the flat projection of its input
/// type's fields.
#[derive(Clone, Debug)]
pub struct MethodDescription {
    pub service: String,
    pub method: String,
    pub input_type: String,
    pub output_type: String,
    pub fields: Vec<FieldDef>,
}

pub ghost struct FieldDefModel {
    pub name: Seq<char>,
    pub json_name: Seq<char>,
    pub cardinality: Seq<char>,
    pub kind: Seq<char>,
    pub type_ref: Option<Seq<char>>,
}

pub ghost struct MethodDescriptionModel {
    pub service: Seq<char>,
    pub method: Seq<char>,
    pub input_type: Seq<char>,
    pub output_type: Seq<char>,
    pub fields: Seq<FieldDefModel>,
}

impl View for FieldDef {
    type V = FieldDefModel;

    open spec fn view(&self) -> FieldDefModel {
        FieldDefModel {
            name: self.name@,
            json_name: self.json_name@,
            cardinality: self.cardinality@,
            kind: self.kind@,
            type_ref: match self.type_ref {
                Option::Some(ref t) => Option::Some(t@),
                Option::None => Option::None,
            },
        }
    }
}

impl View for MethodDescription {
    type V = MethodDescriptionModel;

    open spec fn view(&self) -> MethodDescriptionModel {
        MethodDescriptionModel {
            service: self.service@,
            method: self.method@,
            input_type: self.input_type@,
            output_type: self.output_type@,
            fields: self.fields@.map_values(|f: FieldDef| f@),
        }
    }
}

pub open spec fn cardinality_tag(c: FieldCardinality) -> Seq<char> {
    match c {
        FieldCardinality::Optional => "optional"@,
        FieldCardinality::Required => "required"@,
        FieldCardinality::Repeated => "repeated"@,
    }
}

/// The human-readable kind tag: the scalar kind's name, or the referenced
/// message or enum type behind a marker.
pub open spec fn kind_tag(k: FieldKindModel) -> Seq<char> {
    match k {
        FieldKindModel::Scalar(name) => "scalar:"@ + name,
        FieldKindModel::Message(t) => "message:"@ + t,
        FieldKindModel::Enum(t) => "enum:"@ + t,
    }
}

/// The referenced type's name, or the scalar kind's name.
pub open spec fn type_ref_of(k: FieldKindModel) -> Seq<char> {
    match k {
        FieldKindModel::Scalar(name) => name,
        FieldKindModel::Message(t) => t,
        FieldKindModel::Enum(t) => t,
    }
}

/// The display projection of one field.
pub open spec fn field_def_of(f: FieldModel) -> FieldDefModel {
    FieldDefModel {
        name: f.name,
        json_name: f.json_name,
        cardinality: cardinality_tag(f.cardinality),
        kind: kind_tag(f.kind),
        type_ref: Option::Some(type_ref_of(f.kind)),
    }
}

/// The index of the message type with the given fully-qualified name.
pub open spec fn first_message_named(messages: Seq<crate::descriptor::MessageModel>, name: Seq<char>) -> Option<int> {
    first_where(|i: int| messages[i].full_name == name, messages.len() as int)
}

/// Builds the display projection of one field.
fn field_def(f: &crate::descriptor::FieldInfo) -> (r: FieldDef)
    ensures
        r@ == field_def_of(f@),
{
    let cardinality = match f.cardinality {
        FieldCardinality::Optional => String::from_str("optional"),
        FieldCardinality::Required => String::from_str("required"),
        FieldCardinality::Repeated => String::from_str("repeated"),
    };
    let (kind, type_ref) = match &f.kind {
        FieldKind::Scalar(name) => (
            String::from_str("scalar:").concat(name.as_str()),
            name.clone(),
        ),
        FieldKind::Message(t) => (String::from_str("message:").concat(t.as_str()), t.clone()),
        FieldKind::Enum(t) => (String::from_str("enum:").concat(t.as_str()), t.clone()),
    };
    FieldDef {
        name: f.name.clone(),
        json_name: f.json_name.clone(),
        cardinality,
        kind,
        type_ref: Some(type_ref),
    }
}

/// Resolves a method as `find_method` does, then projects its input
/// type's fields into a flat list for display. Fails with the unresolved
/// type's name if the input type is not declared in the pool.
pub fn describe_method(pool: &Pool, service: &str, method: &str) -> (r: Result<
    MethodDescription,
    ResolveError,
>)
    ensures
        match first_service_hit(pool@.services, service@) {
            Option::Some(i) => match first_method_hit(pool@.services[i].methods, method@) {
                Option::Some(j) => {
                    let m = pool@.services[i].methods[j];
                    match first_message_named(pool@.messages, m.input_type) {
                        Option::Some(k) => r matches Result::Ok(d) && d@
                            == MethodDescriptionModel {
                            service: m.service_full_name,
                            method: m.name,
                            input_type: m.input_type,
                            output_type: m.output_type,
                            fields: pool@.messages[k].fields.map_values(
                                |f: FieldModel| field_def_of(f),
                            ),
                        },
                        Option::None => r matches Result::Err(e) && e
                            matches ResolveError::UnresolvedType(t) && t@ == m.input_type,
                    }
                },
                Option::None => r matches Result::Err(e) && e
                    matches ResolveError::UnknownMethod(s, mm) && s@ == service@ && mm@
                    == method@,
            },
            Option::None => r matches Result::Err(e) && e matches ResolveError::UnknownService(s)
                && s@ == service@,
        },
{
    let m = match find_method(pool, service, method) {
        Ok(m) => m,
        Err(e) => {
            return Err(e);
        },
    };
    let ghost p = |k: int| pool@.messages[k].full_name == m@.input_type;
    let nmsg = pool.messages.len();
    let mut k: usize = 0;
    while k < nmsg
        invariant
            nmsg == pool.messages@.len(),
            k <= nmsg,
            p == (|k: int| pool@.messages[k].full_name == m@.input_type),
            forall|w: int| 0 <= w < k ==> !(#[trigger] p(w)),
            ({
                let fs = first_service_hit(pool@.services, service@);
                fs matches Option::Some(i) && first_method_hit(
                    pool@.services[i].methods,
                    method@,
                ) matches Option::Some(j) && m@ == pool@.services[i].methods[j]
            }),
        decreases nmsg - k,
    {
        let msg = &pool.messages[k];
        proof {
            assert(pool@.messages[k as int] == msg@);
        }
        if msg.full_name == m.input_type {
            proof {
                assert(p(k as int));
                lemma_first_where_some(p, nmsg as int, k as int);
            }
            let nf = msg.fields.len();
            let mut fields: Vec<FieldDef> = Vec::new();
            let mut w: usize = 0;
            proof {
                assert(fields@.map_values(|f: FieldDef| f@) =~= msg@.fields.take(0).map_values(
                    |f: FieldModel| field_def_of(f),
                ));
            }
            while w < nf
                invariant
                    nf == msg.fields@.len(),
                    w <= nf,
                    fields@.map_values(|f: FieldDef| f@) == msg@.fields.take(w as int).map_values(
                        |f: FieldModel| field_def_of(f),
                    ),
                    k < nmsg == pool.messages@.len(),
                    msg == &pool.messages[k as int],
                    first_message_named(pool@.messages, m@.input_type) == Option::Some(k as int),
                    ({
                        let fs = first_service_hit(pool@.services, service@);
                        fs matches Option::Some(i) && first_method_hit(
                            pool@.services[i].methods,
                            method@,
                        ) matches Option::Some(j) && m@ == pool@.services[i].methods[j]
                    }),
                decreases nf - w,
            {
                let fd = field_def(&msg.fields[w]);
                proof {
                    assert(msg@.fields[w as int] == msg.fields@[w as int]@);
                    assert(fd@ == field_def_of(msg@.fields[w as int]));
                }
                let ghost fs = fields@;
                proof {
                    assert(fs.map_values(|f: FieldDef| f@).len() == fs.len());
                    assert(msg@.fields.take(w as int).len() == w as int);
                    assert(fs.len() == w as int);
                }
                fields.push(fd);
                proof {
                    assert(fields@ == fs.push(fd));
                    let lhs = fields@.map_values(|f: FieldDef| f@);
                    let rhs = msg@.fields.take(w + 1).map_values(|f: FieldModel| field_def_of(f));
                    assert forall|q: int| 0 <= q < lhs.len() implies lhs[q] == rhs[q] by {
                        if q < w {
                            assert(fields@[q] == fs[q]);
                            assert(fs.map_values(|f: FieldDef| f@)[q] == msg@.fields.take(
                                w as int,
                            ).map_values(|f: FieldModel| field_def_of(f))[q]);
                        } else {
                            assert(fields@[q] == fd);
                        }
                    }
                    assert(lhs =~= rhs);
                }
                w += 1;
            }
            proof {
                assert(msg@.fields.take(nf as int) =~= msg@.fields);
            }
            return Ok(
                MethodDescription {
                    service: m.service_full_name,
                    method: m.name,
                    input_type: m.input_type,
                    output_type: m.output_type,
                    fields,
                },
            );
        }
        proof {
            assert(!p(k as int));
        }
        k += 1;
    }
    proof {
        lemma_first_where_none(p, nmsg as int);
    }
    Err(ResolveError::UnresolvedType(m.input_type))
}


/// The command tree holds exactly the visible services' entries: an entry
/// stands in the tree if and only if some visible service of the pool
/// produces it. Nothing is dropped, invented, or duplicated beyond what
/// the pool itself holds.
pub proof fn lemma_tree_services_content(pool: PoolModel, d: ServiceDefModel)
    ensures
        tree_of(pool).services.contains(d) <==> exists|i: int|
            0 <= i < pool.services.len() && is_visible_service_name(
                (#[trigger] pool.services[i]).full_name,
            ) && d == service_def_of(pool.services[i]),
{
    lemma_sorted_service_defs_content(pool.services, d);
}

proof fn lemma_sorted_service_defs_content(services: Seq<ServiceModel>, d: ServiceDefModel)
    ensures
        sorted_service_defs(services).contains(d) <==> exists|i: int|
            0 <= i < services.len() && is_visible_service_name(
                (#[trigger] services[i]).full_name,
            ) && d == service_def_of(services[i]),
    decreases services.len(),
{
    broadcast use vstd::seq_lib::group_to_multiset_ensures;

    if services.len() == 0 {
    } else {
        let front = services.drop_last();
        let last = services.last();
        lemma_sorted_service_defs_content(front, d);
        let rest = sorted_service_defs(front);
        if is_visible_service_name(last.full_name) {
            let x = service_def_of(last);
            let out = sorted_insert(rest, x, |e: ServiceDefModel| e.name);
            crate::order::lemma_sorted_insert_multiset(rest, x, |e: ServiceDefModel| e.name);
            assert(out.to_multiset() == rest.to_multiset().insert(x));
            assert(out.contains(d) <==> out.to_multiset().count(d) > 0);
            assert(rest.contains(d) <==> rest.to_multiset().count(d) > 0);
            assert(out.contains(d) <==> (d == x || rest.contains(d)));
            if out.contains(d) {
                if d == x {
                    assert(services[services.len() - 1] == last);
                } else {
                    let i = choose|i: int|
                        0 <= i < front.len() && is_visible_service_name(
                            (#[trigger] front[i]).full_name,
                        ) && d == service_def_of(front[i]);
                    assert(services[i] == front[i]);
                }
            }
            if exists|i: int|
                0 <= i < services.len() && is_visible_service_name(
                    (#[trigger] services[i]).full_name,
                ) && d == service_def_of(services[i]) {
                let i = choose|i: int|
                    0 <= i < services.len() && is_visible_service_name(
                        (#[trigger] services[i]).full_name,
                    ) && d == service_def_of(services[i]);
                if i < services.len() - 1 {
                    assert(front[i] == services[i]);
                    assert(rest.contains(d));
                } else {
                    assert(d == x);
                }
            }
        } else {
            if exists|i: int|
                0 <= i < services.len() && is_visible_service_name(
                    (#[trigger] services[i]).full_name,
                ) && d == service_def_of(services[i]) {
                let i = choose|i: int|
                    0 <= i < services.len() && is_visible_service_name(
                        (#[trigger] services[i]).full_name,
                    ) && d == service_def_of(services[i]);
                assert(i < services.len() - 1);
                assert(front[i] == services[i]);
            }
            if rest.contains(d) {
                let i = choose|i: int|
                    0 <= i < front.len() && is_visible_service_name(
                        (#[trigger] front[i]).full_name,
                    ) && d == service_def_of(front[i]);
                assert(services[i] == front[i]);
            }
        }
    }
}


/// In a pool whose type references resolve — as `import_pool` guarantees
/// of every imported pool — a resolved method's input type is always
/// found among the messages, so `describe_method` can never report an
/// unresolved type there.
pub proof fn lemma_types_resolve_describe(pool: PoolModel, i: int, j: int)
    requires
        pool.types_resolve(),
        0 <= i < pool.services.len(),
        0 <= j < pool.services[i].methods.len(),
    ensures
        first_message_named(pool.messages, pool.services[i].methods[j].input_type) is Some,
        first_message_named(pool.messages, pool.services[i].methods[j].output_type) is Some,
{
    let name_in = pool.services[i].methods[j].input_type;
    let name_out = pool.services[i].methods[j].output_type;
    assert(pool.declares_message(name_in) && pool.declares_message(name_out));
    let p_in = |w: int| pool.messages[w].full_name == name_in;
    let k_in = choose|k: int|
        0 <= k < pool.messages.len() && (#[trigger] pool.messages[k]).full_name == name_in;
    assert(p_in(k_in));
    crate::order::lemma_exists_first(p_in, pool.messages.len() as int, k_in);
    assert(first_where(p_in, pool.messages.len() as int) is Some);
    let p_out = |w: int| pool.messages[w].full_name == name_out;
    let k_out = choose|k: int|
        0 <= k < pool.messages.len() && (#[trigger] pool.messages[k]).full_name == name_out;
    assert(p_out(k_out));
    crate::order::lemma_exists_first(p_out, pool.messages.len() as int, k_out);
    assert(first_where(p_out, pool.messages.len() as int) is Some);
}

} // verus!
