use vstd::prelude::*;

use crate::descriptor::MethodInfo;
use crate::names::{trim_ascii, trimmed};
use crate::order::{starts_with_seq, str_starts_with};

verus! {

// The decisions an invocation makes before any network activity: endpoint
// normalization, the gRPC path, the metadata header values, the per-call
// timeout, and the rejection of unsupported call modes. The transport
// itself lives outside the verified library and is handed these plain
// values.

/// A call's mode, decided from the method's streaming flags.
#[derive(Clone, Copy, Debug, PartialEq, Eq, Structural)]
pub enum CallMode {
    Unary,
    ServerStreaming,
}

/// A request that was rejected before any network activity.
#[derive(Clone, Debug)]
pub enum InvokeError {
    /// The method asks for client-side streaming, which is not supported.
    ClientStreamingUnsupported,
}

impl InvokeError {
    pub fn message(&self) -> (r: String)
        ensures
            r@ == "client streaming is not supported"@,
    {
        String::from_str("client streaming is not supported")
    }
}

/// Everything that is attached to a call before it is sent: the gRPC path,
/// the credential headers, the optional routing header, and the optional
/// timeout in seconds.
pub struct RequestMeta {
    pub path: String,
    pub developer_token: String,
    pub authorization: String,
    pub login_customer_id: Option<String>,
    pub timeout_secs: Option<u64>,
}

pub ghost struct RequestMetaModel {
    pub path: Seq<char>,
    pub developer_token: Seq<char>,
    pub authorization: Seq<char>,
    pub login_customer_id: Option<Seq<char>>,
    pub timeout_secs: Option<u64>,
}

impl View for RequestMeta {
    type V = RequestMetaModel;

    open spec fn view(&self) -> RequestMetaModel {
        RequestMetaModel {
            path: self.path@,
            developer_token: self.developer_token@,
            authorization: self.authorization@,
            login_customer_id: match self.login_customer_id {
                Option::Some(ref s) => Option::Some(s@),
                Option::None => Option::None,
            },
            timeout_secs: self.timeout_secs,
        }
    }
}

/// An endpoint keeps an explicit scheme; anything else is given the secure
/// scheme.
pub open spec fn normalized_endpoint(e: Seq<char>) -> Seq<char> {
    if starts_with_seq(e, "http://"@) || starts_with_seq(e, "https://"@) {
        e
    } else {
        "https://"@ + e
    }
}

/// Prefixes the secure scheme when the endpoint names none.
pub fn normalize_endpoint(endpoint: &str) -> (r: String)
    ensures
        r@ == normalized_endpoint(endpoint@),
{
    if str_starts_with(endpoint, "http://") || str_starts_with(endpoint, "https://") {
        String::from_str(endpoint)
    } else {
        String::from_str("https://").concat(endpoint)
    }
}

/// The gRPC request path of a method: slash, the service's fully-qualified
/// name, slash, the method's declared name.
pub open spec fn method_path_of(service_full: Seq<char>, name: Seq<char>) -> Seq<char> {
    seq!['/'] + service_full + seq!['/'] + name
}

/// Builds a method's gRPC request path.
pub fn method_path(method: &MethodInfo) -> (r: String)
    ensures
        r@ == method_path_of(method@.service_full_name, method@.name),
{
    let r = String::from_str("/").concat(method.service_full_name.as_str()).concat("/").concat(
        method.name.as_str(),
    );
    proof {
        reveal_strlit("/");
        assert("/"@ =~= seq!['/']);
        assert(r@ =~= method_path_of(method@.service_full_name, method@.name));
    }
    r
}

/// The bearer authorization header for an access token, the token trimmed
/// of surrounding whitespace.
pub open spec fn bearer_of(token: Seq<char>) -> Seq<char> {
    "Bearer "@ + trimmed(token)
}

pub fn bearer_header(access_token: &str) -> (r: String)
    ensures
        r@ == bearer_of(access_token@),
{
    let t = trim_ascii(access_token);
    String::from_str("Bearer ").concat(t.as_str())
}

/// Decides a method's call mode before any network activity: a
/// client-streaming method is rejected outright, a server-streaming one
/// becomes a streaming call, anything else a unary call.
pub fn classify_method(method: &MethodInfo) -> (r: Result<CallMode, InvokeError>)
    ensures
        method@.client_streaming ==> r matches Result::Err(
            InvokeError::ClientStreamingUnsupported,
        ),
        !method@.client_streaming && method@.server_streaming ==> (r matches Result::Ok(m) && m
            == CallMode::ServerStreaming),
        !method@.client_streaming && !method@.server_streaming ==> (r matches Result::Ok(m) && m
            == CallMode::Unary),
{
    if method.client_streaming {
        Err(InvokeError::ClientStreamingUnsupported)
    } else if method.server_streaming {
        Ok(CallMode::ServerStreaming)
    } else {
        Ok(CallMode::Unary)
    }
}

/// Assembles everything a call carries: its path, the static credential
/// header, the bearer authorization built from the trimmed access token,
/// the optional acting-account routing header, and the optional timeout.
pub fn build_request_meta(
    method: &MethodInfo,
    developer_token: &str,
    login_customer_id: &Option<String>,
    access_token: &str,
    timeout_secs: Option<u64>,
) -> (r: RequestMeta)
    ensures
        r@.path == method_path_of(method@.service_full_name, method@.name),
        r@.developer_token == developer_token@,
        r@.authorization == bearer_of(access_token@),
        match login_customer_id {
            Option::Some(id) => r@.login_customer_id == Option::Some(id@),
            Option::None => r@.login_customer_id is None,
        },
        r@.timeout_secs == timeout_secs,
{
    RequestMeta {
        path: method_path(method),
        developer_token: String::from_str(developer_token),
        authorization: bearer_header(access_token),
        login_customer_id: match login_customer_id {
            Some(id) => Some(id.clone()),
            None => None,
        },
        timeout_secs,
    }
}

} // verus!
