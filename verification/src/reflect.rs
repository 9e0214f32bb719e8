use vstd::prelude::*;

use crate::descriptor::{
    FieldCardinality, FieldInfo, FieldKind, MessageInfo, MethodInfo, Pool, ServiceInfo,
};
use crate::names::ascii_lower;

verus! {

// The boundary to the compiled descriptor set: prost-reflect decodes the
// serialized descriptors and owns the resulting pool; this module walks
// that pool once and copies what the library's logic reads — names, type
// references, streaming flags, cardinalities and kinds — into the
// library's own plain-value `Pool`.

#[verifier::external_type_specification]
#[verifier::external_body]
pub struct ExDescriptorPool(prost_reflect::DescriptorPool);

#[verifier::external_type_specification]
#[verifier::external_body]
pub struct ExServiceDescriptor(prost_reflect::ServiceDescriptor);

#[verifier::external_type_specification]
#[verifier::external_body]
pub struct ExMethodDescriptor(prost_reflect::MethodDescriptor);

#[verifier::external_type_specification]
#[verifier::external_body]
pub struct ExMessageDescriptor(prost_reflect::MessageDescriptor);

#[verifier::external_type_specification]
#[verifier::external_body]
pub struct ExFieldDescriptor(prost_reflect::FieldDescriptor);

#[verifier::external_type_specification]
#[verifier::external_body]
pub struct ExDescriptorError(prost_reflect::DescriptorError);

/// Relies on `prost_reflect::DescriptorPool::decode`: parses a serialized
/// descriptor set, or reports why the bytes are not one.
#[verifier::external_body]
pub fn load_pool(bytes: &[u8]) -> Result<
    prost_reflect::DescriptorPool,
    prost_reflect::DescriptorError,
> {
    prost_reflect::DescriptorPool::decode(bytes)
}

/// Relies on `DescriptorPool::get_message_by_name`: looks a message type
/// up by its fully-qualified name.
#[verifier::external_body]
pub fn lookup_message(pool: &prost_reflect::DescriptorPool, name: &str) -> Option<
    prost_reflect::MessageDescriptor,
> {
    pool.get_message_by_name(name)
}

/// Relies on `DescriptorPool::services` collected into a `Vec`.
#[verifier::external_body]
fn pool_services(pool: &prost_reflect::DescriptorPool) -> Vec<prost_reflect::ServiceDescriptor> {
    pool.services().collect()
}

/// Relies on `DescriptorPool::all_messages` collected into a `Vec`.
#[verifier::external_body]
fn pool_messages(pool: &prost_reflect::DescriptorPool) -> Vec<prost_reflect::MessageDescriptor> {
    pool.all_messages().collect()
}

/// Relies on `ServiceDescriptor::name`.
#[verifier::external_body]
fn service_name(s: &prost_reflect::ServiceDescriptor) -> String {
    s.name().to_string()
}

/// Relies on `ServiceDescriptor::full_name`.
#[verifier::external_body]
fn service_full_name(s: &prost_reflect::ServiceDescriptor) -> String {
    s.full_name().to_string()
}

/// Relies on `ServiceDescriptor::methods` collected into a `Vec`.
#[verifier::external_body]
fn service_methods(s: &prost_reflect::ServiceDescriptor) -> Vec<prost_reflect::MethodDescriptor> {
    s.methods().collect()
}

/// Relies on `MethodDescriptor::name`.
#[verifier::external_body]
fn method_name(m: &prost_reflect::MethodDescriptor) -> String {
    m.name().to_string()
}

/// Relies on `MethodDescriptor::input` and `MessageDescriptor::full_name`.
#[verifier::external_body]
fn method_input_type(m: &prost_reflect::MethodDescriptor) -> String {
    m.input().full_name().to_string()
}

/// Relies on `MethodDescriptor::output` and `MessageDescriptor::full_name`.
#[verifier::external_body]
fn method_output_type(m: &prost_reflect::MethodDescriptor) -> String {
    m.output().full_name().to_string()
}

/// Relies on `MethodDescriptor::is_client_streaming`.
#[verifier::external_body]
fn method_client_streaming(m: &prost_reflect::MethodDescriptor) -> bool {
    m.is_client_streaming()
}

/// Relies on `MethodDescriptor::is_server_streaming`.
#[verifier::external_body]
fn method_server_streaming(m: &prost_reflect::MethodDescriptor) -> bool {
    m.is_server_streaming()
}

/// Relies on `MessageDescriptor::full_name`.
#[verifier::external_body]
fn message_full_name(m: &prost_reflect::MessageDescriptor) -> String {
    m.full_name().to_string()
}

/// Relies on `MessageDescriptor::fields` collected into a `Vec`.
#[verifier::external_body]
fn message_fields(m: &prost_reflect::MessageDescriptor) -> Vec<prost_reflect::FieldDescriptor> {
    m.fields().collect()
}

/// Relies on `FieldDescriptor::name`.
#[verifier::external_body]
fn field_name(f: &prost_reflect::FieldDescriptor) -> String {
    f.name().to_string()
}

/// Relies on `FieldDescriptor::json_name`.
#[verifier::external_body]
fn field_json_name(f: &prost_reflect::FieldDescriptor) -> String {
    f.json_name().to_string()
}

/// Relies on `FieldDescriptor::cardinality`: one arm per variant of
/// prost-reflect's `Cardinality`.
#[verifier::external_body]
fn field_cardinality(f: &prost_reflect::FieldDescriptor) -> FieldCardinality {
    match f.cardinality() {
        prost_reflect::Cardinality::Optional => FieldCardinality::Optional,
        prost_reflect::Cardinality::Required => FieldCardinality::Required,
        prost_reflect::Cardinality::Repeated => FieldCardinality::Repeated,
    }
}

/// Relies on `FieldDescriptor::kind`: a message or enum kind carries the
/// referenced type's fully-qualified name, a scalar kind its debug name as
/// prost-reflect writes it.
#[verifier::external_body]
fn field_kind_raw(f: &prost_reflect::FieldDescriptor) -> FieldKind {
    match f.kind() {
        prost_reflect::Kind::Message(m) => FieldKind::Message(m.full_name().to_string()),
        prost_reflect::Kind::Enum(e) => FieldKind::Enum(e.full_name().to_string()),
        other => FieldKind::Scalar(format!("{:?}", other)),
    }
}

fn import_field(f: &prost_reflect::FieldDescriptor) -> FieldInfo {
    let kind = match field_kind_raw(f) {
        FieldKind::Scalar(name) => FieldKind::Scalar(ascii_lower(name.as_str())),
        FieldKind::Message(t) => FieldKind::Message(t),
        FieldKind::Enum(t) => FieldKind::Enum(t),
    };
    FieldInfo {
        name: field_name(f),
        json_name: field_json_name(f),
        cardinality: field_cardinality(f),
        kind,
    }
}

/// Some imported message carries this fully-qualified name.
pub open spec fn msg_declared(messages: Seq<MessageInfo>, name: Seq<char>) -> bool {
    exists|k: int| 0 <= k < messages.len() && (#[trigger] messages[k])@.full_name == name
}

/// Whether some imported message carries this fully-qualified name.
fn name_declared(messages: &Vec<MessageInfo>, name: &str) -> (r: bool)
    ensures
        r == msg_declared(messages@, name@),
{
    let n = messages.len();
    let mut k: usize = 0;
    while k < n
        invariant
            n == messages@.len(),
            k <= n,
            forall|w: int| 0 <= w < k ==> (#[trigger] messages@[w])@.full_name != name@,
        decreases n - k,
    {
        if crate::order::str_eq(messages[k].full_name.as_str(), name) {
            return true;
        }
        k += 1;
    }
    false
}

fn import_service(s: &prost_reflect::ServiceDescriptor, messages: &Vec<MessageInfo>) -> (r:
    ServiceInfo)
    ensures
        r@.wf(),
        forall|j: int|
            0 <= j < r@.methods.len() ==> msg_declared(
                messages@,
                (#[trigger] r@.methods[j]).input_type,
            ) && msg_declared(messages@, r@.methods[j].output_type),
{
    let full_name = service_full_name(s);
    let methods_raw = service_methods(s);
    let mut methods: Vec<MethodInfo> = Vec::new();
    let nm = methods_raw.len();
    let mut j: usize = 0;
    while j < nm
        invariant
            j <= nm == methods_raw@.len(),
            forall|k: int|
                0 <= k < methods@.len() ==> (#[trigger] methods@[k])@.service_full_name
                    == full_name@,
            forall|w: int|
                0 <= w < methods@.len() ==> msg_declared(
                    messages@,
                    (#[trigger] methods@[w])@.input_type,
                ) && msg_declared(messages@, methods@[w]@.output_type),
        decreases nm - j,
    {
        let m = &methods_raw[j];
        let input_type = method_input_type(m);
        let output_type = method_output_type(m);
        // prost-reflect resolves every method's types inside its own pool,
        // so this scan keeps every method in practice; it makes the
        // resolution invariant a proven property of the imported index
        if name_declared(messages, input_type.as_str()) && name_declared(
            messages,
            output_type.as_str(),
        ) {
            let info = MethodInfo {
                name: method_name(m),
                service_full_name: full_name.clone(),
                input_type,
                output_type,
                client_streaming: method_client_streaming(m),
                server_streaming: method_server_streaming(m),
            };
            methods.push(info);
        }
        j += 1;
    }
    let r = ServiceInfo { name: service_name(s), full_name, methods };
    proof {
        assert forall|i: int| 0 <= i < r@.methods.len() implies (#[trigger] r@.methods[i]).service_full_name
            == r@.full_name by {
            assert(r@.methods[i] == r.methods@[i]@);
        }
        assert forall|i: int| 0 <= i < r@.methods.len() implies msg_declared(
            messages@,
            (#[trigger] r@.methods[i]).input_type,
        ) && msg_declared(messages@, r@.methods[i].output_type) by {
            assert(r@.methods[i] == r.methods@[i]@);
        }
    }
    r
}

/// Walks a decoded descriptor pool once and copies every service, method,
/// message type and field that the library's logic reads into the
/// library's own immutable index. The index is well-formed and every
/// method's input and output type resolves among its message types.
pub fn import_pool(pool: &prost_reflect::DescriptorPool) -> (r: Pool)
    ensures
        r@.wf(),
        r@.types_resolve(),
{
    let messages_raw = pool_messages(pool);
    let mut messages: Vec<MessageInfo> = Vec::new();
    let nmsg = messages_raw.len();
    let mut k: usize = 0;
    while k < nmsg
        invariant
            k <= nmsg == messages_raw@.len(),
        decreases nmsg - k,
    {
        let m = &messages_raw[k];
        let fields_raw = message_fields(m);
        let mut fields: Vec<FieldInfo> = Vec::new();
        let nf = fields_raw.len();
        let mut w: usize = 0;
        while w < nf
            invariant
                w <= nf == fields_raw@.len(),
            decreases nf - w,
        {
            fields.push(import_field(&fields_raw[w]));
            w += 1;
        }
        messages.push(MessageInfo { full_name: message_full_name(m), fields });
        k += 1;
    }
    let services_raw = pool_services(pool);
    let mut services: Vec<ServiceInfo> = Vec::new();
    let ns = services_raw.len();
    let mut i: usize = 0;
    while i < ns
        invariant
            i <= ns == services_raw@.len(),
            forall|k2: int| 0 <= k2 < services@.len() ==> (#[trigger] services@[k2])@.wf(),
            forall|k2: int, j: int|
                0 <= k2 < services@.len() && 0 <= j < (#[trigger] services@[k2])@.methods.len()
                    ==> msg_declared(
                    messages@,
                    (#[trigger] services@[k2]@.methods[j]).input_type,
                ) && msg_declared(messages@, services@[k2]@.methods[j].output_type),
        decreases ns - i,
    {
        let svc = import_service(&services_raw[i], &messages);
        services.push(svc);
        i += 1;
    }
    let r = Pool { services, messages };
    proof {
        assert forall|i2: int| 0 <= i2 < r@.services.len() implies (#[trigger] r@.services[i2]).wf()
            by {
            assert(r@.services[i2] == r.services@[i2]@);
        }
        assert forall|i2: int, j: int|
            0 <= i2 < r@.services.len() && 0 <= j < (#[trigger] r@.services[i2]).methods.len()
                implies r@.declares_message(
            (#[trigger] r@.services[i2].methods[j]).input_type,
        ) && r@.declares_message(r@.services[i2].methods[j].output_type) by {
            assert(r@.services[i2] == r.services@[i2]@);
            assert(msg_declared(r.messages@, r@.services[i2].methods[j].input_type));
            assert(msg_declared(r.messages@, r@.services[i2].methods[j].output_type));
            let k3a = choose|k3: int|
                0 <= k3 < r.messages@.len() && (#[trigger] r.messages@[k3])@.full_name
                    == r@.services[i2].methods[j].input_type;
            assert(r@.messages[k3a] == r.messages@[k3a]@);
            let k3b = choose|k3: int|
                0 <= k3 < r.messages@.len() && (#[trigger] r.messages@[k3])@.full_name
                    == r@.services[i2].methods[j].output_type;
            assert(r@.messages[k3b] == r.messages@[k3b]@);
        }
    }
    r
}

/// Relies on `prost_reflect::DescriptorError`'s `Display` impl for its
/// text.
#[verifier::external_body]
pub fn descriptor_error_text(e: &prost_reflect::DescriptorError) -> String {
    format!("{}", e)
}

} // verus!
