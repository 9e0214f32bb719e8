use vstd::prelude::*;

use crate::value::{parse_json, to_json, DynamicValue};

verus! {

// The dynamic wire codec's boundary: a request value is serialized to its
// JSON text by the verified serializer and handed to prost-reflect, which
// builds and encodes the typed message; a response message is rendered to
// JSON by prost-reflect and read back by the verified parser. Framing is
// decided here: an empty buffer is the end of a stream, not an error.

#[verifier::external_type_specification]
#[verifier::external_body]
pub struct ExDynamicMessage(prost_reflect::DynamicMessage);

#[verifier::external_type_specification]
#[verifier::external_body]
pub struct ExSerdeJsonError(serde_json::Error);

#[verifier::external_type_specification]
#[verifier::external_body]
pub struct ExProstDecodeError(prost::DecodeError);

/// A value that could not cross the codec.
#[derive(Debug)]
pub enum CodecError {
    /// The value does not fit the bound input descriptor; carries the
    /// underlying reason.
    Encode(String),
    /// The bytes or text do not parse as the bound output type; carries
    /// the underlying reason.
    Decode(String),
}

impl CodecError {
    pub fn message(&self) -> (r: String)
        ensures
            match self {
                CodecError::Encode(t) => r@ == "encode error: "@ + t@,
                CodecError::Decode(t) => r@ == "decode error: "@ + t@,
            },
    {
        match self {
            CodecError::Encode(t) => String::from_str("encode error: ").concat(t.as_str()),
            CodecError::Decode(t) => String::from_str("decode error: ").concat(t.as_str()),
        }
    }
}

/// Relies on `serde_json::Deserializer::from_str`,
/// `DynamicMessage::deserialize` and `Deserializer::end`: reads one JSON
/// document as a message of the given type, rejecting trailing input.
#[verifier::external_body]
fn msg_from_json(desc: prost_reflect::MessageDescriptor, json: &str) -> Result<
    prost_reflect::DynamicMessage,
    serde_json::Error,
> {
    let mut de = serde_json::Deserializer::from_str(json);
    let msg = prost_reflect::DynamicMessage::deserialize(desc, &mut de)?;
    de.end()?;
    Ok(msg)
}

/// Relies on `serde_json::to_string` over `DynamicMessage`'s `Serialize`
/// impl: renders a message in the standard protobuf-JSON mapping.
#[verifier::external_body]
fn msg_to_json(message: &prost_reflect::DynamicMessage) -> Result<String, serde_json::Error> {
    serde_json::to_string(message)
}

/// Relies on `DynamicMessage::decode`: parses wire bytes as one message
/// of the given type.
#[verifier::external_body]
fn msg_decode(desc: prost_reflect::MessageDescriptor, bytes: &[u8]) -> Result<
    prost_reflect::DynamicMessage,
    prost::DecodeError,
> {
    prost_reflect::DynamicMessage::decode(desc, bytes)
}

/// Relies on `serde_json::Error`'s `Display` impl for its text.
#[verifier::external_body]
fn serde_error_text(e: &serde_json::Error) -> String {
    format!("{}", e)
}

/// Relies on `prost::DecodeError`'s `Display` impl for its text.
#[verifier::external_body]
fn decode_error_text(e: &prost::DecodeError) -> String {
    format!("{}", e)
}

/// Marshals a generic value into a typed message of the given descriptor:
/// the verified serializer fixes the JSON text, and prost-reflect reads it
/// against the descriptor. A value that does not fit the descriptor is an
/// encode error.
pub fn dynamic_from_value(desc: prost_reflect::MessageDescriptor, value: &DynamicValue) -> (r:
    Result<prost_reflect::DynamicMessage, CodecError>)
    ensures
        r matches Result::Err(e) ==> e is Encode,
{
    let text = to_json(value);
    match msg_from_json(desc, text.as_str()) {
        Ok(m) => Ok(m),
        Err(e) => Err(CodecError::Encode(serde_error_text(&e))),
    }
}

/// Unmarshals a typed message back into a generic value: prost-reflect
/// renders the protobuf-JSON text, and the verified parser reads it. On
/// success the returned value is well-formed and its own serialization is
/// exactly that text; by the parser's completeness, a parse failure can
/// only follow an outside rendering that is not canonical JSON.
pub fn dynamic_to_value(message: &prost_reflect::DynamicMessage) -> (r: Result<
    DynamicValue,
    CodecError,
>)
    ensures
        r matches Result::Ok(v) ==> crate::value::wf_value(v@),
        r matches Result::Err(e) ==> e is Decode,
{
    match msg_to_json(message) {
        Ok(text) => match parse_json(text.as_str()) {
            Some(v) => Ok(v),
            None => Err(
                CodecError::Decode(String::from_str("response text is not canonical JSON")),
            ),
        },
        Err(e) => Err(CodecError::Decode(serde_error_text(&e))),
    }
}

/// Decodes one response frame: an empty buffer is the end of the stream
/// and yields no message — never an error — and anything else must parse
/// in full as one message of the bound output type.
pub fn decode_frame(desc: prost_reflect::MessageDescriptor, buf: &[u8]) -> (r: Result<
    Option<prost_reflect::DynamicMessage>,
    CodecError,
>)
    ensures
        buf@.len() == 0 ==> (r matches Result::Ok(m) && m is None),
        buf@.len() > 0 ==> (r matches Result::Ok(m) ==> m is Some),
        r matches Result::Err(e) ==> e is Decode && buf@.len() > 0,
{
    if buf.len() == 0 {
        return Ok(None);
    }
    match msg_decode(desc, buf) {
        Ok(m) => Ok(Some(m)),
        Err(e) => Err(CodecError::Decode(decode_error_text(&e))),
    }
}

} // verus!
