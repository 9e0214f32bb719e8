use adscli_core::command_tree::{build_tree, find_method};
use adscli_core::proto_json::{decode_frame, dynamic_from_value, dynamic_to_value};
use adscli_core::reflect::{import_pool, load_pool, lookup_message};
use adscli_core::value::{parse_json, to_json};
use prost::Message;

// A minimal serialized descriptor set, written out field by field in the
// protobuf wire format: one file declaring package
// google.ads.googleads.v21.services with a SearchRequest / SearchResponse
// pair, a Row message, and an AccountsService carrying a unary Search, a
// server-streaming SearchStream, and a client-streaming Upload.

fn varint(mut v: u64) -> Vec<u8> {
    let mut out = Vec::new();
    loop {
        let b = (v & 0x7f) as u8;
        v >>= 7;
        if v == 0 {
            out.push(b);
            return out;
        }
        out.push(b | 0x80);
    }
}

fn tag(field: u64, wire: u64) -> Vec<u8> {
    varint((field << 3) | wire)
}

fn ld(field: u64, payload: &[u8]) -> Vec<u8> {
    let mut out = tag(field, 2);
    out.extend_from_slice(&varint(payload.len() as u64));
    out.extend_from_slice(payload);
    out
}

fn text(field: u64, s: &str) -> Vec<u8> {
    ld(field, s.as_bytes())
}

fn vint(field: u64, v: u64) -> Vec<u8> {
    let mut out = tag(field, 0);
    out.extend_from_slice(&varint(v));
    out
}

fn scalar_field(name: &str, number: u64, proto_type: u64) -> Vec<u8> {
    let mut f = text(1, name);
    f.extend_from_slice(&vint(3, number));
    f.extend_from_slice(&vint(4, 1)); // optional
    f.extend_from_slice(&vint(5, proto_type));
    f
}

fn message_field(name: &str, number: u64, type_path: &str, repeated: bool) -> Vec<u8> {
    let mut f = text(1, name);
    f.extend_from_slice(&vint(3, number));
    f.extend_from_slice(&vint(4, if repeated { 3 } else { 1 }));
    f.extend_from_slice(&vint(5, 11)); // message
    f.extend_from_slice(&text(6, type_path));
    f
}

fn method(name: &str, input: &str, output: &str, client_streaming: bool, server_streaming: bool) -> Vec<u8> {
    let mut m = text(1, name);
    m.extend_from_slice(&text(2, input));
    m.extend_from_slice(&text(3, output));
    if client_streaming {
        m.extend_from_slice(&vint(5, 1));
    }
    if server_streaming {
        m.extend_from_slice(&vint(6, 1));
    }
    m
}

fn descriptor_set_bytes() -> Vec<u8> {
    let pkg = "google.ads.googleads.v21.services";
    let req_path = ".google.ads.googleads.v21.services.SearchRequest";
    let resp_path = ".google.ads.googleads.v21.services.SearchResponse";
    let row_path = ".google.ads.googleads.v21.services.Row";

    let mut search_request = text(1, "SearchRequest");
    search_request.extend_from_slice(&ld(2, &scalar_field("customer_id", 1, 9)));
    search_request.extend_from_slice(&ld(2, &scalar_field("query", 2, 9)));
    search_request.extend_from_slice(&ld(2, &scalar_field("page_size", 3, 3)));

    let mut row = text(1, "Row");
    row.extend_from_slice(&ld(2, &scalar_field("id", 1, 9)));

    let mut search_response = text(1, "SearchResponse");
    search_response.extend_from_slice(&ld(2, &message_field("results", 1, row_path, true)));
    search_response.extend_from_slice(&ld(2, &scalar_field("request_id", 2, 9)));

    let mut service = text(1, "AccountsService");
    service.extend_from_slice(&ld(2, &method("Search", req_path, resp_path, false, false)));
    service.extend_from_slice(&ld(2, &method("SearchStream", req_path, resp_path, false, true)));
    service.extend_from_slice(&ld(2, &method("Upload", req_path, resp_path, true, false)));

    let mut file = text(1, "test.proto");
    file.extend_from_slice(&text(2, pkg));
    file.extend_from_slice(&ld(4, &search_request));
    file.extend_from_slice(&ld(4, &search_response));
    file.extend_from_slice(&ld(4, &row));
    file.extend_from_slice(&ld(6, &service));
    file.extend_from_slice(&text(12, "proto3"));

    ld(1, &file)
}

#[test]
fn descriptor_set_loads_and_imports() {
    let bytes = descriptor_set_bytes();
    let pr_pool = load_pool(&bytes).expect("descriptor set decodes");
    let pool = import_pool(&pr_pool);
    assert_eq!(pool.services.len(), 1);
    assert_eq!(pool.services[0].full_name, "google.ads.googleads.v21.services.AccountsService");
    let m = find_method(&pool, "accounts-service", "search-stream").expect("resolves");
    assert!(m.server_streaming);
    assert!(!m.client_streaming);
    assert_eq!(m.input_type, "google.ads.googleads.v21.services.SearchRequest");

    let tree = build_tree(&pool);
    assert_eq!(tree.api_version, "v21");
    assert_eq!(tree.services[0].name, "accounts-service");
    let names: Vec<&str> = tree.services[0].methods.iter().map(|m| m.name.as_str()).collect();
    assert_eq!(names, vec!["search", "search-stream", "upload"]);
}

#[test]
fn codec_round_trips_a_validating_value() {
    let bytes = descriptor_set_bytes();
    let pr_pool = load_pool(&bytes).expect("descriptor set decodes");
    let desc = lookup_message(&pr_pool, "google.ads.googleads.v21.services.SearchRequest")
        .expect("request type exists");

    let value = parse_json("{\"customerId\":\"123\",\"query\":\"SELECT x\",\"pageSize\":\"7\"}")
        .expect("canonical");
    let msg = dynamic_from_value(desc.clone(), &value).expect("validates against descriptor");
    let wire = msg.encode_to_vec();
    assert!(!wire.is_empty());

    let back_msg = decode_frame(desc, &wire).expect("decodes").expect("one message");
    let back = dynamic_to_value(&back_msg).expect("renders");
    assert_eq!(to_json(&back), to_json(&value));
}

#[test]
fn codec_round_trips_nested_and_repeated_fields() {
    let bytes = descriptor_set_bytes();
    let pr_pool = load_pool(&bytes).expect("descriptor set decodes");
    let desc = lookup_message(&pr_pool, "google.ads.googleads.v21.services.SearchResponse")
        .expect("response type exists");

    let value = parse_json("{\"results\":[{\"id\":\"a\"},{\"id\":\"b\"}],\"requestId\":\"r1\"}")
        .expect("canonical");
    let msg = dynamic_from_value(desc.clone(), &value).expect("validates");
    let wire = msg.encode_to_vec();
    let back_msg = decode_frame(desc, &wire).expect("decodes").expect("one message");
    let back = dynamic_to_value(&back_msg).expect("renders");
    assert_eq!(to_json(&back), to_json(&value));
}

#[test]
fn empty_buffer_is_end_of_stream_not_an_error() {
    let bytes = descriptor_set_bytes();
    let pr_pool = load_pool(&bytes).expect("descriptor set decodes");
    let desc = lookup_message(&pr_pool, "google.ads.googleads.v21.services.SearchResponse")
        .expect("response type exists");
    let r = decode_frame(desc, &[]).expect("no error on empty buffer");
    assert!(r.is_none());
}

#[test]
fn mismatched_value_is_an_encode_error() {
    let bytes = descriptor_set_bytes();
    let pr_pool = load_pool(&bytes).expect("descriptor set decodes");
    let desc = lookup_message(&pr_pool, "google.ads.googleads.v21.services.SearchRequest")
        .expect("request type exists");
    let bad = parse_json("{\"noSuchField\":1}").expect("canonical");
    let err = dynamic_from_value(desc.clone(), &bad).expect_err("field not in descriptor");
    assert!(err.message().starts_with("encode error: "));
    let nested_where_scalar = parse_json("{\"query\":{\"x\":1}}").expect("canonical");
    assert!(dynamic_from_value(desc, &nested_where_scalar).is_err());
}
