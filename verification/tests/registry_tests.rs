use adscli_core::command_tree::{
    build_tree, describe_method, detect_api_version, find_method, ResolveError,
};
use adscli_core::descriptor::{
    FieldCardinality, FieldInfo, FieldKind, MessageInfo, MethodInfo, Pool, ServiceInfo,
};

fn method(name: &str, service_full: &str, input: &str, output: &str, cs: bool, ss: bool) -> MethodInfo {
    MethodInfo {
        name: name.to_string(),
        service_full_name: service_full.to_string(),
        input_type: input.to_string(),
        output_type: output.to_string(),
        client_streaming: cs,
        server_streaming: ss,
    }
}

fn sample_pool() -> Pool {
    let accounts_full = "google.ads.googleads.v21.services.AccountsService";
    let ads_full = "google.ads.googleads.v21.services.GoogleAdsService";
    Pool {
        services: vec![
            ServiceInfo {
                name: "GoogleAdsService".to_string(),
                full_name: ads_full.to_string(),
                methods: vec![
                    method("SearchStream", ads_full, "a.In", "a.Out", false, true),
                    method("Mutate", ads_full, "a.MutIn", "a.MutOut", false, false),
                    method("Search", ads_full, "a.In", "a.Out", false, false),
                ],
            },
            ServiceInfo {
                name: "AccountsService".to_string(),
                full_name: accounts_full.to_string(),
                methods: vec![
                    method("SearchStream", accounts_full, "a.In", "a.Out", false, true),
                    method("UploadThings", accounts_full, "a.UpIn", "a.UpOut", true, false),
                ],
            },
            ServiceInfo {
                name: "Internal".to_string(),
                full_name: "google.internal.Hidden".to_string(),
                methods: vec![method("Peek", "google.internal.Hidden", "a.In", "a.Out", false, false)],
            },
        ],
        messages: vec![
            MessageInfo {
                full_name: "a.In".to_string(),
                fields: vec![
                    FieldInfo {
                        name: "customer_id".to_string(),
                        json_name: "customerId".to_string(),
                        cardinality: FieldCardinality::Optional,
                        kind: FieldKind::Scalar("string".to_string()),
                    },
                    FieldInfo {
                        name: "rows".to_string(),
                        json_name: "rows".to_string(),
                        cardinality: FieldCardinality::Repeated,
                        kind: FieldKind::Message("a.Row".to_string()),
                    },
                ],
            },
        ],
    }
}

#[test]
fn find_method_same_result_for_all_name_forms() {
    let pool = sample_pool();
    let forms_service = ["AccountsService", "accounts-service",
        "google.ads.googleads.v21.services.AccountsService", "ACCOUNTSSERVICE"];
    let forms_method = ["SearchStream", "search-stream", "SEARCH_STREAM",
        "google.ads.googleads.v21.services.AccountsService/SearchStream"];
    for s in forms_service {
        for m in forms_method {
            let found = find_method(&pool, s, m).expect("resolves");
            assert_eq!(found.name, "SearchStream");
            assert_eq!(found.service_full_name,
                "google.ads.googleads.v21.services.AccountsService");
        }
    }
}

#[test]
fn find_method_accounts_search_stream_flags() {
    let pool = sample_pool();
    let m = find_method(&pool, "accounts-service", "search-stream").expect("resolves");
    assert!(m.server_streaming);
    assert!(!m.client_streaming);
}

#[test]
fn find_method_unknown_service_names_token() {
    let pool = sample_pool();
    match find_method(&pool, "no-such-service", "search") {
        Err(ResolveError::UnknownService(name)) => assert_eq!(name, "no-such-service"),
        other => panic!("expected unknown service, got {:?}", other.map(|m| m.name)),
    }
}

#[test]
fn find_method_unknown_method_names_tokens() {
    let pool = sample_pool();
    match find_method(&pool, "accounts-service", "no-such-method") {
        Err(ResolveError::UnknownMethod(s, m)) => {
            assert_eq!(s, "accounts-service");
            assert_eq!(m, "no-such-method");
        },
        other => panic!("expected unknown method, got {:?}", other.map(|m| m.name)),
    }
}

#[test]
fn find_method_hidden_service_is_invisible() {
    let pool = sample_pool();
    assert!(find_method(&pool, "Internal", "Peek").is_err());
}

#[test]
fn error_messages_name_the_token() {
    let e = ResolveError::UnknownService("foo".to_string());
    assert_eq!(e.message(), "unknown service foo");
    let e = ResolveError::UnknownMethod("svc".to_string(), "meth".to_string());
    assert_eq!(e.message(), "unknown method svc meth");
    let e = ResolveError::UnresolvedType("a.B".to_string());
    assert_eq!(e.message(), "unresolved type a.B");
}

#[test]
fn empty_pool_builds_empty_tree() {
    let pool = Pool { services: vec![], messages: vec![] };
    let tree = build_tree(&pool);
    assert_eq!(tree.version, 1);
    assert_eq!(tree.api_version, "unknown");
    assert!(tree.services.is_empty());
}

#[test]
fn repunctuated_names_resolve_identically() {
    let pool = sample_pool();
    let a = find_method(&pool, "Accounts_Service!!", "SEARCH.STREAM").expect("resolves");
    let b = find_method(&pool, "accounts-service", "search-stream").expect("resolves");
    assert_eq!(a.name, b.name);
    assert_eq!(a.service_full_name, b.service_full_name);
    assert_eq!(a.input_type, b.input_type);
}

#[test]
fn tree_is_sorted_and_filtered() {
    let pool = sample_pool();
    let tree = build_tree(&pool);
    assert_eq!(tree.version, 1);
    assert_eq!(tree.api_version, "v21");
    let names: Vec<&str> = tree.services.iter().map(|s| s.name.as_str()).collect();
    assert_eq!(names, vec!["accounts-service", "google-ads-service"]);
    let ads = &tree.services[1];
    let method_names: Vec<&str> = ads.methods.iter().map(|m| m.name.as_str()).collect();
    assert_eq!(method_names, vec!["mutate", "search", "search-stream"]);
    assert_eq!(ads.methods[2].full_name,
        "google.ads.googleads.v21.services.GoogleAdsService/SearchStream");
    assert!(ads.methods[2].server_streaming);
}

#[test]
fn tree_is_identical_across_builds() {
    let pool = sample_pool();
    let t1 = build_tree(&pool);
    let t2 = build_tree(&pool);
    assert_eq!(t1.api_version, t2.api_version);
    assert_eq!(t1.services.len(), t2.services.len());
    for (a, b) in t1.services.iter().zip(t2.services.iter()) {
        assert_eq!(a.name, b.name);
        assert_eq!(a.full_name, b.full_name);
        assert_eq!(a.methods.len(), b.methods.len());
        for (x, y) in a.methods.iter().zip(b.methods.iter()) {
            assert_eq!(x.name, y.name);
            assert_eq!(x.full_name, y.full_name);
            assert_eq!(x.input_type, y.input_type);
            assert_eq!(x.output_type, y.output_type);
            assert_eq!(x.client_streaming, y.client_streaming);
            assert_eq!(x.server_streaming, y.server_streaming);
        }
    }
}

#[test]
fn api_version_unknown_without_version_segment() {
    let mut pool = sample_pool();
    for svc in pool.services.iter_mut() {
        svc.full_name = svc.full_name.replace(".v21.", ".stable.");
        for m in svc.methods.iter_mut() {
            m.service_full_name = m.service_full_name.replace(".v21.", ".stable.");
        }
    }
    assert_eq!(detect_api_version(&pool), "unknown");
}

#[test]
fn describe_method_projects_fields() {
    let pool = sample_pool();
    let d = describe_method(&pool, "accounts-service", "search-stream").expect("describes");
    assert_eq!(d.service, "google.ads.googleads.v21.services.AccountsService");
    assert_eq!(d.method, "SearchStream");
    assert_eq!(d.input_type, "a.In");
    assert_eq!(d.output_type, "a.Out");
    assert_eq!(d.fields.len(), 2);
    assert_eq!(d.fields[0].name, "customer_id");
    assert_eq!(d.fields[0].json_name, "customerId");
    assert_eq!(d.fields[0].cardinality, "optional");
    assert_eq!(d.fields[0].kind, "scalar:string");
    assert_eq!(d.fields[0].type_ref.as_deref(), Some("string"));
    assert_eq!(d.fields[1].cardinality, "repeated");
    assert_eq!(d.fields[1].kind, "message:a.Row");
    assert_eq!(d.fields[1].type_ref.as_deref(), Some("a.Row"));
}

#[test]
fn describe_method_unresolved_type() {
    let pool = sample_pool();
    match describe_method(&pool, "google-ads-service", "mutate") {
        Err(ResolveError::UnresolvedType(t)) => assert_eq!(t, "a.MutIn"),
        other => panic!("expected unresolved type, got {:?}", other.map(|d| d.method)),
    }
}
