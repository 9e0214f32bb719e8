use adscli_core::auth::{resolve_token_plan, AuthConfig, AuthError, TokenPlan};
use adscli_core::client::{bearer_header, build_request_meta, classify_method, method_path, CallMode, InvokeError};
use adscli_core::descriptor::MethodInfo;
use adscli_core::gaql::{build_search_request, collect_rows, narrow_results, SearchArgs};
use adscli_core::mutate::{build_mutate_body, MutateArgs, MutateError};
use adscli_core::value::{parse_json, to_json, DynamicValue};

fn search_args() -> SearchArgs {
    SearchArgs {
        customer_id: "1234567890".to_string(),
        query: "SELECT campaign.id FROM campaign".to_string(),
        use_search: false,
        page_size: None,
        page_token: None,
        validate_only: false,
        summary_row_setting: None,
        return_total_results_count: false,
        raw: false,
        jsonl: false,
    }
}

#[test]
fn search_request_minimal_stream_shape() {
    let v = build_search_request(&search_args());
    assert_eq!(
        to_json(&v),
        "{\"customerId\":\"1234567890\",\"query\":\"SELECT campaign.id FROM campaign\"}"
    );
}

#[test]
fn search_request_paging_only_for_unary_variant() {
    let mut args = search_args();
    args.page_size = Some(50);
    args.page_token = Some("tok".to_string());
    args.return_total_results_count = true;
    let streamed = build_search_request(&args);
    assert_eq!(
        to_json(&streamed),
        "{\"customerId\":\"1234567890\",\"query\":\"SELECT campaign.id FROM campaign\"}"
    );
    args.use_search = true;
    let unary = build_search_request(&args);
    assert_eq!(
        to_json(&unary),
        "{\"customerId\":\"1234567890\",\"query\":\"SELECT campaign.id FROM campaign\",\"pageSize\":50,\"pageToken\":\"tok\",\"returnTotalResultsCount\":true}"
    );
}

#[test]
fn search_request_flags() {
    let mut args = search_args();
    args.validate_only = true;
    args.summary_row_setting = Some("SUMMARY_ROW_WITH_RESULTS".to_string());
    let v = build_search_request(&args);
    assert_eq!(
        to_json(&v),
        "{\"customerId\":\"1234567890\",\"query\":\"SELECT campaign.id FROM campaign\",\"validateOnly\":true,\"summaryRowSetting\":\"SUMMARY_ROW_WITH_RESULTS\"}"
    );
}

#[test]
fn mutate_body_passthrough_wins() {
    let body = parse_json("{\"anything\":true}").unwrap();
    let args = MutateArgs {
        customer_id: "1".to_string(),
        ops: Some(DynamicValue::List(vec![])),
        body: Some(body),
        partial_failure: true,
        validate_only: true,
        response_content_type: Some("MUTABLE_RESOURCE".to_string()),
    };
    let v = build_mutate_body(args).expect("body passes through");
    assert_eq!(to_json(&v), "{\"anything\":true}");
}

#[test]
fn mutate_body_shaped_from_ops() {
    let ops = parse_json("[{\"campaignOperation\":{}}]").unwrap();
    let args = MutateArgs {
        customer_id: "42".to_string(),
        ops: Some(ops),
        body: None,
        partial_failure: true,
        validate_only: false,
        response_content_type: Some("MUTABLE_RESOURCE".to_string()),
    };
    let v = build_mutate_body(args).expect("shapes");
    assert_eq!(
        to_json(&v),
        "{\"customerId\":\"42\",\"mutateOperations\":[{\"campaignOperation\":{}}],\"partialFailure\":true,\"responseContentType\":\"MUTABLE_RESOURCE\"}"
    );
}

#[test]
fn mutate_body_requires_ops() {
    let args = MutateArgs {
        customer_id: "42".to_string(),
        ops: None,
        body: None,
        partial_failure: false,
        validate_only: false,
        response_content_type: None,
    };
    match build_mutate_body(args) {
        Err(MutateError::OpsRequired) => {},
        Ok(_) => panic!("expected ops-required error"),
    }
    assert_eq!(MutateError::OpsRequired.message(), "--ops required unless --body provided");
}

#[test]
fn narrow_results_picks_envelope() {
    let v = parse_json("{\"fieldMask\":\"x\",\"results\":[1,2],\"other\":null}").unwrap();
    assert_eq!(to_json(&narrow_results(v)), "[1,2]");
    let no_results = parse_json("{\"fieldMask\":\"x\"}").unwrap();
    assert_eq!(to_json(&narrow_results(no_results)), "[]");
    let not_object = parse_json("[3]").unwrap();
    assert_eq!(to_json(&narrow_results(not_object)), "[]");
}

#[test]
fn collect_rows_flattens_chunks_in_order() {
    let c1 = parse_json("{\"results\":[{\"a\":1},{\"a\":2}]}").unwrap();
    let c2 = parse_json("{\"requestId\":\"r\"}").unwrap();
    let c3 = parse_json("{\"results\":[{\"a\":3}]}").unwrap();
    let rows = collect_rows(vec![c1, c2, c3]);
    let texts: Vec<String> = rows.iter().map(|r| to_json(r)).collect();
    assert_eq!(texts, vec!["{\"a\":1}", "{\"a\":2}", "{\"a\":3}"]);
}

fn sample_method(cs: bool, ss: bool) -> MethodInfo {
    MethodInfo {
        name: "SearchStream".to_string(),
        service_full_name: "google.ads.googleads.v21.services.GoogleAdsService".to_string(),
        input_type: "a.In".to_string(),
        output_type: "a.Out".to_string(),
        client_streaming: cs,
        server_streaming: ss,
    }
}

#[test]
fn client_streaming_rejected_before_any_network_work() {
    match classify_method(&sample_method(true, false)) {
        Err(InvokeError::ClientStreamingUnsupported) => {},
        Ok(_) => panic!("client streaming must be rejected"),
    }
    assert_eq!(
        InvokeError::ClientStreamingUnsupported.message(),
        "client streaming is not supported"
    );
    assert_eq!(classify_method(&sample_method(false, true)).unwrap(), CallMode::ServerStreaming);
    assert_eq!(classify_method(&sample_method(false, false)).unwrap(), CallMode::Unary);
}

#[test]
fn request_meta_carries_headers_and_timeout() {
    let m = sample_method(false, true);
    assert_eq!(
        method_path(&m),
        "/google.ads.googleads.v21.services.GoogleAdsService/SearchStream"
    );
    assert_eq!(bearer_header(" tok\n"), "Bearer tok");
    let meta = build_request_meta(&m, "devtok", &Some("123".to_string()), "  at  ", Some(30));
    assert_eq!(meta.path, "/google.ads.googleads.v21.services.GoogleAdsService/SearchStream");
    assert_eq!(meta.developer_token, "devtok");
    assert_eq!(meta.authorization, "Bearer at");
    assert_eq!(meta.login_customer_id.as_deref(), Some("123"));
    assert_eq!(meta.timeout_secs, Some(30));
}

#[test]
fn token_plan_prefers_supplied_token() {
    let config = AuthConfig {
        access_token: Some("  tok  ".to_string()),
        client_id: None,
        client_secret: None,
        refresh_token: None,
    };
    match resolve_token_plan(&config).unwrap() {
        TokenPlan::Cached(t) => assert_eq!(t, "tok"),
        TokenPlan::Refresh { .. } => panic!("expected cached token"),
    }
}

#[test]
fn token_plan_reports_first_missing_field() {
    let mut config = AuthConfig {
        access_token: Some("   ".to_string()),
        client_id: None,
        client_secret: None,
        refresh_token: None,
    };
    assert_eq!(resolve_token_plan(&config).unwrap_err(), AuthError::MissingClientId);
    config.client_id = Some("id".to_string());
    assert_eq!(resolve_token_plan(&config).unwrap_err(), AuthError::MissingClientSecret);
    config.client_secret = Some("sec".to_string());
    assert_eq!(resolve_token_plan(&config).unwrap_err(), AuthError::MissingRefreshToken);
    config.refresh_token = Some("ref".to_string());
    match resolve_token_plan(&config).unwrap() {
        TokenPlan::Refresh { client_id, client_secret, refresh_token } => {
            assert_eq!(client_id, "id");
            assert_eq!(client_secret, "sec");
            assert_eq!(refresh_token, "ref");
        },
        TokenPlan::Cached(_) => panic!("expected refresh plan"),
    }
    assert_eq!(AuthError::MissingClientId.message(), "GOOGLE_ADS_CLIENT_ID missing");
}
