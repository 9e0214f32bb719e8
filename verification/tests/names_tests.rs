use adscli_core::auth::normalize_customer_id;
use adscli_core::client::normalize_endpoint;
use adscli_core::names::{ascii_lower, names_match, normalize, to_kebab, trim_ascii};

#[test]
fn customer_id_strips_hyphens() {
    assert_eq!(normalize_customer_id("123-456-7890"), "1234567890");
}

#[test]
fn customer_id_strips_prefix_text() {
    assert_eq!(normalize_customer_id("ID: 42"), "42");
}

#[test]
fn customer_id_empty_and_digits_only() {
    assert_eq!(normalize_customer_id(""), "");
    assert_eq!(normalize_customer_id("00123"), "00123");
    assert_eq!(normalize_customer_id("abc"), "");
}

#[test]
fn normalize_lowercases_and_strips_punctuation() {
    assert_eq!(normalize("Accounts-Service"), "accountsservice");
    assert_eq!(normalize("google.ads.googleads.v21.services.AccountsService"),
        "googleadsgoogleadsv21servicesaccountsservice");
    assert_eq!(normalize(""), "");
}

#[test]
fn kebab_of_camel_case() {
    assert_eq!(to_kebab("SearchStream"), "search-stream");
    assert_eq!(to_kebab("AccountsService"), "accounts-service");
    assert_eq!(to_kebab("already-kebab"), "already-kebab");
    assert_eq!(to_kebab("snake_case"), "snake-case");
    assert_eq!(to_kebab("X"), "x");
    assert_eq!(to_kebab(""), "");
}

#[test]
fn names_match_is_case_and_punctuation_insensitive() {
    assert!(names_match("SearchStream", "search-stream"));
    assert!(names_match("SearchStream", "SEARCH_STREAM"));
    assert!(names_match("SearchStream", "searchstream"));
    assert!(!names_match("SearchStream", "search"));
}

#[test]
fn trim_strips_surrounding_whitespace() {
    assert_eq!(trim_ascii("  token \n"), "token");
    assert_eq!(trim_ascii("token"), "token");
    assert_eq!(trim_ascii(" \t "), "");
    assert_eq!(trim_ascii("a b"), "a b");
}

#[test]
fn ascii_lower_keeps_non_letters() {
    assert_eq!(ascii_lower("Int32"), "int32");
    assert_eq!(ascii_lower("double"), "double");
}

#[test]
fn endpoint_gains_secure_scheme() {
    assert_eq!(normalize_endpoint("googleads.googleapis.com"), "https://googleads.googleapis.com");
    assert_eq!(normalize_endpoint("https://googleads.googleapis.com"),
        "https://googleads.googleapis.com");
    assert_eq!(normalize_endpoint("http://localhost:1234"), "http://localhost:1234");
}
