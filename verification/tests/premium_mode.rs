use vortex_mod_1fichier::error::PluginError;
use vortex_mod_1fichier::free_mode::USER_AGENT;
use vortex_mod_1fichier::premium_mode::{
    build_get_token_request, classify_ko_message, parse_credential_response,
    parse_get_token_response, ApiResponse, CredentialResponse, PremiumToken, ENDPOINT,
};

/// Decodes a `get_token.cgi` body the way the plugin's JSON layer does:
/// every field optional, strings default to empty.
fn decode(body: &str) -> Result<ApiResponse, String> {
    let v: serde_json::Value = serde_json::from_str(body).map_err(|e| e.to_string())?;
    let obj = v.as_object().ok_or_else(|| "not an object".to_string())?;
    let text = |k: &str| obj.get(k).and_then(|x| x.as_str()).unwrap_or("").to_string();
    let num = |k: &str| obj.get(k).and_then(|x| x.as_u64());
    Ok(ApiResponse {
        status: text("status"),
        url: text("url"),
        message: text("message"),
        traffic_used: num("traffic_used"),
        traffic_total: num("traffic_total"),
    })
}

fn parse(body: &str) -> Result<PremiumToken, PluginError> {
    parse_get_token_response(decode(body))
}

fn credential(raw: &str) -> Result<CredentialResponse, String> {
    let v: serde_json::Value = serde_json::from_str(raw).map_err(|e| e.to_string())?;
    let password = v
        .get("password")
        .and_then(|p| p.as_str())
        .ok_or_else(|| "missing field `password`".to_string())?;
    Ok(CredentialResponse {
        username: v.get("username").and_then(|u| u.as_str()).unwrap_or("").to_string(),
        password: password.to_string(),
    })
}

// ── Request builder ─────────────────────────────────────────────────────────

#[test]
fn build_get_token_request_uses_post_with_bearer_auth() {
    let req = build_get_token_request("https://1fichier.com/?abc123def", "SECRETKEY").unwrap();
    assert_eq!(req.method, "POST");
    assert_eq!(req.url, ENDPOINT);
    let auth = req
        .headers
        .iter()
        .find(|(k, _)| k == "Authorization")
        .map(|(_, v)| v.as_str());
    assert_eq!(
        auth,
        Some("Bearer SECRETKEY"),
        "Bearer auth header is mandatory for the 1fichier API"
    );
    let body_str = req.body.as_deref().unwrap();
    let body: serde_json::Value = serde_json::from_str(body_str).unwrap();
    assert_eq!(body["url"], "https://1fichier.com/?abc123def");
}

#[test]
fn build_get_token_request_headers_and_body_text() {
    let req = build_get_token_request("https://1fichier.com/?abc123def", "k").unwrap();
    assert_eq!(req.headers.len(), 3);
    assert_eq!(req.headers[1], ("Content-Type".to_string(), "application/json".to_string()));
    assert_eq!(req.headers[2], ("User-Agent".to_string(), USER_AGENT.to_string()));
    assert_eq!(req.body.as_deref(), Some(r#"{"url":"https://1fichier.com/?abc123def"}"#));
}

#[test]
fn build_get_token_request_escapes_the_url() {
    let url = "a\"b\\c\nd\u{1}é";
    let req = build_get_token_request(url, "k").unwrap();
    assert_eq!(req.body.as_deref(), Some("{\"url\":\"a\\\"b\\\\c\\nd\\u0001é\"}"));
    let body: serde_json::Value = serde_json::from_str(req.body.as_deref().unwrap()).unwrap();
    assert_eq!(body["url"], url);
}

// ── Response parser ─────────────────────────────────────────────────────────

#[test]
fn parse_get_token_response_success_returns_direct_url() {
    let body = r#"{"status":"OK","url":"https://download.1fichier.com/file.bin"}"#;
    let token = parse(body).unwrap();
    assert_eq!(token.direct_url, "https://download.1fichier.com/file.bin");
    assert_eq!(token.traffic_used_bytes, None);
    assert_eq!(token.traffic_total_bytes, None);
}

#[test]
fn parse_get_token_response_with_traffic_info() {
    let body =
        r#"{"status":"OK","url":"https://x","traffic_used":12345,"traffic_total":1000000000}"#;
    let token = parse(body).unwrap();
    assert_eq!(token.traffic_used_bytes, Some(12_345));
    assert_eq!(token.traffic_total_bytes, Some(1_000_000_000));
}

#[test]
fn parse_get_token_response_invalid_key_classifies_credentials() {
    let body = r#"{"status":"KO","message":"Invalid key"}"#;
    let err = parse(body).unwrap_err();
    assert!(matches!(err, PluginError::InvalidCredentials));
}

#[test]
fn parse_get_token_response_expired_classifies_account_expired() {
    let body = r#"{"status":"KO","message":"Subscription expired"}"#;
    let err = parse(body).unwrap_err();
    assert!(matches!(err, PluginError::AccountExpired));
}

#[test]
fn parse_get_token_response_not_premium_classifies_account_expired() {
    let body = r#"{"status":"KO","message":"Account is not premium"}"#;
    let err = parse(body).unwrap_err();
    assert!(matches!(err, PluginError::AccountExpired));
}

#[test]
fn parse_get_token_response_rate_limit_classifies_rate_limited() {
    let body = r#"{"status":"KO","message":"Flood detected: please wait"}"#;
    let err = parse(body).unwrap_err();
    assert!(matches!(err, PluginError::RateLimited(_)));
}

#[test]
fn parse_get_token_response_offline_classifies_offline() {
    let body = r#"{"status":"KO","message":"Resource not found"}"#;
    let err = parse(body).unwrap_err();
    assert!(matches!(err, PluginError::Offline(_)));
}

#[test]
fn parse_get_token_response_unknown_ko_falls_back_to_invalid_api() {
    let body = r#"{"status":"KO","message":"Something else"}"#;
    let err = parse(body).unwrap_err();
    assert!(matches!(err, PluginError::InvalidApiResponse(_)));
}

#[test]
fn parse_get_token_response_missing_url_on_ok_is_invalid() {
    let body = r#"{"status":"OK"}"#;
    let err = parse(body).unwrap_err();
    assert!(matches!(err, PluginError::InvalidApiResponse(_)));
}

#[test]
fn parse_get_token_response_garbage_is_invalid_api() {
    let body = "not json at all";
    let err = parse(body).unwrap_err();
    assert!(matches!(err, PluginError::InvalidApiResponse(_)));
}

#[test]
fn parse_get_token_response_status_is_case_insensitive() {
    let token = parse(r#"{"status":"ok","url":"https://y"}"#).unwrap();
    assert_eq!(token.direct_url, "https://y");
}

#[test]
fn parse_get_token_response_garbage_message_names_json() {
    match parse_get_token_response(Err("expected value".to_string())).unwrap_err() {
        PluginError::InvalidApiResponse(m) => assert_eq!(m, "body is not valid JSON: expected value"),
        other => panic!("unexpected {other:?}"),
    }
}

#[test]
fn premium_success_fixture_returns_direct_url() {
    let body = r#"{
  "status": "OK",
  "url": "https://download.1fichier.com/abc123/file.zip"
}"#;
    let token = parse(body).unwrap();
    assert_eq!(
        token.direct_url,
        "https://download.1fichier.com/abc123/file.zip"
    );
    assert_eq!(token.traffic_used_bytes, None);
}

#[test]
fn premium_success_with_traffic_fixture_propagates_traffic_info() {
    let body = r#"{
  "status": "OK",
  "url": "https://download.1fichier.com/abc123/file.zip",
  "traffic_used": 52428800,
  "traffic_total": 1073741824000
}"#;
    let token = parse(body).unwrap();
    assert_eq!(token.traffic_used_bytes, Some(52_428_800));
    assert_eq!(token.traffic_total_bytes, Some(1_073_741_824_000));
}

// ── KO classification ───────────────────────────────────────────────────────

#[test]
fn classify_ko_message_follows_priority_order() {
    assert!(matches!(classify_ko_message("INVALID API KEY"), PluginError::InvalidCredentials));
    // "invalid" without "key" falls through to the later classes.
    assert!(matches!(classify_ko_message("invalid subscription"), PluginError::AccountExpired));
    assert!(matches!(classify_ko_message("key expired, invalid"), PluginError::InvalidCredentials));
    assert!(matches!(classify_ko_message("Too Many requests"), PluginError::RateLimited(_)));
    assert!(matches!(classify_ko_message("file OFFLINE"), PluginError::Offline(_)));
    match classify_ko_message("Rate limit") {
        PluginError::RateLimited(m) => assert_eq!(m, "Rate limit"),
        other => panic!("unexpected {other:?}"),
    }
    match classify_ko_message("") {
        PluginError::InvalidApiResponse(m) => assert_eq!(m, ""),
        other => panic!("unexpected {other:?}"),
    }
}

// ── Credential parser ───────────────────────────────────────────────────────

#[test]
fn parse_credential_response_extracts_password_as_api_key() {
    let raw = r#"{"username":"ignored","password":"mykey"}"#;
    assert_eq!(parse_credential_response(credential(raw)).unwrap(), "mykey");
}

#[test]
fn parse_credential_response_trims_whitespace() {
    let raw = r#"{"username":"","password":"  trimmed  "}"#;
    assert_eq!(parse_credential_response(credential(raw)).unwrap(), "trimmed");
}

#[test]
fn parse_credential_response_empty_key_errors() {
    let raw = r#"{"username":"x","password":""}"#;
    let err = parse_credential_response(credential(raw)).unwrap_err();
    assert!(matches!(err, PluginError::HostResponse(_)));
}

#[test]
fn parse_credential_response_malformed_json_errors() {
    let err = parse_credential_response(credential("not json")).unwrap_err();
    assert!(matches!(err, PluginError::HostResponse(_)));
}

#[test]
fn parse_credential_response_whitespace_only_key_errors() {
    let decoded = Ok(CredentialResponse {
        username: String::new(),
        password: " \t\u{3000}\n".into(),
    });
    match parse_credential_response(decoded).unwrap_err() {
        PluginError::HostResponse(m) => assert_eq!(m, "get_credential returned an empty API key"),
        other => panic!("unexpected {other:?}"),
    }
}

#[test]
fn parse_credential_response_trims_unicode_space_only_at_the_ends() {
    let decoded = Ok(CredentialResponse {
        username: String::new(),
        password: "\u{a0}a b\u{2003}".into(),
    });
    assert_eq!(parse_credential_response(decoded).unwrap(), "a b");
}

#[test]
fn token_request_body_reads_back_to_the_url() {
    for url in ["", "plain", "quote\"back\\slash", "ctl\u{0}\u{1f}\u{7f}", "emoji 😀 ü", "/\t\r\n\u{8}\u{c}"] {
        let req = build_get_token_request(url, "k").unwrap();
        let body: serde_json::Value = serde_json::from_str(req.body.as_deref().unwrap()).unwrap();
        let obj = body.as_object().unwrap();
        assert_eq!(obj.len(), 1);
        assert_eq!(obj["url"].as_str(), Some(url));
    }
}
