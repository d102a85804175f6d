use vortex_mod_1fichier::error::PluginError;
use vortex_mod_1fichier::free_mode::ParsedLanding;
use vortex_mod_1fichier::premium_mode::PremiumToken;
use vortex_mod_1fichier::{
    build_free_response, build_premium_response, ensure_file_url, handle_can_handle,
    handle_supports_playlist,
};

fn sample_landing() -> ParsedLanding {
    ParsedLanding {
        filename: Some("archive.zip".into()),
        size_bytes: Some(2048),
        wait_seconds: Some(60),
        requires_captcha: true,
    }
}

fn sample_token() -> PremiumToken {
    PremiumToken {
        direct_url: "https://download.1fichier.com/key/archive.zip".into(),
        traffic_used_bytes: Some(1024),
        traffic_total_bytes: Some(1_000_000),
    }
}

// ── Routing ─────────────────────────────────────────────────────────────────

#[test]
fn can_handle_recognises_file_url() {
    assert_eq!(
        handle_can_handle("https://1fichier.com/?abc123def456"),
        "true"
    );
}

#[test]
fn can_handle_rejects_unrelated_url() {
    assert_eq!(handle_can_handle("https://example.com/?abc"), "false");
}

#[test]
fn supports_playlist_always_false() {
    assert_eq!(
        handle_supports_playlist("https://1fichier.com/?abc123def"),
        "false"
    );
}

#[test]
fn ensure_file_url_accepts_file() {
    ensure_file_url("https://1fichier.com/?abc123def").unwrap();
}

#[test]
fn ensure_file_url_rejects_unknown() {
    let err = ensure_file_url("https://example.com/").unwrap_err();
    assert!(matches!(err, PluginError::UnsupportedUrl(_)));
}

#[test]
fn ensure_file_url_error_carries_the_url() {
    match ensure_file_url("https://example.com/x").unwrap_err() {
        PluginError::UnsupportedUrl(u) => assert_eq!(u, "https://example.com/x"),
        other => panic!("unexpected {other:?}"),
    }
}

#[test]
fn can_handle_agrees_with_ensure_file_url() {
    for url in [
        "https://1fichier.com/?abc123def456",
        "https://1fichier.com/?abc",
        "https://example.com/?abc123def456",
        "http://www.1fichier.com/?ABCDEF&x=1",
    ] {
        assert_eq!(handle_can_handle(url) == "true", ensure_file_url(url).is_ok(), "{url}");
    }
}

// ── Free response builder ───────────────────────────────────────────────────

#[test]
fn build_free_response_propagates_landing_metadata() {
    let r = build_free_response("https://1fichier.com/?abc123def456", sample_landing());
    assert_eq!(r.kind, "file");
    assert_eq!(r.mode, "free");
    assert_eq!(r.files.len(), 1);
    let f = &r.files[0];
    assert_eq!(f.id, "abc123def456");
    assert_eq!(f.filename.as_deref(), Some("archive.zip"));
    assert_eq!(f.size_bytes, Some(2048));
    assert_eq!(f.direct_url, None, "free mode never produces direct URL");
    assert_eq!(f.wait_seconds, Some(60));
    assert!(f.requires_captcha);
    assert!(f.resumable);
}

#[test]
fn build_free_response_unrecognised_url_has_empty_id() {
    let r = build_free_response("https://example.com/?abc123def456", sample_landing());
    assert_eq!(r.files[0].id, "");
    assert_eq!(r.files[0].url, "https://example.com/?abc123def456");
    assert_eq!(r.files[0].traffic_used_bytes, None);
    assert_eq!(r.files[0].traffic_total_bytes, None);
}

// ── Premium response builder ────────────────────────────────────────────────

#[test]
fn build_premium_response_carries_direct_url_and_traffic() {
    let r = build_premium_response(
        "https://1fichier.com/?abc123def456",
        Some(sample_landing()),
        sample_token(),
    );
    assert_eq!(r.mode, "premium");
    let f = &r.files[0];
    assert_eq!(f.filename.as_deref(), Some("archive.zip"));
    assert_eq!(f.size_bytes, Some(2048));
    assert_eq!(
        f.direct_url.as_deref(),
        Some("https://download.1fichier.com/key/archive.zip")
    );
    assert_eq!(f.wait_seconds, None);
    assert!(!f.requires_captcha);
    assert_eq!(f.traffic_used_bytes, Some(1024));
    assert_eq!(f.traffic_total_bytes, Some(1_000_000));
}

#[test]
fn build_premium_response_without_landing_hint_omits_filename_and_size() {
    let r = build_premium_response("https://1fichier.com/?abc123def456", None, sample_token());
    let f = &r.files[0];
    assert_eq!(f.filename, None);
    assert_eq!(f.size_bytes, None);
}

#[test]
fn every_link_is_resumable() {
    let free = build_free_response("https://1fichier.com/?abc123def456", sample_landing());
    let premium = build_premium_response("https://1fichier.com/?abc123def456", None, sample_token());
    assert!(free.files[0].resumable);
    assert!(premium.files[0].resumable);
    assert_eq!(premium.kind, "file");
    assert_eq!(premium.files.len(), 1);
    assert_eq!(premium.files[0].id, "abc123def456");
}
