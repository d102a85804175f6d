use vortex_mod_1fichier::url_matcher::{classify_url, extract_file_id, UrlKind};

#[test]
fn extract_file_id_returns_id_token() {
    assert_eq!(
        extract_file_id("https://1fichier.com/?abc123def456"),
        Some("abc123def456".into())
    );
}

#[test]
fn extract_file_id_strips_extra_query_params() {
    assert_eq!(
        extract_file_id("https://1fichier.com/?abc123def456&af=99"),
        Some("abc123def456".into())
    );
}

#[test]
fn extract_file_id_rejects_non_1fichier_host() {
    assert_eq!(extract_file_id("https://example.com/?abc123def"), None);
}

#[test]
fn extract_file_id_rejects_path_segment() {
    assert_eq!(extract_file_id("https://1fichier.com/x?abc123def"), None);
}

#[test]
fn classify_handles_uppercase_host() {
    assert_eq!(
        classify_url("https://1FICHIER.COM/?abc123def"),
        UrlKind::File
    );
}

fn check_shape(url: &str, expected: UrlKind) {
    assert_eq!(classify_url(url), expected, "{url}");
}

#[test]
fn classify_url_recognises_plain_host() {
    check_shape("https://1fichier.com/?abc123def456", UrlKind::File);
}

#[test]
fn classify_url_recognises_www_host() {
    check_shape("https://www.1fichier.com/?abc123def456", UrlKind::File);
}

#[test]
fn classify_url_recognises_http() {
    check_shape("http://1fichier.com/?abcdef", UrlKind::File);
}

#[test]
fn classify_url_tolerates_extra_params() {
    check_shape("https://1fichier.com/?abc123&af=1", UrlKind::File);
}

#[test]
fn classify_url_tolerates_fragment() {
    check_shape("https://1fichier.com/?abc123#frag", UrlKind::File);
}

#[test]
fn classify_url_rejects_slash_after_id() {
    check_shape("https://1fichier.com/?abc123/", UrlKind::Unknown);
}

#[test]
fn classify_url_rejects_missing_query() {
    check_shape("https://1fichier.com/", UrlKind::Unknown);
}

#[test]
fn classify_url_rejects_short_id() {
    check_shape("https://1fichier.com/?short", UrlKind::Unknown);
}

#[test]
fn classify_url_rejects_path() {
    check_shape("https://1fichier.com/path?abc123", UrlKind::Unknown);
}

#[test]
fn classify_url_rejects_other_host() {
    check_shape("https://example.com/?abc123def", UrlKind::Unknown);
}

#[test]
fn classify_url_rejects_ftp() {
    check_shape("ftp://1fichier.com/?abc123def", UrlKind::Unknown);
}

#[test]
fn classify_url_rejects_non_url() {
    check_shape("not a url", UrlKind::Unknown);
}

// ── Edge cases of the URL grammar ───────────────────────────────────────────

#[test]
fn extract_file_id_accepts_uppercase_scheme_and_www() {
    assert_eq!(
        extract_file_id("HTTPS://WWW.1Fichier.Com/?AbC123dEf#top"),
        Some("AbC123dEf".into())
    );
}

#[test]
fn extract_file_id_ignores_user_info_and_port() {
    assert_eq!(
        extract_file_id("https://user:pw@1fichier.com:443/?abc123def"),
        Some("abc123def".into())
    );
}

#[test]
fn extract_file_id_accepts_host_without_path() {
    // No '/' after the authority: the path defaults to "/" and there is no query.
    assert_eq!(extract_file_id("https://1fichier.com"), None);
    assert_eq!(extract_file_id("https://1fichier.com?abc123def"), None);
}

#[test]
fn extract_file_id_accepts_empty_path() {
    assert_eq!(extract_file_id("https://1fichier.com/?abcdef"), Some("abcdef".into()));
}

#[test]
fn extract_file_id_rejects_non_ascii_id() {
    assert_eq!(extract_file_id("https://1fichier.com/?abcdéf"), None);
}

#[test]
fn extract_file_id_rejects_bracketed_host() {
    assert_eq!(extract_file_id("https://[::1]/?abc123def"), None);
    assert_eq!(extract_file_id("https://[::1/?abc123def"), None);
}

#[test]
fn extract_file_id_rejects_empty_host() {
    assert_eq!(extract_file_id("https:///?abc123def"), None);
    assert_eq!(extract_file_id("https://:80/?abc123def"), None);
}

#[test]
fn extract_file_id_takes_first_question_mark() {
    assert_eq!(extract_file_id("https://1fichier.com/?abc123def?x"), None);
    assert_eq!(extract_file_id("https://1fichier.com/?abc123def&x?y"), Some("abc123def".into()));
}

#[test]
fn extract_file_id_fragment_before_query() {
    assert_eq!(extract_file_id("https://1fichier.com/#x?abc123def"), None);
}

#[test]
fn file_url_shapes_with_user_info_and_port() {
    assert_eq!(
        extract_file_id("hTTp://a@b:c@WWW.1fichier.COM:8080/?Zz9Zz9&x#y"),
        Some("Zz9Zz9".into())
    );
    // A '/' inside the authority ends it before the host.
    assert_eq!(extract_file_id("https://1fichier.com@x/y/?abcdef"), None);
    // Only '&' or '#' may follow the id.
    assert_eq!(extract_file_id("https://1fichier.com/?abcdef=1"), None);
}
