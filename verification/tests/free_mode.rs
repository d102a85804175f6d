use std::collections::HashMap;

use vortex_mod_1fichier::error::PluginError;
use vortex_mod_1fichier::free_mode::{
    build_landing_request, parse_landing_page, parse_size_bytes, truncate, HttpResponse,
    MAX_BODY_BYTES, USER_AGENT,
};

// ── HTTP envelope ───────────────────────────────────────────────────────────

#[test]
fn into_success_body_passes_2xx() {
    let resp = HttpResponse {
        status: 200,
        headers: HashMap::new(),
        body: "<html>".into(),
    };
    assert_eq!(resp.into_success_body().unwrap(), "<html>");
}

#[test]
fn into_success_body_maps_404_to_offline() {
    let resp = HttpResponse {
        status: 404,
        headers: HashMap::new(),
        body: String::new(),
    };
    let err = resp.into_success_body().unwrap_err();
    assert!(matches!(err, PluginError::Offline(_)));
}

#[test]
fn into_success_body_rejects_oversized_2xx_payload() {
    let resp = HttpResponse {
        status: 200,
        headers: HashMap::new(),
        body: "x".repeat(MAX_BODY_BYTES + 1),
    };
    let err = resp.into_success_body().unwrap_err();
    assert!(matches!(err, PluginError::HttpStatus { status: 200, .. }));
}

#[test]
fn into_success_body_accepts_body_of_exactly_max_bytes() {
    let resp = HttpResponse {
        status: 299,
        headers: HashMap::new(),
        body: "x".repeat(MAX_BODY_BYTES),
    };
    assert_eq!(resp.into_success_body().unwrap().len(), MAX_BODY_BYTES);
}

#[test]
fn into_success_body_oversize_counts_bytes_not_chars() {
    // 'é' is two bytes: half as many characters already exceed the limit.
    let resp = HttpResponse {
        status: 200,
        headers: HashMap::new(),
        body: "é".repeat(MAX_BODY_BYTES / 2 + 1),
    };
    match resp.into_success_body().unwrap_err() {
        PluginError::HttpStatus { status, message } => {
            assert_eq!(status, 200);
            assert_eq!(message, "body exceeds 1048576 bytes");
        }
        other => panic!("unexpected {other:?}"),
    }
}

#[test]
fn into_success_body_410_message_names_status() {
    let resp = HttpResponse {
        status: 410,
        headers: HashMap::new(),
        body: "gone".into(),
    };
    match resp.into_success_body().unwrap_err() {
        PluginError::Offline(m) => assert_eq!(m, "status 410"),
        other => panic!("unexpected {other:?}"),
    }
}

#[test]
fn into_success_body_other_status_truncates_body() {
    let resp = HttpResponse {
        status: 503,
        headers: HashMap::new(),
        body: "a".repeat(300),
    };
    match resp.into_success_body().unwrap_err() {
        PluginError::HttpStatus { status, message } => {
            assert_eq!(status, 503);
            assert_eq!(message, format!("{}…", "a".repeat(256)));
        }
        other => panic!("unexpected {other:?}"),
    }
}

#[test]
fn into_success_body_short_error_body_is_kept() {
    let resp = HttpResponse {
        status: 500,
        headers: HashMap::new(),
        body: "boom".into(),
    };
    match resp.into_success_body().unwrap_err() {
        PluginError::HttpStatus { status: 500, message } => assert_eq!(message, "boom"),
        other => panic!("unexpected {other:?}"),
    }
}

#[test]
fn into_success_body_199_and_300_are_errors() {
    for status in [199u16, 300, 0] {
        let resp = HttpResponse {
            status,
            headers: HashMap::new(),
            body: "x".into(),
        };
        assert!(matches!(
            resp.into_success_body().unwrap_err(),
            PluginError::HttpStatus { .. }
        ));
    }
}

#[test]
fn truncate_cuts_at_char_boundary() {
    // "é" is two bytes; a cut at byte 3 of "aéé" falls inside the second 'é'.
    assert_eq!(truncate("aéé", 3), "aé…");
    assert_eq!(truncate("aéé", 5), "aéé");
    assert_eq!(truncate("éé", 1), "…");
    assert_eq!(truncate("abc", 0), "…");
    assert_eq!(truncate("", 0), "");
}

#[test]
fn truncated_message_stays_within_max_plus_ellipsis() {
    let s = "€".repeat(200);
    let t = truncate(&s, 256);
    assert!(t.len() <= 256 + 3);
    assert!(t.ends_with('…'));
    assert!(s.starts_with(t.trim_end_matches('…')));
}

// ── Page request ────────────────────────────────────────────────────────────

#[test]
fn build_landing_request_emits_get_with_user_agent() {
    let req = build_landing_request("https://1fichier.com/?abc123def");
    assert_eq!(req.method, "GET");
    assert_eq!(req.url, "https://1fichier.com/?abc123def");
    assert!(
        req.headers.iter().any(|(k, _)| k == "User-Agent"),
        "request must carry a User-Agent so 1fichier returns the full landing page"
    );
    assert_eq!(req.headers[0], ("User-Agent".to_string(), USER_AGENT.to_string()));
    assert_eq!(
        req.headers[1],
        ("Accept".to_string(), "text/html,application/xhtml+xml".to_string())
    );
    assert_eq!(req.body, None);
}

// ── Landing parser ──────────────────────────────────────────────────────────

#[test]
fn parse_landing_page_extracts_filename_size_wait_no_captcha() {
    let html = r#"
        <html><body>
          <table><tr>
            <th class="normal">Filename :</th><td>archive.zip</td>
            <th class="normal">Size :</th><td>1.50 MB</td>
          </tr></table>
          <form data-wait="60"><span class="countdown">60</span></form>
        </body></html>
    "#;
    let parsed = parse_landing_page(html).unwrap();
    assert_eq!(parsed.filename.as_deref(), Some("archive.zip"));
    assert_eq!(parsed.size_bytes, Some(1_572_864));
    assert_eq!(parsed.wait_seconds, Some(60));
    assert!(!parsed.requires_captcha);
}

#[test]
fn parse_landing_page_detects_recaptcha() {
    let html = r#"
        <html><body>
          <th class="normal">Filename :</th><td>doc.pdf</td>
          <th class="normal">Size :</th><td>50 KB</td>
          <div class="g-recaptcha" data-sitekey="abc"></div>
        </body></html>
    "#;
    let parsed = parse_landing_page(html).unwrap();
    assert!(parsed.requires_captcha);
}

#[test]
fn parse_landing_page_offline_returns_offline_error() {
    let html = r#"<html><body>The requested file could not be found.</body></html>"#;
    let err = parse_landing_page(html).unwrap_err();
    assert!(matches!(err, PluginError::Offline(_)));
}

#[test]
fn parse_landing_page_no_metadata_returns_no_direct_link() {
    let html = "<html><body>Welcome to 1fichier.</body></html>";
    let err = parse_landing_page(html).unwrap_err();
    assert!(matches!(err, PluginError::NoDirectLink));
}

#[test]
fn parse_landing_page_size_can_be_missing() {
    let html = r#"
        <th class="normal">Filename :</th><td>z.bin</td>
        <span class="countdown">60</span>
    "#;
    let parsed = parse_landing_page(html).unwrap();
    assert_eq!(parsed.filename.as_deref(), Some("z.bin"));
    assert_eq!(parsed.size_bytes, None);
    assert_eq!(parsed.wait_seconds, Some(60));
}

#[test]
fn parse_landing_page_wait_can_come_from_var_c() {
    let html = r#"
        <th class="normal">Filename :</th><td>data.bin</td>
        <th class="normal">Size :</th><td>10 KB</td>
        <script>var c = 30; setTimeout(go, c*1000);</script>
    "#;
    let parsed = parse_landing_page(html).unwrap();
    assert_eq!(parsed.wait_seconds, Some(30));
}

// ── Fixture-shaped pages ────────────────────────────────────────────────────

const OFFLINE_PAGE: &str = r#"<!DOCTYPE html>
<html lang="en"><head><title>1fichier.com: Cloud Storage</title></head>
<body>
  <div class="bloc2">
    <p>The file you are trying to access is no longer available.</p>
    <p>It has been removed by its owner or for a violation of our terms.</p>
  </div>
</body></html>"#;

const NO_METADATA_PAGE: &str = r#"<!DOCTYPE html>
<html lang="en"><head><title>1fichier.com: Cloud Storage</title></head>
<body>
  <div class="bloc2"><h1>Welcome to 1fichier</h1>
  <p>Upload, store and share your files.</p></div>
</body></html>"#;

#[test]
fn free_landing_offline_fixture_yields_offline_error() {
    let err = parse_landing_page(OFFLINE_PAGE).unwrap_err();
    assert!(
        matches!(err, PluginError::Offline(_)),
        "offline fixture must surface PluginError::Offline, got {err:?}"
    );
}

#[test]
fn free_landing_no_metadata_fixture_yields_no_direct_link() {
    let err = parse_landing_page(NO_METADATA_PAGE).unwrap_err();
    assert!(
        matches!(err, PluginError::NoDirectLink),
        "no-metadata fixture must surface PluginError::NoDirectLink, got {err:?}"
    );
}

#[test]
fn parses_free_landing_with_captcha_page() {
    let html = r#"<html><body><table class="premium">
      <tr><th class="normal" style="width:150px">Filename :</th>
          <td class="normal">ignored</td></tr>
      <tr><th>Filename :</th>
          <td>secret-document.pdf</td></tr>
      <tr><th>Size :</th> <td>823.45 KB</td></tr></table>
      <form method="post" data-wait="60">
        <div class="h-captcha" data-sitekey="x"></div>
        <span class="countdown">60</span>
      </form></body></html>"#;
    let parsed = parse_landing_page(html).unwrap();
    assert_eq!(parsed.filename.as_deref(), Some("secret-document.pdf"));
    assert_eq!(parsed.size_bytes, Some(843_213));
    assert_eq!(parsed.wait_seconds, Some(60));
    assert!(parsed.requires_captcha);
}

#[test]
fn parses_free_landing_var_c_page() {
    let html = "<html><body>\n<th>FILENAME :</th>\n<td>video.mp4</td>\n\
                <th>SIZE:</th><td>4.20 GB</td>\n<script>\nvar  c=30;\n</script></body></html>";
    let parsed = parse_landing_page(html).unwrap();
    assert_eq!(parsed.filename.as_deref(), Some("video.mp4"));
    assert_eq!(parsed.size_bytes, Some(4_509_715_661));
    assert_eq!(parsed.wait_seconds, Some(30));
    assert!(!parsed.requires_captcha);
}

#[test]
fn parse_landing_page_offline_wins_over_metadata() {
    let html = r#"<th>Filename :</th><td>a.zip</td> File Not Found"#;
    assert!(matches!(parse_landing_page(html).unwrap_err(), PluginError::Offline(_)));
}

#[test]
fn parse_landing_page_wait_alone_is_enough() {
    let parsed = parse_landing_page(r#"<form data-wait = "45">"#).unwrap();
    assert_eq!(parsed.filename, None);
    assert_eq!(parsed.size_bytes, None);
    assert_eq!(parsed.wait_seconds, Some(45));
}

#[test]
fn parse_landing_page_leftmost_wait_wins() {
    let html = r#"<script>var c = 10;</script><form data-wait="60">"#;
    assert_eq!(parse_landing_page(html).unwrap().wait_seconds, Some(10));
}

#[test]
fn parse_landing_page_wait_overflowing_u32_is_none() {
    let html = r#"<th>Filename :</th><td>a</td><form data-wait="4294967296">"#;
    assert_eq!(parse_landing_page(html).unwrap().wait_seconds, None);
    let html = r#"<th>Filename :</th><td>a</td><form data-wait="4294967295">"#;
    assert_eq!(parse_landing_page(html).unwrap().wait_seconds, Some(4_294_967_295));
}

#[test]
fn parse_landing_page_non_ascii_digits_match_but_do_not_parse() {
    // Arabic-Indic digits are decimal digits, so the leftmost match is the
    // data-wait attribute, whose digits do not make a u32.
    let html = "<th>Filename :</th><td>a</td><form data-wait=\"\u{663}\">var c = 30";
    assert_eq!(parse_landing_page(html).unwrap().wait_seconds, None);
}

#[test]
fn parse_landing_page_captcha_class_attribute() {
    let html = r#"<th>Filename :</th><td>a</td><div CLASS = "Captcha"></div>"#;
    assert!(parse_landing_page(html).unwrap().requires_captcha);
}

#[test]
fn parse_landing_page_empty_cell_is_skipped() {
    let html = r#"<th>Filename :</th><td></td><th>Filename :</th><td>b.bin</td>"#;
    assert_eq!(parse_landing_page(html).unwrap().filename.as_deref(), Some("b.bin"));
}

#[test]
fn parse_landing_page_unparseable_size_is_none() {
    let html = r#"<th>Filename :</th><td>a.bin</td><th>Size :</th><td>huge</td>"#;
    let parsed = parse_landing_page(html).unwrap();
    assert_eq!(parsed.size_bytes, None);
}

#[test]
fn parse_landing_page_long_s_folds_to_s() {
    // U+017F LATIN SMALL LETTER LONG S folds to 's' in a case-insensitive match.
    let html = "<th>\u{17F}ize :</th><td>2 KB</td>";
    assert_eq!(parse_landing_page(html).unwrap().size_bytes, Some(2048));
}

// ── Size parsing ────────────────────────────────────────────────────────────

#[test]
fn parse_size_bytes_recognises_units() {
    assert_eq!(parse_size_bytes("1.50 MB"), Some(1_572_864));
    assert_eq!(parse_size_bytes("10.00 KB"), Some(10_240));
    assert_eq!(parse_size_bytes("1 GB"), Some(1_073_741_824));
    assert_eq!(parse_size_bytes("123 B"), Some(123));
}

#[test]
fn parse_size_bytes_rejects_garbage() {
    assert_eq!(parse_size_bytes("nope"), None);
}

#[test]
fn parse_size_bytes_rounds_halves_up() {
    assert_eq!(parse_size_bytes("0.5 B"), Some(1));
    assert_eq!(parse_size_bytes("0.49 B"), Some(0));
    assert_eq!(parse_size_bytes("2.5B"), Some(3));
    assert_eq!(parse_size_bytes("0.001 KB"), Some(1));
    assert_eq!(parse_size_bytes("0.0004 KB"), Some(0));
}

#[test]
fn parse_size_bytes_units_are_powers_of_1024() {
    assert_eq!(parse_size_bytes("3 kb"), Some(3 * 1024));
    assert_eq!(parse_size_bytes("3 Mb"), Some(3 * 1024 * 1024));
    assert_eq!(parse_size_bytes("3 tB"), Some(3 * 1024u64.pow(4)));
}

#[test]
fn parse_size_bytes_needs_word_boundary() {
    assert_eq!(parse_size_bytes("5 Bytes"), None);
    assert_eq!(parse_size_bytes("5 B, 6 KB"), Some(5));
    assert_eq!(parse_size_bytes("5 KBx 6 KB"), Some(6 * 1024));
    assert_eq!(parse_size_bytes("7 B\u{e9}"), None);
    assert_eq!(parse_size_bytes("7 B-"), Some(7));
}

#[test]
fn parse_size_bytes_takes_leftmost_number() {
    assert_eq!(parse_size_bytes("about 1.2.3 MB"), Some((2.3f64 * 1048576.0).round() as u64));
    assert_eq!(parse_size_bytes("v2 7 KB"), Some(7 * 1024));
}

#[test]
fn parse_size_bytes_kelvin_sign_is_not_a_unit() {
    // U+212A KELVIN SIGN matches `K` case-insensitively, but is not ASCII "KB".
    assert_eq!(parse_size_bytes("5 \u{212A}B"), None);
}

#[test]
fn parse_size_bytes_saturates() {
    assert_eq!(parse_size_bytes("20000000000000000000 B"), Some(u64::MAX));
    assert_eq!(parse_size_bytes("99999999999 TB"), Some(u64::MAX));
}

// ── Laws on concrete pages ──────────────────────────────────────────────────

#[test]
fn each_wait_form_alone_gives_its_value() {
    for (html, expected) in [
        (r#"<th>Filename :</th><td>f</td>data-wait="75""#, 75),
        (r#"<th>Filename :</th><td>f</td>class="countdown">42</span>"#, 42),
        (r#"<th>Filename :</th><td>f</td>var c = 9"#, 9),
    ] {
        assert_eq!(parse_landing_page(html).unwrap().wait_seconds, Some(expected), "{html}");
    }
}

#[test]
fn captcha_markers_anywhere_are_detected() {
    for marker in ["g-recaptcha", "h-captcha", "G-RECAPTCHA"] {
        let html = format!("<th>Size :</th><td>1 B</td> xx{marker}yy ");
        assert!(parse_landing_page(&html).unwrap().requires_captcha, "{marker}");
    }
}

#[test]
fn offline_phrases_anywhere_are_detected() {
    for phrase in [
        "The file you are trying to access is no longer available",
        "the requested file could not be found",
        "FILE NOT FOUND",
        "Fichier introuvable",
    ] {
        let html = format!("<th>Size :</th><td>1 B</td><p>{phrase}</p>");
        assert!(matches!(parse_landing_page(&html).unwrap_err(), PluginError::Offline(_)));
    }
}

#[test]
fn labelled_cells_are_read_whole() {
    let html = "SIZE :</th><td>12 KB</td>fileNAME :</th><td>a b c.txt</td>";
    let parsed = parse_landing_page(html).unwrap();
    assert_eq!(parsed.filename.as_deref(), Some("a b c.txt"));
    assert_eq!(parsed.size_bytes, Some(12 * 1024));
}
