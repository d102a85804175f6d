//! Vortex plugin for the 1fichier file hoster.
//!
//! The plugin contract used by the Vortex plugin host:
//! - `can_handle(url)`: `"true"` or `"false"`;
//! - `supports_playlist(url)`: always `"false"` (a single-file hoster);
//! - `extract_links(url)`: metadata of the resolved file;
//! - `resolve_stream_url(input)`: the direct CDN URL (premium only).
//!
//! Two modes: premium, with an API key from the host's credential store,
//! asks the 1fichier API for a one-shot direct URL; free reads the public
//! landing page and reports its wait and captcha to the host. This crate
//! holds the plugin's logic; network access and JSON belong to the host
//! side.
pub mod error;
pub mod free_mode;
pub mod landing;
pub mod mode;
pub mod premium_mode;
pub mod size;
pub mod text;
pub mod url_matcher;

use vstd::prelude::*;
use crate::error::PluginError;
use crate::free_mode::ParsedLanding;
use crate::premium_mode::PremiumToken;
use crate::text::string_from_str;
use crate::url_matcher::{classify_url, extract_file_id, spec_classify_url, spec_extract_file_id, UrlKind};

verus! {

// ── Responses ────────────────────────────────────────────────────────────────

/// The answer of `extract_links`.
#[derive(Debug, PartialEq, Eq)]
pub struct ExtractLinksResponse {
    pub kind: &'static str,
    pub mode: &'static str,
    pub files: Vec<FileLink>,
}

/// One resolved file.
#[derive(Debug, PartialEq, Eq)]
pub struct FileLink {
    pub id: String,
    pub url: String,
    pub filename: Option<String>,
    pub size_bytes: Option<u64>,
    /// Direct CDN URL: premium mode only. In free mode the host has to walk
    /// the wait and captcha pipeline first.
    pub direct_url: Option<String>,
    pub resumable: bool,
    /// Seconds the host has to park the download in its waiting state;
    /// `None` in premium mode.
    pub wait_seconds: Option<u32>,
    /// Whether 1fichier showed a captcha beside the countdown; always `false`
    /// in premium mode.
    pub requires_captcha: bool,
    /// Traffic information, when the premium API gives it.
    pub traffic_used_bytes: Option<u64>,
    pub traffic_total_bytes: Option<u64>,
}

// ── Routing helpers ──────────────────────────────────────────────────────────

/// `"true"` or `"false"`.
pub open spec fn bool_text(b: bool) -> Seq<char> {
    if b {
        "true"@
    } else {
        "false"@
    }
}

/// Whether the plugin handles `url`: `"true"` exactly for file URLs.
pub fn handle_can_handle(url: &str) -> (r: String)
    ensures
        r@ == bool_text(spec_classify_url(url@) == UrlKind::File),
{
    match classify_url(url) {
        UrlKind::File => string_from_str("true"),
        UrlKind::Unknown => string_from_str("false"),
    }
}

/// Whether `url` is a playlist: never, 1fichier links are single files.
pub fn handle_supports_playlist(_url: &str) -> (r: String)
    ensures
        r@ == bool_text(false),
{
    string_from_str("false")
}

/// `Ok` exactly for file URLs; any other URL is `UnsupportedUrl`.
pub fn ensure_file_url(url: &str) -> (r: Result<(), PluginError>)
    ensures
        spec_classify_url(url@) == UrlKind::File <==> r is Ok,
        r matches Err(e) ==> (e matches PluginError::UnsupportedUrl(u) && u@ == url@),
{
    match classify_url(url) {
        UrlKind::File => Ok(()),
        UrlKind::Unknown => Err(PluginError::UnsupportedUrl(string_from_str(url))),
    }
}

/// The three routing answers agree: `can_handle` says `"true"` exactly when
/// `ensure_file_url` accepts the URL, which is exactly when a file id can be
/// extracted from it.
pub proof fn law_routing_agrees(url: Seq<char>)
    ensures
        (bool_text(spec_classify_url(url) == UrlKind::File) == "true"@) <==> (spec_classify_url(
            url,
        ) == UrlKind::File),
        (spec_classify_url(url) == UrlKind::File) <==> spec_extract_file_id(url) is Some,
{
    reveal_strlit("true");
    reveal_strlit("false");
    if spec_classify_url(url) != UrlKind::File {
        assert("false"@.len() != "true"@.len());
    }
}

// ── Response builders ────────────────────────────────────────────────────────

/// The file id of `url`, or the empty string.
pub open spec fn id_or_empty(url: Seq<char>) -> Seq<char> {
    match spec_extract_file_id(url) {
        Some(id) => id,
        None => Seq::empty(),
    }
}

fn file_id_or_empty(url: &str) -> (id: String)
    ensures
        id@ == id_or_empty(url@),
{
    match extract_file_id(url) {
        Some(id) => id,
        None => String::new(),
    }
}

/// `r` is the free-mode answer for `url` and the landing page `parsed`: one
/// resumable file with the page's metadata and no direct URL.
pub open spec fn is_free_response(r: ExtractLinksResponse, url: Seq<char>, parsed: ParsedLanding) -> bool {
    &&& r.kind@ == "file"@
    &&& r.mode@ == "free"@
    &&& r.files@.len() == 1
    &&& r.files@[0].id@ == id_or_empty(url)
    &&& r.files@[0].url@ == url
    &&& r.files@[0].filename == parsed.filename
    &&& r.files@[0].size_bytes == parsed.size_bytes
    &&& r.files@[0].direct_url is None
    &&& r.files@[0].resumable
    &&& r.files@[0].wait_seconds == parsed.wait_seconds
    &&& r.files@[0].requires_captcha == parsed.requires_captcha
    &&& r.files@[0].traffic_used_bytes is None
    &&& r.files@[0].traffic_total_bytes is None
}

/// `r` is the premium-mode answer for `url`, the landing page `hint` and the
/// token: one resumable file with the token's direct URL and traffic, the
/// page's name and size when a page was read, no wait and no captcha.
pub open spec fn is_premium_response(
    r: ExtractLinksResponse,
    url: Seq<char>,
    hint: Option<ParsedLanding>,
    token: PremiumToken,
) -> bool {
    &&& r.kind@ == "file"@
    &&& r.mode@ == "premium"@
    &&& r.files@.len() == 1
    &&& r.files@[0].id@ == id_or_empty(url)
    &&& r.files@[0].url@ == url
    &&& r.files@[0].filename == (match hint {
        Some(p) => p.filename,
        None => None,
    })
    &&& r.files@[0].size_bytes == (match hint {
        Some(p) => p.size_bytes,
        None => None,
    })
    &&& r.files@[0].direct_url == Some(token.direct_url)
    &&& r.files@[0].resumable
    &&& r.files@[0].wait_seconds is None
    &&& !r.files@[0].requires_captcha
    &&& r.files@[0].traffic_used_bytes == token.traffic_used_bytes
    &&& r.files@[0].traffic_total_bytes == token.traffic_total_bytes
}

/// The free-mode answer: the landing page's metadata, no direct URL.
pub fn build_free_response(source_url: &str, parsed: ParsedLanding) -> (r: ExtractLinksResponse)
    ensures
        is_free_response(r, source_url@, parsed),
{
    let link = FileLink {
        id: file_id_or_empty(source_url),
        url: string_from_str(source_url),
        filename: parsed.filename,
        size_bytes: parsed.size_bytes,
        direct_url: None,
        resumable: true,
        wait_seconds: parsed.wait_seconds,
        requires_captcha: parsed.requires_captcha,
        traffic_used_bytes: None,
        traffic_total_bytes: None,
    };
    let mut files: Vec<FileLink> = Vec::new();
    files.push(link);
    ExtractLinksResponse { kind: "file", mode: "free", files }
}

/// The premium-mode answer: the direct URL and traffic of the token, with
/// the file name and size of the landing page when one was read.
pub fn build_premium_response(
    source_url: &str,
    landing_hint: Option<ParsedLanding>,
    token: PremiumToken,
) -> (r: ExtractLinksResponse)
    ensures
        is_premium_response(r, source_url@, landing_hint, token),
{
    let (filename, size_bytes) = match landing_hint {
        Some(p) => (p.filename, p.size_bytes),
        None => (None, None),
    };
    let link = FileLink {
        id: file_id_or_empty(source_url),
        url: string_from_str(source_url),
        filename,
        size_bytes,
        direct_url: Some(token.direct_url),
        resumable: true,
        wait_seconds: None,
        requires_captcha: false,
        traffic_used_bytes: token.traffic_used_bytes,
        traffic_total_bytes: token.traffic_total_bytes,
    };
    let mut files: Vec<FileLink> = Vec::new();
    files.push(link);
    ExtractLinksResponse { kind: "file", mode: "premium", files }
}

/// Every link advertises resume support in either mode: a free link carries
/// no direct URL; a premium link carries the token's direct URL and skips
/// the wait and the captcha.
pub proof fn law_links_resumable(
    r: ExtractLinksResponse,
    url: Seq<char>,
    parsed: ParsedLanding,
    hint: Option<ParsedLanding>,
    token: PremiumToken,
)
    ensures
        is_free_response(r, url, parsed) ==> forall|i: int|
            0 <= i < r.files@.len() ==> #[trigger] r.files@[i].resumable && r.files@[i].direct_url is None,
        is_premium_response(r, url, hint, token) ==> forall|i: int|
            0 <= i < r.files@.len() ==> #[trigger] r.files@[i].resumable && r.files@[i].direct_url
                == Some(token.direct_url) && r.files@[i].wait_seconds is None
                && !r.files@[i].requires_captcha,
{
}

} // verus!
