//! 1fichier free mode: the host's HTTP envelope, the landing page grammar and
//! human-readable size parsing.
//!
//! The free flow on 1fichier: `GET https://1fichier.com/?<id>` returns a
//! landing page with the filename, a human-readable size, a wait countdown
//! and sometimes a captcha challenge. The plugin only reports what the
//! landing page shows; the host owns the wait scheduling and the captcha
//! pipeline.
use std::collections::HashMap;
use vstd::prelude::*;
use vstd::utf8::{encode_utf8, is_char_boundary};
use crate::error::PluginError;
use crate::landing::{
    detect_captcha, filename_lit, is_offline_page, locate_filename, locate_size_text,
    locate_wait_seconds, size_lit, spec_cell_text, spec_detect_captcha, spec_is_offline_page,
    spec_wait_seconds,
};
use crate::size::{parse_size_chars, spec_parse_size_bytes};
use crate::text::{
    decimal, lemma_encode_utf8_concat, push_decimal, str_chars, string_from_chars, string_from_str,
};
use crate::url_matcher::opt_string_view;

verus! {

// ── HTTP envelope ────────────────────────────────────────────────────────────

/// The host's answer to an `http_request`.
pub struct HttpResponse {
    pub status: u16,
    pub headers: HashMap<String, String>,
    pub body: String,
}

/// Landing pages larger than this are refused, so that a hostile server
/// cannot force scans of megabytes. Real landing pages weigh under 100 KB.
pub const MAX_BODY_BYTES: usize = 1048576;

/// The message of an oversized body.
pub open spec fn oversized_message() -> Seq<char> {
    "body exceeds 1048576 bytes"@
}

/// The message of an offline status.
pub open spec fn status_message(status: u16) -> Seq<char> {
    "status "@ + decimal(status as nat)
}

/// The last character boundary at or before `k` in valid UTF-8 `bytes`.
pub open spec fn boundary_at_or_before(bytes: Seq<u8>, k: int) -> int
    decreases k,
{
    if k <= 0 || is_char_boundary(bytes, k) {
        k
    } else {
        boundary_at_or_before(bytes, k - 1)
    }
}

/// The UTF-8 bytes of `s` cut to at most `max` bytes at a character boundary,
/// followed by `…` when anything was cut.
pub open spec fn truncated_bytes(s: Seq<char>, max: int) -> Seq<u8> {
    let bytes = encode_utf8(s);
    if bytes.len() <= max {
        bytes
    } else {
        bytes.subrange(0, boundary_at_or_before(bytes, max)) + encode_utf8(seq!['…'])
    }
}

/// What `into_success_body` gives for a status and a body.
pub open spec fn spec_success_body(status: u16, body: Seq<char>) -> SuccessBody {
    if 200 <= status < 300 {
        if encode_utf8(body).len() > MAX_BODY_BYTES {
            SuccessBody::TooLarge
        } else {
            SuccessBody::Body
        }
    } else if status == 404 || status == 410 {
        SuccessBody::Offline
    } else {
        SuccessBody::Failed
    }
}

/// The outcomes of `into_success_body`.
pub ghost enum SuccessBody {
    Body,
    TooLarge,
    Offline,
    Failed,
}

impl HttpResponse {
    /// The body of a successful (2xx) response of acceptable size.
    ///
    /// A 2xx response whose body exceeds `MAX_BODY_BYTES` bytes is an
    /// `HttpStatus` error; 404 and 410 mean the file is offline; any other
    /// status is an `HttpStatus` error carrying the start of the body.
    pub fn into_success_body(self) -> (r: Result<String, PluginError>)
        ensures
            match spec_success_body(self.status, self.body@) {
                SuccessBody::Body => (r matches Ok(b) && b@ == self.body@),
                SuccessBody::TooLarge => (r matches Err(PluginError::HttpStatus { status, message })
                    && status == self.status && message@ == oversized_message()),
                SuccessBody::Offline => (r matches Err(PluginError::Offline(m)) && m@
                    == status_message(self.status)),
                SuccessBody::Failed => (r matches Err(PluginError::HttpStatus { status, message })
                    && status == self.status && encode_utf8(message@) == truncated_bytes(
                    self.body@,
                    256,
                )),
            },
            (r is Ok) <==> (200 <= self.status < 300 && encode_utf8(self.body@).len()
                <= MAX_BODY_BYTES),
            (r matches Err(PluginError::Offline(_))) <==> (self.status == 404 || self.status == 410),
            !(200 <= self.status < 300) && self.status != 404 && self.status != 410 ==> (r matches Err(
                PluginError::HttpStatus { status, .. },
            ) && status == self.status),
    {
        let status = self.status;
        if 200 <= status && status < 300 {
            if self.body.as_str().as_bytes().len() > MAX_BODY_BYTES {
                return Err(
                    PluginError::HttpStatus {
                        status,
                        message: string_from_str("body exceeds 1048576 bytes"),
                    },
                );
            }
            Ok(self.body)
        } else if status == 404 || status == 410 {
            let mut m = string_from_str("status ");
            push_decimal(&mut m, status as u64);
            Err(PluginError::Offline(m))
        } else {
            Err(PluginError::HttpStatus { status, message: truncate(self.body.as_str(), 256) })
        }
    }
}

/// `s` cut to at most `max` UTF-8 bytes at a character boundary, with `…`
/// appended when anything was cut.
pub fn truncate(s: &str, max: usize) -> (r: String)
    ensures
        encode_utf8(r@) == truncated_bytes(s@, max as int),
{
    if s.as_bytes().len() <= max {
        return string_from_str(s);
    }
    let ghost bytes = encode_utf8(s@);
    let mut cut = max;
    while !s.is_char_boundary(cut) && cut > 0
        invariant
            cut <= max,
            max < bytes.len(),
            bytes == encode_utf8(s@),
            boundary_at_or_before(bytes, cut as int) == boundary_at_or_before(bytes, max as int),
        decreases cut,
    {
        cut -= 1;
    }
    proof {
        vstd::utf8::encode_utf8_valid_utf8(s@);
    }
    let (prefix, _) = s.split_at(cut);
    let mut r = string_from_str(prefix);
    r.push('…');
    proof {
        lemma_encode_utf8_concat(prefix@, seq!['…']);
        assert(prefix@.push('…') =~= prefix@ + seq!['…']);
    }
    r
}


// ── Page request ─────────────────────────────────────────────────────────────

/// The `User-Agent` the plugin sends, so that 1fichier returns full pages.
pub const USER_AGENT: &'static str = "Mozilla/5.0 (Vortex/1.0; +https://vortex-app.com) 1fichierPlugin/1.0";

/// A request for the host's `http_request` function, before it is written as
/// JSON.
pub struct HttpRequest {
    pub method: String,
    pub url: String,
    /// Header names and values, each name once.
    pub headers: Vec<(String, String)>,
    pub body: Option<String>,
}

/// The request for a landing page: a `GET` of `url` with the plugin's
/// `User-Agent` and an HTML `Accept` header.
pub fn build_landing_request(url: &str) -> (r: HttpRequest)
    ensures
        r.method@ == "GET"@,
        r.url@ == url@,
        r.headers@.len() == 2,
        r.headers@[0].0@ == "User-Agent"@,
        r.headers@[0].1@ == USER_AGENT@,
        r.headers@[1].0@ == "Accept"@,
        r.headers@[1].1@ == "text/html,application/xhtml+xml"@,
        r.body is None,
{
    let mut headers: Vec<(String, String)> = Vec::new();
    headers.push((string_from_str("User-Agent"), string_from_str(USER_AGENT)));
    headers.push((string_from_str("Accept"), string_from_str("text/html,application/xhtml+xml")));
    HttpRequest { method: string_from_str("GET"), url: string_from_str(url), headers, body: None }
}

// ── Parsed landing page ──────────────────────────────────────────────────────

/// What the landing page shows.
#[derive(Debug, PartialEq, Eq)]
pub struct ParsedLanding {
    pub filename: Option<String>,
    pub size_bytes: Option<u64>,
    /// Wait time advertised by the countdown (seconds), as the page states it.
    pub wait_seconds: Option<u32>,
    /// True when the page ships a captcha challenge.
    pub requires_captcha: bool,
}

/// The size shown on the page, in bytes.
pub open spec fn spec_landing_size(t: Seq<char>) -> Option<u64> {
    match spec_cell_text(t, size_lit()) {
        Some(s) => spec_parse_size_bytes(s),
        None => None,
    }
}

/// The page shows none of the file name, the size and the wait.
pub open spec fn spec_no_metadata(t: Seq<char>) -> bool {
    &&& spec_cell_text(t, filename_lit()) is None
    &&& spec_landing_size(t) is None
    &&& spec_wait_seconds(t) is None
}

pub open spec fn offline_page_message() -> Seq<char> {
    "landing page reports the file is offline"@
}

/// `p` holds what the page `t` shows.
pub open spec fn landing_of(p: ParsedLanding, t: Seq<char>) -> bool {
    &&& opt_string_view(p.filename) == spec_cell_text(t, filename_lit())
    &&& p.size_bytes == spec_landing_size(t)
    &&& p.wait_seconds == spec_wait_seconds(t)
    &&& p.requires_captcha == spec_detect_captcha(t)
}

/// Reads the free landing page.
///
/// An offline page is an `Offline` error; a page that shows none of the
/// file name, the size and the wait is `NoDirectLink`; otherwise the result
/// holds what the page shows, the captcha flag included.
pub fn parse_landing_page(html: &str) -> (r: Result<ParsedLanding, PluginError>)
    ensures
        spec_is_offline_page(html@) ==> (r matches Err(PluginError::Offline(m)) && m@
            == offline_page_message()),
        !spec_is_offline_page(html@) && spec_no_metadata(html@) ==> (r matches Err(
            PluginError::NoDirectLink,
        )),
        !spec_is_offline_page(html@) && !spec_no_metadata(html@) ==> (r matches Ok(p)
            && landing_of(p, html@)),
{
    let t = str_chars(html);
    if is_offline_page(&t) {
        return Err(PluginError::Offline(string_from_str("landing page reports the file is offline")));
    }
    let filename = match locate_filename(&t) {
        Some(v) => Some(string_from_chars(&v)),
        None => None,
    };
    let size_bytes = match locate_size_text(&t) {
        Some(v) => parse_size_chars(&v),
        None => None,
    };
    let wait_seconds = locate_wait_seconds(&t);
    let requires_captcha = detect_captcha(&t);
    if filename.is_none() && size_bytes.is_none() && wait_seconds.is_none() {
        return Err(PluginError::NoDirectLink);
    }
    Ok(ParsedLanding { filename, size_bytes, wait_seconds, requires_captcha })
}

// ── Size parsing ─────────────────────────────────────────────────────────────

/// The number of bytes that the first size in `text` denotes, such as
/// `1.50 MB`: the decimal value times 1, 1024, 1024², 1024³ or 1024⁴ for
/// `B`, `KB`, `MB`, `GB` or `TB` (in any ASCII case), rounded to the nearest
/// byte with halves rounded up, and saturated at `u64::MAX`.
pub fn parse_size_bytes(text: &str) -> (r: Option<u64>)
    ensures
        r == spec_parse_size_bytes(text@),
{
    let t = str_chars(text);
    parse_size_chars(&t)
}


// ── Laws ────────────────────────────────────────────────────────────────────

proof fn lemma_boundary_at_or_before(bytes: Seq<u8>, k: int)
    requires
        k >= 0,
    ensures
        0 <= boundary_at_or_before(bytes, k) <= k,
    decreases k,
{
    if !(k <= 0 || is_char_boundary(bytes, k)) {
        lemma_boundary_at_or_before(bytes, k - 1);
    }
}

/// A truncated message is the start of the text's UTF-8 bytes, cut at a
/// character boundary, plus `…` (three bytes) when anything was cut: never
/// more than `max + 3` bytes, and the whole text when it fits in `max`.
pub proof fn law_truncated_length(s: Seq<char>, max: int)
    requires
        max >= 0,
    ensures
        truncated_bytes(s, max).len() <= max + 3,
        encode_utf8(s).len() <= max ==> truncated_bytes(s, max) == encode_utf8(s),
        encode_utf8(s).len() > max ==> exists|k: int|
            0 <= k <= max && truncated_bytes(s, max) == encode_utf8(s).subrange(0, k)
                + encode_utf8(seq!['…']),
{
    let bytes = encode_utf8(s);
    let e = seq!['…'];
    assert(e.drop_first() =~= Seq::<char>::empty());
    assert(encode_utf8(e) == vstd::utf8::encode_scalar(e[0] as u32) + encode_utf8(e.drop_first()));
    assert(('…' as u32) == 0x2026);
    assert(encode_utf8(e).len() == 3);
    if bytes.len() > max {
        lemma_boundary_at_or_before(bytes, max);
        let k = boundary_at_or_before(bytes, max);
        assert(truncated_bytes(s, max) == bytes.subrange(0, k) + encode_utf8(e));
    }
}

/// The outcome of a response: a 2xx body of at most `MAX_BODY_BYTES` bytes
/// is returned and a larger one refused; exactly 404 and 410 mean the file
/// is offline; every other status is a failure.
pub proof fn law_success_body_outcomes(status: u16, body: Seq<char>)
    ensures
        (spec_success_body(status, body) == SuccessBody::Body) <==> (200 <= status < 300
            && encode_utf8(body).len() <= MAX_BODY_BYTES),
        (spec_success_body(status, body) == SuccessBody::TooLarge) <==> (200 <= status < 300
            && encode_utf8(body).len() > MAX_BODY_BYTES),
        (spec_success_body(status, body) == SuccessBody::Offline) <==> (status == 404 || status
            == 410),
        (spec_success_body(status, body) == SuccessBody::Failed) <==> (!(200 <= status < 300)
            && status != 404 && status != 410),
{
}

proof fn lemma_boundary_is_last(bytes: Seq<u8>, k: int)
    requires
        k >= 0,
        vstd::utf8::valid_utf8(bytes),
    ensures
        is_char_boundary(bytes, boundary_at_or_before(bytes, k)),
        forall|j: int|
            boundary_at_or_before(bytes, k) < j <= k ==> !is_char_boundary(bytes, j),
    decreases k,
{
    if !(k <= 0 || is_char_boundary(bytes, k)) {
        lemma_boundary_is_last(bytes, k - 1);
    }
}

/// An over-long text is cut at the last character boundary at or before
/// `max`: the cut is a boundary, no boundary lies after it up to `max`, and
/// `…` follows it.
pub proof fn law_truncation_cuts_at_last_boundary(s: Seq<char>, max: int)
    requires
        max >= 0,
        encode_utf8(s).len() > max,
    ensures
        exists|k: int|
            0 <= k <= max && #[trigger] is_char_boundary(encode_utf8(s), k) && (forall|j: int|
                k < j <= max ==> !is_char_boundary(encode_utf8(s), j)) && truncated_bytes(s, max)
                == encode_utf8(s).subrange(0, k) + encode_utf8(seq!['…']),
{
    let bytes = encode_utf8(s);
    vstd::utf8::encode_utf8_valid_utf8(s);
    lemma_boundary_at_or_before(bytes, max);
    lemma_boundary_is_last(bytes, max);
    let k = boundary_at_or_before(bytes, max);
    assert(is_char_boundary(bytes, k));
}

/// A landing page that is not offline is refused for want of metadata
/// exactly when it shows none of the file name, the size and the wait: any
/// one of them is enough, and the captcha flag alone is not.
pub proof fn law_landing_metadata(t: Seq<char>)
    ensures
        spec_no_metadata(t) <==> (spec_cell_text(t, filename_lit()) is None && spec_landing_size(t)
            is None && spec_wait_seconds(t) is None),
        spec_wait_seconds(t) is Some ==> !spec_no_metadata(t),
        spec_cell_text(t, filename_lit()) is Some ==> !spec_no_metadata(t),
        spec_landing_size(t) is Some ==> !spec_no_metadata(t),
{
}

} // verus!
