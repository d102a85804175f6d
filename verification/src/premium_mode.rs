//! 1fichier premium mode: the `get_token.cgi` request and the reading of its
//! answer, and the API key read from the host's credential store.
//!
//! The endpoint answers `{"status": "OK", "url": "https://...", ...}`, where
//! `url` is a one-shot direct CDN link, or `{"status": "KO", "message":
//! "..."}`. Common messages are classified into dedicated errors so that the
//! host can fall back to free mode.
use vstd::prelude::*;
use crate::error::PluginError;
use crate::free_mode::{HttpRequest, USER_AGENT};
use crate::text::{
    ascii_ci_eq, ascii_ci_lit_at, contains_ascii_ci, contains_ascii_ci_exec, eq_ascii_ci, eq_ascii_ci_exec, push_str, str_chars,
    string_from_str, trim, trim_exec,
};

verus! {

/// The token endpoint.
pub const ENDPOINT: &'static str = "https://api.1fichier.com/v1/download/get_token.cgi";

// ── JSON string literals ────────────────────────────────────────────────────

/// A lower-case hexadecimal digit.
pub open spec fn hex_digit(n: nat) -> char {
    if n < 10 {
        crate::text::digit_char(n)
    } else if n == 10 {
        'a'
    } else if n == 11 {
        'b'
    } else if n == 12 {
        'c'
    } else if n == 13 {
        'd'
    } else if n == 14 {
        'e'
    } else {
        'f'
    }
}

/// How `serde_json` writes one character inside a string literal.
pub open spec fn json_escape_char(c: char) -> Seq<char> {
    let u = c as u32;
    if c == '"' {
        seq!['\\', '"']
    } else if c == '\\' {
        seq!['\\', '\\']
    } else if u == 0x08 {
        seq!['\\', 'b']
    } else if u == 0x09 {
        seq!['\\', 't']
    } else if u == 0x0a {
        seq!['\\', 'n']
    } else if u == 0x0c {
        seq!['\\', 'f']
    } else if u == 0x0d {
        seq!['\\', 'r']
    } else if u < 0x20 {
        seq!['\\', 'u', '0', '0', hex_digit((u / 16) as nat), hex_digit((u % 16) as nat)]
    } else {
        seq![c]
    }
}

pub open spec fn json_escape(s: Seq<char>) -> Seq<char>
    decreases s.len(),
{
    if s.len() == 0 {
        Seq::empty()
    } else {
        json_escape(s.drop_last()) + json_escape_char(s.last())
    }
}

/// The JSON string literal that `serde_json` writes for `s`.
pub open spec fn json_string_literal(s: Seq<char>) -> Seq<char> {
    seq!['"'] + json_escape(s) + seq!['"']
}

/// Calls `serde_json::to_string` on a string. Its source writes `"`, then
/// each byte unchanged except `"` and `\` (escaped with `\`), the controls
/// with short escapes (`\b \t \n \f \r`) and the other bytes below 0x20 as
/// `\u00xx` in lower-case hexadecimal, then `"`; writing to a `Vec` cannot
/// fail, so the result is always `Ok`.
#[verifier::external_body]
fn json_string(s: &str) -> (r: Result<String, serde_json::Error>)
    ensures
        r is Ok,
        r matches Ok(v) ==> v@ == json_string_literal(s@),
{
    serde_json::to_string(s)
}

/// The JSON body of a token request: `{"url":<file url>}`.
pub open spec fn token_request_body(file_url: Seq<char>) -> Seq<char> {
    "{\"url\":"@ + json_string_literal(file_url) + "}"@
}

// ── Reading JSON strings back ───────────────────────────────────────────────

/// The value of a hexadecimal digit.
pub open spec fn hex_value(c: char) -> Option<nat> {
    if '0' <= c && c <= '9' {
        Some(((c as u32) - ('0' as u32)) as nat)
    } else if 'a' <= c && c <= 'f' {
        Some(((c as u32) - ('a' as u32) + 10) as nat)
    } else if 'A' <= c && c <= 'F' {
        Some(((c as u32) - ('A' as u32) + 10) as nat)
    } else {
        None
    }
}

/// The value of the four hexadecimal digits at `s[i..i + 4]`.
pub open spec fn hex4(s: Seq<char>, i: int) -> Option<nat> {
    if 0 <= i && i + 4 <= s.len() && hex_value(s[i]) is Some && hex_value(s[i + 1]) is Some
        && hex_value(s[i + 2]) is Some && hex_value(s[i + 3]) is Some {
        Some(
            hex_value(s[i])->0 * 4096 + hex_value(s[i + 1])->0 * 256 + hex_value(s[i + 2])->0 * 16
                + hex_value(s[i + 3])->0,
        )
    } else {
        None
    }
}

/// The character of a two-character escape `\e`.
pub open spec fn short_escape(e: char) -> Option<char> {
    if e == '"' {
        Some('"')
    } else if e == '\\' {
        Some('\\')
    } else if e == '/' {
        Some('/')
    } else if e == 'b' {
        Some('\u{8}')
    } else if e == 'f' {
        Some('\u{c}')
    } else if e == 'n' {
        Some('\n')
    } else if e == 'r' {
        Some('\r')
    } else if e == 't' {
        Some('\t')
    } else {
        None
    }
}

/// The characters that the contents of a JSON string literal (between its
/// quotes) stand for, as RFC 8259 reads them: `None` for a raw `"` or control
/// character, a malformed escape or a lone surrogate.
pub open spec fn json_unescape(s: Seq<char>) -> Option<Seq<char>>
    decreases s.len(),
{
    if s.len() == 0 {
        Some(Seq::empty())
    } else if s[0] == '"' || (s[0] as u32) < 0x20 {
        None
    } else if s[0] != '\\' {
        match json_unescape(s.drop_first()) {
            Some(r) => Some(seq![s[0]] + r),
            None => None,
        }
    } else if s.len() < 2 {
        None
    } else if s[1] != 'u' {
        match short_escape(s[1]) {
            None => None,
            Some(c) => match json_unescape(s.skip(2)) {
                Some(r) => Some(seq![c] + r),
                None => None,
            },
        }
    } else {
        match hex4(s, 2) {
            None => None,
            Some(h) => if 0xD800 <= h < 0xDC00 {
                let l = hex4(s, 8);
                if s.len() >= 12 && s[6] == '\\' && s[7] == 'u' && l is Some && 0xDC00 <= l->0
                    < 0xE000 {
                    match json_unescape(s.skip(12)) {
                        Some(r) => Some(
                            seq![((0x10000 + (h - 0xD800) * 1024 + (l->0 - 0xDC00)) as u32) as char]
                                + r,
                        ),
                        None => None,
                    }
                } else {
                    None
                }
            } else if 0xDC00 <= h < 0xE000 {
                None
            } else {
                match json_unescape(s.skip(6)) {
                    Some(r) => Some(seq![(h as u32) as char] + r),
                    None => None,
                }
            },
        }
    }
}

/// The string that a JSON string literal stands for.
pub open spec fn json_decode_string(lit: Seq<char>) -> Option<Seq<char>> {
    if lit.len() >= 2 && lit[0] == '"' && lit[lit.len() - 1] == '"' {
        json_unescape(lit.subrange(1, lit.len() - 1))
    } else {
        None
    }
}

/// The `url` member of a JSON object with that single member, written
/// without white space: `{"url":<string>}`.
pub open spec fn json_url_member(body: Seq<char>) -> Option<Seq<char>> {
    let open = "{\"url\":"@;
    if body.len() >= open.len() + 1 && body.subrange(0, open.len() as int) == open
        && body[body.len() - 1] == '}' {
        json_decode_string(body.subrange(open.len() as int, body.len() - 1))
    } else {
        None
    }
}

proof fn lemma_json_escape_prepend(c: char, s: Seq<char>)
    ensures
        json_escape(seq![c] + s) == json_escape_char(c) + json_escape(s),
    decreases s.len(),
{
    let cs = seq![c] + s;
    if s.len() == 0 {
        assert(cs.drop_last() =~= Seq::<char>::empty());
        assert(json_escape(Seq::<char>::empty()) =~= Seq::<char>::empty());
        assert(json_escape(cs) =~= json_escape_char(c) + json_escape(s));
    } else {
        assert(cs.drop_last() =~= seq![c] + s.drop_last());
        assert(cs.last() == s.last());
        lemma_json_escape_prepend(c, s.drop_last());
        assert(json_escape(cs) =~= json_escape_char(c) + json_escape(s));
    }
}

proof fn lemma_hex_digit_value(n: nat)
    requires
        n < 16,
    ensures
        hex_value(hex_digit(n)) == Some(n),
{
    if n < 10 {
        assert(crate::text::digit_char(n) as u32 == '0' as u32 + n);
    }
}

/// Reading back the escape of one character gives that character.
proof fn lemma_unescape_escaped_char(c: char, rest: Seq<char>)
    ensures
        json_unescape(json_escape_char(c) + rest) == match json_unescape(rest) {
            Some(r) => Some(seq![c] + r),
            None => None::<Seq<char>>,
        },
{
    let u = c as u32;
    let e = json_escape_char(c);
    let s = e + rest;
    vstd::utf8::char_u32_cast(c, u);
    if c == '"' || c == '\\' || u == 0x08 || u == 0x09 || u == 0x0a || u == 0x0c || u == 0x0d {
        assert(s[0] == '\\');
        assert(s.skip(2) =~= rest);
        if u == 0x08 {
            vstd::utf8::char_u32_cast('\u{8}', 8);
        } else if u == 0x09 {
            vstd::utf8::char_u32_cast('\t', 9);
        } else if u == 0x0a {
            vstd::utf8::char_u32_cast('\n', 10);
        } else if u == 0x0c {
            vstd::utf8::char_u32_cast('\u{c}', 12);
        } else if u == 0x0d {
            vstd::utf8::char_u32_cast('\r', 13);
        }
        assert(short_escape(s[1]) == Some(c));
    } else if u < 0x20 {
        assert(s[0] == '\\' && s[1] == 'u' && s[2] == '0' && s[3] == '0');
        lemma_hex_digit_value((u / 16) as nat);
        lemma_hex_digit_value((u % 16) as nat);
        assert(hex_value('0') == Some(0nat));
        assert(hex4(s, 2) == Some(u as nat));
        assert(s.skip(6) =~= rest);
    } else {
        assert(s[0] == c);
        assert(s.drop_first() =~= rest);
    }
}

/// Reading back `serde_json`'s literal for a string gives the string.
pub proof fn lemma_json_string_round_trip(s: Seq<char>)
    ensures
        json_unescape(json_escape(s)) == Some(s),
        json_decode_string(json_string_literal(s)) == Some(s),
    decreases s.len(),
{
    if s.len() == 0 {
        assert(json_escape(s) =~= Seq::<char>::empty());
    } else {
        let t = s.drop_first();
        assert(s =~= seq![s[0]] + t);
        lemma_json_escape_prepend(s[0], t);
        lemma_json_string_round_trip(t);
        lemma_unescape_escaped_char(s[0], json_escape(t));
        assert(seq![s[0]] + t =~= s);
    }
    let lit = json_string_literal(s);
    assert(lit.subrange(1, lit.len() - 1) =~= json_escape(s));
}

/// The body of a token request reads back, as JSON, to the file URL: its
/// single `url` member is the URL, whatever quotes, backslashes, controls or
/// non-ASCII characters it holds.
pub proof fn law_token_request_body_round_trip(file_url: Seq<char>)
    ensures
        json_url_member(token_request_body(file_url)) == Some(file_url),
{
    reveal_strlit("{\"url\":");
    reveal_strlit("}");
    let open = "{\"url\":"@;
    let lit = json_string_literal(file_url);
    let body = token_request_body(file_url);
    assert(body.subrange(0, open.len() as int) =~= open);
    assert(body.subrange(open.len() as int, body.len() - 1) =~= lit);
    lemma_json_string_round_trip(file_url);
}

/// The request for a one-shot download URL: a `POST` to the token endpoint
/// with the API key as a bearer token and the file URL in a JSON body.
pub fn build_get_token_request(file_url: &str, api_key: &str) -> (r: Result<
    HttpRequest,
    PluginError,
>)
    ensures
        r is Ok,
        r matches Ok(req) ==> {
            &&& req.method@ == "POST"@
            &&& req.url@ == ENDPOINT@
            &&& req.headers@.len() == 3
            &&& req.headers@[0].0@ == "Authorization"@
            &&& req.headers@[0].1@ == "Bearer "@ + api_key@
            &&& req.headers@[1].0@ == "Content-Type"@
            &&& req.headers@[1].1@ == "application/json"@
            &&& req.headers@[2].0@ == "User-Agent"@
            &&& req.headers@[2].1@ == USER_AGENT@
            &&& req.body matches Some(b) && b@ == token_request_body(file_url@) && json_url_member(
                b@,
            ) == Some(file_url@)
        },
{
    let mut auth = string_from_str("Bearer ");
    push_str(&mut auth, api_key);
    let mut headers: Vec<(String, String)> = Vec::new();
    headers.push((string_from_str("Authorization"), auth));
    headers.push((string_from_str("Content-Type"), string_from_str("application/json")));
    headers.push((string_from_str("User-Agent"), string_from_str(USER_AGENT)));
    let quoted = match json_string(file_url) {
        Ok(q) => q,
        Err(e) => return Err(PluginError::SerdeJson(e)),
    };
    proof {
        law_token_request_body_round_trip(file_url@);
    }
    let mut body = string_from_str("{\"url\":");
    push_str(&mut body, quoted.as_str());
    push_str(&mut body, "}");
    Ok(
        HttpRequest {
            method: string_from_str("POST"),
            url: string_from_str(ENDPOINT),
            headers,
            body: Some(body),
        },
    )
}

// ── Token response ──────────────────────────────────────────────────────────

/// Parsed payload from a successful `get_token.cgi` response.
#[derive(Debug, PartialEq, Eq)]
pub struct PremiumToken {
    pub direct_url: String,
    /// Optional traffic monitoring info, not always present.
    pub traffic_used_bytes: Option<u64>,
    pub traffic_total_bytes: Option<u64>,
}

/// The fields of a `get_token.cgi` answer, each absent field empty or `None`.
#[derive(Debug)]
pub struct ApiResponse {
    pub status: String,
    pub url: String,
    pub message: String,
    pub traffic_used: Option<u64>,
    pub traffic_total: Option<u64>,
}

/// The classes of a `KO` message.
pub ghost enum KoClass {
    InvalidCredentials,
    AccountExpired,
    RateLimited,
    Offline,
    Other,
}

/// The class of a `KO` message, by what its ASCII lower-case form contains,
/// in this order: `invalid` and `key`; `subscription`, `expired` or
/// `not premium`; `flood`, `rate` or `too many`; `not found` or `offline`.
pub open spec fn ko_class(m: Seq<char>) -> KoClass {
    if contains_ascii_ci(m, "invalid"@) && contains_ascii_ci(m, "key"@) {
        KoClass::InvalidCredentials
    } else if contains_ascii_ci(m, "subscription"@) || contains_ascii_ci(m, "expired"@)
        || contains_ascii_ci(m, "not premium"@) {
        KoClass::AccountExpired
    } else if contains_ascii_ci(m, "flood"@) || contains_ascii_ci(m, "rate"@) || contains_ascii_ci(
        m,
        "too many"@,
    ) {
        KoClass::RateLimited
    } else if contains_ascii_ci(m, "not found"@) || contains_ascii_ci(m, "offline"@) {
        KoClass::Offline
    } else {
        KoClass::Other
    }
}

/// The error for a `KO` message of the given class.
pub open spec fn ko_error_matches(e: PluginError, m: Seq<char>) -> bool {
    match ko_class(m) {
        KoClass::InvalidCredentials => e is InvalidCredentials,
        KoClass::AccountExpired => e is AccountExpired,
        KoClass::RateLimited => (e matches PluginError::RateLimited(s) && s@ == m),
        KoClass::Offline => (e matches PluginError::Offline(s) && s@ == m),
        KoClass::Other => (e matches PluginError::InvalidApiResponse(s) && s@ == m),
    }
}

/// Classifies a `KO` message into a typed error.
pub fn classify_ko_message(msg: &str) -> (e: PluginError)
    ensures
        ko_error_matches(e, msg@),
{
    let m = str_chars(msg);
    if contains_ascii_ci_exec(&m, &str_chars("invalid")) && contains_ascii_ci_exec(
        &m,
        &str_chars("key"),
    ) {
        return PluginError::InvalidCredentials;
    }
    if contains_ascii_ci_exec(&m, &str_chars("subscription")) || contains_ascii_ci_exec(
        &m,
        &str_chars("expired"),
    ) || contains_ascii_ci_exec(&m, &str_chars("not premium")) {
        return PluginError::AccountExpired;
    }
    if contains_ascii_ci_exec(&m, &str_chars("flood")) || contains_ascii_ci_exec(
        &m,
        &str_chars("rate"),
    ) || contains_ascii_ci_exec(&m, &str_chars("too many")) {
        return PluginError::RateLimited(string_from_str(msg));
    }
    if contains_ascii_ci_exec(&m, &str_chars("not found")) || contains_ascii_ci_exec(
        &m,
        &str_chars("offline"),
    ) {
        return PluginError::Offline(string_from_str(msg));
    }
    PluginError::InvalidApiResponse(string_from_str(msg))
}

proof fn lemma_contains_word(a: Seq<char>, w: Seq<char>, b: Seq<char>, lit: Seq<char>)
    requires
        eq_ascii_ci(w, lit),
    ensures
        contains_ascii_ci(a + w + b, lit),
{
    let m = a + w + b;
    assert forall|j: int| 0 <= j < lit.len() implies ascii_ci_eq(
        #[trigger] m[a.len() + j],
        lit[j],
    ) by {
        assert(m[a.len() + j] == w[j]);
        assert(ascii_ci_eq(w[0 + j], lit[j]));
    }
    assert(ascii_ci_lit_at(m, a.len() as int, lit));
}

/// A `KO` message names an invalid key when it holds both `invalid` and
/// `key`, in any ASCII case.
pub open spec fn names_invalid_key(m: Seq<char>) -> bool {
    contains_ascii_ci(m, "invalid"@) && contains_ascii_ci(m, "key"@)
}

/// A `KO` message names an expired account: `subscription`, `expired` or
/// `not premium`, in any ASCII case.
pub open spec fn names_expiry(m: Seq<char>) -> bool {
    contains_ascii_ci(m, "subscription"@) || contains_ascii_ci(m, "expired"@) || contains_ascii_ci(
        m,
        "not premium"@,
    )
}

/// A `KO` message names a rate limit: `flood`, `rate` or `too many`, in any
/// ASCII case.
pub open spec fn names_rate_limit(m: Seq<char>) -> bool {
    contains_ascii_ci(m, "flood"@) || contains_ascii_ci(m, "rate"@) || contains_ascii_ci(
        m,
        "too many"@,
    )
}

/// A `KO` message names a missing file: `not found` or `offline`, in any
/// ASCII case.
pub open spec fn names_missing_file(m: Seq<char>) -> bool {
    contains_ascii_ci(m, "not found"@) || contains_ascii_ci(m, "offline"@)
}

/// The error of a `KO` message, for every message: an invalid key first, then
/// an expired account, then a rate limit (carrying the message), then an
/// offline file (carrying the message); a message that names none of them is
/// an unexpected answer carrying the message.
pub proof fn law_ko_errors(m: Seq<char>, e: PluginError)
    requires
        ko_error_matches(e, m),
    ensures
        names_invalid_key(m) ==> e is InvalidCredentials,
        !names_invalid_key(m) && names_expiry(m) ==> e is AccountExpired,
        !names_invalid_key(m) && !names_expiry(m) && names_rate_limit(m) ==> (e matches PluginError::RateLimited(s) && s@ == m),
        !names_invalid_key(m) && !names_expiry(m) && !names_rate_limit(m) && names_missing_file(m)
            ==> (e matches PluginError::Offline(s) && s@ == m),
        !names_invalid_key(m) && !names_expiry(m) && !names_rate_limit(m) && !names_missing_file(m)
            ==> (e matches PluginError::InvalidApiResponse(s) && s@ == m),
{
}

/// A `KO` message that says, in any ASCII case and anywhere, that the account
/// `expired`, or names the `subscription`, or says `not premium`, is an
/// expired-account error, unless it also names both `invalid` and `key`.
pub proof fn law_ko_expiry_word(a: Seq<char>, w: Seq<char>, b: Seq<char>, e: PluginError)
    requires
        eq_ascii_ci(w, "expired"@) || eq_ascii_ci(w, "subscription"@) || eq_ascii_ci(
            w,
            "not premium"@,
        ),
        !names_invalid_key(a + w + b),
        ko_error_matches(e, a + w + b),
    ensures
        names_expiry(a + w + b),
        ko_class(a + w + b) == KoClass::AccountExpired,
        e is AccountExpired,
{
    if eq_ascii_ci(w, "expired"@) {
        lemma_contains_word(a, w, b, "expired"@);
    } else if eq_ascii_ci(w, "subscription"@) {
        lemma_contains_word(a, w, b, "subscription"@);
    } else {
        lemma_contains_word(a, w, b, "not premium"@);
    }
}

/// A `KO` message that names a rate limit (`flood`, `rate` or `too many`, in
/// any ASCII case, anywhere) and neither an invalid key nor an expired
/// account is a rate-limit error carrying the message.
pub proof fn law_ko_rate_limit_word(a: Seq<char>, w: Seq<char>, b: Seq<char>, e: PluginError)
    requires
        eq_ascii_ci(w, "flood"@) || eq_ascii_ci(w, "rate"@) || eq_ascii_ci(w, "too many"@),
        !names_invalid_key(a + w + b),
        !names_expiry(a + w + b),
        ko_error_matches(e, a + w + b),
    ensures
        e matches PluginError::RateLimited(s) && s@ == a + w + b,
{
    if eq_ascii_ci(w, "flood"@) {
        lemma_contains_word(a, w, b, "flood"@);
    } else if eq_ascii_ci(w, "rate"@) {
        lemma_contains_word(a, w, b, "rate"@);
    } else {
        lemma_contains_word(a, w, b, "too many"@);
    }
}

/// A `KO` message that names a missing file (`not found` or `offline`, in any
/// ASCII case, anywhere) and no earlier class is an offline error carrying
/// the message.
pub proof fn law_ko_missing_file_word(a: Seq<char>, w: Seq<char>, b: Seq<char>, e: PluginError)
    requires
        eq_ascii_ci(w, "not found"@) || eq_ascii_ci(w, "offline"@),
        !names_invalid_key(a + w + b),
        !names_expiry(a + w + b),
        !names_rate_limit(a + w + b),
        ko_error_matches(e, a + w + b),
    ensures
        e matches PluginError::Offline(s) && s@ == a + w + b,
{
    if eq_ascii_ci(w, "not found"@) {
        lemma_contains_word(a, w, b, "not found"@);
    } else {
        lemma_contains_word(a, w, b, "offline"@);
    }
}

pub open spec fn invalid_json_message(e: Seq<char>) -> Seq<char> {
    "body is not valid JSON: "@ + e
}

pub open spec fn missing_url_message() -> Seq<char> {
    "OK response missing `url` field"@
}

/// Reads a `get_token.cgi` answer: `decoded` is its JSON body decoded, or
/// the decoding error's message.
///
/// An undecodable body is an `InvalidApiResponse`. A status equal to `OK`
/// (ignoring ASCII case) gives the token, unless the URL is empty, which is
/// an `InvalidApiResponse`. Any other status gives the error that the
/// message classifies to.
pub fn parse_get_token_response(decoded: Result<ApiResponse, String>) -> (r: Result<
    PremiumToken,
    PluginError,
>)
    ensures
        match decoded {
            Err(e) => (r matches Err(PluginError::InvalidApiResponse(m)) && m@
                == invalid_json_message(e@)),
            Ok(p) => if eq_ascii_ci(p.status@, "ok"@) {
                if p.url@.len() == 0 {
                    (r matches Err(PluginError::InvalidApiResponse(m)) && m@ == missing_url_message())
                } else {
                    r == Ok::<PremiumToken, PluginError>(
                        PremiumToken {
                            direct_url: p.url,
                            traffic_used_bytes: p.traffic_used,
                            traffic_total_bytes: p.traffic_total,
                        },
                    )
                }
            } else {
                (r matches Err(e) && ko_error_matches(e, p.message@))
            },
        },
{
    let parsed = match decoded {
        Ok(p) => p,
        Err(e) => {
            let mut m = string_from_str("body is not valid JSON: ");
            push_str(&mut m, e.as_str());
            return Err(PluginError::InvalidApiResponse(m));
        },
    };
    let status = str_chars(parsed.status.as_str());
    if eq_ascii_ci_exec(&status, &str_chars("ok")) {
        if parsed.url.as_str().is_empty() {
            return Err(
                PluginError::InvalidApiResponse(string_from_str("OK response missing `url` field")),
            );
        }
        return Ok(
            PremiumToken {
                direct_url: parsed.url,
                traffic_used_bytes: parsed.traffic_used,
                traffic_total_bytes: parsed.traffic_total,
            },
        );
    }
    Err(classify_ko_message(parsed.message.as_str()))
}

// ── Credential ──────────────────────────────────────────────────────────────

/// The decoded output of the host's `get_credential` function.
#[derive(Debug)]
pub struct CredentialResponse {
    pub username: String,
    pub password: String,
}

pub open spec fn malformed_credential_message(e: Seq<char>) -> Seq<char> {
    "get_credential returned malformed JSON: "@ + e
}

pub open spec fn empty_key_message() -> Seq<char> {
    "get_credential returned an empty API key"@
}

/// The API key of a `get_credential` answer: `decoded` is its JSON decoded,
/// or the decoding error's message. 1fichier identifies users by API key
/// only; the host stores it in the `password` slot.
///
/// The key is the password without surrounding white space; an empty key or
/// an undecodable answer is a `HostResponse` error.
pub fn parse_credential_response(decoded: Result<CredentialResponse, String>) -> (r: Result<
    String,
    PluginError,
>)
    ensures
        match decoded {
            Err(e) => (r matches Err(PluginError::HostResponse(m)) && m@
                == malformed_credential_message(e@)),
            Ok(c) => if trim(c.password@).len() == 0 {
                (r matches Err(PluginError::HostResponse(m)) && m@ == empty_key_message())
            } else {
                (r matches Ok(k) && k@ == trim(c.password@))
            },
        },
{
    let resp = match decoded {
        Ok(c) => c,
        Err(e) => {
            let mut m = string_from_str("get_credential returned malformed JSON: ");
            push_str(&mut m, e.as_str());
            return Err(PluginError::HostResponse(m));
        },
    };
    let key = trim_exec(resp.password.as_str());
    if key.as_str().is_empty() {
        return Err(
            PluginError::HostResponse(string_from_str("get_credential returned an empty API key")),
        );
    }
    Ok(key)
}

} // verus!
