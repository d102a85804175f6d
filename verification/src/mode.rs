//! Mode selection: premium when the host holds an API key that the 1fichier
//! API accepts, free otherwise.
//!
//! The plugin entry points perform the host calls; the decisions between
//! them are made here:
//! 1. with a non-empty API key, ask the API for a token;
//! 2. when the API rejects the key as invalid or expired, fall back to the
//!    free landing page, so that the host can still show the file;
//! 3. without a key, read the free landing page directly.
//!
//! `extract_links` answers in either mode; `resolve_stream_url` only in
//! premium mode, since free mode needs a captcha that the plugin cannot
//! solve.
use vstd::prelude::*;
use crate::error::PluginError;
use crate::free_mode::ParsedLanding;
use crate::premium_mode::{
    ko_error_matches, names_expiry, names_invalid_key, parse_credential_response,
    CredentialResponse, PremiumToken,
};
use crate::text::trim;
use crate::{
    build_free_response, build_premium_response, is_free_response, is_premium_response,
    ExtractLinksResponse,
};

verus! {

/// The outcome of mode selection.
pub enum ResolvedMode {
    Premium { token: PremiumToken, landing_hint: Option<ParsedLanding> },
    Free { parsed: ParsedLanding },
}

/// What the plugin does next.
pub enum ModeAction {
    /// Ask the API for a token with this key.
    RequestToken(String),
    /// Read the free landing page.
    FetchLanding,
    /// Mode selection is over.
    Resolved(ResolvedMode),
    /// Mode selection failed.
    Failed(PluginError),
}

/// The API key of a `get_credential` call: `None` when the host has no
/// credential (`reply` is `None`) or its answer gives no usable key.
pub fn api_key(reply: Option<Result<CredentialResponse, String>>) -> (k: Option<String>)
    ensures
        match reply {
            Some(Ok(c)) => if trim(c.password@).len() == 0 {
                k is None
            } else {
                (k matches Some(s) && s@ == trim(c.password@))
            },
            _ => k is None,
        },
{
    match reply {
        None => None,
        Some(decoded) => match parse_credential_response(decoded) {
            Ok(key) => Some(key),
            Err(_) => None,
        },
    }
}

/// The first step: ask for a token when there is a key, else read the
/// landing page.
pub fn on_api_key(key: Option<String>) -> (a: ModeAction)
    ensures
        match key {
            Some(k) => a == ModeAction::RequestToken(k),
            None => a is FetchLanding,
        },
{
    match key {
        Some(k) => ModeAction::RequestToken(k),
        None => ModeAction::FetchLanding,
    }
}

/// Whether a premium failure sends the plugin to free mode: exactly when the
/// API rejected the key as invalid or the account as expired.
pub open spec fn falls_back_to_free(e: PluginError) -> bool {
    e is InvalidCredentials || e is AccountExpired
}

/// The step after the token request: premium on success, free on a rejected
/// key, failure on any other error.
pub fn on_token(result: Result<PremiumToken, PluginError>) -> (a: ModeAction)
    ensures
        match result {
            Ok(token) => a == ModeAction::Resolved(
                ResolvedMode::Premium { token, landing_hint: None },
            ),
            Err(e) => if falls_back_to_free(e) {
                a is FetchLanding
            } else {
                a == ModeAction::Failed(e)
            },
        },
        match result {
            Ok(_) => a is Resolved,
            Err(e) => if e is InvalidCredentials || e is AccountExpired {
                a is FetchLanding
            } else {
                a == ModeAction::Failed(e)
            },
        },
{
    match result {
        Ok(token) => ModeAction::Resolved(ResolvedMode::Premium { token, landing_hint: None }),
        Err(PluginError::InvalidCredentials) => ModeAction::FetchLanding,
        Err(PluginError::AccountExpired) => ModeAction::FetchLanding,
        Err(e) => ModeAction::Failed(e),
    }
}

/// A premium failure sends the plugin to free mode exactly when the API
/// rejected the key as invalid or the account as expired; an HTTP status, an
/// unexpected payload, a host failure, a rate limit, an offline file or any
/// other error is reported as it is.
pub proof fn law_fallback_only_on_rejection(e: PluginError)
    ensures
        falls_back_to_free(e) <==> (e is InvalidCredentials || e is AccountExpired),
        e is HttpStatus ==> !falls_back_to_free(e),
        e is InvalidApiResponse ==> !falls_back_to_free(e),
        e is HostResponse ==> !falls_back_to_free(e),
        e is RateLimited ==> !falls_back_to_free(e),
        e is Offline ==> !falls_back_to_free(e),
        e is SerdeJson ==> !falls_back_to_free(e),
        e is UnsupportedUrl ==> !falls_back_to_free(e),
        e is NoDirectLink ==> !falls_back_to_free(e),
        e is CaptchaRequired ==> !falls_back_to_free(e),
{
}

/// A `KO` answer sends the plugin back to free mode exactly when its message
/// names an invalid key (`invalid` and `key`) or an expired account
/// (`subscription`, `expired` or `not premium`), in any ASCII case.
pub proof fn law_ko_fallback(m: Seq<char>, e: PluginError)
    requires
        ko_error_matches(e, m),
    ensures
        falls_back_to_free(e) <==> (names_invalid_key(m) || names_expiry(m)),
{
}

/// The step after the landing page: free mode, or its failure.
pub fn on_landing(result: Result<ParsedLanding, PluginError>) -> (a: ModeAction)
    ensures
        match result {
            Ok(parsed) => a == ModeAction::Resolved(ResolvedMode::Free { parsed }),
            Err(e) => a == ModeAction::Failed(e),
        },
{
    match result {
        Ok(parsed) => ModeAction::Resolved(ResolvedMode::Free { parsed }),
        Err(e) => ModeAction::Failed(e),
    }
}

/// The answer of `extract_links` in the selected mode.
pub fn links_response(url: &str, mode: ResolvedMode) -> (r: ExtractLinksResponse)
    ensures
        match mode {
            ResolvedMode::Premium { token, landing_hint } => is_premium_response(
                r,
                url@,
                landing_hint,
                token,
            ),
            ResolvedMode::Free { parsed } => is_free_response(r, url@, parsed),
        },
{
    match mode {
        ResolvedMode::Premium { token, landing_hint } => build_premium_response(
            url,
            landing_hint,
            token,
        ),
        ResolvedMode::Free { parsed } => build_free_response(url, parsed),
    }
}

/// The answer of `resolve_stream_url` in the selected mode: the token's
/// direct URL in premium mode, `CaptchaRequired` in free mode.
pub fn stream_url(mode: ResolvedMode) -> (r: Result<String, PluginError>)
    ensures
        match mode {
            ResolvedMode::Premium { token, .. } => r == Ok::<String, PluginError>(token.direct_url),
            ResolvedMode::Free { .. } => r matches Err(PluginError::CaptchaRequired),
        },
{
    match mode {
        ResolvedMode::Premium { token, .. } => Ok(token.direct_url),
        ResolvedMode::Free { .. } => Err(PluginError::CaptchaRequired),
    }
}

} // verus!
