//! Plugin error type.
use vstd::prelude::*;

verus! {

/// The error of `serde_json`, carried through unchanged.
#[verifier::external_type_specification]
#[verifier::external_body]
pub struct ExJsonError(serde_json::Error);

/// Errors raised by the 1fichier plugin.
#[derive(Debug)]
pub enum PluginError {
    /// JSON error.
    SerdeJson(serde_json::Error),
    /// 1fichier HTTP returned a status other than the one expected.
    HttpStatus { status: u16, message: String },
    /// A host function's response is invalid.
    HostResponse(String),
    /// The URL is not a recognised 1fichier resource.
    UnsupportedUrl(String),
    /// The 1fichier file is offline or removed.
    Offline(String),
    /// No metadata was found on the 1fichier free landing page.
    NoDirectLink,
    /// The 1fichier API rejected the configured key as invalid.
    InvalidCredentials,
    /// The 1fichier API reports the configured account is expired.
    AccountExpired,
    /// The 1fichier API rate limit was exceeded.
    RateLimited(String),
    /// The 1fichier API returned an unexpected payload.
    InvalidApiResponse(String),
    /// Free mode needs a CAPTCHA solution, which this plugin cannot provide.
    CaptchaRequired,
}

} // verus!
