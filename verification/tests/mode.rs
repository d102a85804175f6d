use vortex_mod_1fichier::error::PluginError;
use vortex_mod_1fichier::free_mode::ParsedLanding;
use vortex_mod_1fichier::mode::{
    api_key, links_response, on_api_key, on_landing, on_token, stream_url, ModeAction,
    ResolvedMode,
};
use vortex_mod_1fichier::premium_mode::{CredentialResponse, PremiumToken};

fn token() -> PremiumToken {
    PremiumToken {
        direct_url: "https://download.1fichier.com/k/f".into(),
        traffic_used_bytes: None,
        traffic_total_bytes: Some(7),
    }
}

fn landing() -> ParsedLanding {
    ParsedLanding {
        filename: Some("f.bin".into()),
        size_bytes: Some(1),
        wait_seconds: Some(60),
        requires_captcha: true,
    }
}

#[test]
fn no_credential_goes_to_free_mode() {
    assert!(matches!(on_api_key(api_key(None)), ModeAction::FetchLanding));
}

#[test]
fn malformed_or_empty_credential_goes_to_free_mode() {
    assert_eq!(api_key(Some(Err("bad".into()))), None);
    let empty = CredentialResponse { username: "u".into(), password: "   ".into() };
    assert_eq!(api_key(Some(Ok(empty))), None);
}

#[test]
fn credential_key_is_used_for_the_token_request() {
    let c = CredentialResponse { username: String::new(), password: " key ".into() };
    match on_api_key(api_key(Some(Ok(c)))) {
        ModeAction::RequestToken(k) => assert_eq!(k, "key"),
        _ => panic!("expected a token request"),
    }
}

#[test]
fn token_success_resolves_premium() {
    match on_token(Ok(token())) {
        ModeAction::Resolved(ResolvedMode::Premium { token: t, landing_hint }) => {
            assert_eq!(t, token());
            assert!(landing_hint.is_none());
        }
        _ => panic!("expected premium"),
    }
}

#[test]
fn rejected_key_falls_back_to_free_mode() {
    assert!(matches!(on_token(Err(PluginError::InvalidCredentials)), ModeAction::FetchLanding));
    assert!(matches!(on_token(Err(PluginError::AccountExpired)), ModeAction::FetchLanding));
}

#[test]
fn other_premium_errors_fail() {
    assert!(matches!(
        on_token(Err(PluginError::RateLimited("x".into()))),
        ModeAction::Failed(PluginError::RateLimited(_))
    ));
    assert!(matches!(
        on_token(Err(PluginError::Offline("x".into()))),
        ModeAction::Failed(PluginError::Offline(_))
    ));
}

#[test]
fn landing_result_resolves_free_or_fails() {
    assert!(matches!(on_landing(Ok(landing())), ModeAction::Resolved(ResolvedMode::Free { .. })));
    assert!(matches!(
        on_landing(Err(PluginError::NoDirectLink)),
        ModeAction::Failed(PluginError::NoDirectLink)
    ));
}

#[test]
fn stream_url_needs_premium() {
    let premium = ResolvedMode::Premium { token: token(), landing_hint: None };
    assert_eq!(stream_url(premium).unwrap(), "https://download.1fichier.com/k/f");
    let free = ResolvedMode::Free { parsed: landing() };
    assert!(matches!(stream_url(free).unwrap_err(), PluginError::CaptchaRequired));
}

#[test]
fn links_response_follows_the_mode() {
    let url = "https://1fichier.com/?abcdef123";
    let r = links_response(url, ResolvedMode::Free { parsed: landing() });
    assert_eq!(r.mode, "free");
    assert_eq!(r.files[0].wait_seconds, Some(60));
    let r = links_response(url, ResolvedMode::Premium { token: token(), landing_hint: Some(landing()) });
    assert_eq!(r.mode, "premium");
    assert_eq!(r.files[0].filename.as_deref(), Some("f.bin"));
    assert_eq!(r.files[0].direct_url.as_deref(), Some("https://download.1fichier.com/k/f"));
    assert_eq!(r.files[0].id, "abcdef123");
}
