use translation_inference::access::{
    bearer_token, byok_credentials, check_authenticated, check_char_limit, check_config_request,
    check_gated_access, connection_check, cookie_secure, gated_credentials, get_char_limit,
    get_session_id, make_session_cookie, resolve_client, tier_name, verify_bearer, ConnectionCheck,
    RequestAuth, ServerState, SessionCredentials, SessionStore, SessionTier, MAX_SESSIONS,
};
use translation_inference::access::tts_voice_entry;
use translation_inference::client::OpenAiClient;
use translation_inference::config::{AppConfig, EnvSettings};

fn settings() -> EnvSettings {
    EnvSettings {
        api_base_url: Some("https://api.example.com/".into()),
        api_key: Some("server-key".into()),
        gated_api_base_url: Some("https://gated.example.com/v1".into()),
        gated_api_key: Some("gated-key".into()),
        gated_access_key: Some("letmein".into()),
        translation_model: None,
        whisper_model: None,
        translation_models: Some("a, b ,,c".into()),
        whisper_models: None,
        listen_addr: None,
        bitvault_url: None,
        bitvault_api_key: None,
        tts_api_base_url: Some("https://tts.example.com:8443/v1".into()),
        tts_api_key: Some("tts-key".into()),
        tts_chunk_size: None,
        tts_voice_map: Some("en:alloy@tts-1, zh-tw:nova@tts-hd".into()),
        default_context_size: None,
        free_tier_char_limit: Some("abc".into()),
        gated_char_limit: Some("5000".into()),
    }
}

fn state() -> ServerState {
    let (config, free_bad, gated_bad) = AppConfig::from_settings(&settings());
    assert!(free_bad);
    assert!(!gated_bad);
    let client = OpenAiClient::new(&config);
    let gated_client = Some(OpenAiClient::with_credentials(&config.gated_api_base_url, &config.gated_api_key));
    ServerState { config, client, gated_client, tts_client: None }
}

fn auth(cookie: Option<&str>, authorization: Option<&str>) -> RequestAuth {
    RequestAuth { cookie: cookie.map(|s| s.to_string()), authorization: authorization.map(|s| s.to_string()) }
}

#[test]
fn config_from_settings() {
    let s = state();
    assert_eq!(s.config.translation_models, vec!["a", "b", "c"]);
    assert_eq!(s.config.translation_model, "gpgpu/qwen3:14b-q5_k_m-32768");
    assert_eq!(s.config.listen_addr, "0.0.0.0:3000");
    assert_eq!(s.config.gated_char_limit, Some(5000));
    assert!(s.config.is_configured());
    assert!(s.config.is_gated_configured());
    assert!(!s.config.is_bitvault_configured());
    assert!(s.config.is_tts_configured());
    assert_eq!(s.config.tts_hostname(), Some("tts.example.com".to_string()));
    assert_eq!(s.config.tts_languages(), vec!["en".to_string(), "zh-TW".to_string()]);
    assert_eq!(s.config.tts_model(), Some("tts-1".to_string()));
    assert_eq!(s.config.voice_for("zh-TW").map(|e| e.voice.as_str()), Some("nova"));
    assert!(s.config.voice_for("fr").is_none());
    assert_eq!(s.client.base_url, "https://api.example.com");
    assert_eq!(s.client.chat_url(), "https://api.example.com/v1/chat/completions");
}

#[test]
fn session_cookie_is_parsed() {
    assert_eq!(get_session_id(Some("theme=dark; sid = abc123 ; x=y")), Some("abc123".to_string()));
    assert_eq!(get_session_id(Some("theme=dark")), None);
    assert_eq!(get_session_id(Some("sid")), None);
    assert_eq!(get_session_id(None), None);
}

#[test]
fn bearer_token_needs_prefix() {
    assert_eq!(bearer_token(Some("Bearer tok")), "tok");
    assert_eq!(bearer_token(Some("Basic tok")), "");
    assert_eq!(bearer_token(None), "");
}

#[test]
fn store_read_after_write_and_capacity() {
    let mut store = SessionStore::new();
    store.insert("s1".into(), SessionCredentials { endpoint: "e".into(), api_key: "k".into(), tier: SessionTier::Byok });
    let got = store.get("s1").unwrap();
    assert_eq!(got.endpoint, "e");
    assert_eq!(got.tier, SessionTier::Byok);
    assert!(store.get("s2").is_none());
    for i in 0..(MAX_SESSIONS + 5) {
        store.insert(format!("x{i}"), SessionCredentials { endpoint: "e".into(), api_key: "k".into(), tier: SessionTier::Free });
    }
    assert!(store.contains(&format!("x{}", MAX_SESSIONS + 4)));
    assert!(!store.contains("s1"));
}

#[test]
fn authentication_by_session_or_bearer() {
    let s = state();
    let mut store = SessionStore::new();
    let e = check_authenticated(&s, &store, &auth(None, None)).err().unwrap();
    assert_eq!(e.status, 401);
    assert_eq!(e.error, "Invalid or missing access key.");
    assert!(check_authenticated(&s, &store, &auth(None, Some("Bearer letmein"))).is_ok());
    store.insert("abc".into(), gated_credentials(&s.config));
    assert!(check_authenticated(&s, &store, &auth(Some("sid=abc"), None)).is_ok());
    assert!(verify_bearer(&auth(None, Some("Bearer nope")), "letmein").is_err());
}

#[test]
fn char_limit_by_tier() {
    let s = state();
    let mut store = SessionStore::new();
    store.insert("g".into(), gated_credentials(&s.config));
    store.insert("b".into(), byok_credentials("https://mine", "k"));
    assert_eq!(get_char_limit(&s, &store, &auth(Some("sid=g"), None)), Some(5000));
    assert_eq!(get_char_limit(&s, &store, &auth(Some("sid=b"), None)), None);
    assert_eq!(get_char_limit(&s, &store, &auth(None, Some("Bearer letmein"))), Some(5000));
    assert!(check_char_limit(10, Some(10)).is_ok());
    let e = check_char_limit(11, Some(10)).err().unwrap();
    assert_eq!(e.status, 413);
    assert_eq!(e.error, "Input is 11 characters, which exceeds the 10-character limit for your access tier.");
}

#[test]
fn client_resolution_prefers_request_credentials() {
    let s = state();
    let mut store = SessionStore::new();
    let bearer = auth(None, Some("Bearer letmein"));
    let c = resolve_client(&s, &store, Some("https://mine.example/"), Some("mykey"), &bearer).ok().unwrap();
    assert_eq!(c.base_url, "https://mine.example");
    assert_eq!(c.api_key, "mykey");
    store.insert("b".into(), byok_credentials("https://byok.example", "bk"));
    let c = resolve_client(&s, &store, None, None, &auth(Some("sid=b"), None)).ok().unwrap();
    assert_eq!(c.base_url, "https://byok.example");
    let e = resolve_client(&s, &store, Some("https://mine.example/"), Some("mykey"), &auth(None, None)).err().unwrap();
    assert_eq!((e.status, e.error.as_str()), (401, "Authentication required. Provide a Bearer token or use the web interface."));
}

#[test]
fn gated_access_checks() {
    let s = state();
    assert!(check_gated_access(&s.config, "letmein").is_ok());
    let e = check_gated_access(&s.config, "wrong").err().unwrap();
    assert_eq!((e.status, e.error.as_str()), (401, "Invalid access key"));
    let (mut bare, _, _) = AppConfig::from_settings(&settings());
    bare.gated_access_key = String::new();
    let e = check_gated_access(&bare, "letmein").err().unwrap();
    assert_eq!((e.status, e.error.as_str()), (404, "Gated tier is not configured on this server"));
}

#[test]
fn config_request_and_connection_checks() {
    assert!(check_config_request("e", "k").is_ok());
    let e = check_config_request("", "k").err().unwrap();
    assert_eq!((e.status, e.error.as_str()), (400, "endpoint and api_key are required"));
    assert_eq!(connection_check(200), ConnectionCheck::Reachable);
    assert_eq!(connection_check(403), ConnectionCheck::InvalidKey);
    assert_eq!(connection_check(500), ConnectionCheck::Failed);
}

#[test]
fn cookies_and_tier_names() {
    assert!(cookie_secure(Some("TRUE")));
    assert!(cookie_secure(Some("1")));
    assert!(!cookie_secure(Some("yes")));
    assert!(!cookie_secure(None));
    assert_eq!(make_session_cookie("abc", false), "sid=abc; Path=/; SameSite=Strict; HttpOnly");
    assert_eq!(make_session_cookie("abc", true), "sid=abc; Path=/; SameSite=Strict; HttpOnly; Secure");
    assert_eq!(tier_name(SessionTier::Gated), "gated");
}

#[test]
fn tts_voice_is_looked_up_by_language() {
    let s = state();
    let e = tts_voice_entry(&s.config, "zh-TW").ok().unwrap();
    assert_eq!(e.voice, "nova");
    assert_eq!(e.model, "tts-hd");
    match tts_voice_entry(&s.config, "fr") {
        Err(e) => {
            assert_eq!(e.status, 400);
            assert_eq!(e.error, "No TTS voice configured for language: fr");
        }
        Ok(_) => panic!("unlisted language accepted"),
    }
}
