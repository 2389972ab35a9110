use promptmeter::json::Json;
use promptmeter::messages::Message;
use promptmeter::remote::{
    count_all_tokens, get_config, init_config, remote_count, remote_request, ConfigSlot,
    CountTokensConfig, RemoteError, RemoteOutcome, TlsBackend,
};

fn config(url: &str) -> CountTokensConfig {
    CountTokensConfig { api_url: Some(url.to_string()), ..CountTokensConfig::default() }
}

fn pair(name: &str, value: &str) -> (String, String) {
    (name.to_string(), value.to_string())
}

#[test]
fn first_configuration_stays() {
    let mut slot = ConfigSlot::new();
    assert!(get_config(&slot).is_none());
    init_config(&mut slot, config("http://one"));
    init_config(&mut slot, config("http://two"));
    assert_eq!(get_config(&slot).unwrap().api_url.as_deref(), Some("http://one"));
}

#[test]
fn default_configuration_is_empty() {
    let c = CountTokensConfig::default();
    assert!(c.api_url.is_none() && c.api_key.is_none() && c.proxy.is_none());
    assert_eq!(c.auth_type, "");
    assert_eq!(c.tls_backend, TlsBackend::Rustls);
    assert_eq!(TlsBackend::default(), TlsBackend::Rustls);
}

#[test]
fn no_address_no_request() {
    assert!(remote_request(None).is_none());
    assert!(remote_request(Some(&CountTokensConfig::default())).is_none());
}

#[test]
fn key_goes_into_its_header() {
    let mut c = config("http://x/count");
    let json = pair("Content-Type", "application/json");
    let r = remote_request(Some(&c)).unwrap();
    assert_eq!(r.url, "http://x/count");
    assert_eq!(r.timeout_secs, 300);
    assert_eq!(r.headers, vec![json.clone()]);

    c.api_key = Some("k1".to_string());
    c.auth_type = "bearer".to_string();
    let r = remote_request(Some(&c)).unwrap();
    assert_eq!(r.headers, vec![pair("Authorization", "Bearer k1"), json.clone()]);

    for other in ["x-api-key", "", "Bearer"] {
        c.auth_type = other.to_string();
        let r = remote_request(Some(&c)).unwrap();
        assert_eq!(r.headers, vec![pair("x-api-key", "k1"), json.clone()]);
    }
}

#[test]
fn replies_and_failures() {
    let replied = |status, input_tokens| RemoteOutcome::Replied { status, input_tokens };
    assert_eq!(remote_count(RemoteOutcome::Failed), Err(RemoteError::NoReply));
    assert_eq!(remote_count(replied(200, Some(42))), Ok(42));
    assert_eq!(remote_count(replied(299, Some(0))), Ok(0));
    assert_eq!(remote_count(replied(199, Some(42))), Err(RemoteError::Status(199)));
    assert_eq!(remote_count(replied(300, Some(42))), Err(RemoteError::Status(300)));
    assert_eq!(remote_count(replied(500, None)), Err(RemoteError::Status(500)));
    assert_eq!(remote_count(replied(204, None)), Err(RemoteError::NoCount));
    assert_eq!(remote_count(replied(200, Some(-1))), Ok(-1i32 as u64));
    assert_eq!(remote_count(replied(200, Some(i32::MIN))), Ok(i32::MIN as u64));
}

#[test]
fn remote_count_goes_first() {
    let messages =
        [Message { role: "user".to_string(), content: Json::Text("Hello world".to_string()) }];
    let good = RemoteOutcome::Replied { status: 200, input_tokens: Some(77) };
    let bad = RemoteOutcome::Replied { status: 503, input_tokens: Some(77) };
    assert_eq!(count_all_tokens(Some(good), None, &messages, None), 77);
    assert_eq!(count_all_tokens(Some(bad), None, &messages, None), 3);
    assert_eq!(count_all_tokens(Some(RemoteOutcome::Failed), None, &messages, None), 3);
    assert_eq!(count_all_tokens(None, None, &messages, None), 3);
}
