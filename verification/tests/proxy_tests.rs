use ntlm_bridge::auth::NtlmCredentials;
use ntlm_bridge::config::UpstreamConfig;
use ntlm_bridge::error::BridgeError;
use ntlm_bridge::proxy::{
    check_authenticated_status, check_negotiate_response, find_www_authenticate, is_hop_by_hop,
    should_skip_request_header, target_url, ForwardAction, ForwardEvent, ForwardState, ProxyClient,
};

#[test]
fn appends_path_and_query_to_base_url() {
    assert_eq!(
        target_url("http://example.test/root", Some("/one/two?q=1")).unwrap(),
        "http://example.test/root/one/two?q=1"
    );
}

#[test]
fn target_url_trims_slashes_and_defaults_path() {
    assert_eq!(target_url("http://example.test//", None).unwrap(), "http://example.test/");
    assert_eq!(target_url("http://example.test", Some("x")).unwrap(), "http://example.test/x");
    match target_url("nope", Some("/a")) {
        Err(BridgeError::BadUpstreamUrl(m)) => assert!(m.starts_with("nope/a: ")),
        _ => panic!("expected a bad URL"),
    }
}

#[test]
fn hop_by_hop_and_credentials_stay_behind() {
    assert!(is_hop_by_hop("Connection"));
    assert!(is_hop_by_hop("transfer-encoding"));
    assert!(!is_hop_by_hop("content-type"));
    assert!(should_skip_request_header("authorization", false));
    assert!(should_skip_request_header("host", false));
    assert!(should_skip_request_header("content-length", false));
    assert!(should_skip_request_header("content-type", true));
    assert!(!should_skip_request_header("content-type", false));
    assert!(should_skip_request_header("expect", true));
    assert!(should_skip_request_header("upgrade", false));
    assert!(!should_skip_request_header("accept", true));
}

#[test]
fn www_authenticate_with_ntlm_is_found() {
    let values = vec![b"Negotiate".to_vec(), b"\xffNTLM x".to_vec(), b"NTLM abc".to_vec()];
    assert_eq!(find_www_authenticate(&values), Some("NTLM abc"));
    assert_eq!(find_www_authenticate(&vec![b"Basic".to_vec()]), None);
}

#[test]
fn upstream_answers_are_judged() {
    let values = vec![b"NTLM abc".to_vec()];
    assert_eq!(check_negotiate_response(401, &values).unwrap(), "NTLM abc");
    assert!(matches!(
        check_negotiate_response(401, &vec![]),
        Err(BridgeError::MissingNtlmChallenge)
    ));
    match check_negotiate_response(200, &values) {
        Err(BridgeError::Upstream(m)) => assert_eq!(m, "expected NTLM challenge, got 200 OK"),
        _ => panic!("expected an upstream error"),
    }
    assert!(matches!(check_authenticated_status(401), Err(BridgeError::UpstreamAuthFailed)));
    assert!(check_authenticated_status(200).is_ok());
}

#[test]
fn proxy_client_keeps_its_upstream() {
    let p = ProxyClient::new(UpstreamConfig::default());
    assert_eq!(p.config().base_url, "http://localhost:8080");
}

fn alice() -> NtlmCredentials {
    NtlmCredentials { username: "alice".into(), password: "pw".into(), domain: "DOM".into() }
}

#[test]
fn forward_steps_through_the_handshake() {
    let p = ProxyClient::new(UpstreamConfig::default());
    let (state, action) = p.forward_step(
        ForwardState::Start,
        ForwardEvent::Authenticated { creds: alice(), path_and_query: Some("/a?b=1".into()) },
    );
    match action {
        ForwardAction::SendNegotiate { url, authorization } => {
            assert_eq!(url, "http://localhost:8080/a?b=1");
            assert!(authorization.starts_with("NTLM "));
        }
        _ => panic!("expected the Negotiate leg"),
    }
    assert!(matches!(state, ForwardState::Negotiating { .. }));

    let (state, action) = p.forward_step(state, ForwardEvent::NegotiateAnswer { status: 200, www_authenticate: vec![] });
    assert!(matches!(state, ForwardState::Done));
    match action {
        ForwardAction::Fail(BridgeError::Upstream(m)) => assert_eq!(m, "expected NTLM challenge, got 200 OK"),
        _ => panic!("expected an upstream error"),
    }

    let (state, action) = p.forward_step(ForwardState::Authenticating, ForwardEvent::AuthenticateAnswer { status: 401 });
    assert!(matches!(state, ForwardState::Done));
    assert!(matches!(action, ForwardAction::Fail(BridgeError::UpstreamAuthFailed)));
    let (_, action) = p.forward_step(ForwardState::Authenticating, ForwardEvent::AuthenticateAnswer { status: 204 });
    assert!(matches!(action, ForwardAction::PassBack));
    let (_, action) = p.forward_step(ForwardState::Done, ForwardEvent::AuthenticateAnswer { status: 204 });
    assert!(matches!(action, ForwardAction::Fail(BridgeError::Internal(_))));
}

#[test]
fn forward_step_reports_a_bad_target_and_a_missing_challenge() {
    let up = UpstreamConfig { base_url: "nope".into(), ..UpstreamConfig::default() };
    let (_, action) = ProxyClient::new(up).forward_step(
        ForwardState::Start,
        ForwardEvent::Authenticated { creds: alice(), path_and_query: None },
    );
    assert!(matches!(action, ForwardAction::Fail(BridgeError::BadUpstreamUrl(_))));
    let p = ProxyClient::new(UpstreamConfig::default());
    let (_, action) = p.forward_step(
        ForwardState::Negotiating { creds: alice() },
        ForwardEvent::NegotiateAnswer { status: 401, www_authenticate: vec![b"Negotiate".to_vec()] },
    );
    assert!(matches!(action, ForwardAction::Fail(BridgeError::MissingNtlmChallenge)));
}
