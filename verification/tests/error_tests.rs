use ntlm_bridge::error::BridgeError;
use ntlm_bridge::service::{
    handle_control_event, service_launch_args, stopped_exit_code, ServiceControlAnswer, ServiceControlEvent,
    uninstall_step, LaunchArg, ServiceExit, UninstallStep,
};

#[test]
fn unauthorized_answers_with_challenges() {
    let e = BridgeError::Unauthorized {
        message: "missing Authorization header".into(),
        challenges: vec!["Basic realm=\"r\"".into(), "bad\u{7f}value".into()],
    };
    let r = e.to_response();
    assert_eq!(r.status, 401);
    assert_eq!(r.kind, "unauthorized");
    assert_eq!(r.message, "missing Authorization header");
    assert_eq!(r.www_authenticate, vec!["Basic realm=\"r\"".to_string()]);
}

#[test]
fn other_errors_map_to_statuses() {
    let r = BridgeError::UpstreamAuthFailed.to_response();
    assert_eq!((r.status, r.kind.as_str()), (401, "unauthorized"));
    assert_eq!(r.www_authenticate, vec!["Basic realm=\"ntlm-bridge\"".to_string()]);
    let r = BridgeError::BadUpstreamUrl("x".into()).to_response();
    assert_eq!((r.status, r.kind.as_str(), r.message.as_str()), (502, "bad_gateway", "invalid upstream URL: x"));
    let r = BridgeError::Internal("boom".into()).to_response();
    assert_eq!((r.status, r.kind.as_str(), r.message.as_str()), (500, "internal", "internal error: boom"));
    assert_eq!(BridgeError::MissingNtlmChallenge.message(), "upstream returned no NTLM challenge");
    assert_eq!(BridgeError::Ntlm("n".into()).message(), "NTLM error: n");
    assert_eq!(BridgeError::Upstream("u".into()).message(), "upstream error: u");
    assert!(BridgeError::Upstream("u".into()).to_response().www_authenticate.is_empty());
}

#[test]
fn service_control_signals_shutdown_once() {
    let s = handle_control_event(true, ServiceControlEvent::Stop);
    assert!(s.signal_shutdown && !s.shutdown_pending);
    assert_eq!(s.answer, ServiceControlAnswer::NoError);
    let s = handle_control_event(s.shutdown_pending, ServiceControlEvent::Shutdown);
    assert!(!s.signal_shutdown);
    let s = handle_control_event(true, ServiceControlEvent::Other);
    assert_eq!(s.answer, ServiceControlAnswer::NotImplemented);
    assert!(s.shutdown_pending);
}

#[test]
fn service_is_launched_with_its_config() {
    assert_eq!(service_launch_args(false), vec![LaunchArg::Word("service-run".to_string())]);
    assert_eq!(
        service_launch_args(true),
        vec![
            LaunchArg::Word("service-run".to_string()),
            LaunchArg::Word("--config".to_string()),
            LaunchArg::ConfigPath
        ]
    );
}

#[test]
fn stopped_service_reports_its_exit_code() {
    assert_eq!(stopped_exit_code(true), ServiceExit::Win32(0));
    assert_eq!(stopped_exit_code(false), ServiceExit::ServiceSpecific(1));
}

#[test]
fn uninstall_stops_polls_then_deletes() {
    assert_eq!(uninstall_step(0, true), UninstallStep::Delete);
    assert_eq!(uninstall_step(0, false), UninstallStep::Stop);
    assert_eq!(uninstall_step(1, false), UninstallStep::WaitThenPoll);
    assert_eq!(uninstall_step(29, false), UninstallStep::WaitThenPoll);
    assert_eq!(uninstall_step(30, false), UninstallStep::WaitThenDelete);
    assert_eq!(uninstall_step(12, true), UninstallStep::Delete);
}
