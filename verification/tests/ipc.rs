use emakiwm::events::WmEvent;
use emakiwm::ipc::{
    command_line, errand, gone_reply, is_error_reply, ok_reply, read_request, request_of,
    state_reply, subscription_line, tries_again, unknown_reply, Errand, PipeRequest,
};

fn words(v: &[&str]) -> Vec<String> {
    v.iter().map(|s| s.to_string()).collect()
}

#[test]
fn requests_are_told_apart() {
    assert!(matches!(request_of("state"), PipeRequest::State));
    assert!(matches!(request_of(" subscribe\r\n"), PipeRequest::Subscribe));
    assert!(matches!(
        request_of("focus left"),
        PipeRequest::Command(WmEvent::Focus(_))
    ));
    match request_of("  dance now ") {
        PipeRequest::Unknown(t) => assert_eq!(t, "dance now"),
        other => panic!("unexpected: {other:?}"),
    }
    match request_of("") {
        PipeRequest::Unknown(t) => assert_eq!(t, ""),
        other => panic!("unexpected: {other:?}"),
    }
}

#[test]
fn requests_come_as_bytes() {
    assert!(matches!(read_request(b"state\n"), PipeRequest::State));
    match read_request(b"spawn a\xffb") {
        PipeRequest::Command(WmEvent::Spawn(c)) => assert_eq!(c, "a\u{fffd}b"),
        other => panic!("unexpected: {other:?}"),
    }
}

#[test]
fn replies_are_spelled_out() {
    assert_eq!(ok_reply(), "{\"ok\":true}");
    assert_eq!(
        unknown_reply("dance"),
        "{\"error\":\"unknown command: dance\"}"
    );
    assert_eq!(gone_reply(), "{\"error\":\"wm is shutting down\"}");
    assert_eq!(state_reply(true, Some("{}".to_string())), "{}");
    assert_eq!(state_reply(true, None), "{\"error\":\"timeout\"}");
    assert_eq!(state_reply(false, None), gone_reply());
    assert_eq!(subscription_line("{}".to_string()), "{}\n");
}

#[test]
fn unknown_replies_are_json() {
    for cmd in ["dance", "foo\"bar", "a\\b", "a\nb\t\u{1f}\u{0}c", "", "窓/é\u{7f}", "\\\"\\"] {
        let reply = unknown_reply(cmd);
        assert!(!reply.contains('\n'), "{reply}");
        let v: serde_json::Value = serde_json::from_str(&reply).unwrap();
        let o = v.as_object().unwrap();
        assert_eq!(o.len(), 1);
        assert_eq!(o["error"], format!("unknown command: {cmd}"));
    }
    assert_eq!(
        unknown_reply("foo\"bar"),
        "{\"error\":\"unknown command: foo\\\"bar\"}"
    );
    assert_eq!(
        unknown_reply("a\nb"),
        "{\"error\":\"unknown command: a\\u000ab\"}"
    );
}

#[test]
fn error_replies_are_recognised() {
    assert!(is_error_reply(&unknown_reply("")));
    assert!(is_error_reply(&gone_reply()));
    assert!(is_error_reply(&state_reply(true, None)));
    assert!(!is_error_reply(&ok_reply()));
    assert!(!is_error_reply("error"));
    assert!(!is_error_reply(""));
}

#[test]
fn arguments_make_one_command() {
    assert_eq!(command_line(&words(&["focus", "left"])), "focus left");
    assert_eq!(command_line(&words(&["spawn", "a b", "c"])), "spawn a b c");
    assert_eq!(command_line(&words(&["", "x"])), " x");
    assert_eq!(command_line(&words(&[])), "");
}

#[test]
fn sender_knows_its_errand() {
    assert_eq!(errand(""), Errand::Usage);
    assert_eq!(errand("--help"), Errand::Usage);
    assert_eq!(errand("-h"), Errand::Usage);
    assert_eq!(errand("subscribe"), Errand::Subscribe);
    assert_eq!(errand("state"), Errand::Send);
}

#[test]
fn pipe_is_tried_ten_times() {
    assert!(tries_again(1));
    assert!(tries_again(9));
    assert!(!tries_again(10));
}
