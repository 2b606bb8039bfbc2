use skillopt::openai::{body, is_success, ChatCall, ChatEvent, ChatOptions, ChatRun, ChatStep, ClientSettings, ClientVars, SettingsError, Usage};
use skillopt::single::Single;
use skillopt::types::ChatMessage;

fn unset() -> ClientVars {
    ClientVars {
        base_url: None,
        api_key: None,
        model: None,
        target_model: None,
        optimizer_model: None,
        timeout_secs: None,
        max_retries: None,
        rps: None,
    }
}

fn set(s: &str) -> Option<String> {
    Some(s.to_string())
}

#[test]
fn a_base_url_is_needed() {
    match ClientSettings::from_vars(&unset()) {
        Err(e) => {
            assert_eq!(e, SettingsError::MissingBaseUrl);
            assert_eq!(e.message(), "OPENAI_BASE_URL must be set (e.g. http://localhost:8787/v1)");
        }
        Ok(_) => panic!("no base URL was set"),
    }
}

#[test]
fn settings_have_defaults() {
    let c = ClientSettings::from_vars(&ClientVars { base_url: set("http://localhost:8787/v1///"), ..unset() }).unwrap();
    assert_eq!(c.base_url, "http://localhost:8787/v1");
    assert_eq!(c.endpoint(), "http://localhost:8787/v1/chat/completions");
    assert_eq!(c.api_key, "sk-noauth");
    assert_eq!(c.target_model, "gpt-5.5");
    assert_eq!(c.optimizer_model, "gpt-5.5");
    assert_eq!(c.timeout_secs, 180);
    assert_eq!(c.max_retries, 4);
    assert_eq!(c.requests_per_second, 30);
}

#[test]
fn settings_follow_the_variables() {
    let c = ClientSettings::from_vars(&ClientVars {
        base_url: set("u"),
        api_key: set("k"),
        model: set("m"),
        target_model: set("t"),
        optimizer_model: None,
        timeout_secs: set("9"),
        max_retries: set("0"),
        rps: set("5"),
    })
    .unwrap();
    assert_eq!((c.api_key.as_str(), c.target_model.as_str(), c.optimizer_model.as_str()), ("k", "t", "m"));
    assert_eq!((c.timeout_secs, c.max_retries, c.requests_per_second), (9, 0, 5));
}

#[test]
fn settings_that_cannot_be_read_count_as_unset() {
    let c = ClientSettings::from_vars(&ClientVars {
        base_url: set(""),
        timeout_secs: set("soon"),
        max_retries: set("4294967296"),
        rps: set("0"),
        ..unset()
    })
    .unwrap();
    assert_eq!(c.base_url, "");
    assert_eq!((c.timeout_secs, c.max_retries, c.requests_per_second), (180, 4, 30));
}

#[test]
fn bodies_carry_the_request() {
    let c = ClientSettings::from_vars(&ClientVars { base_url: set("u"), target_model: set("t"), optimizer_model: set("o"), ..unset() }).unwrap();
    let messages = || vec![ChatMessage { role: "user".into(), content: "hi".into() }];
    let b = body(&c, ChatCall {
        to_target: true,
        messages: messages(),
        options: ChatOptions { temperature: Some(Single { bits: 0x3f80_0000 }), max_tokens: Some(9), json: true, reasoning_effort: Some("low") },
    });
    assert_eq!((b.model.as_str(), b.stream, b.json_object), ("t", false, true));
    assert_eq!((b.temperature, b.max_tokens, b.reasoning_effort), (Some(Single { bits: 0x3f80_0000 }), Some(9), Some("low")));
    assert_eq!((b.messages.len(), b.messages[0].role.as_str(), b.messages[0].content.as_str()), (1, "user", "hi"));
    let b = body(&c, ChatCall { to_target: false, messages: messages(), options: ChatOptions::default() });
    assert_eq!((b.model.as_str(), b.stream, b.json_object), ("o", false, false));
    assert_eq!((b.temperature, b.max_tokens, b.reasoning_effort), (None, None, None));
}

#[test]
fn answers_end_a_request() {
    let usage = Usage { prompt_tokens: 1, completion_tokens: 2, total_tokens: 3 };
    let event = ChatEvent::Answered { contents: vec![set("hi"), set("ho")], usage: Some(usage) };
    match ChatRun::start(4).next(event) {
        ChatStep::Done(o) => {
            assert_eq!(o.text, "hi");
            assert_eq!(o.usage, usage);
        }
        _ => panic!("not done"),
    }
    for contents in [vec![], vec![None, set("second")]] {
        match ChatRun::start(4).next(ChatEvent::Answered { contents, usage: None }) {
            ChatStep::Done(o) => {
                assert_eq!(o.text, "");
                assert_eq!(o.usage, Usage::default());
            }
            _ => panic!("not done"),
        }
    }
}

#[test]
fn passing_troubles_are_retried_with_longer_waits() {
    let mut run = ChatRun::start(7);
    let mut waits = vec![];
    loop {
        match run.next(ChatEvent::Refused { status: 503, message: "busy".into() }) {
            ChatStep::WaitThenSend(ms, later) => {
                waits.push(ms);
                run = later;
            }
            ChatStep::WaitThenFail(ms, message) => {
                waits.push(ms);
                assert_eq!(message, "busy");
                break;
            }
            _ => panic!("neither waits nor fails"),
        }
    }
    assert_eq!(waits, vec![250, 500, 1000, 2000, 4000, 8000, 8000, 8000]);
}

#[test]
fn too_many_requests_and_silence_are_retried() {
    for event in [ChatEvent::Refused { status: 429, message: "slow down".into() }, ChatEvent::Unreachable { message: "timeout".into() }] {
        assert!(matches!(ChatRun::start(1).next(event), ChatStep::WaitThenSend(250, ChatRun { attempt: 1, max_retries: 1 })));
    }
    match ChatRun::start(0).next(ChatEvent::Unreachable { message: "timeout".into() }) {
        ChatStep::WaitThenFail(250, m) => assert_eq!(m, "timeout"),
        _ => panic!("no retry was left"),
    }
}

#[test]
fn lasting_troubles_fail_at_once() {
    for status in [400, 401, 404, 499, 600] {
        match ChatRun::start(4).next(ChatEvent::Refused { status, message: "no".into() }) {
            ChatStep::Failed(m) => assert_eq!(m, "no"),
            _ => panic!("{} was retried", status),
        }
    }
    match ChatRun::start(4).next(ChatEvent::Undecodable { message: "decode chat response".into() }) {
        ChatStep::Failed(m) => assert_eq!(m, "decode chat response"),
        _ => panic!("not failed"),
    }
}

#[test]
fn statuses_of_success() {
    assert!(is_success(200) && is_success(299));
    assert!(!is_success(199) && !is_success(300) && !is_success(429));
}

#[test]
fn options_ask_for_nothing_by_default() {
    let o = ChatOptions::default();
    assert_eq!((o.temperature, o.max_tokens, o.json, o.reasoning_effort), (None, None, false, None));
}
