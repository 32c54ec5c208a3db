use telecodex::auth::{
    already_logged_in, clear_pending_login, codex_login_required_message,
    ensure_codex_authenticated, format_device_auth_message, handle_login_command,
    is_login_rate_limited, login_completed, login_completion_report, login_prompt_outcome,
    logout_reply, CodexDeviceAuthPrompt, CompletionReport, ErrorReport, LoginBackoff,
    LoginCommandAction, PromptEvent, PromptOutcome,
};

fn prompt() -> CodexDeviceAuthPrompt {
    CodexDeviceAuthPrompt {
        verification_uri: "https://auth.openai.com/codex/device".to_string(),
        user_code: "ABCD-1234".to_string(),
    }
}

fn report(text: &str) -> ErrorReport {
    ErrorReport { text: text.to_string(), chain: format!("{text}: caused by x") }
}

#[test]
fn detects_device_login_rate_limit_errors() {
    assert!(is_login_rate_limited(
        &anyhow::Error::msg("device code request failed with status 429 Too Many Requests")
            .to_string()
    ));
    assert!(!is_login_rate_limited(
        &anyhow::Error::msg("timed out waiting for Codex device code").to_string()
    ));
}

#[test]
fn rate_limit_wording_in_any_case() {
    assert!(is_login_rate_limited("Rate Limit exceeded"));
    assert!(is_login_rate_limited("RATE LIMITED"));
    assert!(!is_login_rate_limited("rate-limit"));
    assert!(!is_login_rate_limited(""));
}

#[test]
fn device_auth_message_text() {
    let m = format_device_auth_message(&prompt(), false);
    assert_eq!(
        m,
        "Codex login started in headless device-code mode.\n\n1. Open [auth.openai.com](https://auth.openai.com/codex/device)\n2. Sign in with your OpenAI account\n3. Enter code `ABCD-1234`\n\nThe code expires in about 15 minutes. I will post the result here when the login finishes."
    );
    let again = format_device_auth_message(&prompt(), true);
    assert!(again.starts_with("Codex login is already in progress.\n\n1. Open"));
}

#[test]
fn status_messages() {
    assert!(codex_login_required_message().starts_with("Codex is not logged in.\n\nUse `/login`"));
    assert_eq!(already_logged_in(""), "Codex is already logged in.");
    assert_eq!(already_logged_in("user@x"), "Codex is already logged in.\n\nuser@x");
    assert_eq!(logout_reply(""), "Codex credentials removed.");
    assert_eq!(logout_reply("bye"), "Codex logout completed.\n\nbye");
    assert_eq!(login_completed(""), "Codex login completed.");
    assert_eq!(login_completed("ok"), "Codex login completed.\n\nok");
}

const SECOND: u64 = 1_000_000_000;

#[test]
fn backoff_lasts_a_minute() {
    let mut b = LoginBackoff::new();
    b.maybe_start_login_backoff("status 429 Too Many Requests", SECOND);
    assert_eq!(b.until, Some(61 * SECOND));
    assert_eq!(
        b.active_login_backoff_message(SECOND, SECOND).unwrap(),
        "Codex login is temporarily rate limited.\n\nWait about 60s, then try `/login` again."
    );
    assert_eq!(
        b.active_login_backoff_message(SECOND + 1, SECOND + 2).unwrap(),
        "Codex login is temporarily rate limited.\n\nWait about 59s, then try `/login` again."
    );
    assert_eq!(
        b.active_login_backoff_message(45 * SECOND + SECOND / 2, 45 * SECOND + SECOND / 2).unwrap(),
        "Codex login is temporarily rate limited.\n\nWait about 15s, then try `/login` again."
    );
    assert_eq!(
        b.active_login_backoff_message(61 * SECOND - 1, 61 * SECOND - 1).unwrap(),
        "Codex login is temporarily rate limited.\n\nWait about 1s, then try `/login` again."
    );
    assert_eq!(
        b.active_login_backoff_message(61 * SECOND - 1, 62 * SECOND).unwrap(),
        "Codex login is temporarily rate limited.\n\nWait about 1s, then try `/login` again."
    );
    assert_eq!(b.until, Some(61 * SECOND));
    assert_eq!(b.active_login_backoff_message(61 * SECOND, 61 * SECOND), None);
    assert_eq!(b.until, None);
}

#[test]
fn other_errors_do_not_start_backoff() {
    let mut b = LoginBackoff::new();
    b.maybe_start_login_backoff("connection refused", 5);
    assert_eq!(b.until, None);
}

#[test]
fn start_failure_messages() {
    let mut b = LoginBackoff::new();
    let m = b.handle_login_start_failure(&report("connection refused"), 10, 10, 10);
    assert_eq!(m, "Codex login failed to start.\n\nconnection refused: caused by x");
    let m = b.handle_login_start_failure(&report("429 too many requests"), 10, 10, 10);
    assert_eq!(
        m,
        "Codex login could not start because the device-code endpoint is rate limited.\n\nCodex login is temporarily rate limited.\n\nWait about 60s, then try `/login` again."
    );
    assert_eq!(b.until, Some(60 * SECOND + 10));
    let mut b = LoginBackoff::new();
    let m = b.handle_login_start_failure(&report("429 too many requests"), 10, 11, 12);
    assert!(m.ends_with("Wait about 59s, then try `/login` again."));
}

#[test]
fn authentication_gate() {
    assert_eq!(ensure_codex_authenticated(true, None), None);
    let p = prompt();
    assert_eq!(
        ensure_codex_authenticated(false, Some(&p)).unwrap(),
        format_device_auth_message(&p, true)
    );
    assert_eq!(
        ensure_codex_authenticated(false, None).unwrap(),
        codex_login_required_message()
    );
}

#[test]
fn login_command_decisions() {
    let mut b = LoginBackoff::new();
    match handle_login_command(true, "me", &mut b, None, 0, 0) {
        LoginCommandAction::ReplyStatus(m) => assert_eq!(m, "Codex is already logged in.\n\nme"),
        _ => panic!("expected a status reply"),
    }
    assert!(matches!(handle_login_command(false, "", &mut b, None, 0, 0), LoginCommandAction::StartLogin));
    let p = prompt();
    match handle_login_command(false, "", &mut b, Some(&p), 0, 0) {
        LoginCommandAction::ReplyMarkdown(m) => assert_eq!(m, format_device_auth_message(&p, true)),
        _ => panic!("expected the pending login"),
    }
    b.maybe_start_login_backoff("rate limit", 0);
    match handle_login_command(false, "", &mut b, Some(&p), 30 * SECOND, 30 * SECOND) {
        LoginCommandAction::ReplyMarkdown(m) => assert!(m.contains("Wait about 30s")),
        _ => panic!("expected the back-off message"),
    }
    assert!(matches!(handle_login_command(false, "", &mut b, None, 60 * SECOND, 60 * SECOND), LoginCommandAction::StartLogin));
    assert_eq!(b.until, None);
}

#[test]
fn prompt_outcomes() {
    let mut b = LoginBackoff::new();
    match login_prompt_outcome(PromptEvent::Ready(prompt()), &mut b, 0, 0, 0) {
        PromptOutcome::Started(m) => assert_eq!(m, format_device_auth_message(&prompt(), false)),
        _ => panic!("expected a started login"),
    }
    match login_prompt_outcome(PromptEvent::TimedOut, &mut b, 0, 0, 0) {
        PromptOutcome::Failed { cancel_login, message } => {
            assert!(cancel_login);
            assert_eq!(message, "Codex login failed to start.\n\ntimed out waiting for Codex device code");
        }
        _ => panic!("expected a failure"),
    }
    match login_prompt_outcome(PromptEvent::Dropped, &mut b, 0, 0, 0) {
        PromptOutcome::Failed { cancel_login, message } => {
            assert!(!cancel_login);
            assert_eq!(
                message,
                "Codex login failed to start.\n\ncodex login task dropped before sending device code"
            );
        }
        _ => panic!("expected a failure"),
    }
    match login_prompt_outcome(PromptEvent::Failed(report("HTTP 429 Too Many Requests")), &mut b, 0, 0, 0) {
        PromptOutcome::Failed { cancel_login, message } => {
            assert!(!cancel_login);
            assert!(message.starts_with("Codex login could not start because"));
        }
        _ => panic!("expected a failure"),
    }
    assert_eq!(b.until, Some(60 * SECOND));
}

#[test]
fn completion_reports() {
    assert!(matches!(login_completion_report(true, &Ok(())), CompletionReport::Silent));
    assert!(matches!(login_completion_report(false, &Ok(())), CompletionReport::Success));
    assert!(matches!(
        login_completion_report(false, &Err(report("login cancelled by user"))),
        CompletionReport::Silent
    ));
    assert!(matches!(
        login_completion_report(true, &Err(report("boom"))),
        CompletionReport::Silent
    ));
    match login_completion_report(false, &Err(report("boom"))) {
        CompletionReport::Failure(m) => assert_eq!(m, "Codex login failed.\n\nboom: caused by x"),
        _ => panic!("expected a failure"),
    }
}

#[test]
fn pending_login_is_cleared_only_by_its_own_task() {
    assert!(clear_pending_login(Some("abc"), "abc"));
    assert!(!clear_pending_login(Some("abd"), "abc"));
    assert!(!clear_pending_login(None, "abc"));
}
