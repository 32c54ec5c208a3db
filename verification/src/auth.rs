//! The decisions of the device-code login flow: which message answers a
//! `/login` or `/logout` command, when a rate-limited login start is refused
//! for a while, and what is reported when a login finishes.
use vstd::prelude::*;
use crate::text::{
    ascii_lowercase, chars_of, contains_chars, contains_text, decimal, lowercase_chars, occurs_at,
    push_decimal, same_text,
};

verus! {

/// How long a rate-limited login start keeps further starts refused.
pub const CODEX_LOGIN_BACKOFF_SECONDS: u64 = 60;

/// Nanoseconds in a second, the unit of the clock this module reads.
pub const NANOS_PER_SECOND: u64 = 1000000000;

/// The refusal span in nanoseconds.
pub const CODEX_LOGIN_BACKOFF_NANOS: u64 = CODEX_LOGIN_BACKOFF_SECONDS * NANOS_PER_SECOND;

/// What the agent hands out when a device-code login starts.
#[derive(Clone, Debug, PartialEq, Eq)]
pub struct CodexDeviceAuthPrompt {
    pub verification_uri: String,
    pub user_code: String,
}

/// An error as the two forms in which it is shown: its own message, and its
/// message followed by its causes.
#[derive(Clone, Debug, PartialEq, Eq)]
pub struct ErrorReport {
    pub text: String,
    pub chain: String,
}

// ----------------------------------------------------------------------
// Messages
// ----------------------------------------------------------------------

/// The instructions that go with a device-code prompt.
pub open spec fn device_auth_message(
    verification_uri: Seq<char>,
    user_code: Seq<char>,
    already_running: bool,
) -> Seq<char> {
    (if already_running {
        "Codex login is already in progress."@
    } else {
        "Codex login started in headless device-code mode."@
    }) + "\n\n1. Open [auth.openai.com]("@ + verification_uri
        + ")\n2. Sign in with your OpenAI account\n3. Enter code `"@ + user_code
        + "`\n\nThe code expires in about 15 minutes. I will post the result here when the login finishes."@
}

/// The instructions for completing a device-code login: where to go and
/// which code to enter, with a first line that says whether the login has
/// just started or was already running.
pub fn format_device_auth_message(prompt: &CodexDeviceAuthPrompt, already_running: bool) -> (r:
    String)
    ensures
        r@ == device_auth_message(
            prompt.verification_uri@,
            prompt.user_code@,
            already_running,
        ),
        contains_text(r@, "Enter code `"@ + prompt.user_code@ + "`"@),
        contains_text(r@, "[auth.openai.com]("@ + prompt.verification_uri@ + ")"@),
{
    proof {
        lemma_device_auth_message_shape(prompt.verification_uri@, prompt.user_code@, already_running);
    }
    let mut r = String::new();
    if already_running {
        r.append("Codex login is already in progress.");
    } else {
        r.append("Codex login started in headless device-code mode.");
    }
    r.append("\n\n1. Open [auth.openai.com](");
    r.append(prompt.verification_uri.as_str());
    r.append(")\n2. Sign in with your OpenAI account\n3. Enter code `");
    r.append(prompt.user_code.as_str());
    r.append(
        "`\n\nThe code expires in about 15 minutes. I will post the result here when the login finishes.",
    );
    r
}

/// The answer to a request that needs a login when none is running.
pub open spec fn login_required_message() -> Seq<char> {
    "Codex is not logged in.\n\nUse `/login`, then open [auth.openai.com/codex/device](https://auth.openai.com/codex/device) and enter the one-time code from the bot."@
}

/// Tells the user that the agent is not logged in and how to log in.
pub fn codex_login_required_message() -> (r: String)
    ensures
        r@ == login_required_message(),
{
    let mut r = String::new();
    r.append(
        "Codex is not logged in.\n\nUse `/login`, then open [auth.openai.com/codex/device](https://auth.openai.com/codex/device) and enter the one-time code from the bot.",
    );
    r
}

/// `head`, followed by a blank line and `detail` when there is one.
pub open spec fn with_detail(head: Seq<char>, head_with_gap: Seq<char>, detail: Seq<char>) -> Seq<
    char,
> {
    if detail.len() == 0 {
        head
    } else {
        head_with_gap + detail
    }
}

/// The answer to `/login` when the agent is logged in already.
pub open spec fn already_logged_in_message(detail: Seq<char>) -> Seq<char> {
    with_detail("Codex is already logged in."@, "Codex is already logged in.\n\n"@, detail)
}

/// The answer to `/login` when the agent is logged in already, with the
/// status detail the agent gave.
pub fn already_logged_in(detail: &str) -> (r: String)
    ensures
        r@ == already_logged_in_message(detail@),
{
    let mut r = String::new();
    if detail.is_empty() {
        r.append("Codex is already logged in.");
    } else {
        r.append("Codex is already logged in.\n\n");
        r.append(detail);
    }
    r
}

/// The answer to `/logout`.
pub open spec fn logout_message(detail: Seq<char>) -> Seq<char> {
    if detail.len() == 0 {
        "Codex credentials removed."@
    } else {
        "Codex logout completed.\n\n"@ + detail
    }
}

/// The answer to `/logout`, with what the agent said when it logged out.
pub fn logout_reply(detail: &str) -> (r: String)
    ensures
        r@ == logout_message(detail@),
{
    let mut r = String::new();
    if detail.is_empty() {
        r.append("Codex credentials removed.");
    } else {
        r.append("Codex logout completed.\n\n");
        r.append(detail);
    }
    r
}

/// What is posted when a login has completed.
pub open spec fn login_completed_message(detail: Seq<char>) -> Seq<char> {
    with_detail("Codex login completed."@, "Codex login completed.\n\n"@, detail)
}

/// What is posted when a login has completed, with the new status detail.
pub fn login_completed(detail: &str) -> (r: String)
    ensures
        r@ == login_completed_message(detail@),
{
    let mut r = String::new();
    if detail.is_empty() {
        r.append("Codex login completed.");
    } else {
        r.append("Codex login completed.\n\n");
        r.append(detail);
    }
    r
}

// ----------------------------------------------------------------------
// Rate limiting
// ----------------------------------------------------------------------

/// An error message says, in any letter case, that the login endpoint
/// refused for too many requests.
pub open spec fn mentions_rate_limit(text: Seq<char>) -> bool {
    ||| contains_text(ascii_lowercase(text), "429 too many requests"@)
    ||| contains_text(ascii_lowercase(text), "rate limit"@)
}

/// Whether a login error is the endpoint's rate limit.
pub fn is_login_rate_limited(error_text: &str) -> (r: bool)
    ensures
        r == mentions_rate_limit(error_text@),
        contains_text(ascii_lowercase(error_text@), "rate limit"@) ==> r,
        contains_text(ascii_lowercase(error_text@), "429 too many requests"@) ==> r,
        r ==> contains_text(ascii_lowercase(error_text@), "rate limit"@) || contains_text(
            ascii_lowercase(error_text@),
            "429 too many requests"@,
        ),
{
    let chars = chars_of(error_text);
    let lower = lowercase_chars(chars.as_slice());
    let too_many = chars_of("429 too many requests");
    let rate_limit = chars_of("rate limit");
    contains_chars(lower.as_slice(), too_many.as_slice()) || contains_chars(
        lower.as_slice(),
        rate_limit.as_slice(),
    )
}

/// The answer while login starts are refused, `seconds` before they are
/// allowed again.
pub open spec fn backoff_wait_message(seconds: nat) -> Seq<char> {
    "Codex login is temporarily rate limited.\n\nWait about "@ + decimal(seconds)
        + "s, then try `/login` again."@
}

/// The whole seconds from `now` until `until` (nanosecond clock readings),
/// at least one (`Duration::as_secs` of the saturating difference, then
/// `max(1)`).
pub open spec fn seconds_left(until: int, now: int) -> nat {
    if (until - now) / NANOS_PER_SECOND as int >= 1 {
        ((until - now) / NANOS_PER_SECOND as int) as nat
    } else {
        1
    }
}

/// The refusal window after a failed login start whose window would open at
/// the reading `start`: a new one when the error was the rate limit, else
/// the one there was.
pub open spec fn backoff_after_failure(until: Option<u64>, error_text: Seq<char>, start: int) -> Option<
    u64,
> {
    if mentions_rate_limit(error_text) {
        Some((start + CODEX_LOGIN_BACKOFF_NANOS) as u64)
    } else {
        until
    }
}

/// The refusal window after it is read (an expired window is dropped; the
/// clock is read once to test expiry, at `check`, and once more for the
/// seconds left, at `now`), and the answer while it is open.
pub open spec fn backoff_reply(until: Option<u64>, check: int, now: int) -> (
    Option<u64>,
    Option<Seq<char>>,
) {
    match until {
        None => (None, None),
        Some(u) => if u <= check {
            (None, None)
        } else {
            (until, Some(backoff_wait_message(seconds_left(u as int, now))))
        },
    }
}

/// When login starts are refused after the endpoint's rate limit.
pub struct LoginBackoff {
    /// The clock reading (nanoseconds) at which starts are allowed again.
    pub until: Option<u64>,
}

impl LoginBackoff {
    /// No refusal in force.
    pub fn new() -> (r: Self)
        ensures
            r.until is None,
    {
        LoginBackoff { until: None }
    }

    /// After a failed login start: when the error is the rate limit, refuse
    /// further starts until a minute after the reading `start`.
    pub fn maybe_start_login_backoff(&mut self, error_text: &str, start: u64)
        requires
            start + CODEX_LOGIN_BACKOFF_NANOS <= u64::MAX,
        ensures
            final(self).until == backoff_after_failure(old(self).until, error_text@, start as int),
    {
        if is_login_rate_limited(error_text) {
            self.until = Some(start + CODEX_LOGIN_BACKOFF_NANOS);
        }
    }

    /// The answer to a login start while starts are refused, with the
    /// seconds still to wait; an expired refusal is dropped. The clock is
    /// read at `check` for expiry and at `now` for the seconds left.
    pub fn active_login_backoff_message(&mut self, check: u64, now: u64) -> (r: Option<String>)
        requires
            check <= now,
        ensures
            final(self).until == backoff_reply(old(self).until, check as int, now as int).0,
            match r {
                None => backoff_reply(old(self).until, check as int, now as int).1 is None,
                Some(m) => backoff_reply(old(self).until, check as int, now as int).1 == Some(m@),
            },
    {
        let until = match self.until {
            Some(u) => u,
            None => return None,
        };
        if until <= check {
            self.until = None;
            return None;
        }
        let whole = if until > now {
            (until - now) / NANOS_PER_SECOND
        } else {
            0
        };
        let seconds = if whole >= 1 {
            whole
        } else {
            1
        };
        let mut m = String::new();
        m.append("Codex login is temporarily rate limited.\n\nWait about ");
        push_decimal(&mut m, seconds);
        m.append("s, then try `/login` again.");
        Some(m)
    }

    /// The message for a login start that failed with `error`: while a
    /// rate-limit refusal is in force the wait is given, else the error.
    pub fn format_login_failure_message(&mut self, error: &ErrorReport, check: u64, now: u64) -> (r:
        String)
        requires
            check <= now,
        ensures
            mentions_rate_limit(error.text@) ==> final(self).until == backoff_reply(
                old(self).until,
                check as int,
                now as int,
            ).0,
            !mentions_rate_limit(error.text@) ==> final(self).until == old(self).until,
            r@ == failure_message(
                old(self).until,
                error.text@,
                error.chain@,
                check as int,
                now as int,
            ),
    {
        if is_login_rate_limited(error.text.as_str()) {
            if let Some(backoff) = self.active_login_backoff_message(check, now) {
                let mut r = String::new();
                r.append(
                    "Codex login could not start because the device-code endpoint is rate limited.\n\n",
                );
                r.append(backoff.as_str());
                return r;
            }
        }
        let mut r = String::new();
        r.append("Codex login failed to start.\n\n");
        r.append(error.chain.as_str());
        r
    }

    /// A login start failed with `error`: the refusal window is opened (from
    /// the reading `start`) if the error is the rate limit, and the message
    /// to post is given (the window read at `check` and `now`).
    pub fn handle_login_start_failure(
        &mut self,
        error: &ErrorReport,
        start: u64,
        check: u64,
        now: u64,
    ) -> (r: String)
        requires
            start <= check <= now,
            start + CODEX_LOGIN_BACKOFF_NANOS <= u64::MAX,
        ensures
            final(self).until == start_failure_state(
                old(self).until,
                error.text@,
                start as int,
                check as int,
                now as int,
            ),
            r@ == start_failure_message(
                old(self).until,
                error.text@,
                error.chain@,
                start as int,
                check as int,
                now as int,
            ),
    {
        self.maybe_start_login_backoff(error.text.as_str(), start);
        self.format_login_failure_message(error, check, now)
    }
}

/// The message for a failed login start (see `format_login_failure_message`).
pub open spec fn failure_message(
    until: Option<u64>,
    text: Seq<char>,
    chain: Seq<char>,
    check: int,
    now: int,
) -> Seq<char> {
    if mentions_rate_limit(text) && backoff_reply(until, check, now).1 is Some {
        "Codex login could not start because the device-code endpoint is rate limited.\n\n"@
            + backoff_reply(until, check, now).1.unwrap()
    } else {
        "Codex login failed to start.\n\n"@ + chain
    }
}

/// The refusal window after a login start failed.
pub open spec fn start_failure_state(
    until: Option<u64>,
    text: Seq<char>,
    start: int,
    check: int,
    now: int,
) -> Option<u64> {
    let opened = backoff_after_failure(until, text, start);
    if mentions_rate_limit(text) {
        backoff_reply(opened, check, now).0
    } else {
        opened
    }
}

/// The message posted when a login start failed.
pub open spec fn start_failure_message(
    until: Option<u64>,
    text: Seq<char>,
    chain: Seq<char>,
    start: int,
    check: int,
    now: int,
) -> Seq<char> {
    failure_message(backoff_after_failure(until, text, start), text, chain, check, now)
}

// ----------------------------------------------------------------------
// The login flow's decisions
// ----------------------------------------------------------------------

/// The reply to a message that needs the agent when it may not be logged
/// in: nothing when it is, the running login's instructions when one is
/// pending, else how to log in.
pub fn ensure_codex_authenticated(
    authenticated: bool,
    pending: Option<&CodexDeviceAuthPrompt>,
) -> (r: Option<String>)
    ensures
        authenticated ==> r is None,
        !authenticated ==> r is Some,
        !authenticated ==> match pending {
            Some(p) => r.unwrap()@ == device_auth_message(
                p.verification_uri@,
                p.user_code@,
                true,
            ),
            None => r.unwrap()@ == login_required_message(),
        },
{
    if authenticated {
        return None;
    }
    match pending {
        Some(p) => Some(format_device_auth_message(p, true)),
        None => Some(codex_login_required_message()),
    }
}

/// What a `/login` command leads to.
pub enum LoginCommandAction {
    /// Answer with a status message.
    ReplyStatus(String),
    /// Answer with a Markdown message.
    ReplyMarkdown(String),
    /// Start a device-code login.
    StartLogin,
}

/// The decision for a `/login` command: a logged-in agent is reported as
/// such; while starts are refused the wait is given (the refusal read at
/// `check` and `now`); a pending login's instructions are repeated; else a
/// login starts.
pub fn handle_login_command(
    authenticated: bool,
    status_detail: &str,
    backoff: &mut LoginBackoff,
    pending: Option<&CodexDeviceAuthPrompt>,
    check: u64,
    now: u64,
) -> (r: LoginCommandAction)
    requires
        check <= now,
    ensures
        authenticated ==> final(backoff).until == old(backoff).until,
        authenticated ==> (r matches LoginCommandAction::ReplyStatus(m) && m@
            == already_logged_in_message(status_detail@)),
        !authenticated ==> final(backoff).until == backoff_reply(
            old(backoff).until,
            check as int,
            now as int,
        ).0,
        !authenticated && backoff_reply(old(backoff).until, check as int, now as int).1 is Some
            ==> (r matches LoginCommandAction::ReplyMarkdown(m) && Some(m@) == backoff_reply(
            old(backoff).until,
            check as int,
            now as int,
        ).1),
        !authenticated && backoff_reply(old(backoff).until, check as int, now as int).1 is None
            && pending is Some ==> (r matches LoginCommandAction::ReplyMarkdown(m) && m@
            == device_auth_message(
            pending.unwrap().verification_uri@,
            pending.unwrap().user_code@,
            true,
        )),
        !authenticated && backoff_reply(old(backoff).until, check as int, now as int).1 is None
            && pending is None ==> r is StartLogin,
{
    if authenticated {
        return LoginCommandAction::ReplyStatus(already_logged_in(status_detail));
    }
    if let Some(message) = backoff.active_login_backoff_message(check, now) {
        return LoginCommandAction::ReplyMarkdown(message);
    }
    match pending {
        Some(p) => LoginCommandAction::ReplyMarkdown(format_device_auth_message(p, true)),
        None => LoginCommandAction::StartLogin,
    }
}

/// How waiting for the device code of a login that was just started ended.
pub enum PromptEvent {
    /// The code arrived.
    Ready(CodexDeviceAuthPrompt),
    /// The login task failed before it had a code.
    Failed(ErrorReport),
    /// The login task ended without sending anything.
    Dropped,
    /// No code came in time.
    TimedOut,
}

/// What follows from a `PromptEvent`.
pub enum PromptOutcome {
    /// Keep the login as pending and post its instructions.
    Started(String),
    /// Post `message`; when `cancel_login` holds, cancel the login task.
    Failed { cancel_login: bool, message: String },
}

/// The error for a login task that ended without sending a code.
pub open spec fn dropped_error() -> Seq<char> {
    "codex login task dropped before sending device code"@
}

/// The error for a device code that did not come in time.
pub open spec fn timed_out_error() -> Seq<char> {
    "timed out waiting for Codex device code"@
}

/// The decision once waiting for the device code has ended: a code is
/// posted with its instructions; any failure goes through
/// `handle_login_start_failure` (with the clock readings `start`, `check`
/// and `now`), and a timeout also cancels the login.
pub fn login_prompt_outcome(
    event: PromptEvent,
    backoff: &mut LoginBackoff,
    start: u64,
    check: u64,
    now: u64,
) -> (r: PromptOutcome)
    requires
        start <= check <= now,
        start + CODEX_LOGIN_BACKOFF_NANOS <= u64::MAX,
    ensures
        match event {
            PromptEvent::Ready(p) => {
                &&& final(backoff).until == old(backoff).until
                &&& (r matches PromptOutcome::Started(m) && m@ == device_auth_message(
                    p.verification_uri@,
                    p.user_code@,
                    false,
                ))
            },
            PromptEvent::Failed(e) => {
                &&& final(backoff).until == start_failure_state(
                    old(backoff).until,
                    e.text@,
                    start as int,
                    check as int,
                    now as int,
                )
                &&& (r matches PromptOutcome::Failed { cancel_login, message } && !cancel_login
                    && message@ == start_failure_message(
                    old(backoff).until,
                    e.text@,
                    e.chain@,
                    start as int,
                    check as int,
                    now as int,
                ))
            },
            PromptEvent::Dropped => {
                &&& final(backoff).until == start_failure_state(
                    old(backoff).until,
                    dropped_error(),
                    start as int,
                    check as int,
                    now as int,
                )
                &&& (r matches PromptOutcome::Failed { cancel_login, message } && !cancel_login
                    && message@ == start_failure_message(
                    old(backoff).until,
                    dropped_error(),
                    dropped_error(),
                    start as int,
                    check as int,
                    now as int,
                ))
            },
            PromptEvent::TimedOut => {
                &&& final(backoff).until == start_failure_state(
                    old(backoff).until,
                    timed_out_error(),
                    start as int,
                    check as int,
                    now as int,
                )
                &&& (r matches PromptOutcome::Failed { cancel_login, message } && cancel_login
                    && message@ == start_failure_message(
                    old(backoff).until,
                    timed_out_error(),
                    timed_out_error(),
                    start as int,
                    check as int,
                    now as int,
                ))
            },
        },
{
    match event {
        PromptEvent::Ready(p) => PromptOutcome::Started(format_device_auth_message(&p, false)),
        PromptEvent::Failed(e) => {
            let message = backoff.handle_login_start_failure(&e, start, check, now);
            PromptOutcome::Failed { cancel_login: false, message }
        },
        PromptEvent::Dropped => {
            let mut text = String::new();
            text.append("codex login task dropped before sending device code");
            let e = ErrorReport { text: text.clone(), chain: text };
            let message = backoff.handle_login_start_failure(&e, start, check, now);
            PromptOutcome::Failed { cancel_login: false, message }
        },
        PromptEvent::TimedOut => {
            let mut text = String::new();
            text.append("timed out waiting for Codex device code");
            let e = ErrorReport { text: text.clone(), chain: text };
            let message = backoff.handle_login_start_failure(&e, start, check, now);
            PromptOutcome::Failed { cancel_login: true, message }
        },
    }
}

/// What is posted when a running login ends.
pub enum CompletionReport {
    /// Nothing: the login was cancelled.
    Silent,
    /// The login succeeded: post `login_completed` with the new status.
    Success,
    /// The login failed: post this message.
    Failure(String),
}

/// The error text says the login was cancelled.
pub open spec fn mentions_cancelled(text: Seq<char>) -> bool {
    contains_text(text, "cancelled"@)
}

/// The message for a login that failed with the error chain `chain`.
pub open spec fn login_failed_message(chain: Seq<char>) -> Seq<char> {
    "Codex login failed.\n\n"@ + chain
}

/// The decision when a running login ends: a cancelled login (cancelled by
/// the bot, or failing with a cancellation error) stays silent; otherwise
/// success or the failure is reported.
pub fn login_completion_report(cancelled: bool, outcome: &Result<(), ErrorReport>) -> (r:
    CompletionReport)
    ensures
        match outcome {
            Ok(()) => if cancelled {
                r is Silent
            } else {
                r is Success
            },
            Err(e) => if cancelled || mentions_cancelled(e.text@) {
                r is Silent
            } else {
                (r matches CompletionReport::Failure(m) && m@ == login_failed_message(e.chain@))
            },
        },
{
    match outcome {
        Ok(()) => if cancelled {
            CompletionReport::Silent
        } else {
            CompletionReport::Success
        },
        Err(e) => {
            let text = chars_of(e.text.as_str());
            let needle = chars_of("cancelled");
            if cancelled || contains_chars(text.as_slice(), needle.as_slice()) {
                CompletionReport::Silent
            } else {
                let mut m = String::new();
                m.append("Codex login failed.\n\n");
                m.append(e.chain.as_str());
                CompletionReport::Failure(m)
            }
        },
    }
}

/// Whether the pending login is the one with id `login_id`, so that its end
/// clears it; a newer pending login is left alone.
pub fn clear_pending_login(pending_id: Option<&str>, login_id: &str) -> (r: bool)
    ensures
        r == (pending_id is Some && pending_id.unwrap()@ == login_id@),
{
    match pending_id {
        Some(id) => same_text(id, login_id),
        None => false,
    }
}

// ----------------------------------------------------------------------
// Laws
// ----------------------------------------------------------------------

/// A login start refused by the endpoint's rate limit opens a refusal
/// window of one minute from the reading `t` at which it opened; the
/// failure is answered with the whole seconds left at the reading `t2` the
/// message is written at (60 when no time has passed). Every later start
/// whose expiry check `c` falls inside the minute is refused with the whole
/// seconds left at its reading `n` (between 1 and 60); once the minute has
/// passed starts are allowed again and the refusal is dropped.
pub proof fn lemma_rate_limited_start_refuses_for_a_minute(
    until: Option<u64>,
    text: Seq<char>,
    chain: Seq<char>,
    t: int,
    t1: int,
    t2: int,
    c: int,
    n: int,
)
    requires
        mentions_rate_limit(text),
        0 <= t <= t1 <= t2,
        t + CODEX_LOGIN_BACKOFF_NANOS <= u64::MAX,
        t <= c <= n,
    ensures
        t1 < t + CODEX_LOGIN_BACKOFF_NANOS ==> start_failure_state(until, text, t, t1, t2) == Some(
            (t + CODEX_LOGIN_BACKOFF_NANOS) as u64,
        ),
        t1 < t + CODEX_LOGIN_BACKOFF_NANOS ==> start_failure_message(until, text, chain, t, t1, t2)
            == "Codex login could not start because the device-code endpoint is rate limited.\n\n"@
            + backoff_wait_message(seconds_left(t + CODEX_LOGIN_BACKOFF_NANOS, t2)),
        seconds_left(t + CODEX_LOGIN_BACKOFF_NANOS, t) == 60,
        c < t + CODEX_LOGIN_BACKOFF_NANOS ==> {
            &&& backoff_reply(Some((t + CODEX_LOGIN_BACKOFF_NANOS) as u64), c, n).0 == Some(
                (t + CODEX_LOGIN_BACKOFF_NANOS) as u64,
            )
            &&& backoff_reply(Some((t + CODEX_LOGIN_BACKOFF_NANOS) as u64), c, n).1 == Some(
                backoff_wait_message(seconds_left(t + CODEX_LOGIN_BACKOFF_NANOS, n)),
            )
            &&& 1 <= seconds_left(t + CODEX_LOGIN_BACKOFF_NANOS, n) <= 60
        },
        c >= t + CODEX_LOGIN_BACKOFF_NANOS ==> backoff_reply(
            Some((t + CODEX_LOGIN_BACKOFF_NANOS) as u64),
            c,
            n,
        ) == (None::<u64>, None::<Seq<char>>),
{
    assert(CODEX_LOGIN_BACKOFF_NANOS == 60000000000);
}

/// An error counts as the rate limit whenever either phrase stands, in any
/// letter case, at any position of its text; and only then.
pub proof fn lemma_rate_limit_phrase_anywhere(text: Seq<char>, i: int)
    ensures
        occurs_at(ascii_lowercase(text), "rate limit"@, i) ==> mentions_rate_limit(text),
        occurs_at(ascii_lowercase(text), "429 too many requests"@, i) ==> mentions_rate_limit(
            text,
        ),
        mentions_rate_limit(text) ==> contains_text(ascii_lowercase(text), "rate limit"@)
            || contains_text(ascii_lowercase(text), "429 too many requests"@),
{
}

proof fn lemma_lowercase_concat(a: Seq<char>, b: Seq<char>)
    ensures
        ascii_lowercase(a + b) == ascii_lowercase(a) + ascii_lowercase(b),
{
    assert(ascii_lowercase(a + b) =~= ascii_lowercase(a) + ascii_lowercase(b));
}

proof fn lemma_occurs_shift(a: Seq<char>, t: Seq<char>, b: Seq<char>, n: Seq<char>, i: int)
    requires
        occurs_at(t, n, i),
    ensures
        occurs_at(a + t + b, n, a.len() + i),
{
    assert((a + t + b).subrange(a.len() + i, a.len() + i + n.len()) =~= t.subrange(
        i,
        i + n.len(),
    ));
}

/// Text around a rate-limit error does not hide it: if `text` is the rate
/// limit, so is any text that holds it.
pub proof fn lemma_rate_limit_in_context(before: Seq<char>, text: Seq<char>, after: Seq<char>)
    ensures
        mentions_rate_limit(text) ==> mentions_rate_limit(before + text + after),
{
    lemma_lowercase_concat(before, text);
    lemma_lowercase_concat(before + text, after);
    let whole = ascii_lowercase(before + text + after);
    assert(whole == ascii_lowercase(before) + ascii_lowercase(text) + ascii_lowercase(after));
    if contains_text(ascii_lowercase(text), "rate limit"@) {
        let i = choose|i: int| #[trigger] occurs_at(ascii_lowercase(text), "rate limit"@, i);
        lemma_occurs_shift(ascii_lowercase(before), ascii_lowercase(text), ascii_lowercase(after), "rate limit"@, i);
        assert(occurs_at(whole, "rate limit"@, ascii_lowercase(before).len() + i));
    } else if contains_text(ascii_lowercase(text), "429 too many requests"@) {
        let i = choose|i: int|
            #[trigger] occurs_at(ascii_lowercase(text), "429 too many requests"@, i);
        lemma_occurs_shift(
            ascii_lowercase(before),
            ascii_lowercase(text),
            ascii_lowercase(after),
            "429 too many requests"@,
            i,
        );
        assert(occurs_at(whole, "429 too many requests"@, ascii_lowercase(before).len() + i));
    }
}

/// The instructions for a pending login and for one just started differ
/// only in their first line; both show where to go and which code to enter.
pub proof fn lemma_device_auth_message_shape(uri: Seq<char>, code: Seq<char>, already_running: bool)
    ensures
        exists|rest: Seq<char>|
            device_auth_message(uri, code, true) == "Codex login is already in progress."@ + rest
                && device_auth_message(uri, code, false)
                == "Codex login started in headless device-code mode."@ + rest,
        contains_text(device_auth_message(uri, code, already_running), "Enter code `"@ + code + "`"@),
        contains_text(device_auth_message(uri, code, already_running), "[auth.openai.com]("@ + uri + ")"@),
{
    let head: Seq<char> = if already_running {
        "Codex login is already in progress."@
    } else {
        "Codex login started in headless device-code mode."@
    };
    let a: Seq<char> = "\n\n1. Open [auth.openai.com]("@;
    let b: Seq<char> = ")\n2. Sign in with your OpenAI account\n3. Enter code `"@;
    let c: Seq<char> = "`\n\nThe code expires in about 15 minutes. I will post the result here when the login finishes."@;
    let rest = a + uri + b + code + c;
    assert(device_auth_message(uri, code, true) =~= "Codex login is already in progress."@ + rest);
    assert(device_auth_message(uri, code, false) =~= "Codex login started in headless device-code mode."@ + rest);
    reveal_strlit("\n\n1. Open [auth.openai.com](");
    reveal_strlit("[auth.openai.com](");
    reveal_strlit(")\n2. Sign in with your OpenAI account\n3. Enter code `");
    reveal_strlit("Enter code `");
    reveal_strlit(")");
    reveal_strlit("`");
    reveal_strlit("`\n\nThe code expires in about 15 minutes. I will post the result here when the login finishes.");
    let m = device_auth_message(uri, code, already_running);
    assert(m =~= head + a + uri + b + code + c);
    let needle: Seq<char> = "Enter code `"@ + code + "`"@;
    let p = head.len() + a.len() + uri.len() + b.len() - 12;
    assert(m.subrange(p, p + needle.len()) =~= needle);
    assert(occurs_at(m, needle, p));
    let link: Seq<char> = "[auth.openai.com]("@ + uri + ")"@;
    let q = head.len() + a.len() - 18;
    assert(m.subrange(q, q + link.len()) =~= link);
    assert(occurs_at(m, link, q));
}

proof fn lemma_ascii_lowercase_idempotent(s: Seq<char>)
    ensures
        ascii_lowercase(ascii_lowercase(s)) == ascii_lowercase(s),
{
    assert(ascii_lowercase(ascii_lowercase(s)) =~= ascii_lowercase(s));
}

/// Whether an error is the rate limit does not depend on letter case.
pub proof fn lemma_rate_limit_ignores_case(text: Seq<char>)
    ensures
        mentions_rate_limit(ascii_lowercase(text)) == mentions_rate_limit(text),
{
    lemma_ascii_lowercase_idempotent(text);
}

} // verus!
