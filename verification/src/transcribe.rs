//! The decisions around a transcription request: whether the token is usable,
//! what an HTTP response means, and how attempts are retried.
use vstd::prelude::*;
use vstd::string::StringExecFns;
use vstd::string::StringSliceAdditionalSpecFns;
use vstd::utf8::encode_utf8;
use crate::base64::{base64url, base64url_decode};
use crate::config::Creds;
use crate::json::{json_str_member, json_u64_member, read_str_member, read_u64_member};
use crate::text::{
    chars_of, decimal, decimal_chars, has_prefix, opt_view, slice_of, split, split_on, string_of,
    views,
};

verus! {

/// How many times a transcription is attempted.
pub const ATTEMPTS: usize = 3;

/// How long one attempt may take, in seconds.
pub const PER_TRY_SECS: u64 = 10;

/// The endpoint that transcribes audio.
pub const TRANSCRIBE_URL: &'static str = "https://chatgpt.com/backend-api/transcribe";

// ---------------------------------------------------------------------------
// Token checks
// ---------------------------------------------------------------------------

pub open spec fn malformed_message() -> Seq<char> {
    "TOKEN in creds.env is not a JWT (expected three dot-separated parts). Restart ptt, choose \"Replace credentials\", then paste a fresh Chrome DevTools cURL."@
}

pub open spec fn unreadable_message() -> Seq<char> {
    "TOKEN in creds.env is not a readable JWT. Restart ptt, choose \"Replace credentials\", then paste a fresh Chrome DevTools cURL."@
}

pub open spec fn bad_payload_message() -> Seq<char> {
    "TOKEN in creds.env has an invalid JWT payload. Restart ptt, choose \"Replace credentials\", then paste a fresh Chrome DevTools cURL."@
}

pub open spec fn expired_message(exp: u64, now: u64) -> Seq<char> {
    "TOKEN in creds.env is expired (exp="@ + decimal(exp as nat) + ", now="@ + decimal(now as nat)
        + "). Restart ptt, choose \"Replace credentials\", then paste a fresh Chrome DevTools cURL."@
}

/// The `exp` claim of a token (`None` when it has none as a `u64`), or why
/// the token is not a usable JWT: not exactly three dot-separated parts, a
/// payload that is not base64url, or a payload that is not JSON.
pub open spec fn token_expiry(token: Seq<char>) -> Result<Option<u64>, Seq<char>> {
    let parts = split_on(token, '.');
    if parts.len() != 3 {
        Err(malformed_message())
    } else {
        match base64url(encode_utf8(parts[1])) {
            None => Err(unreadable_message()),
            Some(payload) => match json_u64_member(payload, "exp"@) {
                None => Err(bad_payload_message()),
                Some(exp) => Ok(exp),
            },
        }
    }
}

/// Whether a token with expiry `exp` is accepted at time `now` (seconds
/// since the epoch): one with an `exp` claim is refused from that second on.
pub open spec fn expiry_ok(exp: Option<u64>, now: u64) -> Result<(), Seq<char>> {
    match exp {
        None => Ok(()),
        Some(e) => if now >= e {
            Err(expired_message(e, now))
        } else {
            Ok(())
        },
    }
}

/// Whether a token is accepted at time `now`.
pub open spec fn token_check(token: Seq<char>, now: u64) -> Result<(), Seq<char>> {
    match token_expiry(token) {
        Err(e) => Err(e),
        Ok(exp) => expiry_ok(exp, now),
    }
}

/// The error for a token that is not a JWT (`malformed_token`).
pub fn malformed_token() -> (r: Result<(), String>)
    ensures
        r matches Err(m) && m@ == malformed_message(),
{
    Err(
        String::from_str(
            "TOKEN in creds.env is not a JWT (expected three dot-separated parts). Restart ptt, choose \"Replace credentials\", then paste a fresh Chrome DevTools cURL.",
        ),
    )
}

/// The `exp` claim of a JWT, or why it is not a usable one.
pub fn token_exp(token: &str) -> (r: Result<Option<u64>, String>)
    ensures
        match token_expiry(token@) {
            Ok(e) => r == Ok::<Option<u64>, String>(e),
            Err(e) => r matches Err(m) && m@ == e,
        },
{
    let cs = chars_of(token);
    let parts = split(cs.as_slice(), '.');
    if parts.len() != 3 {
        return match malformed_token() {
            Ok(()) => Ok(None),
            Err(m) => Err(m),
        };
    }
    assert(views(parts@)[1] == parts@[1]@);
    let payload_text = string_of(parts[1].as_slice());
    let payload = match base64url_decode(payload_text.as_str()) {
        Ok(p) => p,
        Err(_) => {
            return Err(
                String::from_str(
                    "TOKEN in creds.env is not a readable JWT. Restart ptt, choose \"Replace credentials\", then paste a fresh Chrome DevTools cURL.",
                ),
            );
        },
    };
    match read_u64_member(payload.as_slice(), "exp") {
        Some(exp) => Ok(exp),
        None => Err(
            String::from_str(
                "TOKEN in creds.env has an invalid JWT payload. Restart ptt, choose \"Replace credentials\", then paste a fresh Chrome DevTools cURL.",
            ),
        ),
    }
}

/// Law: a token with expiry `exp` is accepted at time `now` exactly while
/// `now < exp`, and refused with both numbers from that second on; a token
/// without `exp` is always accepted.
pub proof fn lemma_expiry_threshold(exp: u64, now: u64)
    ensures
        expiry_ok(Some(exp), now) is Ok <==> now < exp,
        exp <= now ==> expiry_ok(Some(exp), now) == Err::<(), Seq<char>>(
            "TOKEN in creds.env is expired (exp="@ + decimal(exp as nat) + ", now="@ + decimal(
                now as nat,
            )
                + "). Restart ptt, choose \"Replace credentials\", then paste a fresh Chrome DevTools cURL."@,
        ),
        expiry_ok(None, now) is Ok,
{
}

/// The refusal of a token that expired at `exp`, seen at `now`.
fn expired_token(exp: u64, now: u64) -> (r: String)
    ensures
        r@ == expired_message(exp, now),
{
    let e = string_of(decimal_chars(exp).as_slice());
    let n = string_of(decimal_chars(now).as_slice());
    String::from_str("TOKEN in creds.env is expired (exp=").concat(e.as_str()).concat(
        ", now=",
    ).concat(n.as_str()).concat(
        "). Restart ptt, choose \"Replace credentials\", then paste a fresh Chrome DevTools cURL.",
    )
}

/// Checks a token's shape and expiry at time `now`, in seconds since the epoch.
pub fn validate_token_at(token: &str, now: u64) -> (r: Result<(), String>)
    ensures
        match token_check(token@, now) {
            Ok(()) => r is Ok,
            Err(e) => r matches Err(m) && m@ == e,
        },
{
    match token_exp(token) {
        Err(e) => Err(e),
        Ok(exp) => check_expiry(exp, now),
    }
}

/// Checks a token's `exp` claim at time `now`.
pub fn check_expiry(exp: Option<u64>, now: u64) -> (r: Result<(), String>)
    ensures
        match expiry_ok(exp, now) {
            Ok(()) => r is Ok,
            Err(e) => r matches Err(m) && m@ == e,
        },
{
    match exp {
        None => Ok(()),
        Some(e) => {
            if now >= e {
                Err(expired_token(e, now))
            } else {
                Ok(())
            }
        },
    }
}

/// `std::time::SystemTime`, opaque to the proofs.
#[verifier::external_type_specification]
#[verifier::external_body]
pub struct ExSystemTime(std::time::SystemTime);

/// `SystemTime::now`: the system clock's reading. Nothing is claimed of it.
#[verifier::external_body]
fn clock_now() -> (r: std::time::SystemTime) {
    std::time::SystemTime::now()
}

/// `SystemTime::duration_since(UNIX_EPOCH)`: the time since the Unix epoch,
/// or the error's `Display` text when `t` lies before it. Nothing is claimed
/// of either.
#[verifier::external_body]
fn since_epoch(t: &std::time::SystemTime) -> (r: Result<std::time::Duration, String>) {
    match t.duration_since(std::time::UNIX_EPOCH) {
        Ok(d) => Ok(d),
        Err(e) => Err(e.to_string()),
    }
}

/// `Duration::as_secs`: the whole seconds of `d`. Nothing is claimed of them,
/// as the duration is opaque to the proofs.
#[verifier::external_body]
fn whole_seconds(d: &std::time::Duration) -> (r: u64) {
    d.as_secs()
}

/// Whether `now` is what `whole_seconds` reads from the duration `d`.
pub closed spec fn seconds_read(d: std::time::Duration, now: u64) -> bool {
    call_ensures(whole_seconds, (&d,), now)
}

/// Whether `e` is the error that `since_epoch` gives for the clock reading `t`.
pub closed spec fn clock_error(t: std::time::SystemTime, e: String) -> bool {
    call_ensures(since_epoch, (&t,), Err::<std::time::Duration, String>(e))
}

/// What `f` gives for `a`, with the relation `f` promises between them.
fn apply<A, R>(a: &A, f: impl Fn(&A) -> R) -> (r: R)
    requires
        call_requires(f, (a,)),
    ensures
        call_ensures(f, (a,), r),
{
    f(a)
}

/// Checks a token's shape, then its expiry against the system clock
/// (`validate_token`). A token that is not a usable JWT is refused exactly
/// as `token_expiry` says; one without `exp` is accepted; for one with
/// `exp`, the result is either the clock's error, or exactly the check of
/// `exp` against the whole seconds that `whole_seconds` read from the time
/// since the epoch: accepted while they are below `exp`, refused with both
/// numbers from then on.
pub fn validate_token(token: &str) -> (r: Result<(), String>)
    ensures
        match token_expiry(token@) {
            Err(e) => r matches Err(m) && m@ == e,
            Ok(None) => r is Ok,
            Ok(Some(exp)) => {
                &&& r is Ok ==> exists|now: u64| #[trigger] expiry_ok(Some(exp), now) is Ok
                &&& r matches Err(m) ==> has_prefix(m@, "system clock error: "@) || exists|
                    now: u64,
                |
                    now >= exp && m@ == expired_message(exp, now)
                &&& {
                    ||| exists|t: std::time::SystemTime, e: String| #[trigger] clock_error(t, e)
                        && (r matches Err(m) && m@ == "system clock error: "@ + e@)
                    ||| exists|d: std::time::Duration, now: u64| #[trigger] seconds_read(d, now)
                        && match expiry_ok(Some(exp), now) {
                        Ok(()) => r is Ok,
                        Err(e) => r matches Err(m) && m@ == e,
                    }
                }
            },
        },
{
    match token_exp(token) {
        Err(e) => Err(e),
        Ok(None) => Ok(()),
        Ok(Some(exp)) => {
            let t = clock_now();
            let d = match apply(&t, since_epoch) {
                Ok(d) => d,
                Err(e) => {
                    assert(clock_error(t, e));
                    let m = String::from_str("system clock error: ").concat(e.as_str());
                    assert(m@.take("system clock error: "@.len() as int) =~= "system clock error: "@);
                    return Err(m);
                },
            };
            let now = apply(&d, whole_seconds);
            assert(seconds_read(d, now));
            let r = validate_token_at(token, now);
            assert(r matches Err(m) ==> now >= exp && m@ == expired_message(exp, now));
            assert(r is Ok ==> expiry_ok(Some(exp), now) is Ok);
            r
        },
    }
}

// ---------------------------------------------------------------------------
// Responses
// ---------------------------------------------------------------------------

/// One attempt's outcome: finish with text, give up at once, or try again.
pub enum Step {
    Done(String),
    FailFast(String),
    Retry(String),
}

pub enum StepView {
    Done(Seq<char>),
    FailFast(Seq<char>),
    Retry(Seq<char>),
}

impl View for Step {
    type V = StepView;

    open spec fn view(&self) -> StepView {
        match self {
            Step::Done(t) => StepView::Done(t@),
            Step::FailFast(e) => StepView::FailFast(e@),
            Step::Retry(e) => StepView::Retry(e@),
        }
    }
}

pub open spec fn unauthorized_message() -> Seq<char> {
    "ChatGPT rejected TOKEN (HTTP 401). The token is invalid, expired, or no longer matches the session. Restart ptt, choose \"Replace credentials\", then paste a fresh Chrome DevTools cURL. Response: "@
}

pub open spec fn forbidden_message() -> Seq<char> {
    "ChatGPT rejected the session (HTTP 403). TOKEN may be valid, but cookies/Cloudflare clearance are stale or bound to a different browser/IP. Restart ptt, choose \"Replace credentials\", then paste a fresh Chrome DevTools cURL from this machine/network. Response: "@
}

/// The first 300 characters of a response body.
pub open spec fn preview(body: Seq<char>) -> Seq<char> {
    if body.len() <= 300 {
        body
    } else {
        body.take(300)
    }
}

/// The explanation of a failed response: what to do about a 401 or a 403,
/// the bare status for anything else; each followed by the body's preview.
pub open spec fn status_error(status: u16, body: Seq<char>) -> Seq<char> {
    if status == 401 {
        unauthorized_message() + preview(body)
    } else if status == 403 {
        forbidden_message() + preview(body)
    } else {
        "HTTP "@ + decimal(status as nat) + ": "@ + preview(body)
    }
}

/// The `text` string of a JSON body (`None` when there is none), or the
/// parser's error.
pub open spec fn body_text_of(body: Seq<char>) -> Result<Option<Seq<char>>, Seq<char>> {
    json_str_member(body, "text"@)
}

/// What a successful response means, given what was read of its body: its
/// text (empty when there is none), or a failure when it is not JSON.
pub open spec fn success_step_of(text: Result<Option<Seq<char>>, Seq<char>>) -> StepView {
    match text {
        Ok(Some(t)) => StepView::Done(t),
        Ok(None) => StepView::Done(seq![]),
        Err(e) => StepView::FailFast("json parse: "@ + e),
    }
}

/// What a response means: a 2xx with a JSON body is done (with its `text`),
/// a 2xx body that is not JSON fails at once, 401 and 403 fail at once, and
/// every other status is worth another attempt.
pub open spec fn response_step(status: u16, body: Seq<char>) -> StepView {
    if 200 <= status < 300 {
        success_step_of(body_text_of(body))
    } else if status == 401 || status == 403 {
        StepView::FailFast(status_error(status, body))
    } else {
        StepView::Retry(status_error(status, body))
    }
}

/// Law: every status outside `200..300` other than 401 and 403 is worth
/// another attempt, reported with its code and the body's preview; 401 and
/// 403 give up at once with their advice; a 2xx never asks for a retry.
pub proof fn lemma_status_classes(status: u16, body: Seq<char>)
    ensures
        !(200 <= status < 300) && status != 401 && status != 403 ==> response_step(status, body)
            == StepView::Retry("HTTP "@ + decimal(status as nat) + ": "@ + preview(body)),
        status == 401 ==> response_step(status, body) == StepView::FailFast(
            unauthorized_message() + preview(body),
        ),
        status == 403 ==> response_step(status, body) == StepView::FailFast(
            forbidden_message() + preview(body),
        ),
        200 <= status < 300 ==> !(response_step(status, body) is Retry),
{
}

/// Explains a failed response (`auth_error`).
pub fn auth_error(status: u16, body: &str) -> (r: String)
    ensures
        r@ == status_error(status, body@),
{
    let cs = chars_of(body);
    let end = if cs.len() <= 300 {
        cs.len()
    } else {
        300
    };
    let p = string_of(slice_of(cs.as_slice(), 0, end).as_slice());
    assert(p@ == preview(body@)) by {
        if cs@.len() <= 300 {
            assert(cs@.subrange(0, end as int) =~= cs@);
        }
    }
    if status == 401 {
        String::from_str(
            "ChatGPT rejected TOKEN (HTTP 401). The token is invalid, expired, or no longer matches the session. Restart ptt, choose \"Replace credentials\", then paste a fresh Chrome DevTools cURL. Response: ",
        ).concat(p.as_str())
    } else if status == 403 {
        String::from_str(
            "ChatGPT rejected the session (HTTP 403). TOKEN may be valid, but cookies/Cloudflare clearance are stale or bound to a different browser/IP. Restart ptt, choose \"Replace credentials\", then paste a fresh Chrome DevTools cURL from this machine/network. Response: ",
        ).concat(p.as_str())
    } else {
        let s = string_of(decimal_chars(status as u64).as_slice());
        String::from_str("HTTP ").concat(s.as_str()).concat(": ").concat(p.as_str())
    }
}

/// The `text` string of a JSON response body, or the parser's error.
fn body_text(body: &str) -> (r: Result<Option<String>, String>)
    ensures
        match body_text_of(body@) {
            Ok(t) => r matches Ok(x) && opt_view(x) == t,
            Err(e) => r matches Err(m) && m@ == e,
        },
{
    read_str_member(body, "text")
}

/// What a successful response means, given what was read of its body.
pub fn success_step(text: Result<Option<String>, String>) -> (r: Step)
    ensures
        r@ == success_step_of(
            match text {
                Ok(t) => Ok(opt_view(t)),
                Err(e) => Err(e@),
            },
        ),
{
    match text {
        Ok(Some(t)) => Step::Done(t),
        Ok(None) => Step::Done(String::new()),
        Err(e) => Step::FailFast(String::from_str("json parse: ").concat(e.as_str())),
    }
}

/// Classifies an HTTP response into a retry decision (`outcome`).
pub fn outcome(status: u16, body: &str) -> (r: Step)
    ensures
        r@ == response_step(status, body@),
{
    if 200 <= status && status < 300 {
        return success_step(body_text(body));
    }
    if status == 401 || status == 403 {
        return Step::FailFast(auth_error(status, body));
    }
    Step::Retry(auth_error(status, body))
}

// ---------------------------------------------------------------------------
// Retrying
// ---------------------------------------------------------------------------

/// What to do next in a run of attempts: make attempt `n` (counted from 1),
/// or finish with this result.
pub enum RetryAction {
    Attempt(usize),
    Finish(Result<String, String>),
}

pub enum RetryActionView {
    Attempt(usize),
    Finish(Result<Seq<char>, Seq<char>>),
}

impl View for RetryAction {
    type V = RetryActionView;

    open spec fn view(&self) -> RetryActionView {
        match self {
            RetryAction::Attempt(n) => RetryActionView::Attempt(*n),
            RetryAction::Finish(Ok(t)) => RetryActionView::Finish(Ok(t@)),
            RetryAction::Finish(Err(e)) => RetryActionView::Finish(Err(e@)),
        }
    }
}

/// The error after `attempts` attempts that all asked for a retry, the last
/// one with error `last`.
pub open spec fn exhausted_message(attempts: usize, last: Seq<char>) -> Seq<char> {
    "transcribe failed after "@ + decimal(attempts as nat) + " attempts: "@ + last
}

/// The first action of a run of `attempts` attempts: attempt 1, or, when no
/// attempt is allowed, the error with an empty last error.
pub open spec fn first_action(attempts: usize) -> RetryActionView {
    if attempts == 0 {
        RetryActionView::Finish(Err(exhausted_message(0, seq![])))
    } else {
        RetryActionView::Attempt(1)
    }
}

/// The action after attempt `attempt` of `attempts` gave `outcome`: a `Done`
/// finishes with its text, a `FailFast` finishes with its error, and a
/// `Retry` leads to the next attempt, or after the last attempt finishes with
/// the count of attempts and that retry's error.
pub open spec fn next_action(attempts: usize, attempt: usize, outcome: StepView) -> RetryActionView {
    match outcome {
        StepView::Done(t) => RetryActionView::Finish(Ok(t)),
        StepView::FailFast(e) => RetryActionView::Finish(Err(e)),
        StepView::Retry(e) => if attempt < attempts {
            RetryActionView::Attempt((attempt + 1) as usize)
        } else {
            RetryActionView::Finish(Err(exhausted_message(attempts, e)))
        },
    }
}

/// The error after `attempts` retried attempts.
fn exhausted(attempts: usize, last: &str) -> (r: String)
    ensures
        r@ == exhausted_message(attempts, last@),
{
    let n = string_of(decimal_chars(attempts as u64).as_slice());
    String::from_str("transcribe failed after ").concat(n.as_str()).concat(" attempts: ").concat(
        last,
    )
}

/// How a run of `attempts` attempts begins (the start of `retry`).
pub fn retry_start(attempts: usize) -> (a: RetryAction)
    ensures
        a@ == first_action(attempts),
{
    if attempts == 0 {
        proof {
            reveal_strlit("");
        }
        assert(""@ =~= Seq::<char>::empty());
        RetryAction::Finish(Err(exhausted(0, "")))
    } else {
        RetryAction::Attempt(1)
    }
}

/// What follows attempt `attempt` of `attempts` once it gave `outcome` (one
/// step of `retry`): exactly one further attempt per `Retry` until the last,
/// and none after a `Done` or a `FailFast`.
pub fn retry_next(attempts: usize, attempt: usize, outcome: Step) -> (a: RetryAction)
    requires
        1 <= attempt <= attempts,
    ensures
        a@ == next_action(attempts, attempt, outcome@),
{
    match outcome {
        Step::Done(t) => RetryAction::Finish(Ok(t)),
        Step::FailFast(e) => RetryAction::Finish(Err(e)),
        Step::Retry(e) => {
            if attempt < attempts {
                RetryAction::Attempt(attempt + 1)
            } else {
                RetryAction::Finish(Err(exhausted(attempts, e.as_str())))
            }
        },
    }
}

/// The number of attempts a run of `attempts` attempts makes when attempt
/// `k` (from 1) gives `outcomes[k - 1]`, counting from attempt `attempt`:
/// attempts go on while they ask for a retry and some are left.
pub open spec fn attempts_made(attempts: usize, attempt: int, outcomes: Seq<StepView>) -> int
    decreases attempts - attempt,
{
    if attempt < 1 || attempt > attempts || attempt > outcomes.len() {
        attempt - 1
    } else if outcomes[attempt - 1] is Retry && attempt < attempts {
        attempts_made(attempts, attempt + 1, outcomes)
    } else {
        attempt
    }
}

/// The actions that `retry_start` and `retry_next` give when attempt `k`
/// gives `outcomes[k - 1]`, starting from action `a`: the attempt numbers
/// asked for, and the result it finishes with (`None` if the outcomes run out).
pub open spec fn run_from(attempts: usize, a: RetryActionView, outcomes: Seq<StepView>) -> (
    Seq<usize>,
    Option<Result<Seq<char>, Seq<char>>>,
)
    decreases match a {
        RetryActionView::Attempt(n) => attempts - n + 1,
        RetryActionView::Finish(_) => 0,
    },
{
    match a {
        RetryActionView::Finish(r) => (seq![], Some(r)),
        RetryActionView::Attempt(n) => if 1 <= n <= attempts && n <= outcomes.len() {
            let next = next_action(attempts, n, outcomes[n - 1]);
            let rest = run_from(attempts, next, outcomes);
            (seq![n] + rest.0, rest.1)
        } else {
            (seq![n], None)
        },
    }
}

/// The result of a run whose last attempt gave `last`.
pub open spec fn final_result(attempts: usize, last: StepView) -> Result<Seq<char>, Seq<char>> {
    match last {
        StepView::Done(t) => Ok(t),
        StepView::FailFast(e) => Err(e),
        StepView::Retry(e) => Err(exhausted_message(attempts, e)),
    }
}

/// Law: driven by `retry_start` and `retry_next`, a run asks for attempts
/// 1, 2, ... in order, one for each outcome until the first that is not a
/// retry or until `attempts` of them, and nothing after that; it finishes
/// with the text of a last `Done`, the error of a last `FailFast`, or the
/// count of attempts with the last retry's error.
pub proof fn lemma_run_attempts(attempts: usize, outcomes: Seq<StepView>)
    requires
        outcomes.len() >= attempts,
    ensures
        ({
            let run = run_from(attempts, first_action(attempts), outcomes);
            let k = attempts_made(attempts, 1, outcomes);
            &&& run.0.len() == k
            &&& forall|i: int| 0 <= i < k ==> run.0[i] == i + 1
            &&& run.1 == Some(
                if attempts == 0 {
                    Err(exhausted_message(0, seq![]))
                } else {
                    final_result(attempts, outcomes[k - 1])
                },
            )
        }),
{
    if attempts > 0 {
        lemma_run_from(attempts, 1, outcomes);
    }
}

proof fn lemma_run_from(attempts: usize, n: usize, outcomes: Seq<StepView>)
    requires
        1 <= n <= attempts,
        outcomes.len() >= attempts,
    ensures
        ({
            let run = run_from(attempts, RetryActionView::Attempt(n), outcomes);
            let k = attempts_made(attempts, n as int, outcomes);
            &&& run.0.len() == k - n + 1
            &&& forall|i: int| 0 <= i < k - n + 1 ==> run.0[i] == n + i
            &&& run.1 == Some(final_result(attempts, outcomes[k - 1]))
        }),
    decreases attempts - n,
{
    let o = outcomes[n - 1];
    let next = next_action(attempts, n, o);
    let run = run_from(attempts, RetryActionView::Attempt(n), outcomes);
    if o is Retry && n < attempts {
        lemma_run_from(attempts, (n + 1) as usize, outcomes);
        let rest = run_from(attempts, next, outcomes);
        assert(next == RetryActionView::Attempt((n + 1) as usize));
        assert(run.0 == seq![n] + rest.0);
        assert forall|i: int| 0 <= i < attempts_made(attempts, n as int, outcomes) - n + 1 implies run.0[i]
            == n + i by {
            if i > 0 {
                assert(run.0[i] == rest.0[i - 1]);
            }
        }
    } else {
        assert(next is Finish);
        let rest = run_from(attempts, next, outcomes);
        assert(rest.0 =~= Seq::<usize>::empty());
        assert(run.0 =~= seq![n]);
        assert(attempts_made(attempts, n as int, outcomes) == n);
    }
}

// ---------------------------------------------------------------------------
// The request
// ---------------------------------------------------------------------------

/// The headers of a transcription request, in the order they are sent.
pub open spec fn header_pairs(c: crate::config::CredsView) -> Seq<(Seq<char>, Seq<char>)> {
    seq![
        ("authorization"@, "Bearer "@ + c.token),
        ("chatgpt-account-id"@, c.account_id),
        ("cookie"@, c.cookies),
        ("origin"@, "https://chatgpt.com"@),
        ("referer"@, "https://chatgpt.com/"@),
    ]
}

pub open spec fn pair_views(v: Seq<(String, String)>) -> Seq<(Seq<char>, Seq<char>)> {
    v.map_values(|p: (String, String)| (p.0@, p.1@))
}

/// The headers that a transcription request carries for `creds`.
pub fn request_headers(creds: &Creds) -> (r: Vec<(String, String)>)
    ensures
        pair_views(r@) == header_pairs(creds@),
{
    let mut r: Vec<(String, String)> = Vec::new();
    r.push(
        (
            String::from_str("authorization"),
            String::from_str("Bearer ").concat(creds.token.as_str()),
        ),
    );
    r.push((String::from_str("chatgpt-account-id"), creds.account_id.clone()));
    r.push((String::from_str("cookie"), creds.cookies.clone()));
    r.push((String::from_str("origin"), String::from_str("https://chatgpt.com")));
    r.push((String::from_str("referer"), String::from_str("https://chatgpt.com/")));
    assert(pair_views(r@) =~= header_pairs(creds@));
    r
}

} // verus!
