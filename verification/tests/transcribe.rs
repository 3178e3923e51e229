use std::cell::Cell;

use ptt::config::Creds;
use ptt::transcribe::{
    auth_error, check_expiry, malformed_token, outcome, request_headers, retry_next, retry_start,
    success_step, token_exp, validate_token, validate_token_at, RetryAction, Step, ATTEMPTS,
};

/// Runs attempts as the program does: one call of `step` per `Attempt`.
fn retry(attempts: usize, step: impl Fn(usize) -> Step) -> Result<String, String> {
    let mut action = retry_start(attempts);
    loop {
        match action {
            RetryAction::Attempt(n) => action = retry_next(attempts, n, step(n)),
            RetryAction::Finish(r) => return r,
        }
    }
}

fn token_with_exp(exp: u64) -> String {
    let payload = format!(r#"{{"exp":{exp}}}"#);
    let payload = base64url_encode(payload.as_bytes());
    format!("h.{payload}.s")
}

fn base64url_encode(input: &[u8]) -> String {
    const TABLE: &[u8; 64] = b"ABCDEFGHIJKLMNOPQRSTUVWXYZabcdefghijklmnopqrstuvwxyz0123456789-_";
    let mut out = String::new();
    for chunk in input.chunks(3) {
        let b0 = chunk[0];
        let b1 = *chunk.get(1).unwrap_or(&0);
        let b2 = *chunk.get(2).unwrap_or(&0);
        let n = ((b0 as u32) << 16) | ((b1 as u32) << 8) | b2 as u32;

        out.push(TABLE[((n >> 18) & 63) as usize] as char);
        out.push(TABLE[((n >> 12) & 63) as usize] as char);
        if chunk.len() > 1 {
            out.push(TABLE[((n >> 6) & 63) as usize] as char);
        }
        if chunk.len() > 2 {
            out.push(TABLE[(n & 63) as usize] as char);
        }
    }
    out
}

#[test]
fn rejects_malformed_token() {
    let err = validate_token("not-a-jwt").unwrap_err();
    assert!(err.contains("not a JWT"));
}

#[test]
fn rejects_expired_token() {
    let err = validate_token(&token_with_exp(1)).unwrap_err();
    assert!(err.contains("expired"));
}

#[test]
fn token_expired_at_the_epoch_is_refused() {
    let err = validate_token(&token_with_exp(0)).unwrap_err();
    assert!(err.starts_with("TOKEN in creds.env is expired (exp=0, now="));
    validate_token(&format!("h.{}.s", base64url_encode(br#"{"exp":"soon"}"#))).unwrap();
    validate_token(&format!("h.{}.s", base64url_encode(b"[1,2]"))).unwrap();
}

#[test]
fn accepts_unexpired_token() {
    let now = std::time::SystemTime::now()
        .duration_since(std::time::UNIX_EPOCH)
        .unwrap()
        .as_secs();
    validate_token(&token_with_exp(now + 3600)).unwrap();
}

#[test]
fn expiry_is_checked_against_the_given_time() {
    let tok = token_with_exp(100);
    assert!(validate_token_at(&tok, 99).is_ok());
    assert_eq!(
        validate_token_at(&tok, 100).unwrap_err(),
        "TOKEN in creds.env is expired (exp=100, now=100). Restart ptt, choose \"Replace credentials\", then paste a fresh Chrome DevTools cURL."
    );
    assert_eq!(token_exp(&tok), Ok(Some(100)));
}

#[test]
fn token_shape_errors() {
    assert_eq!(malformed_token().unwrap_err(), validate_token("a.b").unwrap_err());
    assert!(validate_token("a.b.c.d").unwrap_err().contains("three dot-separated parts"));
    assert!(validate_token("h.a.s").unwrap_err().contains("not a readable JWT"));
    let not_json = format!("h.{}.s", base64url_encode(b"nope"));
    assert!(validate_token(&not_json).unwrap_err().contains("invalid JWT payload"));
    let no_exp = format!("h.{}.s", base64url_encode(b"{\"sub\":\"x\"}"));
    assert!(validate_token(&no_exp).is_ok());
    assert_eq!(token_exp(&no_exp), Ok(None));
}

#[test]
fn explains_auth_statuses() {
    assert!(auth_error(401, "nope").contains("TOKEN"));
    assert!(auth_error(403, "nope").contains("cookies/Cloudflare"));
}

#[test]
fn other_statuses_show_code_and_preview() {
    assert_eq!(auth_error(502, "bad gateway"), "HTTP 502: bad gateway");
    let long = "é".repeat(400);
    let err = auth_error(500, &long);
    assert_eq!(err, format!("HTTP 500: {}", "é".repeat(300)));
}

#[test]
fn outcome_success_extracts_text() {
    match outcome(200, r#"{"text":"hello world"}"#) {
        Step::Done(t) => assert_eq!(t, "hello world"),
        _ => panic!("expected Done"),
    }
}

#[test]
fn outcome_success_missing_text_is_empty() {
    match outcome(200, r#"{"other":1}"#) {
        Step::Done(t) => assert_eq!(t, ""),
        _ => panic!("expected Done"),
    }
}

#[test]
fn outcome_bad_json_fails_fast() {
    match outcome(200, "not json") {
        Step::FailFast(e) => assert!(e.contains("json parse")),
        _ => panic!("expected FailFast on unparseable success body"),
    }
}

#[test]
fn outcome_auth_statuses_fail_fast() {
    assert!(matches!(outcome(401, "x"), Step::FailFast(_)));
    assert!(matches!(outcome(403, "x"), Step::FailFast(_)));
}

#[test]
fn outcome_server_errors_retry() {
    assert!(matches!(outcome(500, "x"), Step::Retry(_)));
    assert!(matches!(outcome(503, "x"), Step::Retry(_)));
    assert!(matches!(outcome(429, "x"), Step::Retry(_)));
}

#[test]
fn outcome_non_string_text_is_empty_and_any_2xx_counts() {
    match outcome(204, r#"{"text":5}"#) {
        Step::Done(t) => assert_eq!(t, ""),
        _ => panic!("expected Done"),
    }
    match outcome(300, r#"{"text":"x"}"#) {
        Step::Retry(e) => assert_eq!(e, "HTTP 300: {\"text\":\"x\"}"),
        _ => panic!("expected Retry"),
    }
}

#[test]
fn outcome_text_of_a_non_object_body_is_empty() {
    match outcome(200, "[1,2]") {
        Step::Done(t) => assert_eq!(t, ""),
        _ => panic!("expected Done"),
    }
    match outcome(200, r#"{"text":"hi","other":null}"#) {
        Step::Done(t) => assert_eq!(t, "hi"),
        _ => panic!("expected Done"),
    }
}

#[test]
fn retry_returns_first_success_without_retrying() {
    let calls = Cell::new(0);
    let out = retry(3, |_| {
        calls.set(calls.get() + 1);
        Step::Done("ok".into())
    });
    assert_eq!(out.unwrap(), "ok");
    assert_eq!(calls.get(), 1);
}

#[test]
fn retry_recovers_after_transient_failures() {
    let calls = Cell::new(0);
    let out = retry(3, |attempt| {
        calls.set(calls.get() + 1);
        if attempt < 3 {
            Step::Retry(format!("timeout on {attempt}"))
        } else {
            Step::Done("late".into())
        }
    });
    assert_eq!(out.unwrap(), "late");
    assert_eq!(calls.get(), 3);
}

#[test]
fn retry_gives_up_after_all_attempts() {
    let calls = Cell::new(0);
    let out = retry(3, |_| {
        calls.set(calls.get() + 1);
        Step::Retry("timeout".into())
    });
    let err = out.unwrap_err();
    assert!(err.contains("after 3 attempts"), "got: {err}");
    assert!(err.contains("timeout"), "got: {err}");
    assert_eq!(calls.get(), 3);
}

#[test]
fn retry_fail_fast_does_not_retry() {
    let calls = Cell::new(0);
    let out = retry(3, |_| {
        calls.set(calls.get() + 1);
        Step::FailFast("401 nope".into())
    });
    assert_eq!(out.unwrap_err(), "401 nope");
    assert_eq!(calls.get(), 1);
}

#[test]
fn retry_reports_the_latest_error_and_zero_attempts() {
    let out = retry(ATTEMPTS, |attempt| Step::Retry(format!("e{attempt}")));
    assert_eq!(out.unwrap_err(), "transcribe failed after 3 attempts: e3");
    let out = retry(0, |_| Step::Done("never".into()));
    assert_eq!(out.unwrap_err(), "transcribe failed after 0 attempts: ");
}

#[test]
fn request_carries_the_credentials() {
    let creds = Creds { token: "t".into(), account_id: "a".into(), cookies: "c=1".into() };
    let headers = request_headers(&creds);
    let pairs: Vec<(&str, &str)> = headers.iter().map(|(k, v)| (k.as_str(), v.as_str())).collect();
    assert_eq!(
        pairs,
        vec![
            ("authorization", "Bearer t"),
            ("chatgpt-account-id", "a"),
            ("cookie", "c=1"),
            ("origin", "https://chatgpt.com"),
            ("referer", "https://chatgpt.com/"),
        ]
    );
}

#[test]
fn success_step_from_body_text() {
    assert!(matches!(success_step(Ok(Some("hi".into()))), Step::Done(t) if t == "hi"));
    assert!(matches!(success_step(Ok(None)), Step::Done(t) if t.is_empty()));
    assert!(matches!(success_step(Err("eof".into())), Step::FailFast(e) if e == "json parse: eof"));
}

#[test]
fn expiry_from_claim() {
    assert!(check_expiry(None, 5).is_ok());
    assert!(check_expiry(Some(6), 5).is_ok());
    assert_eq!(
        check_expiry(Some(5), 7).unwrap_err(),
        "TOKEN in creds.env is expired (exp=5, now=7). Restart ptt, choose \"Replace credentials\", then paste a fresh Chrome DevTools cURL."
    );
}

#[test]
fn retry_decisions() {
    assert!(matches!(retry_start(0), RetryAction::Finish(Err(e)) if e == "transcribe failed after 0 attempts: "));
    assert!(matches!(retry_start(3), RetryAction::Attempt(1)));
    assert!(matches!(retry_next(3, 1, Step::Retry("x".into())), RetryAction::Attempt(2)));
    assert!(matches!(retry_next(3, 3, Step::Retry("x".into())), RetryAction::Finish(Err(e)) if e == "transcribe failed after 3 attempts: x"));
    assert!(matches!(retry_next(3, 1, Step::Done("t".into())), RetryAction::Finish(Ok(t)) if t == "t"));
    assert!(matches!(retry_next(3, 2, Step::FailFast("f".into())), RetryAction::Finish(Err(e)) if e == "f"));
}
