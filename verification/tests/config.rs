use ptt::config::{
    account_id_from_jwt, creds_env_text, creds_from_curl, creds_from_env, curl_args,
    extract_cookies, extract_header, has_usable_creds, load_creds, load_or_create_creds,
    option_value, shell_quote, try_load_creds, Creds, CredsFile,
};

fn token_with_account(account_id: &str) -> String {
    let payload =
        format!(r#"{{"https://api.openai.com/auth":{{"chatgpt_account_id":"{account_id}"}}}}"#);
    format!("h.{}.s", base64url_encode(payload.as_bytes()))
}

fn base64url_encode(input: &[u8]) -> String {
    const TABLE: &[u8; 64] = b"ABCDEFGHIJKLMNOPQRSTUVWXYZabcdefghijklmnopqrstuvwxyz0123456789-_";
    let mut out = String::new();
    for chunk in input.chunks(3) {
        let b0 = chunk[0];
        let b1 = *chunk.get(1).unwrap_or(&0);
        let b2 = *chunk.get(2).unwrap_or(&0);
        let n = ((b0 as u32) << 16) | ((b1 as u32) << 8) | b2 as u32;

        out.push(TABLE[((n >> 18) & 63) as usize] as char);
        out.push(TABLE[((n >> 12) & 63) as usize] as char);
        if chunk.len() > 1 {
            out.push(TABLE[((n >> 6) & 63) as usize] as char);
        }
        if chunk.len() > 2 {
            out.push(TABLE[(n & 63) as usize] as char);
        }
    }
    out
}

fn file(text: &str) -> CredsFile {
    CredsFile { path: "./creds.env".to_string(), contents: Ok(text.to_string()) }
}

fn strings(v: &[&str]) -> Vec<String> {
    v.iter().map(|s| s.to_string()).collect()
}

#[test]
fn parse_creds_env() {
    let text = "# comment\nTOKEN='tok123'\nACCOUNT_ID=\"acc456\"\nCOOKIES=c=1; d=2\n";
    let c = load_creds(&file(text));
    assert_eq!(c.token, "tok123");
    assert_eq!(c.account_id, "acc456");
    assert_eq!(c.cookies, "c=1; d=2");
}

#[test]
fn missing_key_is_reported() {
    let err = try_load_creds(&file("ACCOUNT_ID=x\nCOOKIES=y\n")).err().unwrap();
    assert_eq!(err, "TOKEN is not set in ./creds.env");
}

#[test]
fn empty_value_counts_as_missing_and_last_assignment_wins() {
    let err = creds_from_env("TOKEN=a\nACCOUNT_ID=\nCOOKIES=c\n").err().unwrap();
    assert_eq!(err, "ACCOUNT_ID is not set");
    let c = creds_from_env("TOKEN=a\nTOKEN=b\nACCOUNT_ID=x\nCOOKIES=c\n").unwrap();
    assert_eq!(c.token, "b");
    let err = creds_from_env("TOKEN=a\nTOKEN=\nACCOUNT_ID=x\nCOOKIES=c\n").err().unwrap();
    assert_eq!(err, "TOKEN is not set");
}

#[test]
fn env_lines_are_trimmed_and_comments_skipped() {
    let c = creds_from_env("  TOKEN = ' spaced' \r\n#COOKIES=no\nnoequals\nACCOUNT_ID=a=b\nCOOKIES=\"'q'\"\n")
        .unwrap();
    assert_eq!(c.token, " spaced");
    assert_eq!(c.account_id, "a=b");
    assert_eq!(c.cookies, "'q'");
}

#[test]
fn unreadable_file_is_reported() {
    let f = CredsFile { path: "/x/creds.env".to_string(), contents: Err("denied".to_string()) };
    assert_eq!(try_load_creds(&f).err().unwrap(), "cannot read /x/creds.env: denied");
    assert!(!has_usable_creds(&f));
    assert!(load_or_create_creds(&f).is_none());
}

#[test]
fn usable_file_is_loaded() {
    let f = file("TOKEN=t\nACCOUNT_ID=a\nCOOKIES=c\n");
    assert!(has_usable_creds(&f));
    let c = load_or_create_creds(&f).unwrap();
    assert_eq!((c.token.as_str(), c.account_id.as_str(), c.cookies.as_str()), ("t", "a", "c"));
}

#[test]
fn written_creds_read_back() {
    let creds = Creds {
        token: "eyJh.eyJi.sig".to_string(),
        account_id: "acc-1".to_string(),
        cookies: "a=1; b=\"two\"x".to_string(),
    };
    let text = creds_env_text(&creds);
    assert_eq!(text, "TOKEN='eyJh.eyJi.sig'\nACCOUNT_ID='acc-1'\nCOOKIES='a=1; b=\"two\"x'\n");
    let back = creds_from_env(&text).unwrap();
    assert_eq!(back.token, creds.token);
    assert_eq!(back.account_id, creds.account_id);
    assert_eq!(back.cookies, creds.cookies);
}

#[test]
fn shell_quote_escapes_single_quotes() {
    assert_eq!(shell_quote("a'b"), "'a'\\''b'");
    assert_eq!(shell_quote(""), "''");
}

#[test]
fn shell_quoted_value_is_one_word() {
    for v in ["plain", "", "it's", "'", "a b\tc", "$'x'", "back\\slash", "\"dq\""] {
        assert_eq!(curl_args(&shell_quote(v)).unwrap(), vec![v.to_string()]);
    }
}

#[test]
fn shell_quoted_words_joined_by_spaces_read_back() {
    let words = strings(&["curl", "", "it's", "a b", "$HOME", "back\\slash", "line\nbreak", "'"]);
    let line: Vec<String> = words.iter().map(|w| shell_quote(w)).collect();
    assert_eq!(curl_args(&line.join(" ")).unwrap(), words);
    assert_eq!(curl_args(&Vec::<String>::new().join(" ")).unwrap(), Vec::<String>::new());
}

#[test]
fn curl_words_follow_shell_quoting() {
    assert_eq!(
        curl_args("curl 'a b' \"c\\\"d\" e\\ f $'g' h\\\ni").unwrap(),
        strings(&["curl", "a b", "c\"d", "e f", "g", "hi"])
    );
    assert_eq!(curl_args("  ").unwrap(), Vec::<String>::new());
    assert_eq!(curl_args("x ''").unwrap(), strings(&["x", ""]));
    assert_eq!(curl_args("end\\").unwrap(), strings(&["end\\"]));
}

#[test]
fn unterminated_quotes_are_refused() {
    assert_eq!(curl_args("curl 'abc").err().unwrap(), "unterminated ' quote");
    assert_eq!(curl_args("curl \"abc").err().unwrap(), "unterminated \" quote");
    assert_eq!(
        creds_from_curl("curl 'abc").err().unwrap(),
        "cannot parse copied cURL: unterminated ' quote"
    );
}

#[test]
fn option_forms() {
    let args = strings(&["-H", "a: 1", "-Hb: 2", "--header=c: 3", "--header", "d: 4", "-H"]);
    assert_eq!(option_value(&args, 0, "-H", "--header"), (Some("a: 1".to_string()), 2));
    assert_eq!(option_value(&args, 2, "-H", "--header"), (Some("b: 2".to_string()), 3));
    assert_eq!(option_value(&args, 3, "-H", "--header"), (Some("c: 3".to_string()), 4));
    assert_eq!(option_value(&args, 4, "-H", "--header"), (Some("d: 4".to_string()), 6));
    assert_eq!(option_value(&args, 6, "-H", "--header"), (None, 7));
    assert_eq!(option_value(&args, 1, "-H", "--header"), (None, 2));
}

#[test]
fn headers_match_names_ignoring_ascii_case() {
    let args = strings(&["curl", "-H", "X-Other: no", "-H", " Authorization :  Bearer t ", "-H", "authorization: second"]);
    assert_eq!(extract_header(&args, "authorization"), Some("Bearer t".to_string()));
    assert_eq!(extract_header(&args, "missing"), None);
}

#[test]
fn cookie_option_wins_over_cookie_header() {
    let args = strings(&["-H", "cookie: h=1", "--cookie", "o=2"]);
    assert_eq!(extract_cookies(&args), Some("o=2".to_string()));
    let args = strings(&["-H", "Cookie: h=1"]);
    assert_eq!(extract_cookies(&args), Some("h=1".to_string()));
    assert_eq!(extract_cookies(&strings(&["curl"])), None);
}

#[test]
fn jwt_claim_is_read() {
    assert_eq!(account_id_from_jwt(&token_with_account("acc-9")), Some("acc-9".to_string()));
    assert_eq!(account_id_from_jwt("no-dots"), None);
    assert_eq!(account_id_from_jwt("h.!!!.s"), None);
    assert_eq!(account_id_from_jwt(&format!("h.{}.s", base64url_encode(b"{\"x\":1}"))), None);
    let auth_not_object = br#"{"https://api.openai.com/auth":"acc"}"#;
    assert_eq!(account_id_from_jwt(&format!("h.{}.s", base64url_encode(auth_not_object))), None);
    let id_not_string = br#"{"https://api.openai.com/auth":{"chatgpt_account_id":7}}"#;
    assert_eq!(account_id_from_jwt(&format!("h.{}.s", base64url_encode(id_not_string))), None);
    assert_eq!(account_id_from_jwt(&format!("h.{}", base64url_encode(b"not json"))), None);
}

#[test]
fn extract_creds_from_curl_with_jwt_account_fallback() {
    let token = token_with_account("acc-from-jwt");
    let curl = [
        "curl x \\",
        &format!("  -H 'authorization: Bearer {token}' \\"),
        "  -b 'a=1; b=two'",
    ]
    .join("\n");
    let c = creds_from_curl(&curl).unwrap();
    assert_eq!(c.token, token);
    assert_eq!(c.account_id, "acc-from-jwt");
    assert_eq!(c.cookies, "a=1; b=two");
}

#[test]
fn explicit_account_header_wins() {
    let token = token_with_account("acc-from-jwt");
    let curl = [
        "curl x \\",
        &format!("  -H 'authorization: Bearer {token}' \\"),
        "  -H 'chatgpt-account-id: acc-header' \\",
        "  -H 'cookie: c=3'",
    ]
    .join("\n");
    let c = creds_from_curl(&curl).unwrap();
    assert_eq!(c.account_id, "acc-header");
    assert_eq!(c.cookies, "c=3");
}

#[test]
fn extract_creds_from_chrome_copy_as_curl_shape() {
    let token = token_with_account("acc-from-jwt");
    let curl = [
        "curl --url 'https://chatgpt.com/backend-api/sentinel/ping' \\",
        "  -X 'POST' \\",
        "  -H 'accept: */*' \\",
        &format!("  -H 'authorization: Bearer {token}' \\"),
        "  -b '__Host-next-auth.csrf-token=csrf; cf_clearance=clearance; other=1' \\",
        "  -H 'origin: https://chatgpt.com' \\",
        "  -H 'referer: https://chatgpt.com/'",
    ]
    .join("\n");
    let c = creds_from_curl(&curl).unwrap();
    assert_eq!(c.token, token);
    assert_eq!(c.account_id, "acc-from-jwt");
    assert_eq!(
        c.cookies,
        "__Host-next-auth.csrf-token=csrf; cf_clearance=clearance; other=1"
    );
}

#[test]
fn extract_creds_from_single_line_curl() {
    let token = token_with_account("acc-from-jwt");
    let curl = format!(
        "curl 'https://chatgpt.com/backend-api/x' -H 'authorization: Bearer {token}' --cookie 'a=1; b=two'"
    );
    let c = creds_from_curl(&curl).unwrap();
    assert_eq!(c.token, token);
    assert_eq!(c.cookies, "a=1; b=two");
}

#[test]
fn curl_errors_name_what_is_missing() {
    assert_eq!(
        creds_from_curl("curl x").err().unwrap(),
        "missing authorization: Bearer header"
    );
    assert_eq!(
        creds_from_curl("curl -H 'authorization: Basic abc'").err().unwrap(),
        "authorization header is not Bearer token"
    );
    assert_eq!(
        creds_from_curl("curl -H 'authorization: bearer a.b.c' -b x").err().unwrap(),
        "missing chatgpt-account-id header and no chatgpt_account_id claim in token"
    );
    assert_eq!(
        creds_from_curl("curl -H 'authorization: Bearer t' -H 'chatgpt-account-id: a'")
            .err()
            .unwrap(),
        "missing cookies: expected -b, --cookie, or cookie header"
    );
}

#[test]
fn lowercase_bearer_prefix_is_accepted() {
    let c = creds_from_curl("curl -H 'authorization: bearer  tok ' -H 'chatgpt-account-id: a' -b k").unwrap();
    assert_eq!(c.token, "tok");
}
