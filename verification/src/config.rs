//! Credentials: reading `creds.env`, extracting them from a copied cURL
//! command, and writing them back in `creds.env` form.
use vstd::prelude::*;
use vstd::string::StringExecFns;
use vstd::string::StringSliceAdditionalSpecFns;
use vstd::utf8::encode_utf8;
use crate::base64::{base64url, base64url_decode};
use crate::json::{json_nested_str, read_nested_str};
use crate::text::{
    char_trimmed, chars_of, is_char, lemma_first_from, lemma_lines_step, lemma_replace_absent,
    lemma_trim_range, ws, eq_ignore_ascii_case, eq_ignore_case, find_char, first_index,
    has_prefix, is_whitespace, is_ws, join, lines, opt_chars, opt_view, replace_char, same,
    slice_of, split, split_on, starts_with, string_of, string_views, text_lines, trim,
    trim_matches, views, ws_trimmed, lemma_lines_closed, lemma_trim_ignores_last, strip_cr,
};

verus! {

/// The three values a request to the transcription endpoint needs.
pub struct Creds {
    pub token: String,
    pub account_id: String,
    pub cookies: String,
}

pub struct CredsView {
    pub token: Seq<char>,
    pub account_id: Seq<char>,
    pub cookies: Seq<char>,
}

impl View for Creds {
    type V = CredsView;

    open spec fn view(&self) -> CredsView {
        CredsView { token: self.token@, account_id: self.account_id@, cookies: self.cookies@ }
    }
}

// ---------------------------------------------------------------------------
// Shell words of a copied cURL command
// ---------------------------------------------------------------------------

/// The quoting context of the shell-word reader.
#[derive(PartialEq, Eq, Structural, Clone, Copy)]
pub enum Quote {
    Unquoted,
    Single,
    Double,
}

/// The state of the shell-word reader: the words read so far, the word in
/// progress, whether one is in progress, the quoting context, and whether the
/// previous character was an unquoted or double-quoted backslash.
pub struct Lex {
    pub args: Seq<Seq<char>>,
    pub cur: Seq<char>,
    pub in_word: bool,
    pub quote: Quote,
    pub escape: bool,
}

pub open spec fn lex_init() -> Lex {
    Lex { args: seq![], cur: seq![], in_word: false, quote: Quote::Unquoted, escape: false }
}

/// The reader's state after the characters `s`, from state `st`.
///
/// An escaped character is taken literally (an escaped newline is dropped);
/// single quotes take everything up to the next `'`; double quotes take
/// everything up to the next `"` except that a backslash escapes; unquoted,
/// `$'` opens a single-quoted stretch and white space ends a word.
pub open spec fn lex(s: Seq<char>, st: Lex) -> Lex
    decreases s.len(),
{
    if s.len() == 0 {
        st
    } else {
        let c = s[0];
        let rest = s.drop_first();
        if st.escape {
            if c != '\n' {
                lex(rest, Lex { cur: st.cur.push(c), in_word: true, escape: false, ..st })
            } else {
                lex(rest, Lex { escape: false, ..st })
            }
        } else {
            match st.quote {
                Quote::Single => if c == '\'' {
                    lex(rest, Lex { quote: Quote::Unquoted, ..st })
                } else {
                    lex(rest, Lex { cur: st.cur.push(c), ..st })
                },
                Quote::Double => if c == '"' {
                    lex(rest, Lex { quote: Quote::Unquoted, ..st })
                } else if c == '\\' {
                    lex(rest, Lex { escape: true, ..st })
                } else {
                    lex(rest, Lex { cur: st.cur.push(c), ..st })
                },
                Quote::Unquoted => if c == '\\' {
                    lex(rest, Lex { escape: true, ..st })
                } else if c == '\'' {
                    lex(rest, Lex { quote: Quote::Single, in_word: true, ..st })
                } else if c == '"' {
                    lex(rest, Lex { quote: Quote::Double, in_word: true, ..st })
                } else if c == '$' && rest.len() > 0 && rest[0] == '\'' {
                    lex(rest.drop_first(), Lex { quote: Quote::Single, in_word: true, ..st })
                } else if is_ws(c) {
                    if st.in_word {
                        lex(rest, Lex { args: st.args.push(st.cur), cur: seq![], in_word: false, ..st })
                    } else {
                        lex(rest, st)
                    }
                } else {
                    lex(rest, Lex { cur: st.cur.push(c), in_word: true, ..st })
                },
            }
        }
    }
}

/// The shell words of `s`, or the message for an unterminated quote. A
/// trailing lone backslash stays in the last word.
pub open spec fn shell_words(s: Seq<char>) -> Result<Seq<Seq<char>>, Seq<char>> {
    let st = lex(s, lex_init());
    match st.quote {
        Quote::Single => Err("unterminated ' quote"@),
        Quote::Double => Err("unterminated \" quote"@),
        Quote::Unquoted => {
            let cur = if st.escape {
                st.cur.push('\\')
            } else {
                st.cur
            };
            if st.escape || st.in_word {
                Ok(st.args.push(cur))
            } else {
                Ok(st.args)
            }
        },
    }
}

pub open spec fn lex_of(
    args: Seq<Seq<char>>,
    cur: Seq<char>,
    in_word: bool,
    quote: Quote,
    escape: bool,
) -> Lex {
    Lex { args, cur, in_word, quote, escape }
}

/// The vector of strings holding the character vectors `v`.
fn strings_of(v: &Vec<Vec<char>>) -> (r: Vec<String>)
    ensures
        string_views(r@) == views(v@),
{
    let mut r: Vec<String> = Vec::new();
    let mut i: usize = 0;
    while i < v.len()
        invariant
            i <= v@.len(),
            string_views(r@) == views(v@).take(i as int),
        decreases v.len() - i,
    {
        let s = string_of(v[i].as_slice());
        let ghost before = r@;
        r.push(s);
        assert(string_views(r@) =~= string_views(before).push(s@));
        i = i + 1;
        assert(views(v@).take(i as int) =~= views(v@).take(i - 1).push(v@[i - 1]@));
    }
    assert(views(v@).take(i as int) =~= views(v@));
    r
}

/// Splits a copied cURL command into its shell words.
pub fn curl_words(cs: &[char]) -> (r: Result<Vec<Vec<char>>, String>)
    ensures
        match shell_words(cs@) {
            Ok(words) => r matches Ok(v) && views(v@) == words,
            Err(e) => r matches Err(m) && m@ == e,
        },
{
    let n = cs.len();
    let mut args: Vec<Vec<char>> = Vec::new();
    let mut cur: Vec<char> = Vec::new();
    let mut in_word = false;
    let mut quote = Quote::Unquoted;
    let mut escape = false;
    let mut i: usize = 0;
    assert(cs@.subrange(0, n as int) =~= cs@);
    assert(views(args@) =~= seq![]);
    assert(cur@ =~= seq![]);
    while i < n
        invariant
            i <= n == cs@.len(),
            lex(cs@.subrange(i as int, n as int), lex_of(views(args@), cur@, in_word, quote, escape))
                == lex(cs@, lex_init()),
        decreases n - i,
    {
        let ghost rest = cs@.subrange(i as int, n as int);
        assert(rest.drop_first() =~= cs@.subrange(i + 1, n as int));
        let ghost st = lex_of(views(args@), cur@, in_word, quote, escape);
        let c = cs[i];
        if escape {
            if c != '\n' {
                cur.push(c);
                in_word = true;
            }
            escape = false;
            i = i + 1;
        } else {
            match quote {
                Quote::Single => {
                    if c == '\'' {
                        quote = Quote::Unquoted;
                    } else {
                        cur.push(c);
                    }
                    i = i + 1;
                },
                Quote::Double => {
                    if c == '"' {
                        quote = Quote::Unquoted;
                    } else if c == '\\' {
                        escape = true;
                    } else {
                        cur.push(c);
                    }
                    i = i + 1;
                },
                Quote::Unquoted => {
                    if c == '\\' {
                        escape = true;
                        i = i + 1;
                    } else if c == '\'' || c == '"' {
                        quote = if c == '\'' {
                            Quote::Single
                        } else {
                            Quote::Double
                        };
                        in_word = true;
                        i = i + 1;
                    } else if c == '$' && i + 1 < n && cs[i + 1] == '\'' {
                        assert(rest.drop_first().drop_first() =~= cs@.subrange(i + 2, n as int));
                        quote = Quote::Single;
                        in_word = true;
                        i = i + 2;
                    } else if is_whitespace(c) {
                        if in_word {
                            let ghost before = views(args@);
                            args.push(cur);
                            assert(views(args@) =~= before.push(st.cur));
                            cur = Vec::new();
                            assert(cur@ =~= seq![]);
                            in_word = false;
                        }
                        i = i + 1;
                    } else {
                        cur.push(c);
                        in_word = true;
                        i = i + 1;
                    }
                },
            }
        }
    }
    assert(cs@.subrange(n as int, n as int) =~= seq![]);
    match quote {
        Quote::Single => {
            return Err(String::from_str("unterminated ' quote"));
        },
        Quote::Double => {
            return Err(String::from_str("unterminated \" quote"));
        },
        Quote::Unquoted => {},
    }
    if escape {
        cur.push('\\');
        in_word = true;
    }
    if in_word {
        let ghost before = views(args@);
        args.push(cur);
        assert(views(args@) =~= before.push(cur@));
    }
    Ok(args)
}

/// Splits a copied cURL command into its shell words (`curl_args`).
pub fn curl_args(curl: &str) -> (r: Result<Vec<String>, String>)
    ensures
        match shell_words(curl@) {
            Ok(words) => r matches Ok(v) && string_views(v@) == words,
            Err(e) => r matches Err(m) && m@ == e,
        },
{
    let cs = chars_of(curl);
    match curl_words(cs.as_slice()) {
        Ok(words) => Ok(strings_of(&words)),
        Err(e) => Err(e),
    }
}

// ---------------------------------------------------------------------------
// Options and headers of a cURL command
// ---------------------------------------------------------------------------

/// The value of the option at word `i` when it is `short` or `long`, and the
/// index of the word after it: `-H value`, `--header value`, `-Hvalue` and
/// `--header=value` all give `value`. A lone option at the end gives `None`.
pub open spec fn option_at(args: Seq<Seq<char>>, i: int, short: Seq<char>, long: Seq<char>) -> (
    Option<Seq<char>>,
    int,
) {
    let a = args[i];
    if a == short || a == long {
        if i + 1 < args.len() {
            (Some(args[i + 1]), i + 2)
        } else {
            (None, i + 1)
        }
    } else if has_prefix(a, short) && a.len() > short.len() {
        (Some(a.skip(short.len() as int)), i + 1)
    } else if has_prefix(a, long.push('=')) {
        (Some(a.skip(long.len() + 1int)), i + 1)
    } else {
        (None, i + 1)
    }
}

/// The trimmed value of header line `h` when its trimmed name is `name`,
/// ASCII case ignored.
pub open spec fn header_value(h: Seq<char>, name: Seq<char>) -> Option<Seq<char>> {
    match first_index(h, ':') {
        None => None,
        Some(j) => if eq_ignore_ascii_case(ws_trimmed(h.take(j)), name) {
            Some(ws_trimmed(h.skip(j + 1)))
        } else {
            None
        },
    }
}

/// The value of the first `-H`/`--header` option at or after word `i` that
/// names header `name`.
pub open spec fn header_from(args: Seq<Seq<char>>, i: int, name: Seq<char>) -> Option<Seq<char>>
    decreases args.len() - i,
{
    if i < 0 || i >= args.len() {
        None
    } else {
        let next = option_at(args, i, "-H"@, "--header"@);
        let found = match next.0 {
            Some(h) => header_value(h, name),
            None => None,
        };
        if found is Some {
            found
        } else {
            header_from(args, next.1, name)
        }
    }
}

/// The value of the first `-b`/`--cookie` option at or after word `i`.
pub open spec fn cookie_option_from(args: Seq<Seq<char>>, i: int) -> Option<Seq<char>>
    decreases args.len() - i,
{
    if i < 0 || i >= args.len() {
        None
    } else {
        let next = option_at(args, i, "-b"@, "--cookie"@);
        if next.0 is Some {
            next.0
        } else {
            cookie_option_from(args, next.1)
        }
    }
}

/// The cookies of a cURL command: its first `-b`/`--cookie` option, else its
/// `cookie` header.
pub open spec fn cookies_of(args: Seq<Seq<char>>) -> Option<Seq<char>> {
    match cookie_option_from(args, 0) {
        Some(c) => Some(c),
        None => header_from(args, 0, "cookie"@),
    }
}

/// Reads the option at word `i` (`option_value`).
pub fn option_value(args: &Vec<String>, i: usize, short: &str, long: &str) -> (r: (
    Option<String>,
    usize,
))
    requires
        i < args@.len(),
    ensures
        (opt_view(r.0), r.1 as int) == option_at(string_views(args@), i as int, short@, long@),
{
    let ghost words = string_views(args@);
    let a = chars_of(args[i].as_str());
    let sh = chars_of(short);
    let lo = chars_of(long);
    assert(a@ == words[i as int]);
    let n = args.len();
    if same(a.as_slice(), sh.as_slice()) || same(a.as_slice(), lo.as_slice()) {
        if i + 1 < n {
            let v = chars_of(args[i + 1].as_str());
            assert(v@ == words[i + 1]);
            return (Some(string_of(v.as_slice())), i + 2);
        } else {
            return (None, i + 1);
        }
    }
    if starts_with(a.as_slice(), sh.as_slice()) && a.len() > sh.len() {
        let v = slice_of(a.as_slice(), sh.len(), a.len());
        return (Some(string_of(v.as_slice())), i + 1);
    }
    let lo_eq = join(lo.as_slice(), &['=']);
    assert(lo_eq@ =~= lo@.push('='));
    if starts_with(a.as_slice(), lo_eq.as_slice()) {
        let v = slice_of(a.as_slice(), lo_eq.len(), a.len());
        return (Some(string_of(v.as_slice())), i + 1);
    }
    (None, i + 1)
}

/// The trimmed value of header line `h` when it names `name`.
fn header_line_value(h: &str, name: &str) -> (r: Option<String>)
    ensures
        opt_view(r) == header_value(h@, name@),
{
    let cs = chars_of(h);
    let nm = chars_of(name);
    match find_char(cs.as_slice(), ':') {
        None => None,
        Some(j) => {
            let k = trim(slice_of(cs.as_slice(), 0, j).as_slice());
            if eq_ignore_case(k.as_slice(), nm.as_slice()) {
                let v = trim(slice_of(cs.as_slice(), j + 1, cs.len()).as_slice());
                Some(string_of(v.as_slice()))
            } else {
                None
            }
        },
    }
}

/// The value of the first header option that names `name` (`extract_header`).
pub fn extract_header(args: &Vec<String>, name: &str) -> (r: Option<String>)
    ensures
        opt_view(r) == header_from(string_views(args@), 0, name@),
{
    let ghost words = string_views(args@);
    let mut i: usize = 0;
    while i < args.len()
        invariant
            words == string_views(args@),
            header_from(words, 0, name@) == header_from(words, i as int, name@),
        decreases args.len() - i,
    {
        let (v, next) = option_value(args, i, "-H", "--header");
        if let Some(h) = v {
            if let Some(found) = header_line_value(h.as_str(), name) {
                return Some(found);
            }
        }
        i = next;
    }
    None
}

/// The cookies of a cURL command (`extract_cookies`).
pub fn extract_cookies(args: &Vec<String>) -> (r: Option<String>)
    ensures
        opt_view(r) == cookies_of(string_views(args@)),
{
    let ghost words = string_views(args@);
    let mut i: usize = 0;
    while i < args.len()
        invariant
            words == string_views(args@),
            cookie_option_from(words, 0) == cookie_option_from(words, i as int),
        decreases args.len() - i,
    {
        let (v, next) = option_value(args, i, "-b", "--cookie");
        if let Some(c) = v {
            return Some(c);
        }
        i = next;
    }
    extract_header(args, "cookie")
}

// ---------------------------------------------------------------------------
// Credentials from a cURL command
// ---------------------------------------------------------------------------

/// The token after a `Bearer ` (or `bearer `) prefix, trimmed.
pub open spec fn bearer_token(auth: Seq<char>) -> Option<Seq<char>> {
    if has_prefix(auth, "Bearer "@) {
        Some(ws_trimmed(auth.skip(7)))
    } else if has_prefix(auth, "bearer "@) {
        Some(ws_trimmed(auth.skip(7)))
    } else {
        None
    }
}

/// The `chatgpt_account_id` claim under `https://api.openai.com/auth` in the
/// payload (second dot-separated part, base64url) of a JWT.
pub open spec fn jwt_account_id(token: Seq<char>) -> Option<Seq<char>> {
    let parts = split_on(token, '.');
    if parts.len() < 2 {
        None
    } else {
        match base64url(encode_utf8(parts[1])) {
            None => None,
            Some(payload) => match json_nested_str(
                payload,
                "https://api.openai.com/auth"@,
                "chatgpt_account_id"@,
            ) {
                None => None,
                Some(id) => id,
            },
        }
    }
}

/// The account: the `chatgpt-account-id` header when present, else the claim
/// in the token.
pub open spec fn account_of(args: Seq<Seq<char>>, token: Seq<char>) -> Option<Seq<char>> {
    match header_from(args, 0, "chatgpt-account-id"@) {
        Some(a) => Some(a),
        None => jwt_account_id(token),
    }
}

/// The credentials that a copied cURL command holds, or why it holds none.
pub open spec fn curl_creds(curl: Seq<char>) -> Result<CredsView, Seq<char>> {
    match shell_words(curl) {
        Err(e) => Err("cannot parse copied cURL: "@ + e),
        Ok(args) => match header_from(args, 0, "authorization"@) {
            None => Err("missing authorization: Bearer header"@),
            Some(auth) => match bearer_token(auth) {
                None => Err("authorization header is not Bearer token"@),
                Some(token) => match account_of(args, token) {
                    None => Err(
                        "missing chatgpt-account-id header and no chatgpt_account_id claim in token"@,
                    ),
                    Some(account_id) => match cookies_of(args) {
                        None => Err("missing cookies: expected -b, --cookie, or cookie header"@),
                        Some(cookies) => Ok(CredsView { token, account_id, cookies }),
                    },
                },
            },
        },
    }
}

/// The token of an `authorization` header value.
fn strip_bearer(auth: &str) -> (r: Option<String>)
    ensures
        opt_view(r) == bearer_token(auth@),
{
    let cs = chars_of(auth);
    let upper = chars_of("Bearer ");
    let lower = chars_of("bearer ");
    proof {
        reveal_strlit("Bearer ");
        reveal_strlit("bearer ");
    }
    if starts_with(cs.as_slice(), upper.as_slice()) || starts_with(cs.as_slice(), lower.as_slice()) {
        let t = trim(slice_of(cs.as_slice(), 7, cs.len()).as_slice());
        Some(string_of(t.as_slice()))
    } else {
        None
    }
}

/// The account id claim of a JWT (`account_id_from_jwt`).
pub fn account_id_from_jwt(token: &str) -> (r: Option<String>)
    ensures
        opt_view(r) == jwt_account_id(token@),
{
    let cs = chars_of(token);
    let parts = split(cs.as_slice(), '.');
    if parts.len() < 2 {
        return None;
    }
    let payload_text = string_of(parts[1].as_slice());
    assert(views(parts@)[1] == parts@[1]@);
    let payload = match base64url_decode(payload_text.as_str()) {
        Ok(p) => p,
        Err(_) => {
            return None;
        },
    };
    match read_nested_str(payload.as_slice(), "https://api.openai.com/auth", "chatgpt_account_id") {
        Some(id) => id,
        None => None,
    }
}

/// Extracts the credentials from a copied cURL command (`creds_from_curl`).
pub fn creds_from_curl(curl: &str) -> (r: Result<Creds, String>)
    ensures
        match curl_creds(curl@) {
            Ok(c) => r matches Ok(x) && x@ == c,
            Err(e) => r matches Err(m) && m@ == e,
        },
{
    let args = match curl_args(curl) {
        Ok(a) => a,
        Err(e) => {
            return Err(String::from_str("cannot parse copied cURL: ").concat(e.as_str()));
        },
    };
    let auth = match extract_header(&args, "authorization") {
        Some(a) => a,
        None => {
            return Err(String::from_str("missing authorization: Bearer header"));
        },
    };
    let token = match strip_bearer(auth.as_str()) {
        Some(t) => t,
        None => {
            return Err(String::from_str("authorization header is not Bearer token"));
        },
    };
    let account_id = match extract_header(&args, "chatgpt-account-id") {
        Some(a) => a,
        None => match account_id_from_jwt(token.as_str()) {
            Some(a) => a,
            None => {
                return Err(
                    String::from_str(
                        "missing chatgpt-account-id header and no chatgpt_account_id claim in token",
                    ),
                );
            },
        },
    };
    let cookies = match extract_cookies(&args) {
        Some(c) => c,
        None => {
            return Err(
                String::from_str("missing cookies: expected -b, --cookie, or cookie header"),
            );
        },
    };
    Ok(Creds { token, account_id, cookies })
}

// ---------------------------------------------------------------------------
// creds.env
// ---------------------------------------------------------------------------

/// The key and value of a `creds.env` line: blank lines, `#` comments and
/// lines without `=` hold none; around the first `=` both sides are trimmed,
/// and the value loses its surrounding single and then double quotes.
pub open spec fn env_entry(line: Seq<char>) -> Option<(Seq<char>, Seq<char>)> {
    let l = ws_trimmed(line);
    if l.len() == 0 || l[0] == '#' {
        None
    } else {
        match first_index(l, '=') {
            None => None,
            Some(i) => Some(
                (
                    ws_trimmed(l.take(i)),
                    char_trimmed(char_trimmed(ws_trimmed(l.skip(i + 1)), '\''), '"'),
                ),
            ),
        }
    }
}

/// The value of the last entry for `key` among `lines`.
pub open spec fn env_value(lines: Seq<Seq<char>>, key: Seq<char>) -> Option<Seq<char>>
    decreases lines.len(),
{
    if lines.len() == 0 {
        None
    } else {
        let e = env_entry(lines.last());
        if e is Some && e.unwrap().0 == key {
            Some(e.unwrap().1)
        } else {
            env_value(lines.drop_last(), key)
        }
    }
}

/// The value set for `key` in `text`, or why there is none: missing and
/// empty values are both refused.
pub open spec fn env_setting(text: Seq<char>, key: Seq<char>) -> Result<Seq<char>, Seq<char>> {
    match env_value(text_lines(text), key) {
        Some(v) => if v.len() > 0 {
            Ok(v)
        } else {
            Err(key + " is not set"@)
        },
        None => Err(key + " is not set"@),
    }
}

/// The credentials that a `creds.env` text sets, or the first missing key.
pub open spec fn env_creds(text: Seq<char>) -> Result<CredsView, Seq<char>> {
    match env_setting(text, "TOKEN"@) {
        Err(e) => Err(e),
        Ok(token) => match env_setting(text, "ACCOUNT_ID"@) {
            Err(e) => Err(e),
            Ok(account_id) => match env_setting(text, "COOKIES"@) {
                Err(e) => Err(e),
                Ok(cookies) => Ok(CredsView { token, account_id, cookies }),
            },
        },
    }
}

/// The entry of one line of `creds.env`.
fn env_line_entry(line: &[char]) -> (r: Option<(Vec<char>, Vec<char>)>)
    ensures
        match env_entry(line@) {
            None => r is None,
            Some(e) => r matches Some(p) && p.0@ == e.0 && p.1@ == e.1,
        },
{
    let l = trim(line);
    if l.len() == 0 || l[0] == '#' {
        return None;
    }
    match find_char(l.as_slice(), '=') {
        None => None,
        Some(i) => {
            let k = trim(slice_of(l.as_slice(), 0, i).as_slice());
            let v = trim(slice_of(l.as_slice(), i + 1, l.len()).as_slice());
            let v = trim_matches(v.as_slice(), '\'');
            let v = trim_matches(v.as_slice(), '"');
            Some((k, v))
        },
    }
}

/// The value of `key` when it is set and not empty, else `"<key> is not set"`.
fn env_required(v: Option<Vec<char>>, key: &str) -> (r: Result<String, String>)
    ensures
        match opt_chars(v) {
            Some(x) => if x.len() > 0 {
                r matches Ok(s) && s@ == x
            } else {
                r matches Err(e) && e@ == key@ + " is not set"@
            },
            None => r matches Err(e) && e@ == key@ + " is not set"@,
        },
{
    match v {
        Some(x) => {
            if x.len() > 0 {
                Ok(string_of(x.as_slice()))
            } else {
                Err(String::from_str(key).concat(" is not set"))
            }
        },
        None => Err(String::from_str(key).concat(" is not set")),
    }
}

/// Reads the credentials a `creds.env` text sets (`creds_from_env`).
///
/// Each key's value is found by scanning the lines for its last assignment
/// (`env_value`) instead of collecting the lines into a map keyed by text:
/// the value is the same one, since a later assignment of a key replaces an
/// earlier one, and for a map with `String` keys nothing of what a lookup
/// returns could be proved.
pub fn creds_from_env(text: &str) -> (r: Result<Creds, String>)
    ensures
        match env_creds(text@) {
            Ok(c) => r matches Ok(x) && x@ == c,
            Err(e) => r matches Err(m) && m@ == e,
        },
{
    let cs = chars_of(text);
    let ls = lines(cs.as_slice());
    let token_key = chars_of("TOKEN");
    let account_key = chars_of("ACCOUNT_ID");
    let cookies_key = chars_of("COOKIES");
    let ghost all = views(ls@);
    let mut token: Option<Vec<char>> = None;
    let mut account: Option<Vec<char>> = None;
    let mut cookies: Option<Vec<char>> = None;
    let mut i: usize = 0;
    while i < ls.len()
        invariant
            i <= ls@.len(),
            all == views(ls@),
            token_key@ == "TOKEN"@,
            account_key@ == "ACCOUNT_ID"@,
            cookies_key@ == "COOKIES"@,
            opt_chars(token) == env_value(all.take(i as int), "TOKEN"@),
            opt_chars(account) == env_value(all.take(i as int), "ACCOUNT_ID"@),
            opt_chars(cookies) == env_value(all.take(i as int), "COOKIES"@),
        decreases ls.len() - i,
    {
        proof {
            reveal_strlit("TOKEN");
            reveal_strlit("ACCOUNT_ID");
            reveal_strlit("COOKIES");
            assert("TOKEN"@.len() == 5);
            assert("ACCOUNT_ID"@.len() == 10);
            assert("COOKIES"@.len() == 7);
        }
        let ghost pre = all.take(i as int);
        assert(all.take(i + 1).drop_last() =~= pre);
        assert(all.take(i + 1).last() == ls@[i as int]@);
        if let Some((k, v)) = env_line_entry(ls[i].as_slice()) {
            if same(k.as_slice(), token_key.as_slice()) {
                token = Some(v);
            } else if same(k.as_slice(), account_key.as_slice()) {
                account = Some(v);
            } else if same(k.as_slice(), cookies_key.as_slice()) {
                cookies = Some(v);
            }
        }
        i = i + 1;
    }
    assert(all.take(i as int) =~= all);
    let token = match env_required(token, "TOKEN") {
        Ok(t) => t,
        Err(e) => {
            return Err(e);
        },
    };
    let account_id = match env_required(account, "ACCOUNT_ID") {
        Ok(a) => a,
        Err(e) => {
            return Err(e);
        },
    };
    let cookies = match env_required(cookies, "COOKIES") {
        Ok(c) => c,
        Err(e) => {
            return Err(e);
        },
    };
    Ok(Creds { token, account_id, cookies })
}

/// What was read of `creds.env`: where it is, and its text or the error
/// that reading it gave.
pub struct CredsFile {
    pub path: String,
    pub contents: Result<String, String>,
}

pub struct CredsFileView {
    pub path: Seq<char>,
    pub contents: Result<Seq<char>, Seq<char>>,
}

impl View for CredsFile {
    type V = CredsFileView;

    open spec fn view(&self) -> CredsFileView {
        CredsFileView {
            path: self.path@,
            contents: match self.contents {
                Ok(t) => Ok(t@),
                Err(e) => Err(e@),
            },
        }
    }
}

/// The credentials in a read `creds.env`, or why there are none.
pub open spec fn file_creds(f: CredsFileView) -> Result<CredsView, Seq<char>> {
    match f.contents {
        Err(e) => Err("cannot read "@ + f.path + ": "@ + e),
        Ok(text) => match env_creds(text) {
            Ok(c) => Ok(c),
            Err(e) => Err(e + " in "@ + f.path),
        },
    }
}

/// The credentials in a read `creds.env` (`try_load_creds`).
pub fn try_load_creds(file: &CredsFile) -> (r: Result<Creds, String>)
    ensures
        match file_creds(file@) {
            Ok(c) => r matches Ok(x) && x@ == c,
            Err(e) => r matches Err(m) && m@ == e,
        },
{
    match &file.contents {
        Err(e) => Err(
            String::from_str("cannot read ").concat(file.path.as_str()).concat(": ").concat(
                e.as_str(),
            ),
        ),
        Ok(text) => match creds_from_env(text.as_str()) {
            Ok(c) => Ok(c),
            Err(e) => Err(e.concat(" in ").concat(file.path.as_str())),
        },
    }
}

/// Whether `creds.env` holds all three credentials.
pub fn has_usable_creds(file: &CredsFile) -> (r: bool)
    ensures
        r == file_creds(file@) is Ok,
{
    try_load_creds(file).is_ok()
}

/// The credentials in `creds.env`, which must hold all three (`load_creds`).
pub fn load_creds(file: &CredsFile) -> (r: Creds)
    requires
        file_creds(file@) is Ok,
    ensures
        file_creds(file@) == Ok::<CredsView, Seq<char>>(r@),
{
    match try_load_creds(file) {
        Ok(c) => c,
        Err(_) => {
            proof {
                assert(false);
            }
            Creds { token: String::new(), account_id: String::new(), cookies: String::new() }
        },
    }
}

/// The credentials in `creds.env` when it holds all three; `None` when they
/// have to be asked for again (`load_or_create_creds`).
pub fn load_or_create_creds(file: &CredsFile) -> (r: Option<Creds>)
    ensures
        match file_creds(file@) {
            Ok(c) => r matches Some(x) && x@ == c,
            Err(_) => r is None,
        },
{
    match try_load_creds(file) {
        Ok(c) => Some(c),
        Err(_) => None,
    }
}

/// One `KEY='value'` line of `creds.env`.
pub open spec fn env_assignment(key: Seq<char>, value: Seq<char>) -> Seq<char> {
    key + seq!['='] + single_quoted(value) + seq!['\n']
}

/// The `creds.env` text for `c`.
pub open spec fn env_text(c: CredsView) -> Seq<char> {
    env_assignment("TOKEN"@, c.token) + env_assignment("ACCOUNT_ID"@, c.account_id)
        + env_assignment("COOKIES"@, c.cookies)
}

/// The text that `write_creds_env` writes for `creds`.
pub fn creds_env_text(creds: &Creds) -> (r: String)
    ensures
        r@ == env_text(creds@),
{
    let token = assignment("TOKEN", creds.token.as_str());
    let account = assignment("ACCOUNT_ID", creds.account_id.as_str());
    let cookies = assignment("COOKIES", creds.cookies.as_str());
    token.concat(account.as_str()).concat(cookies.as_str())
}

/// One `KEY='value'` line.
fn assignment(key: &str, value: &str) -> (r: String)
    ensures
        r@ == env_assignment(key@, value@),
{
    proof {
        reveal_strlit("=");
        reveal_strlit("\n");
    }
    String::from_str(key).concat("=").concat(shell_quote(value).as_str()).concat("\n")
}

// ---------------------------------------------------------------------------
// Shell quoting
// ---------------------------------------------------------------------------

/// `'` + `v` with each `'` written as `'\''` + `'`.
pub open spec fn single_quoted(v: Seq<char>) -> Seq<char> {
    seq!['\''] + replace_char(v, '\'', seq!['\'', '\\', '\'', '\'']) + seq!['\'']
}

/// Quotes `value` for a POSIX shell.
pub fn shell_quote(value: &str) -> (r: String)
    ensures
        r@ == single_quoted(value@),
{
    let cs = chars_of(value);
    let mut out: Vec<char> = vec!['\''];
    let mut i: usize = 0;
    let ghost q = seq!['\'', '\\', '\'', '\''];
    assert(cs@.subrange(0, cs@.len() as int) =~= cs@);
    assert(out@ =~= seq!['\'']);
    while i < cs.len()
        invariant
            i <= cs@.len(),
            cs@ == value@,
            q == seq!['\'', '\\', '\'', '\''],
            out@ + replace_char(cs@.subrange(i as int, cs@.len() as int), '\'', q) == seq!['\'']
                + replace_char(cs@, '\'', q),
        decreases cs.len() - i,
    {
        let ghost rest = cs@.subrange(i as int, cs@.len() as int);
        assert(rest.drop_first() =~= cs@.subrange(i + 1, cs@.len() as int));
        let ghost before = out@;
        if cs[i] == '\'' {
            out.push('\'');
            out.push('\\');
            out.push('\'');
            out.push('\'');
            assert(out@ =~= before + q);
        } else {
            out.push(cs[i]);
            assert(out@ =~= before + seq![cs@[i as int]]);
        }
        i = i + 1;
        assert(before + replace_char(rest, '\'', q) =~= out@ + replace_char(
            cs@.subrange(i as int, cs@.len() as int),
            '\'',
            q,
        ));
    }
    assert(cs@.subrange(i as int, cs@.len() as int) =~= seq![]);
    assert(out@ =~= seq!['\''] + replace_char(cs@, '\'', q));
    out.push('\'');
    string_of(out.as_slice())
}

pub open spec fn in_single(args: Seq<Seq<char>>, cur: Seq<char>) -> Lex {
    Lex { args, cur, in_word: true, quote: Quote::Single, escape: false }
}

/// Reading the quoted body of `single_quoted(v)` inside single quotes adds
/// exactly `v` to the word in progress.
proof fn lemma_quoted_body(v: Seq<char>, rest: Seq<char>, args: Seq<Seq<char>>, cur: Seq<char>)
    ensures
        lex(replace_char(v, '\'', seq!['\'', '\\', '\'', '\'']) + rest, in_single(args, cur))
            == lex(rest, in_single(args, cur + v)),
    decreases v.len(),
{
    let q = seq!['\'', '\\', '\'', '\''];
    if v.len() == 0 {
        assert(replace_char(v, '\'', q) + rest =~= rest);
        assert(cur + v =~= cur);
    } else {
        let tail = v.drop_first();
        let after = replace_char(tail, '\'', q) + rest;
        lemma_quoted_body(tail, rest, args, cur.push(v[0]));
        assert(cur.push(v[0]) + tail =~= cur + v);
        if v[0] == '\'' {
            let s0 = replace_char(v, '\'', q) + rest;
            assert(s0 =~= q + after);
            let s1 = s0.drop_first();
            let s2 = s1.drop_first();
            let s3 = s2.drop_first();
            assert(s3.drop_first() =~= after);
            let l1 = Lex { quote: Quote::Unquoted, ..in_single(args, cur) };
            let l2 = Lex { escape: true, ..l1 };
            let l3 = Lex { cur: cur.push('\''), in_word: true, escape: false, ..l2 };
            assert(lex(s0, in_single(args, cur)) == lex(s1, l1));
            assert(lex(s1, l1) == lex(s2, l2));
            assert(lex(s2, l2) == lex(s3, l3));
            assert(lex(s3, l3) == lex(after, in_single(args, cur.push('\''))));
        } else {
            let s0 = replace_char(v, '\'', q) + rest;
            assert(s0 =~= seq![v[0]] + after);
            assert(s0.drop_first() =~= after);
        }
    }
}

/// Law: the shell-word reader takes a `shell_quote`d value back as exactly
/// one word, that value, whatever characters it holds.
pub proof fn lemma_shell_quote_reads_back(v: Seq<char>)
    ensures
        shell_words(single_quoted(v)) == Ok::<Seq<Seq<char>>, Seq<char>>(seq![v]),
{
    let q = seq!['\'', '\\', '\'', '\''];
    let s = single_quoted(v);
    let body = replace_char(v, '\'', q);
    lemma_quoted_body(v, seq!['\''], seq![], seq![]);
    assert(s.drop_first() =~= body + seq!['\'']);
    assert(lex(s, lex_init()) == lex(body + seq!['\''], in_single(seq![], seq![])));
    let end = in_single(seq![], seq![] + v);
    let last = Lex { quote: Quote::Unquoted, ..end };
    assert(seq!['\''].drop_first() =~= seq![]);
    assert(lex(seq!['\''], end) == lex(seq![], last));
    assert(seq![] + v =~= v);
    assert(seq![].push(v) =~= seq![v]);
}

/// The words `ss`, each `shell_quote`d, joined by single spaces.
pub open spec fn quoted_line(ss: Seq<Seq<char>>) -> Seq<char>
    decreases ss.len(),
{
    if ss.len() == 0 {
        seq![]
    } else if ss.len() == 1 {
        single_quoted(ss[0])
    } else {
        single_quoted(ss[0]) + seq![' '] + quoted_line(ss.drop_first())
    }
}

pub open spec fn between_words(args: Seq<Seq<char>>) -> Lex {
    Lex { args, cur: seq![], in_word: false, quote: Quote::Unquoted, escape: false }
}

pub open spec fn in_word(args: Seq<Seq<char>>, cur: Seq<char>) -> Lex {
    Lex { args, cur, in_word: true, quote: Quote::Unquoted, escape: false }
}

/// Between words, a `shell_quote`d value is read as a word in progress
/// holding exactly that value.
proof fn lemma_quoted_word(v: Seq<char>, rest: Seq<char>, args: Seq<Seq<char>>)
    ensures
        lex(single_quoted(v) + rest, between_words(args)) == lex(rest, in_word(args, v)),
{
    let q = seq!['\'', '\\', '\'', '\''];
    let body = replace_char(v, '\'', q);
    let s0 = single_quoted(v) + rest;
    let after = seq!['\''] + rest;
    assert(s0 =~= seq!['\''] + (body + after));
    assert(s0[0] == '\'');
    assert(s0.drop_first() =~= body + after);
    assert(lex(s0, between_words(args)) == lex(body + after, in_single(args, seq![])));
    lemma_quoted_body(v, after, args, seq![]);
    assert(seq![] + v =~= v);
    assert(after[0] == '\'');
    assert(after.drop_first() =~= rest);
    assert(lex(after, in_single(args, v)) == lex(rest, in_word(args, v)));
}

proof fn lemma_quoted_line(ss: Seq<Seq<char>>, args: Seq<Seq<char>>)
    requires
        ss.len() > 0,
    ensures
        lex(quoted_line(ss), between_words(args)) == lex(
            seq![],
            in_word(args + ss.drop_last(), ss.last()),
        ),
    decreases ss.len(),
{
    if ss.len() == 1 {
        lemma_quoted_word(ss[0], seq![], args);
        assert(single_quoted(ss[0]) + seq![] =~= single_quoted(ss[0]));
        assert(args + ss.drop_last() =~= args);
    } else {
        let tail = ss.drop_first();
        let rest = seq![' '] + quoted_line(tail);
        assert(quoted_line(ss) =~= single_quoted(ss[0]) + rest);
        lemma_quoted_word(ss[0], rest, args);
        assert(rest[0] == ' ');
        assert(is_ws(' '));
        assert(rest.drop_first() =~= quoted_line(tail));
        assert(lex(rest, in_word(args, ss[0])) == lex(
            quoted_line(tail),
            between_words(args.push(ss[0])),
        ));
        lemma_quoted_line(tail, args.push(ss[0]));
        assert(args.push(ss[0]) + tail.drop_last() =~= args + ss.drop_last());
        assert(tail.last() == ss.last());
    }
}

/// Law: quoting each word with `shell_quote` and joining them with spaces
/// gives a command line that the shell-word reader takes back as exactly
/// those words, whatever characters they hold.
pub proof fn lemma_quoted_line_reads_back(ss: Seq<Seq<char>>)
    ensures
        shell_words(quoted_line(ss)) == Ok::<Seq<Seq<char>>, Seq<char>>(ss),
{
    if ss.len() == 0 {
        assert(lex_init() == between_words(seq![]));
        assert(ss =~= Seq::<Seq<char>>::empty());
    } else {
        lemma_quoted_line(ss, seq![]);
        assert(lex_init() == between_words(seq![]));
        assert(seq![] + ss.drop_last() =~= ss.drop_last());
        assert(ss.drop_last().push(ss.last()) =~= ss);
    }
}

// ---------------------------------------------------------------------------
// Reading back what is written
// ---------------------------------------------------------------------------

/// A value that `creds.env` keeps as it is: not empty, without single quotes
/// or newlines, and neither starting nor ending with a double quote.
pub open spec fn env_safe(v: Seq<char>) -> bool {
    &&& v.len() > 0
    &&& !v.contains('\'')
    &&& !v.contains('\n')
    &&& v[0] != '"'
    &&& v.last() != '"'
}

/// A key as `creds.env` uses them.
pub open spec fn env_key(key: Seq<char>) -> bool {
    &&& key.len() > 0
    &&& forall|i: int| 0 <= i < key.len() ==> #[trigger] key[i] != '=' && key[i] != '\n'
    &&& !is_ws(key[0])
    &&& !is_ws(key.last())
    &&& key[0] != '#'
}

/// The value of a `KEY='value'` line comes out of its quotes unchanged.
proof fn lemma_unquote(v: Seq<char>)
    requires
        env_safe(v),
    ensures
        char_trimmed(char_trimmed(ws_trimmed(seq!['\''] + v + seq!['\'']), '\''), '"') == v,
{
    let sq = seq!['\''] + v + seq!['\''];
    let m = sq.len() as int;
    lemma_trim_range(sq, ws(), 0, m);
    assert(sq.subrange(0, m) =~= sq);
    // the single quotes come off
    assert(v[0] != '\'') by {
        assert(v.contains(v[0]));
    }
    assert(v.last() != '\'') by {
        assert(v[v.len() - 1] == v.last());
        assert(v.contains(v.last()));
    }
    assert forall|i: int| 0 <= i < 1 implies (#[trigger] is_char('\'')(sq[i])) by {}
    assert forall|i: int| m - 1 <= i < m implies (#[trigger] is_char('\'')(sq[i])) by {}
    assert(sq[1] == v[0]);
    assert(sq[m - 2] == v.last());
    lemma_trim_range(sq, is_char('\''), 1, m - 1);
    assert(sq.subrange(1, m - 1) =~= v);
    // and no double quote is at either end
    let vl = v.len() as int;
    lemma_trim_range(v, is_char('"'), 0, vl);
    assert(v.subrange(0, vl) =~= v);
}

proof fn lemma_assignment_entry(key: Seq<char>, v: Seq<char>)
    requires
        env_key(key),
        env_safe(v),
    ensures
        env_entry(key + seq!['='] + single_quoted(v)) == Some((key, v)),
        !(key + seq!['='] + single_quoted(v)).contains('\n'),
        (key + seq!['='] + single_quoted(v)).last() == '\'',
{
    let q = seq!['\'', '\\', '\'', '\''];
    lemma_replace_absent(v, '\'', q);
    let sq = seq!['\''] + v + seq!['\''];
    assert(single_quoted(v) =~= sq);
    let line = key + seq!['='] + sq;
    let k = key.len() as int;
    let n = line.len() as int;
    assert(line[0] == key[0]);
    assert(line[n - 1] == '\'');
    // the line is already trimmed
    lemma_trim_range(line, ws(), 0, n);
    assert(line.subrange(0, n) =~= line);
    // the first '=' ends the key
    assert forall|j: int| 0 <= j < k implies line[j] != '=' by {
        assert(line[j] == key[j]);
    }
    assert(line[k] == '=');
    lemma_first_from(line, '=', 0, k);
    assert(line.take(k) =~= key);
    lemma_trim_range(key, ws(), 0, k);
    assert(key.subrange(0, k) =~= key);
    assert(line.skip(k + 1) =~= sq);
    lemma_unquote(v);
    // no newline anywhere
    assert(!line.contains('\n')) by {
        if line.contains('\n') {
            let j = choose|j: int| 0 <= j < line.len() && line[j] == '\n';
            if j < k {
                assert(line[j] == key[j]);
            } else if j > k + 1 && j < n - 1 {
                assert(line[j] == v[j - k - 2]);
                assert(v.contains('\n'));
            }
        }
    }
}

/// Law: the credentials that `creds_env_text` writes are read back unchanged
/// by `creds_from_env`, for values that `creds.env` can keep (`env_safe`).
pub proof fn lemma_env_text_reads_back(c: CredsView)
    requires
        env_safe(c.token),
        env_safe(c.account_id),
        env_safe(c.cookies),
    ensures
        env_creds(env_text(c)) == Ok::<CredsView, Seq<char>>(c),
{
    reveal_strlit("TOKEN");
    reveal_strlit("ACCOUNT_ID");
    reveal_strlit("COOKIES");
    let k1 = "TOKEN"@;
    let k2 = "ACCOUNT_ID"@;
    let k3 = "COOKIES"@;
    assert(env_key(k1));
    assert(env_key(k2));
    assert(env_key(k3));
    let l1 = k1 + seq!['='] + single_quoted(c.token);
    let l2 = k2 + seq!['='] + single_quoted(c.account_id);
    let l3 = k3 + seq!['='] + single_quoted(c.cookies);
    lemma_assignment_entry(k1, c.token);
    lemma_assignment_entry(k2, c.account_id);
    lemma_assignment_entry(k3, c.cookies);
    let nl = seq!['\n'];
    let text = env_text(c);
    assert(text =~= l1 + nl + (l2 + nl + (l3 + nl + seq![])));
    lemma_lines_step(l1, l2 + nl + (l3 + nl + seq![]), seq![]);
    lemma_lines_step(l2, l3 + nl + seq![], seq![]);
    lemma_lines_step(l3, seq![], seq![]);
    assert(seq![] + l1 =~= l1);
    assert(seq![] + l2 =~= l2);
    assert(seq![] + l3 =~= l3);
    let ls = text_lines(text);
    assert(ls =~= seq![l1, l2, l3]);
    assert(ls.drop_last() =~= seq![l1, l2]);
    assert(ls.drop_last().drop_last() =~= seq![l1]);
    assert(ls.drop_last().drop_last().drop_last() =~= seq![]);
    assert(k1 != k2 && k1 != k3 && k2 != k3) by {
        assert(k1.len() == 5 && k2.len() == 10 && k3.len() == 7);
    }
    let b = ls.drop_last();
    let d = b.drop_last();
    assert(ls.last() == l3 && b.last() == l2 && d.last() == l1);
    assert(env_value(d, k1) == Some(c.token));
    assert(env_value(b, k1) == env_value(d, k1));
    assert(env_value(ls, k1) == env_value(b, k1));
    assert(env_value(b, k2) == Some(c.account_id));
    assert(env_value(ls, k2) == env_value(b, k2));
    assert(env_value(ls, k3) == Some(c.cookies));
}

/// Law: a `creds.env` that holds what `creds_env_text` wrote yields those
/// credentials again, wherever it is.
pub proof fn lemma_written_file_loads(path: Seq<char>, c: CredsView)
    requires
        env_safe(c.token),
        env_safe(c.account_id),
        env_safe(c.cookies),
    ensures
        file_creds(CredsFileView { path, contents: Ok(env_text(c)) }) == Ok::<
            CredsView,
            Seq<char>,
        >(c),
{
    lemma_env_text_reads_back(c);
}

/// A line's entry does not depend on a `'\r'` at its end.
proof fn lemma_entry_ignores_cr(l: Seq<char>)
    ensures
        env_entry(strip_cr(l)) == env_entry(l),
{
    if l.len() > 0 && l.last() == '\r' {
        assert(ws()(l.last()));
        lemma_trim_ignores_last(l, ws());
    }
}

/// An empty line added after `lines` sets nothing.
proof fn lemma_value_after_empty_line(lines: Seq<Seq<char>>, key: Seq<char>)
    ensures
        env_value(lines.push(seq![]), key) == env_value(lines, key),
{
    let n = lines.push(seq![]);
    assert(n.drop_last() =~= lines);
    assert(ws_trimmed(n.last()).len() == 0);
}

/// A last line replaced by one with the same entry sets the same values.
proof fn lemma_value_same_last(lines: Seq<Seq<char>>, x: Seq<char>, key: Seq<char>)
    requires
        lines.len() > 0,
        env_entry(x) == env_entry(lines.last()),
    ensures
        env_value(lines.drop_last().push(x), key) == env_value(lines, key),
{
    let n = lines.drop_last().push(x);
    assert(n.drop_last() =~= lines.drop_last());
}

/// Law: a newline at the end of a `creds.env` text changes nothing it sets,
/// so a file saved without a final newline still sets its last line.
pub proof fn lemma_final_newline_changes_nothing(text: Seq<char>, key: Seq<char>)
    ensures
        env_setting(text.push('\n'), key) == env_setting(text, key),
        env_creds(text.push('\n')) == env_creds(text),
{
    assert forall|k: Seq<char>| #[trigger] env_value(text_lines(text.push('\n')), k) == env_value(
        text_lines(text),
        k,
    ) by {
        lemma_lines_closed(text, seq![]);
        let l = text_lines(text);
        let m = text_lines(text.push('\n'));
        if m == l.push(seq![]) {
            lemma_value_after_empty_line(l, k);
        } else {
            lemma_entry_ignores_cr(l.last());
            lemma_value_same_last(l, strip_cr(l.last()), k);
        }
    }
    assert(env_value(text_lines(text.push('\n')), key) == env_value(text_lines(text), key));
    assert(env_value(text_lines(text.push('\n')), "TOKEN"@) == env_value(text_lines(text), "TOKEN"@));
    assert(env_value(text_lines(text.push('\n')), "ACCOUNT_ID"@) == env_value(
        text_lines(text),
        "ACCOUNT_ID"@,
    ));
    assert(env_value(text_lines(text.push('\n')), "COOKIES"@) == env_value(
        text_lines(text),
        "COOKIES"@,
    ));
}

/// A character with no meaning to the shell-word reader: not white space,
/// not a quote, a backslash or `$`.
pub open spec fn plain_char(c: char) -> bool {
    !is_ws(c) && c != '\\' && c != '\'' && c != '"' && c != '$'
}

/// Reading `s` is reading its first character alone, then the rest, unless
/// it opens with an unquoted `$'`.
proof fn lemma_lex_first(s: Seq<char>, st: Lex)
    requires
        s.len() > 0,
        !(!st.escape && st.quote == Quote::Unquoted && s[0] == '$' && s.len() > 1 && s[1] == '\''),
    ensures
        lex(s, st) == lex(s.drop_first(), lex(seq![s[0]], st)),
{
    reveal_with_fuel(lex, 2);
    let one = seq![s[0]];
    assert(one[0] == s[0]);
    assert(one.drop_first() =~= Seq::<char>::empty());
    if s.len() > 1 {
        assert(s.drop_first()[0] == s[1]);
    }
}

/// Reading `s` and then `c` (no single quote, so no `$'` is completed) is
/// reading `s.push(c)`.
proof fn lemma_lex_push(s: Seq<char>, st: Lex, c: char)
    requires
        c != '\'',
    ensures
        lex(s.push(c), st) == lex(seq![c], lex(s, st)),
    decreases s.len(),
{
    let t = s.push(c);
    if s.len() == 0 {
        assert(t =~= seq![c]);
    } else {
        let rest = s.drop_first();
        assert(t[0] == s[0]);
        assert(t.drop_first() =~= rest.push(c));
        if !st.escape && st.quote == Quote::Unquoted && s[0] == '$' && rest.len() > 0 && rest[0]
            == '\'' {
            assert(t.drop_first()[0] == '\'');
            assert(t.drop_first().drop_first() =~= rest.drop_first().push(c));
            lemma_lex_push(rest.drop_first(), Lex { quote: Quote::Single, in_word: true, ..st }, c);
        } else {
            if s.len() > 1 {
                assert(s[1] == rest[0]);
                assert(t[1] == s[1]);
            } else {
                assert(t[1] == c);
            }
            lemma_lex_first(s, st);
            lemma_lex_first(t, st);
            lemma_lex_push(rest, lex(seq![s[0]], st), c);
        }
    }
}

/// After characters that do not end with a backslash no escape is pending.
proof fn lemma_lex_no_escape(s: Seq<char>, st: Lex)
    requires
        s.len() > 0,
        s.last() != '\\',
    ensures
        !lex(s, st).escape,
    decreases s.len(),
{
    let rest = s.drop_first();
    if !st.escape && st.quote == Quote::Unquoted && s[0] == '$' && rest.len() > 0 && rest[0]
        == '\'' {
        if rest.len() > 1 {
            assert(rest.drop_first().last() == s.last());
            lemma_lex_no_escape(rest.drop_first(), Lex { quote: Quote::Single, in_word: true, ..st });
        } else {
            assert(rest.drop_first() =~= Seq::<char>::empty());
        }
    } else {
        if s.len() > 1 {
            assert(s[1] == rest[0]);
        }
        lemma_lex_first(s, st);
        reveal_with_fuel(lex, 2);
        let one = seq![s[0]];
        assert(one[0] == s[0]);
        assert(one.drop_first() =~= Seq::<char>::empty());
        if rest.len() > 0 {
            assert(rest.last() == s.last());
            lemma_lex_no_escape(rest, lex(one, st));
        } else {
            assert(s[0] == s.last());
        }
    }
}

/// Law: unquoted white space of any kind (a newline, a tab, a space...) at
/// the end of a command ends its last word and adds nothing to it, unless a
/// backslash escapes it.
pub proof fn lemma_trailing_space_ends_word(s: Seq<char>, c: char)
    requires
        is_ws(c),
        s.len() == 0 || s.last() != '\\',
    ensures
        shell_words(s.push(c)) == shell_words(s),
{
    lemma_lex_push(s, lex_init(), c);
    if s.len() > 0 {
        lemma_lex_no_escape(s, lex_init());
    }
    reveal_with_fuel(lex, 2);
    let one = seq![c];
    assert(one[0] == c);
    assert(one.drop_first() =~= Seq::<char>::empty());
}

/// Reading plain characters `w` adds them to the word in progress.
proof fn lemma_lex_plain(w: Seq<char>, t: Seq<char>, st: Lex)
    requires
        forall|i: int| 0 <= i < w.len() ==> plain_char(#[trigger] w[i]),
        !st.escape,
        st.quote == Quote::Unquoted,
    ensures
        lex(w + t, st) == lex(t, Lex { cur: st.cur + w, in_word: st.in_word || w.len() > 0, ..st }),
    decreases w.len(),
{
    if w.len() == 0 {
        assert(w + t =~= t);
        assert(st.cur + w =~= st.cur);
    } else {
        assert(plain_char(w[0]));
        assert((w + t)[0] == w[0]);
        assert((w + t).drop_first() =~= w.drop_first() + t);
        assert forall|i: int| 0 <= i < w.drop_first().len() implies plain_char(
            #[trigger] w.drop_first()[i],
        ) by {
            assert(w.drop_first()[i] == w[i + 1]);
        }
        lemma_lex_plain(w.drop_first(), t, Lex { cur: st.cur.push(w[0]), in_word: true, ..st });
        assert(st.cur.push(w[0]) + w.drop_first() =~= st.cur + w);
    }
}

/// Law: white space of any kind (a space, a tab, a newline...) between two
/// plain words separates them.
pub proof fn lemma_space_separates_words(w1: Seq<char>, c: char, w2: Seq<char>)
    requires
        w1.len() > 0,
        w2.len() > 0,
        forall|i: int| 0 <= i < w1.len() ==> plain_char(#[trigger] w1[i]),
        forall|i: int| 0 <= i < w2.len() ==> plain_char(#[trigger] w2[i]),
        is_ws(c),
    ensures
        shell_words(w1 + seq![c] + w2) == Ok::<Seq<Seq<char>>, Seq<char>>(seq![w1, w2]),
{
    let init = lex_init();
    let tail = seq![c] + w2;
    assert(w1 + seq![c] + w2 =~= w1 + tail);
    lemma_lex_plain(w1, tail, init);
    let st1 = Lex { cur: init.cur + w1, in_word: true, ..init };
    assert(init.cur + w1 =~= w1);
    assert(tail[0] == c);
    assert(tail.drop_first() =~= w2);
    let st2 = Lex { args: seq![w1], cur: seq![], in_word: false, ..st1 };
    assert(lex(tail, st1) == lex(w2, st2)) by {
        assert(st1.args.push(st1.cur) =~= seq![w1]);
    }
    assert(w2 + seq![] =~= w2);
    lemma_lex_plain(w2, seq![], st2);
    assert(st2.cur + w2 =~= w2);
    assert(seq![w1].push(w2) =~= seq![w1, w2]);
}

} // verus!
