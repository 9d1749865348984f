//! The rules of the web front: who may administer, which writes are
//! accepted, which headers every response carries, and what errors answer.
use vstd::prelude::*;
use vstd::utf8::{decode_utf8, valid_utf8};

use crate::text::{chars_of, owned, same_chars, str_is, trim_chars, trimmed};

verus! {

/// The error of `base64::Engine::decode`.
#[verifier::external_type_specification]
#[verifier::external_body]
pub struct ExDecodeError(base64::DecodeError);

/// What standard Base64 decoding (`base64::engine::general_purpose::STANDARD`
/// with `Engine::decode`) makes of a text; none when it is not valid Base64.
pub uninterp spec fn spec_base64_decode(input: Seq<char>) -> Option<Seq<u8>>;

/// Decodes standard Base64.
#[verifier::external_body]
fn base64_decode(encoded: &str) -> (r: Result<Vec<u8>, base64::DecodeError>)
    ensures
        match r {
            Ok(v) => spec_base64_decode(encoded@) == Some(v@),
            Err(_) => spec_base64_decode(encoded@) is None,
        },
{
    base64::Engine::decode(&base64::engine::general_purpose::STANDARD, encoded)
}

/// Reads bytes as UTF-8 text with `std::str::from_utf8`: it succeeds
/// exactly on valid UTF-8 and then gives the decoded characters.
#[verifier::external_body]
fn utf8_text(bytes: &[u8]) -> (r: Option<&str>)
    ensures
        match r {
            Some(s) => valid_utf8(bytes@) && s@ == decode_utf8(bytes@),
            None => !valid_utf8(bytes@),
        },
{
    std::str::from_utf8(bytes).ok()
}

/// The position of the first `:` in a text.
pub open spec fn first_colon(t: Seq<char>) -> Option<int>
    decreases t.len(),
{
    if t.len() == 0 {
        None
    } else if t[0] == ':' {
        Some(0)
    } else {
        match first_colon(t.drop_first()) {
            Some(i) => Some(i + 1),
            None => None,
        }
    }
}

/// `Basic `.
pub open spec fn basic_prefix() -> Seq<char> {
    seq!['B', 'a', 's', 'i', 'c', ' ']
}

/// Decoded credentials name the expected user and password: they are UTF-8
/// text `user:password`, split at its first colon; no decoding names
/// nobody.
pub open spec fn decoded_credentials_match(decoded: Option<Seq<u8>>, user: Seq<char>, pass: Seq<char>) -> bool {
    match decoded {
        None => false,
        Some(bytes) => {
            &&& valid_utf8(bytes)
            &&& match first_colon(decode_utf8(bytes)) {
                None => false,
                Some(i) => {
                    &&& decode_utf8(bytes).take(i) == user
                    &&& decode_utf8(bytes).skip(i + 1) == pass
                },
            }
        },
    }
}

/// An `Authorization` header grants administration when it is
/// `Basic ` followed by the Base64 (around which white space is allowed) of
/// credentials that name the expected user and password.
pub open spec fn credentials_match(header: Option<Seq<char>>, user: Seq<char>, pass: Seq<char>) -> bool {
    match header {
        None => false,
        Some(h) => {
            &&& h.len() >= 6
            &&& h.take(6) == basic_prefix()
            &&& decoded_credentials_match(spec_base64_decode(trimmed(h.skip(6))), user, pass)
        },
    }
}

fn find_colon(t: &Vec<char>) -> (r: Option<usize>)
    ensures
        r matches Some(i) ==> i < t.len(),
        match r {
            Some(i) => first_colon(t@) == Some(i as int),
            None => first_colon(t@) is None,
        },
{
    let mut k: usize = 0;
    assert(t@.skip(0) =~= t@);
    while k < t.len()
        invariant
            k <= t.len(),
            forall|j: int| 0 <= j < k ==> t@[j] != ':',
            first_colon(t@) == match first_colon(t@.skip(k as int)) {
                Some(i) => Some(i + k),
                None => None,
            },
        decreases t.len() - k,
    {
        proof {
            assert(t@.skip(k as int).drop_first() =~= t@.skip(k + 1));
        }
        if t[k] == ':' {
            return Some(k);
        }
        k = k + 1;
    }
    None
}

fn take_chars(v: &Vec<char>, from: usize, to: usize) -> (r: Vec<char>)
    requires
        from <= to <= v.len(),
    ensures
        r@ == v@.subrange(from as int, to as int),
{
    let mut r: Vec<char> = Vec::new();
    let mut k = from;
    while k < to
        invariant
            from <= k <= to <= v.len(),
            r@ == v@.subrange(from as int, k as int),
        decreases to - k,
    {
        r.push(v[k]);
        k = k + 1;
        assert(r@ =~= v@.subrange(from as int, k as int));
    }
    r
}

/// Checks the `Authorization` header of an administrative request against
/// the configured user and password.
pub fn check_credentials(header: Option<&str>, expected_user: &str, expected_pass: &str) -> (ok: bool)
    ensures
        ok == credentials_match(
            match header {
                Some(h) => Some(h@),
                None => None,
            },
            expected_user@,
            expected_pass@,
        ),
{
    let h = match header {
        None => return false,
        Some(h) => h,
    };
    let hv = chars_of(h);
    let prefix = vec!['B', 'a', 's', 'i', 'c', ' '];
    assert(prefix@ =~= basic_prefix());
    if hv.len() < 6 {
        return false;
    }
    let head = take_chars(&hv, 0, 6);
    assert(head@ =~= hv@.take(6));
    if !same_chars(&head, &prefix) {
        return false;
    }
    let rest = take_chars(&hv, 6, hv.len());
    assert(rest@ =~= hv@.skip(6));
    let encoded = trim_chars(&rest);
    let encoded_text = crate::text::string_of(&encoded);
    match base64_decode(encoded_text.as_str()) {
        Err(_) => false,
        Ok(bytes) => credentials_in_decoded(Some(bytes.as_slice()), expected_user, expected_pass),
    }
}

/// Checks decoded credentials (none when the header did not decode)
/// against the configured user and password.
pub fn credentials_in_decoded(decoded: Option<&[u8]>, expected_user: &str, expected_pass: &str) -> (ok: bool)
    ensures
        ok == decoded_credentials_match(
            match decoded {
                Some(b) => Some(b@),
                None => None,
            },
            expected_user@,
            expected_pass@,
        ),
{
    let bytes = match decoded {
        None => return false,
        Some(b) => b,
    };
    let text = match utf8_text(bytes) {
        None => return false,
        Some(t) => t,
    };
    let tv = chars_of(text);
    let i = match find_colon(&tv) {
        None => return false,
        Some(i) => i,
    };
    let user = take_chars(&tv, 0, i);
    let pass = take_chars(&tv, i + 1, tv.len());
    assert(user@ =~= tv@.take(i as int));
    assert(pass@ =~= tv@.skip(i + 1));
    let uv = chars_of(expected_user);
    let pv = chars_of(expected_pass);
    same_chars(&user, &uv) && same_chars(&pass, &pv)
}

/// `s` without its trailing slashes (`trim_end_matches('/')`).
pub open spec fn without_trailing_slashes(s: Seq<char>) -> Seq<char>
    decreases s.len(),
{
    if s.len() > 0 && s.last() == '/' {
        without_trailing_slashes(s.drop_last())
    } else {
        s
    }
}

/// Methods that do not write: `GET`, `HEAD`, `OPTIONS`.
pub open spec fn is_safe_method(m: Seq<char>) -> bool {
    m == "GET"@ || m == "HEAD"@ || m == "OPTIONS"@
}

/// A request is let through unless it writes and either its
/// `Sec-Fetch-Site` is neither `same-origin` nor `none`, or its `Origin`
/// (without trailing slashes) is not the public base URL.
pub open spec fn write_allowed(method: Seq<char>, site: Option<Seq<char>>, origin: Option<Seq<char>>, base: Seq<char>) -> bool {
    if is_safe_method(method) {
        true
    } else if site matches Some(s) && !(s == "same-origin"@ || s == "none"@) {
        false
    } else if origin matches Some(o) && without_trailing_slashes(o) != base {
        false
    } else {
        true
    }
}

fn strip_trailing_slashes(v: &Vec<char>) -> (r: Vec<char>)
    ensures
        r@ == without_trailing_slashes(v@),
{
    let mut end = v.len();
    assert(v@.take(v.len() as int) =~= v@);
    while end > 0 && v[end - 1] == '/'
        invariant
            end <= v.len(),
            without_trailing_slashes(v@) == without_trailing_slashes(v@.take(end as int)),
        decreases end,
    {
        assert(v@.take(end as int).drop_last() =~= v@.take(end - 1));
        end = end - 1;
    }
    assert(v@.take(v.len() as int) =~= v@);
    take_chars(v, 0, end)
}

/// Decides whether a request may proceed, from its method, its
/// `Sec-Fetch-Site` and `Origin` headers, and the public base URL.
pub fn write_origin_allowed(method: &str, site: Option<&str>, origin: Option<&str>, base: &str) -> (ok: bool)
    ensures
        ok == write_allowed(
            method@,
            match site {
                Some(s) => Some(s@),
                None => None,
            },
            match origin {
                Some(o) => Some(o@),
                None => None,
            },
            base@,
        ),
{
    let get = chars_of("GET");
    let head = chars_of("HEAD");
    let options = chars_of("OPTIONS");
    if str_is(method, &get) || str_is(method, &head) || str_is(method, &options) {
        return true;
    }
    if let Some(s) = site {
        let same = chars_of("same-origin");
        let none = chars_of("none");
        if !str_is(s, &same) && !str_is(s, &none) {
            return false;
        }
    }
    if let Some(o) = origin {
        let ov = chars_of(o);
        let stripped = strip_trailing_slashes(&ov);
        let bv = chars_of(base);
        if !same_chars(&stripped, &bv) {
            return false;
        }
    }
    true
}

/// The headers every response carries: content-type sniffing, framing,
/// referrer, permissions, content security and opener policies; strict
/// transport security when the public base URL is `https://`; and an hour
/// of caching for files under `/static/`.
pub open spec fn security_headers_for(path: Seq<char>, base: Seq<char>) -> Seq<(Seq<char>, Seq<char>)> {
    let fixed = seq![
        ("x-content-type-options"@, "nosniff"@),
        ("x-frame-options"@, "DENY"@),
        ("referrer-policy"@, "strict-origin-when-cross-origin"@),
        ("permissions-policy"@, "camera=(), microphone=(), geolocation=()"@),
        ("content-security-policy"@, content_security_policy()),
        ("cross-origin-opener-policy"@, "same-origin"@),
    ];
    let with_hsts = if base.len() >= 8 && base.take(8) == "https://"@ {
        fixed.push(("strict-transport-security"@, "max-age=31536000"@))
    } else {
        fixed
    };
    if path.len() >= 8 && path.take(8) == "/static/"@ {
        with_hsts.push(("cache-control"@, "public, max-age=3600"@))
    } else {
        with_hsts
    }
}

/// The content security policy of every page.
pub open spec fn content_security_policy() -> Seq<char> {
    "default-src 'self'; script-src 'self' 'unsafe-inline' https://cdn.jsdelivr.net; style-src 'self' 'unsafe-inline'; img-src 'self' data:; font-src 'self'; connect-src 'self'; object-src 'none'; base-uri 'self'; form-action 'self'; frame-ancestors 'none'"@
}

/// The values of a list of header pairs.
pub open spec fn header_views(v: Seq<(String, String)>) -> Seq<(Seq<char>, Seq<char>)> {
    v.map_values(|p: (String, String)| (p.0@, p.1@))
}

fn starts_with_chars(s: &str, prefix: &str) -> (r: bool)
    ensures
        r == (s@.len() >= prefix@.len() && s@.take(prefix@.len() as int) == prefix@),
{
    let sv = chars_of(s);
    let pv = chars_of(prefix);
    if sv.len() < pv.len() {
        return false;
    }
    let head = take_chars(&sv, 0, pv.len());
    assert(head@ =~= sv@.take(pv@.len() as int));
    same_chars(&head, &pv)
}

fn push_header(v: &mut Vec<(String, String)>, name: &str, value: &str)
    ensures
        header_views(final(v)@) == header_views(old(v)@).push((name@, value@)),
{
    v.push((owned(name), owned(value)));
    assert(header_views(final(v)@) =~= header_views(old(v)@).push((name@, value@)));
}

/// The security headers of the response to a request for `path`.
pub fn security_headers(path: &str, public_base_url: &str) -> (r: Vec<(String, String)>)
    ensures
        header_views(r@) == security_headers_for(path@, public_base_url@),
{
    let mut v: Vec<(String, String)> = Vec::new();
    assert(header_views(v@) =~= Seq::empty());
    push_header(&mut v, "x-content-type-options", "nosniff");
    push_header(&mut v, "x-frame-options", "DENY");
    push_header(&mut v, "referrer-policy", "strict-origin-when-cross-origin");
    push_header(&mut v, "permissions-policy", "camera=(), microphone=(), geolocation=()");
    push_header(
        &mut v,
        "content-security-policy",
        "default-src 'self'; script-src 'self' 'unsafe-inline' https://cdn.jsdelivr.net; style-src 'self' 'unsafe-inline'; img-src 'self' data:; font-src 'self'; connect-src 'self'; object-src 'none'; base-uri 'self'; form-action 'self'; frame-ancestors 'none'",
    );
    push_header(&mut v, "cross-origin-opener-policy", "same-origin");
    proof {
        reveal_strlit("https://");
        reveal_strlit("/static/");
    }
    let ghost fixed = header_views(v@);
    if starts_with_chars(public_base_url, "https://") {
        push_header(&mut v, "strict-transport-security", "max-age=31536000");
    }
    if starts_with_chars(path, "/static/") {
        push_header(&mut v, "cache-control", "public, max-age=3600");
    }
    assert(header_views(v@) =~= security_headers_for(path@, public_base_url@));
    v
}

/// A command typed on the server console.
#[derive(Debug, PartialEq, Eq)]
pub enum ConsoleCommand {
    /// A blank line, which is skipped.
    Blank,
    Help,
    Backfill,
    /// `quit` or `exit`.
    Quit,
    /// Anything else, as typed (trimmed).
    Unknown(String),
}

/// The command a console line holds once trimmed.
pub open spec fn console_command_of(line: Seq<char>, c: ConsoleCommand) -> bool {
    let t = trimmed(line);
    if t.len() == 0 {
        c == ConsoleCommand::Blank
    } else if t == "help"@ {
        c == ConsoleCommand::Help
    } else if t == "backfill"@ {
        c == ConsoleCommand::Backfill
    } else if t == "quit"@ || t == "exit"@ {
        c == ConsoleCommand::Quit
    } else {
        c matches ConsoleCommand::Unknown(s) && s@ == t
    }
}

/// Reads a console line.
pub fn parse_console_command(line: &str) -> (c: ConsoleCommand)
    ensures
        console_command_of(line@, c),
{
    let v = chars_of(line);
    let t = trim_chars(&v);
    if t.len() == 0 {
        return ConsoleCommand::Blank;
    }
    if same_chars(&t, &chars_of("help")) {
        ConsoleCommand::Help
    } else if same_chars(&t, &chars_of("backfill")) {
        ConsoleCommand::Backfill
    } else if same_chars(&t, &chars_of("quit")) || same_chars(&t, &chars_of("exit")) {
        ConsoleCommand::Quit
    } else {
        ConsoleCommand::Unknown(crate::text::string_of(&t))
    }
}

/// The errors that pages answer with.
#[derive(Debug)]
pub enum AppError {
    Database(String),
    NotFound,
    MethodNotAllowed,
    Unauthorized,
    Other(String),
}

impl AppError {
    /// The HTTP status of the error.
    pub fn status_code(&self) -> (code: u16)
        ensures
            code == match self {
                AppError::NotFound => 404u16,
                AppError::MethodNotAllowed => 405u16,
                AppError::Unauthorized => 401u16,
                AppError::Database(_) | AppError::Other(_) => 500u16,
            },
    {
        match self {
            AppError::NotFound => 404,
            AppError::MethodNotAllowed => 405,
            AppError::Unauthorized => 401,
            AppError::Database(_) | AppError::Other(_) => 500,
        }
    }
}

} // verus!
