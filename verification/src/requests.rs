//! Pieces of the drive client's requests that do not depend on the network:
//! request bodies, the captcha action of a request, text shortening, and what
//! to do with an answer (retry after renewing the session or the captcha, or
//! which error to give).

use vstd::prelude::*;

use crate::json::Json;
use crate::text::{
    chars_of, dec, find_chars, find_from, push_chars, push_dec, push_str, slice_chars, str_eq, string_from_chars,
};

verus! {

/// The first `n` characters of `s` (all of it when shorter).
pub fn truncate(s: &str, n: usize) -> (r: String)
    ensures
        r@ == if s@.len() <= n {
            s@
        } else {
            s@.take(n as int)
        },
{
    let cs = chars_of(s);
    if cs.len() <= n {
        string_from_chars(&cs)
    } else {
        string_from_chars(&slice_chars(&cs, 0, n))
    }
}

/// Whether `j` is the JSON string `s`.
pub open spec fn is_str(j: Json, s: Seq<char>) -> bool {
    match j {
        Json::Str(x) => x@ == s,
        _ => false,
    }
}

/// Whether `out` is the JSON strings of a list of ids.
pub open spec fn id_strings(ids: Seq<String>, out: Seq<Json>) -> bool {
    out.len() == ids.len() && forall|i: int| 0 <= i < ids.len() ==> is_str(#[trigger] out[i], ids[i]@)
}

/// Whether `to` is the target object for `to_parent_id`: `parent_id` for a
/// non-empty target, else empty.
pub open spec fn is_target(to: Seq<(String, Json)>, to_parent_id: Option<Seq<char>>) -> bool {
    match to_parent_id {
        Some(pid) => if pid.len() > 0 {
            to.len() == 1 && to[0].0@ == "parent_id"@ && is_str(to[0].1, pid)
        } else {
            to.len() == 0
        },
        None => to.len() == 0,
    }
}

/// Whether `body` is the body of a batch move or copy of `ids` into
/// `to_parent_id`: `{"ids": [...], "to": {...}}`.
pub open spec fn is_move_copy_body(body: Json, ids: Seq<String>, to_parent_id: Option<Seq<char>>) -> bool {
    match body {
        Json::Obj(ms) => {
            &&& ms@.len() == 2
            &&& ms@[0].0@ == "ids"@
            &&& match ms@[0].1 {
                Json::Arr(a) => id_strings(ids, a@),
                _ => false,
            }
            &&& ms@[1].0@ == "to"@
            &&& match ms@[1].1 {
                Json::Obj(to) => is_target(to@, to_parent_id),
                _ => false,
            }
        },
        _ => false,
    }
}

/// Body of a batch move / copy request. Without a target (or with an empty
/// one), `to` is an empty object, which stands for the root folder.
pub fn move_copy_body(ids: &[String], to_parent_id: Option<&str>) -> (body: Json)
    ensures
        is_move_copy_body(
            body,
            ids@,
            match to_parent_id {
                Some(p) => Some(p@),
                None => None,
            },
        ),
{
    let mut arr: Vec<Json> = Vec::new();
    let mut i: usize = 0;
    while i < ids.len()
        invariant
            0 <= i <= ids@.len(),
            arr@.len() == i,
            forall|j: int| 0 <= j < i ==> is_str(#[trigger] arr@[j], ids@[j]@),
        decreases ids@.len() - i,
    {
        arr.push(Json::Str(ids[i].clone()));
        i += 1;
    }
    let mut to: Vec<(String, Json)> = Vec::new();
    match to_parent_id {
        Some(pid) => {
            if !pid.is_empty() {
                to.push(("parent_id".to_owned(), Json::Str(pid.to_owned())));
            }
        },
        None => {},
    }
    let mut ms: Vec<(String, Json)> = Vec::new();
    ms.push(("ids".to_owned(), Json::Arr(arr)));
    ms.push(("to".to_owned(), Json::Obj(to)));
    Json::Obj(ms)
}

/// The captcha action of a request: `METHOD:path`, where the path starts at
/// the first `/` after the scheme's `://` (empty when there is none).
pub open spec fn action_text(method: Seq<char>, url: Seq<char>) -> Seq<char> {
    let after = match find_from(url, seq![':', '/', '/'], 0) {
        Some(i) => url.skip(i + 3),
        None => url,
    };
    let path = match find_from(after, seq!['/'], 0) {
        Some(i) => after.skip(i),
        None => Seq::empty(),
    };
    method + seq![':'] + path
}

/// The captcha action for a request with `method` (such as `GET`) to `url`,
/// for example `GET:/drive/v1/files`.
pub fn request_action(method: &str, url: &str) -> (r: String)
    ensures
        r@ == action_text(method@, url@),
{
    let u = chars_of(url);
    let scheme: Vec<char> = vec![':', '/', '/'];
    let slash: Vec<char> = vec!['/'];
    assert(scheme@ == seq![':', '/', '/']);
    assert(slash@ == seq!['/']);
    let after = match find_chars(&u, &scheme, 0) {
        Some(i) => {
            let ul = u.len();
            assert(i + 3 <= ul);
            slice_chars(&u, i + 3, ul)
        },
        None => slice_chars(&u, 0, u.len()),
    };
    assert(u@.subrange(0, u@.len() as int) == u@);
    let path = match find_chars(&after, &slash, 0) {
        Some(i) => slice_chars(&after, i, after.len()),
        None => Vec::new(),
    };
    let mut out = chars_of(method);
    out.push(':');
    push_chars(&mut out, &path);
    string_from_chars(&out)
}

/// The server's error code for an expired access token.
pub const ERROR_CODE_TOKEN_EXPIRED: i64 = 16;

/// The server's error code for a missing or stale captcha token.
pub const ERROR_CODE_CAPTCHA_INVALID: i64 = 9;

/// What to do after an answer from the drive's API.
#[derive(Debug, Clone, PartialEq, Eq)]
pub enum RequestNext {
    /// The answer is the result.
    Done,
    /// Renew the access token, then send the request again.
    RefreshThenRetry,
    /// Obtain a new captcha token for this request's action, then send it
    /// again (when that fails, see `api_failure`).
    CaptchaThenRetry,
    /// The account or the password is wrong.
    BadAccount,
    /// The server failed without an error body; the text says how.
    HttpError(String),
    /// The server answered with an API error.
    ApiError,
}

/// The error an API error answer gives: the account-or-password error for
/// `invalid_account`, an API error otherwise.
pub open spec fn failure_of(error: Seq<char>) -> RequestNext {
    if error == "invalid_account"@ {
        RequestNext::BadAccount
    } else {
        RequestNext::ApiError
    }
}

/// The error an API error answer gives (also after a captcha renewal failed).
pub fn api_failure(error: &str) -> (n: RequestNext)
    ensures
        n == failure_of(error@),
{
    if str_eq(error, "invalid_account") {
        RequestNext::BadAccount
    } else {
        RequestNext::ApiError
    }
}

/// The text of an HTTP failure without an error body: the status, then at
/// most 300 characters of the body.
pub open spec fn http_error_text(status: u16, body: Seq<char>) -> Seq<char> {
    "HTTP "@ + dec(status as nat) + ": "@ + (if body.len() <= 300 {
        body
    } else {
        body.take(300)
    })
}

/// Whether the answer failed at the HTTP level without an error body.
pub open spec fn http_failed(status: u16, code: i64, error: Seq<char>) -> bool {
    !(200 <= status <= 299) && code == 0 && error.len() == 0
}

/// The decision after an answer that did carry an error body or succeeded,
/// with the error code and error name read from it (0 and empty when absent).
/// `attempt` counts the retries already made; `recover` allows renewing the
/// session or the captcha; `has_token` says whether the request carried an
/// access token.
pub open spec fn next_after(attempt: u32, recover: bool, has_token: bool, code: i64, error: Seq<char>) -> RequestNext {
    if code != 0 {
        if recover && code == ERROR_CODE_TOKEN_EXPIRED && attempt == 0 && has_token {
            RequestNext::RefreshThenRetry
        } else if recover && code == ERROR_CODE_CAPTCHA_INVALID && attempt == 0 {
            RequestNext::CaptchaThenRetry
        } else {
            failure_of(error)
        }
    } else if error.len() > 0 {
        RequestNext::ApiError
    } else {
        RequestNext::Done
    }
}

/// What to do after an answer: an expired token (code 16) is renewed once and
/// the request sent again, a stale captcha (code 9) likewise; a failed status
/// without an error body gives the HTTP text; other error codes give the
/// account error or an API error; an error name alone is an API error; else
/// the answer is the result.
pub fn after_response(
    attempt: u32,
    recover: bool,
    has_token: bool,
    status: u16,
    body: &str,
    code: i64,
    error: &str,
) -> (n: RequestNext)
    ensures
        http_failed(status, code, error@) ==> (n matches RequestNext::HttpError(t) && t@ == http_error_text(
            status,
            body@,
        )),
        !http_failed(status, code, error@) ==> n == next_after(attempt, recover, has_token, code, error@),
{
    let success = 200 <= status && status <= 299;
    if !success && code == 0 && error.is_empty() {
        let mut out: Vec<char> = Vec::new();
        push_str(&mut out, "HTTP ");
        push_dec(&mut out, status as u64);
        push_str(&mut out, ": ");
        let t = truncate(body, 300);
        push_str(&mut out, t.as_str());
        return RequestNext::HttpError(string_from_chars(&out));
    }
    if code != 0 {
        if recover && code == ERROR_CODE_TOKEN_EXPIRED && attempt == 0 && has_token {
            return RequestNext::RefreshThenRetry;
        }
        if recover && code == ERROR_CODE_CAPTCHA_INVALID && attempt == 0 {
            return RequestNext::CaptchaThenRetry;
        }
        return api_failure(error);
    }
    if !error.is_empty() {
        return RequestNext::ApiError;
    }
    RequestNext::Done
}

/// How renewing the access token starts.
#[derive(Debug, Clone, PartialEq, Eq)]
pub enum RefreshStart {
    /// Another request renewed it meanwhile: nothing to do.
    AlreadyRenewed,
    /// There is no refresh token: the session has ended, and no request is sent.
    NoRefreshToken,
    /// Send the renewal request.
    Send,
}

/// Renewing the access token: `seen` is the token the caller saw before
/// waiting its turn, `token` the one now held, `refresh` the refresh token.
pub fn refresh_start(seen: &str, token: &str, refresh: &str) -> (r: RefreshStart)
    ensures
        seen@ != token@ ==> r == RefreshStart::AlreadyRenewed,
        seen@ == token@ && refresh@.len() == 0 ==> r == RefreshStart::NoRefreshToken,
        seen@ == token@ && refresh@.len() > 0 ==> r == RefreshStart::Send,
{
    if !str_eq(token, seen) {
        return RefreshStart::AlreadyRenewed;
    }
    if refresh.is_empty() {
        return RefreshStart::NoRefreshToken;
    }
    RefreshStart::Send
}

/// The answer to a renewal: `None` when it succeeded; otherwise the session
/// has ended, with the server's description (else its error name).
pub fn refresh_failure(code: i64, error: &str, description: &str) -> (r: Option<String>)
    ensures
        (code == 0 && error@.len() == 0) <==> r is None,
        r matches Some(m) ==> m@ == (if description@.len() == 0 {
            error@
        } else {
            description@
        }),
{
    if code == 0 && error.is_empty() {
        return None;
    }
    if description.is_empty() {
        Some(error.to_owned())
    } else {
        Some(description.to_owned())
    }
}

} // verus!
