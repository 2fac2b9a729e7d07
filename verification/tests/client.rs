use kichi::download::{finish_transfer, range_header};
use kichi::requests::{
    after_response, api_failure, refresh_failure, refresh_start, RefreshStart, RequestNext,
    ERROR_CODE_CAPTCHA_INVALID, ERROR_CODE_TOKEN_EXPIRED,
};

#[test]
fn answers_decide_retries_and_errors() {
    assert_eq!(ERROR_CODE_TOKEN_EXPIRED, 16);
    assert_eq!(ERROR_CODE_CAPTCHA_INVALID, 9);
    assert_eq!(after_response(0, true, true, 200, "{}", 0, ""), RequestNext::Done);
    assert_eq!(after_response(0, true, true, 401, "", 16, "unauthenticated"), RequestNext::RefreshThenRetry);
    // only once, only with a token, only when recovering
    assert_eq!(after_response(1, true, true, 401, "", 16, "unauthenticated"), RequestNext::ApiError);
    assert_eq!(after_response(0, true, false, 401, "", 16, "x"), RequestNext::ApiError);
    assert_eq!(after_response(0, false, true, 401, "", 16, "x"), RequestNext::ApiError);
    assert_eq!(after_response(0, true, false, 400, "", 9, "captcha_invalid"), RequestNext::CaptchaThenRetry);
    assert_eq!(after_response(1, true, false, 400, "", 9, "invalid_account"), RequestNext::BadAccount);
    assert_eq!(after_response(0, true, true, 400, "", 4002, "invalid_account"), RequestNext::BadAccount);
    assert_eq!(after_response(0, true, true, 200, "", 0, "file_not_found"), RequestNext::ApiError);
    assert_eq!(
        after_response(0, true, true, 502, "Bad Gateway", 0, ""),
        RequestNext::HttpError("HTTP 502: Bad Gateway".to_string())
    );
    let long = "x".repeat(400);
    match after_response(0, true, true, 500, &long, 0, "") {
        RequestNext::HttpError(t) => assert_eq!(t, format!("HTTP 500: {}", "x".repeat(300))),
        other => panic!("unexpected {other:?}"),
    }
    assert_eq!(api_failure("invalid_account"), RequestNext::BadAccount);
    assert_eq!(api_failure("other"), RequestNext::ApiError);
}

#[test]
fn token_renewal_decisions() {
    assert_eq!(refresh_start("old", "new", ""), RefreshStart::AlreadyRenewed);
    assert_eq!(refresh_start("t", "t", ""), RefreshStart::NoRefreshToken);
    assert_eq!(refresh_start("t", "t", "r"), RefreshStart::Send);
    assert_eq!(refresh_failure(0, "", ""), None);
    assert_eq!(refresh_failure(4126, "invalid_grant", ""), Some("invalid_grant".to_string()));
    assert_eq!(refresh_failure(0, "invalid_grant", "expired"), Some("expired".to_string()));
}

#[test]
fn download_range_and_end() {
    assert_eq!(range_header(0), None);
    assert_eq!(range_header(1024), Some("bytes=1024-".to_string()));
    assert_eq!(finish_transfer(100, 100), Ok(100));
    assert_eq!(finish_transfer(0, 7), Ok(7));
    assert_eq!(
        finish_transfer(100, 40),
        Err("传输不完整: 期望 100 字节, 仅收到 40 字节(可重试续传)".to_string())
    );
}
