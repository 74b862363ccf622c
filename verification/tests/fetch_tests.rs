use toolkit::fetch_exec::{check_fetch_status, client_error, validate_headers};
use toolkit::pattern::{is_date_text, matches_pattern};

fn pair(k: &str, v: &str) -> (String, String) {
    (k.to_string(), v.to_string())
}

#[test]
fn headers_accepted_with_lower_case_names() {
    let headers = vec![pair("User-Agent", "My Rust Client"), pair("Accept", "application/json")];
    assert_eq!(
        validate_headers(&headers).unwrap(),
        vec![pair("user-agent", "My Rust Client"), pair("accept", "application/json")]
    );
    assert_eq!(validate_headers(&[]).unwrap(), Vec::<(String, String)>::new());
    let token = vec![pair("PRIVATE-TOKEN", "XXXXXXXXX")];
    assert_eq!(validate_headers(&token).unwrap(), vec![pair("private-token", "XXXXXXXXX")]);
}

#[test]
fn header_key_refused() {
    let headers = vec![pair("Accept", "a"), pair("Bad Key", "v"), pair("X", "\n")];
    assert_eq!(
        validate_headers(&headers).unwrap_err(),
        "Invalid header key 'Bad Key': invalid HTTP header name"
    );
    assert_eq!(
        validate_headers(&[pair("", "v")]).unwrap_err(),
        "Invalid header key '': invalid HTTP header name"
    );
    assert_eq!(
        validate_headers(&[pair("Ünïcode", "v")]).unwrap_err(),
        "Invalid header key 'Ünïcode': invalid HTTP header name"
    );
}

#[test]
fn header_value_refused() {
    let headers = vec![pair("X-Trace", "line\nbreak")];
    assert_eq!(
        validate_headers(&headers).unwrap_err(),
        "Invalid header value for key 'x-trace': failed to parse header value"
    );
    let tab = vec![pair("X-Tab", "a\tb"), pair("X-Del", "\u{7f}")];
    assert_eq!(
        validate_headers(&tab).unwrap_err(),
        "Invalid header value for key 'x-del': failed to parse header value"
    );
    assert_eq!(validate_headers(&[pair("X-Utf8", "日本")]).unwrap(), vec![pair("x-utf8", "日本")]);
}

#[test]
fn fetch_status_decision() {
    assert!(check_fetch_status("http://h/x", 200, "200 OK").is_ok());
    assert!(check_fetch_status("http://h/x", 299, "299 <unknown status code>").is_ok());
    assert_eq!(
        check_fetch_status("http://h/x", 404, "404 Not Found").unwrap_err(),
        "Failed to fetch URL: http://h/x, HTTP Status: 404 Not Found"
    );
    assert!(check_fetch_status("u", 199, "199").is_err());
    assert!(check_fetch_status("u", 300, "300 Multiple Choices").is_err());
    assert_eq!(client_error("builder error"), "Failed to create HTTP client: builder error");
}

#[test]
fn date_pattern() {
    assert_eq!(is_date_text("2025-11-27"), Some(true));
    assert_eq!(is_date_text("2025-1-27"), Some(false));
    assert_eq!(is_date_text("x2025-11-27"), Some(false));
    assert!(matches_pattern("a.c", "abc"));
    assert!(!matches_pattern("(", "("));
}
