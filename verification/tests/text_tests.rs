use toolkit::fetch_param::{build_requested_url, encode_segment};
use toolkit::fruits::Fruits;
use toolkit::text_io::{normalize_newline_bytes, normalize_newlines, shift_jis_lines, utf8_line_bytes, utf8_lines};
use toolkit::config::{is_absolute_path, is_app_key, resolve_path, select_optional_env, value_or, EnvLookup};

#[test]
fn fruit_description() {
    let fruit = Fruits::new("Apple", "Red");
    assert_eq!(fruit.describe(), "This fruit is a Apple and its color is Red.");
}

#[test]
fn requested_url_with_query() {
    let query = vec![("page", 1u32), ("per_page", 10u32)];
    assert_eq!(
        build_requested_url("http://localhost/api/v4/users/24/contributed_projects", &query),
        "http://localhost/api/v4/users/24/contributed_projects?page=1&per_page=10"
    );
}

#[test]
fn requested_url_without_query() {
    assert_eq!(build_requested_url("http://example.com/x", &[]), "http://example.com/x");
}

#[test]
fn requested_url_large_value() {
    assert_eq!(build_requested_url("u", &[("a", 0u32), ("b", 4294967295u32)]), "u?a=0&b=4294967295");
}

#[test]
fn segment_encoding() {
    assert_eq!(encode_segment("a b/c~-._"), "a%20b%2Fc~-._");
    assert_eq!(encode_segment("日本"), "%E6%97%A5%E6%9C%AC");
    assert_eq!(encode_segment("AZaz09"), "AZaz09");
}

#[test]
fn newline_normalization() {
    assert_eq!(normalize_newlines("a\r\nb\n\nc\r"), vec!["a", "b", "c\r"]);
    assert_eq!(normalize_newlines("a\r\r\nb"), vec!["a\r", "b"]);
    assert!(normalize_newlines("").is_empty());
    assert!(normalize_newlines("\n\r\n\n").is_empty());
}

#[test]
fn newline_normalization_of_bytes() {
    let lines = normalize_newline_bytes(b"a\r\nb\n\r\n\n");
    assert_eq!(lines, vec![b"a".to_vec(), b"b".to_vec(), b"".to_vec()]);
    assert!(normalize_newline_bytes(b"").is_empty());
}

#[test]
fn utf8_text_lines() {
    assert_eq!(utf8_lines("x\ny"), vec!["x", "y"]);
    assert_eq!(utf8_line_bytes("t.txt", "あ\nい".as_bytes()).unwrap(), vec!["あ".as_bytes().to_vec(), "い".as_bytes().to_vec()]);
    let err = utf8_line_bytes("t.txt", &[0xff, 0x0a]).unwrap_err();
    assert_eq!(
        err.message(),
        "failed to decode UTF-8 text: t.txt (invalid utf-8 sequence of 1 bytes from index 0)"
    );
}

#[test]
fn shift_jis_text_lines() {
    // "あ" is 0x82 0xA0 in Shift_JIS.
    let bytes = vec![0x82, 0xA0, b'\r', b'\n', b'b'];
    assert_eq!(shift_jis_lines("s.txt", &bytes).unwrap(), vec!["あ", "b"]);
    let err = shift_jis_lines("s.txt", &[0x82]).unwrap_err();
    assert_eq!(err.message(), "failed to decode Shift_JIS text: s.txt");
}

#[test]
fn path_resolution() {
    assert_eq!(resolve_path("data", b"/home/u"), b"/home/u/data".to_vec());
    assert_eq!(resolve_path("data", b"/"), b"/data".to_vec());
    assert_eq!(resolve_path("/abs/db.sqlite", b"/home/u"), b"/abs/db.sqlite".to_vec());
    assert_eq!(resolve_path("./x", b"/w/"), b"/w/./x".to_vec());
    assert_eq!(resolve_path("d", b"/h\xff"), b"/h\xff/d".to_vec());
    assert_eq!(resolve_path("日", b""), "日".as_bytes().to_vec());
    assert!(is_absolute_path(b"/a"));
    assert!(!is_absolute_path(b"a/b"));
    assert!(!is_absolute_path(b""));
}

#[test]
fn optional_env_selection() {
    let lookups = vec![EnvLookup::NotPresent, EnvLookup::Value("".to_string()), EnvLookup::Value(" v ".to_string())];
    assert_eq!(select_optional_env(&lookups), Ok(Some(" v ".to_string())));
    let blank = vec![EnvLookup::Value("  ".to_string()), EnvLookup::Value("x".to_string())];
    assert_eq!(select_optional_env(&blank), Ok(Some("  ".to_string())));
    assert_eq!(select_optional_env(&[EnvLookup::NotPresent]), Ok(None));
    assert_eq!(select_optional_env(&[]), Ok(None));
    let failing = vec![EnvLookup::Value("".to_string()), EnvLookup::NotUnicode, EnvLookup::Value("x".to_string())];
    assert_eq!(select_optional_env(&failing), Err(1));
}

#[test]
fn app_settings() {
    assert!(is_app_key("APP_VERSION"));
    assert!(is_app_key("APP_"));
    assert!(!is_app_key("APP"));
    assert!(!is_app_key("app_version"));
    assert!(!is_app_key("MY_APP_X"));
    assert_eq!(value_or(EnvLookup::Value("prod".to_string()), "development"), "prod");
    assert_eq!(value_or(EnvLookup::Value(String::new()), "development"), "");
    assert_eq!(value_or(EnvLookup::NotPresent, "development"), "development");
    assert_eq!(value_or(EnvLookup::NotUnicode, "development"), "development");
}
