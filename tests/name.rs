use fast_down_gui::name::{cut_name, is_url, is_web_scheme, sanitize};

#[test]
fn web_urls_only() {
    assert!(is_url("https://example.com/a.zip"));
    assert!(is_url("http://example.com"));
    assert!(!is_url("ftp://example.com/a.zip"));
    assert!(!is_url("not a url"));
    assert!(!is_url(""));
    assert!(is_web_scheme("https"));
    assert!(!is_web_scheme("HTTPS"));
}

#[test]
fn sanitized_file_names() {
    assert_eq!(sanitize("a/b:c?.txt", 248, false), "a_b_c_.txt");
    assert_eq!(sanitize("plain.bin", 248, false), "plain.bin");
    assert_eq!(sanitize("name. ", 248, true), "name_");
    let long = "x".repeat(300);
    assert_eq!(sanitize(&long, 248, false).chars().count(), 248);
}

#[test]
fn cut_keeps_short_names() {
    assert_eq!(cut_name("abc", 5), "abc");
    assert_eq!(cut_name("abcdef", 3), "abc");
    assert_eq!(cut_name("日本語テキスト", 2), "日本");
}
