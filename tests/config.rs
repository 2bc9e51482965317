use fast_down_gui::config::{get_font_family, parse_proxy, DownloadConfig, Platform, Proxy};

#[test]
fn proxy_setting_text() {
    assert!(matches!(parse_proxy(""), Proxy::System));
    assert!(matches!(parse_proxy("null"), Proxy::No));
    match parse_proxy("http://127.0.0.1:8080") {
        Proxy::Custom(p) => assert_eq!(p, "http://127.0.0.1:8080"),
        _ => panic!("expected a custom proxy"),
    }
}

#[test]
fn font_per_platform() {
    assert_eq!(get_font_family(Platform::Windows), "Microsoft YaHei UI");
    assert_eq!(get_font_family(Platform::MacOs), "PingFang SC");
    assert_eq!(get_font_family(Platform::Other), "Noto Sans CJK SC");
}

#[test]
fn request_headers_override_configured_ones() {
    let c = DownloadConfig::with_save_dir("/d".to_string());
    let c = c.with_headers(Some("A: 1".to_string()));
    assert_eq!(c.headers, "A: 1");
    let c = c.with_headers(None);
    assert_eq!(c.headers, "A: 1");
    assert_eq!(c.run_config().threads, 32);
}
