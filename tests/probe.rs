use fast_down_gui::probe::{
    head_facts, parse_disposition_name, parse_range_total, range_probe_facts, raw_name,
};

#[test]
fn content_range_total() {
    assert_eq!(parse_range_total("bytes 0-0/10485760"), Some(10_485_760));
    assert_eq!(parse_range_total("bytes 0-0/18446744073709551615"), Some(u64::MAX));
}

#[test]
fn content_range_total_unknown_or_bad() {
    assert_eq!(parse_range_total("bytes 0-0/*"), None);
    assert_eq!(parse_range_total("bytes 0-0/"), None);
    assert_eq!(parse_range_total("1234"), None);
    assert_eq!(parse_range_total("bytes 0-0/12a4"), None);
    assert_eq!(parse_range_total("bytes 0-0/18446744073709551616"), None);
    assert_eq!(parse_range_total(""), None);
}

#[test]
fn disposition_file_names() {
    assert_eq!(
        parse_disposition_name("attachment; filename=\"report 2024.pdf\""),
        Some("report 2024.pdf".to_string())
    );
    assert_eq!(
        parse_disposition_name("attachment; filename= data.zip ; size=3"),
        Some("data.zip".to_string())
    );
    assert_eq!(parse_disposition_name("inline"), None);
    assert_eq!(parse_disposition_name("attachment; filename=\"\""), None);
    assert_eq!(parse_disposition_name("attachment; filename=\"open"), None);
    assert_eq!(parse_disposition_name("attachment; filename*=UTF-8''a.txt"), None);
}

#[test]
fn head_probe_facts() {
    assert_eq!(head_facts(true, Some(100), Some("bytes")), Some((100, true)));
    assert_eq!(head_facts(true, Some(100), Some("none")), Some((100, false)));
    assert_eq!(head_facts(true, Some(100), None), Some((100, false)));
    assert_eq!(head_facts(true, Some(0), Some("bytes")), None);
    assert_eq!(head_facts(false, Some(100), Some("bytes")), None);
    assert_eq!(head_facts(true, None, Some("bytes")), None);
}

#[test]
fn range_probe_results() {
    assert_eq!(range_probe_facts(206, Some("bytes 0-0/5000"), Some(1)), (5000, true));
    assert_eq!(range_probe_facts(206, Some("bytes 0-0/*"), Some(1)), (0, true));
    assert_eq!(range_probe_facts(200, None, Some(777)), (777, false));
    assert_eq!(range_probe_facts(200, None, None), (0, false));
}

#[test]
fn raw_name_choice() {
    assert_eq!(raw_name(Some("attachment; filename=\"a.iso\""), Some("b.bin")), "a.iso");
    assert_eq!(raw_name(Some("inline"), Some("b.bin")), "b.bin");
    assert_eq!(raw_name(None, Some("")), "download");
    assert_eq!(raw_name(None, None), "download");
}
