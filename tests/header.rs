use fast_down_gui::header::{parse_header, parse_header_hashmap};

fn owned(v: &[(&str, &str)]) -> Vec<(String, String)> {
    v.iter().map(|(k, v)| (k.to_string(), v.to_string())).collect()
}

#[test]
fn header_lines_split_at_first_colon() {
    let h = parse_header("Authorization: Bearer a:b\nAccept:  */* ");
    assert_eq!(h, owned(&[("Authorization", "Bearer a:b"), ("Accept", "*/*")]));
}

#[test]
fn header_line_without_colon_has_empty_value() {
    let h = parse_header("  X-Flag  \r\nCookie: a=1\r\n");
    assert_eq!(h, owned(&[("X-Flag", ""), ("Cookie", "a=1")]));
}

#[test]
fn header_empty_input_has_no_lines() {
    assert!(parse_header("").is_empty());
}

#[test]
fn header_blank_line_gives_empty_pair() {
    let h = parse_header("a: 1\n\nb: 2");
    assert_eq!(h, owned(&[("a", "1"), ("", ""), ("b", "2")]));
}

#[test]
fn header_map_keeps_last_value() {
    let h = parse_header_hashmap("a: 1\nb: 2\na: 3");
    let mut h = h;
    h.sort();
    assert_eq!(h, owned(&[("a", "3"), ("b", "2")]));
}
