use fast_down_gui::path::numbered;

#[test]
fn numbered_name_goes_before_extension() {
    assert_eq!(numbered("file.txt", 1), "file (1).txt");
    assert_eq!(numbered("a.tar.gz", 2), "a.tar (2).gz");
}

#[test]
fn numbered_name_without_extension() {
    assert_eq!(numbered("README", 3), "README (3)");
    assert_eq!(numbered(".bashrc", 12), ".bashrc (12)");
    assert_eq!(numbered("", 1), " (1)");
}

#[test]
fn numbered_name_with_trailing_dot() {
    assert_eq!(numbered("name.", 1), "name (1).");
}
