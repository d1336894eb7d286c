use line_tally::extension::allowed_extensions;
use line_tally::extension::classify;
use line_tally::extension::ALLOWED_COUNT;

#[test]
fn allow_list_is_the_fixed_one() {
    assert_eq!(ALLOWED_COUNT, 14);
    assert_eq!(
        allowed_extensions(),
        vec![
            "ts", "tsx", "md", "rs", "py", "js", "jsx", "html", "css", "scss", "json", "yaml",
            "yml", "toml"
        ]
    );
}

#[test]
fn every_allowed_extension_is_accepted() {
    for extension in allowed_extensions() {
        let path = format!("src/deep/name.{}", extension);
        assert_eq!(classify(&path), Some(extension.to_string()));
    }
}

#[test]
fn other_extensions_are_rejected() {
    assert_eq!(classify("image.png"), None);
    assert_eq!(classify("proj/a.rst"), None);
    assert_eq!(classify("proj/a.r"), None);
    assert_eq!(classify("proj/a.tsxx"), None);
    assert_eq!(classify("proj/a.lock"), None);
}

#[test]
fn match_is_case_sensitive() {
    assert_eq!(classify("proj/A.RS"), None);
    assert_eq!(classify("proj/a.Rs"), None);
    assert_eq!(classify("proj/README.MD"), None);
    assert_eq!(classify("proj/README.md"), Some("md".to_string()));
}

#[test]
fn only_the_final_dot_counts() {
    assert_eq!(classify("proj/archive.tar.json"), Some("json".to_string()));
    assert_eq!(classify("proj/a.rs.bak"), None);
    assert_eq!(classify("proj/a.rs."), None);
    assert_eq!(classify("proj/a..rs"), Some("rs".to_string()));
}

#[test]
fn only_the_final_segment_counts() {
    assert_eq!(classify("proj.rs/readme"), None);
    assert_eq!(classify("proj.rs/notes.md"), Some("md".to_string()));
    assert_eq!(classify("proj/a.rs/"), None);
    assert_eq!(classify("a.b/c.d/e.py"), Some("py".to_string()));
}

#[test]
fn name_without_dot_has_no_extension() {
    assert_eq!(classify("Makefile"), None);
    assert_eq!(classify("proj/rs"), None);
    assert_eq!(classify(""), None);
    assert_eq!(classify("/"), None);
}

#[test]
fn name_that_begins_with_its_only_dot_has_the_rest_as_extension() {
    assert_eq!(classify("proj/.toml"), Some("toml".to_string()));
    assert_eq!(classify(".gitignore"), None);
}

#[test]
fn paths_beyond_ascii_are_read_by_character() {
    assert_eq!(classify("пример/файл.rs"), Some("rs".to_string()));
    assert_eq!(classify("proj/a.rs\u{301}"), None);
    assert_eq!(classify("日本語.md"), Some("md".to_string()));
}
