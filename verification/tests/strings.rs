use r_vlr_util::strings::{split_at_delimiters, split_path, trim_matches, without_prefix, without_suffix, SplitOptions};

#[test]
fn split_path_discards_empty_elements_by_default() {
    assert_eq!(
        split_path("/etc//something/", SplitOptions::default()),
        ["etc", "something"]
    );
}

#[test]
fn split_path_can_keep_each_kind_of_empty_element() {
    let options = SplitOptions {
        keep_leading_empty: true,
        keep_trailing_empty: true,
        keep_consecutive_empty: true,
    };

    assert_eq!(
        split_path("/etc//something/", options),
        ["", "etc", "", "something", ""]
    );
}

#[test]
fn returns_input_when_no_delimiter_is_configured() {
    assert_eq!(
        split_at_delimiters("one/two", &[], SplitOptions::default()),
        ["one/two"]
    );
}

#[test]
fn supports_unicode_delimiters() {
    assert_eq!(
        split_at_delimiters("one→two→three", &['→'], SplitOptions::default()),
        ["one", "two", "three"]
    );
}

#[test]
fn removes_optional_affixes_and_trims() {
    assert_eq!(without_prefix("/etc/hosts", "/etc", true), "/hosts");
    assert_eq!(without_prefix("PrefixValue", "prefix", false), "Value");
    assert_eq!(without_suffix("file.TXT", ".txt", false), "file");
    assert_eq!(
        trim_matches(" \tvalue\r\n", &[' ', '\t', '\r', '\n']),
        "value"
    );
}

#[test]
fn split_keeps_only_the_requested_empty_elements() {
    let leading_only = SplitOptions { keep_leading_empty: true, keep_trailing_empty: false, keep_consecutive_empty: false };
    assert_eq!(split_path("/a//b/", leading_only), ["", "a", "b"]);
    let trailing_only = SplitOptions { keep_leading_empty: false, keep_trailing_empty: true, keep_consecutive_empty: false };
    assert_eq!(split_path("/a//b/", trailing_only), ["a", "b", ""]);
    let consecutive_only = SplitOptions { keep_leading_empty: false, keep_trailing_empty: false, keep_consecutive_empty: true };
    assert_eq!(split_path("/a//b/", consecutive_only), ["a", "", "b"]);
    assert_eq!(split_path("", SplitOptions::default()), Vec::<&str>::new());
    assert_eq!(split_path("a\\b", SplitOptions::default()), ["a", "b"]);
}

#[test]
fn affixes_that_do_not_match_leave_the_value() {
    assert_eq!(without_prefix("value", "x", true), "value");
    assert_eq!(without_prefix("Value", "value", true), "Value");
    assert_eq!(without_suffix("value", "LUE", true), "value");
    assert_eq!(without_suffix("value", "LUE", false), "va");
    assert_eq!(trim_matches("xxvaluexx", &['x']), "value");
    assert_eq!(trim_matches("xxxx", &['x']), "");
    assert_eq!(trim_matches("value", &[]), "value");
}
