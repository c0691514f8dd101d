use llama_switcher::benchmark_report::{escape_report_data, records_of_kind, replace_all, report_page};

#[test]
fn markup_in_report_data_is_escaped() {
    assert_eq!(
        escape_report_data(r#"[{"alias":"Model <one>","feedback":["a & b >"]}]"#),
        r#"[{"alias":"Model \u003cone\u003e","feedback":["a \u0026 b \u003e"]}]"#
    );
    assert_eq!(escape_report_data("</script>"), r"\u003c/script\u003e");
}

#[test]
fn report_page_embeds_the_records_in_place_of_the_marker() {
    let template = "<html><svg></svg><script>const DATA=__REPORT_DATA__;</script></html>";
    let page = report_page(template, r#"[{"alias":"Model <one>"}]"#);
    assert!(page.contains("<svg"));
    assert!(page.contains("Model \\u003cone\\u003e"));
    assert!(!page.contains("Model <one>"));
    assert!(!page.contains("__REPORT_DATA__"));
    assert_eq!(page.matches("</script>").count(), 1);
}

#[test]
fn replace_all_replaces_every_occurrence_left_to_right() {
    assert_eq!(replace_all("a-x-b-x", "x", "yy"), "a-yy-b-yy");
    assert_eq!(replace_all("aaa", "aa", "b"), "ba");
    assert_eq!(replace_all("none", "zz", "q"), "none");
}

#[test]
fn records_are_counted_by_kind() {
    let kinds = vec!["professional".to_string(), "custom".to_string(), "professional".to_string()];
    assert_eq!(records_of_kind(&kinds, "professional"), 2);
    assert_eq!(records_of_kind(&kinds, "custom"), 1);
    assert_eq!(records_of_kind(&[], "custom"), 0);
}

#[test]
fn empty_pattern_goes_before_every_character_and_at_the_end() {
    assert_eq!(replace_all("abc", "", "x"), "xaxbxcx");
    assert_eq!(replace_all("", "", "x"), "x");
}
