use gdocs_backup::document::File;
use gdocs_backup::filename::candidate_string;
use gdocs_backup::filename::decimal_string;
use gdocs_backup::filename::get_new_filename;
use gdocs_backup::filename::is_taken;
use gdocs_backup::filename::sanitize;

fn named(name: &str) -> File {
    File {
        id: "1".to_string(),
        name: name.to_string(),
        mime_type: "application/vnd.google-apps.document".to_string(),
        owned_by_me: true,
        modified_time: "v1".to_string(),
        trashed: false,
    }
}

fn store(names: &[&str]) -> Vec<String> {
    names.iter().map(|s| s.to_string()).collect()
}

#[test]
fn sanitize_keeps_letters_digits_hyphen_underscore() {
    assert_eq!(sanitize("Report-2024_final"), "Report-2024_final");
    assert_eq!(sanitize("azAZ09"), "azAZ09");
}

#[test]
fn sanitize_replaces_everything_else() {
    assert_eq!(sanitize("My Report (v2).doc"), "My_Report__v2__doc");
    assert_eq!(sanitize("a/b\\c:d"), "a_b_c_d");
    assert_eq!(sanitize("line\nbreak\ttab"), "line_break_tab");
    assert_eq!(sanitize("[^`@{"), "_____");
}

#[test]
fn sanitize_replaces_each_non_ascii_character_once() {
    assert_eq!(sanitize("caf\u{e9}"), "caf_");
    assert_eq!(sanitize("\u{65e5}\u{672c}\u{8a9e}"), "___");
    assert_eq!(sanitize("x\u{1f600}y"), "x_y");
}

#[test]
fn sanitize_of_empty_name_is_empty() {
    assert_eq!(sanitize(""), "");
}

#[test]
fn decimal_numerals() {
    assert_eq!(decimal_string(0), "0");
    assert_eq!(decimal_string(7), "7");
    assert_eq!(decimal_string(10), "10");
    assert_eq!(decimal_string(12345), "12345");
    assert_eq!(decimal_string(9007199254740993), "9007199254740993");
    assert_eq!(decimal_string(u64::MAX), "18446744073709551615");
}

#[test]
fn candidate_names() {
    let stem = "Report".to_string();
    assert_eq!(candidate_string(&stem, 0), "Report.odt");
    assert_eq!(candidate_string(&stem, 1), "Report_1.odt");
    assert_eq!(candidate_string(&stem, 12), "Report_12.odt");
    assert_eq!(candidate_string(&String::new(), 0), ".odt");
}

#[test]
fn taken_names_are_found() {
    let existing = store(&["a.odt", "b.odt"]);
    assert!(is_taken(&existing, &"b.odt".to_string()));
    assert!(!is_taken(&existing, &"c.odt".to_string()));
    assert!(!is_taken(&Vec::new(), &"a.odt".to_string()));
}

#[test]
fn free_base_name_is_allocated() {
    assert_eq!(get_new_filename(&Vec::new(), &named("Report")), "Report.odt");
    assert_eq!(
        get_new_filename(&store(&["Other.odt", "Report_1.odt"]), &named("Report")),
        "Report.odt"
    );
}

#[test]
fn taken_base_name_gets_the_first_free_number() {
    assert_eq!(get_new_filename(&store(&["Report.odt"]), &named("Report")), "Report_1.odt");
    assert_eq!(
        get_new_filename(&store(&["Report_1.odt", "Report.odt", "Report_3.odt"]), &named("Report")),
        "Report_2.odt"
    );
}

#[test]
fn numbering_goes_past_nine() {
    let mut existing = vec!["Report.odt".to_string()];
    for i in 1..=10 {
        existing.push(format!("Report_{}.odt", i));
    }
    assert_eq!(get_new_filename(&existing, &named("Report")), "Report_11.odt");
}

#[test]
fn allocation_uses_the_sanitized_name() {
    assert_eq!(get_new_filename(&store(&["My_Report.odt"]), &named("My Report")), "My_Report_1.odt");
    assert_eq!(get_new_filename(&store(&["My Report.odt"]), &named("My Report")), "My_Report.odt");
}

#[test]
fn names_that_sanitize_alike_get_distinct_files_in_processing_order() {
    let mut existing: Vec<String> = Vec::new();
    let first = get_new_filename(&existing, &named("a b"));
    existing.push(first.clone());
    let second = get_new_filename(&existing, &named("a/b"));
    existing.push(second.clone());
    let third = get_new_filename(&existing, &named("a?b"));
    assert_eq!(first, "a_b.odt");
    assert_eq!(second, "a_b_1.odt");
    assert_eq!(third, "a_b_2.odt");
}

#[test]
fn allocation_is_a_function_of_the_snapshot() {
    let existing = store(&["Report.odt", "Report_1.odt"]);
    let a = get_new_filename(&existing, &named("Report"));
    let b = get_new_filename(&existing, &named("Report"));
    assert_eq!(a, b);
    assert_eq!(a, "Report_2.odt");
}
