use gdocs_backup::document::File;
use gdocs_backup::engine::classify;
use gdocs_backup::engine::is_eligible;
use gdocs_backup::engine::plan;
use gdocs_backup::engine::settle;
use gdocs_backup::engine::Action;
use gdocs_backup::engine::ErrorDetail;
use gdocs_backup::engine::ExportError;
use gdocs_backup::engine::Failure;
use gdocs_backup::ledger::FileMap;
use gdocs_backup::ledger::State;

fn doc(id: &str, name: &str, modified_time: &str) -> File {
    File {
        id: id.to_string(),
        name: name.to_string(),
        mime_type: "application/vnd.google-apps.document".to_string(),
        owned_by_me: true,
        modified_time: modified_time.to_string(),
        trashed: false,
    }
}

fn detail(domain: &str, reason: &str) -> ErrorDetail {
    ErrorDetail { domain: domain.to_string(), reason: reason.to_string() }
}

fn too_large() -> Result<(), ExportError> {
    Err(ExportError::BadRequest(vec![detail("global", "exportSizeLimitExceeded")]))
}

fn export_name(action: Action) -> String {
    match action {
        Action::Export { filename } => filename,
        other => panic!("expected an export, got {:?}", other),
    }
}

/// Runs one pass the way a driver does, counting the exports it makes.
fn run(
    docs: &[File],
    map: &mut FileMap,
    existing: &mut Vec<String>,
    result_for: fn(&File) -> Result<(), ExportError>,
) -> (usize, bool) {
    let mut exports = 0;
    for f in docs {
        match plan(map, existing, f) {
            Action::Ignore | Action::Skip => {}
            Action::Export { filename } => {
                exports += 1;
                let result = result_for(f);
                if !settle(map, existing, f.clone(), filename, &result) {
                    return (exports, false);
                }
            }
        }
    }
    (exports, true)
}

fn succeed(_: &File) -> Result<(), ExportError> {
    Ok(())
}

fn fail_on_big(f: &File) -> Result<(), ExportError> {
    if f.name == "Big" {
        too_large()
    } else {
        Ok(())
    }
}

fn break_on_bad(f: &File) -> Result<(), ExportError> {
    if f.name == "Bad" {
        Err(ExportError::Other)
    } else {
        Ok(())
    }
}

#[test]
fn eligibility_needs_kind_ownership_and_not_trashed() {
    assert!(is_eligible(&doc("1", "Report", "v1")));
    let mut f = doc("1", "Report", "v1");
    f.mime_type = "application/pdf".to_string();
    assert!(!is_eligible(&f));
    let mut f = doc("1", "Report", "v1");
    f.owned_by_me = false;
    assert!(!is_eligible(&f));
    let mut f = doc("1", "Report", "v1");
    f.trashed = true;
    assert!(!is_eligible(&f));
}

#[test]
fn first_pass_exports_and_records() {
    let mut map = FileMap::new();
    let mut existing: Vec<String> = Vec::new();
    let docs = vec![doc("1", "Report", "v1")];
    let (exports, completed) = run(&docs, &mut map, &mut existing, succeed);
    assert_eq!(exports, 1);
    assert!(completed);
    let entry = map.get("1").unwrap();
    assert_eq!(entry.name, "Report");
    assert_eq!(entry.modified_time, "v1");
    assert_eq!(entry.state, State::Downloaded);
    assert_eq!(entry.filename, Some("Report.odt".to_string()));
    assert_eq!(map.ids(), vec!["1".to_string()]);
    assert_eq!(existing, vec!["Report.odt".to_string()]);
}

#[test]
fn second_pass_over_unchanged_listing_is_idle() {
    let mut map = FileMap::new();
    let mut existing: Vec<String> = Vec::new();
    let docs = vec![doc("1", "Report", "v1"), doc("2", "Big", "v1"), doc("3", "Notes", "v7")];
    let (exports, completed) = run(&docs, &mut map, &mut existing, fail_on_big);
    assert_eq!(exports, 3);
    assert!(completed);
    let files_before = existing.clone();
    let ids_before = map.ids();
    for f in &docs {
        assert!(matches!(plan(&map, &existing, f), Action::Skip));
    }
    let (exports, completed) = run(&docs, &mut map, &mut existing, succeed);
    assert_eq!(exports, 0);
    assert!(completed);
    assert_eq!(existing, files_before);
    assert_eq!(map.ids(), ids_before);
    assert_eq!(map.get("2").unwrap().state, State::TooLarge);
    assert_eq!(map.get("1").unwrap().filename, Some("Report.odt".to_string()));
    assert_eq!(map.get("3").unwrap().modified_time, "v7");
}

#[test]
fn same_name_of_another_id_gets_a_numbered_file() {
    let mut map = FileMap::new();
    let mut existing = vec!["Report.odt".to_string()];
    map.update(&doc("9", "Report", "v1"), "Report.odt".to_string());
    let action = plan(&map, &existing, &doc("2", "Report", "v1"));
    let filename = export_name(action);
    assert_eq!(filename, "Report_1.odt");
    assert!(settle(&mut map, &mut existing, doc("2", "Report", "v1"), filename, &Ok(())));
    assert_eq!(map.get("2").unwrap().filename, Some("Report_1.odt".to_string()));
    assert_eq!(map.get("9").unwrap().filename, Some("Report.odt".to_string()));
    assert_eq!(existing, vec!["Report.odt".to_string(), "Report_1.odt".to_string()]);
}

#[test]
fn changed_document_with_same_name_reuses_its_file() {
    let mut map = FileMap::new();
    let mut existing: Vec<String> = Vec::new();
    run(&[doc("1", "Report", "v1")], &mut map, &mut existing, succeed);
    let changed = doc("1", "Report", "v2");
    let filename = export_name(plan(&map, &existing, &changed));
    assert_eq!(filename, "Report.odt");
    assert!(settle(&mut map, &mut existing, changed, filename, &Ok(())));
    assert_eq!(existing, vec!["Report.odt".to_string()]);
    let entry = map.get("1").unwrap();
    assert_eq!(entry.modified_time, "v2");
    assert_eq!(entry.filename, Some("Report.odt".to_string()));
}

#[test]
fn renamed_and_changed_document_gets_a_new_file() {
    let mut map = FileMap::new();
    let mut existing: Vec<String> = Vec::new();
    run(&[doc("1", "Report", "v1")], &mut map, &mut existing, succeed);
    let changed = doc("1", "Summary", "v2");
    let filename = export_name(plan(&map, &existing, &changed));
    assert_eq!(filename, "Summary.odt");
    assert!(settle(&mut map, &mut existing, changed, filename, &Ok(())));
    assert_eq!(existing, vec!["Report.odt".to_string(), "Summary.odt".to_string()]);
    let entry = map.get("1").unwrap();
    assert_eq!(entry.name, "Summary");
    assert_eq!(entry.filename, Some("Summary.odt".to_string()));
}

#[test]
fn renamed_to_a_name_that_sanitizes_alike_gets_a_numbered_file() {
    let mut map = FileMap::new();
    let mut existing: Vec<String> = Vec::new();
    run(&[doc("1", "a b", "v1")], &mut map, &mut existing, succeed);
    let filename = export_name(plan(&map, &existing, &doc("1", "a/b", "v2")));
    assert_eq!(filename, "a_b_1.odt");
}

#[test]
fn renamed_but_unchanged_document_is_skipped() {
    let mut map = FileMap::new();
    let mut existing: Vec<String> = Vec::new();
    run(&[doc("1", "Report", "v1")], &mut map, &mut existing, succeed);
    assert!(matches!(plan(&map, &existing, &doc("1", "Summary", "v1")), Action::Skip));
}

#[test]
fn ineligible_document_is_ignored_even_with_an_entry() {
    let mut map = FileMap::new();
    let mut existing: Vec<String> = Vec::new();
    run(&[doc("1", "Report", "v1")], &mut map, &mut existing, succeed);
    let mut trashed = doc("1", "Report", "v2");
    trashed.trashed = true;
    assert!(matches!(plan(&map, &existing, &trashed), Action::Ignore));
    let mut foreign = doc("5", "Theirs", "v1");
    foreign.owned_by_me = false;
    let (exports, completed) = run(&[trashed, foreign], &mut map, &mut existing, succeed);
    assert_eq!(exports, 0);
    assert!(completed);
    assert_eq!(map.ids(), vec!["1".to_string()]);
    assert_eq!(map.get("1").unwrap().modified_time, "v1");
}

#[test]
fn size_limit_failure_is_recorded_and_the_pass_goes_on() {
    let mut map = FileMap::new();
    let mut existing: Vec<String> = Vec::new();
    let docs = vec![doc("1", "Big", "v1"), doc("2", "Small", "v1")];
    let (exports, completed) = run(&docs, &mut map, &mut existing, fail_on_big);
    assert_eq!(exports, 2);
    assert!(completed);
    let big = map.get("1").unwrap();
    assert_eq!(big.state, State::TooLarge);
    assert_eq!(big.filename, None);
    assert_eq!(big.name, "Big");
    assert_eq!(big.modified_time, "v1");
    assert_eq!(existing, vec!["Small.odt".to_string()]);
    assert_eq!(map.get("2").unwrap().state, State::Downloaded);
}

#[test]
fn too_large_document_with_a_new_token_is_tried_again_under_a_fresh_name() {
    let mut map = FileMap::new();
    let mut existing: Vec<String> = Vec::new();
    run(&[doc("1", "Big", "v1")], &mut map, &mut existing, fail_on_big);
    let filename = export_name(plan(&map, &existing, &doc("1", "Big", "v2")));
    assert_eq!(filename, "Big.odt");
}

#[test]
fn fatal_failure_ends_the_pass_and_keeps_earlier_records() {
    let mut map = FileMap::new();
    let mut existing: Vec<String> = Vec::new();
    let docs = vec![doc("1", "Good", "v1"), doc("2", "Bad", "v1"), doc("3", "Later", "v1")];
    let (exports, completed) = run(&docs, &mut map, &mut existing, break_on_bad);
    assert_eq!(exports, 2);
    assert!(!completed);
    assert_eq!(map.ids(), vec!["1".to_string()]);
    assert_eq!(existing, vec!["Good.odt".to_string()]);
}

#[test]
fn classify_finds_the_size_limit_reason_among_others() {
    let e = ExportError::BadRequest(vec![
        detail("usageLimits", "rateLimitExceeded"),
        detail("global", "exportSizeLimitExceeded"),
    ]);
    assert_eq!(classify(&e), Failure::SizeLimitExceeded);
}

#[test]
fn classify_needs_both_domain_and_reason() {
    let e = ExportError::BadRequest(vec![
        detail("global", "badRequest"),
        detail("usageLimits", "exportSizeLimitExceeded"),
    ]);
    assert_eq!(classify(&e), Failure::Fatal);
    assert_eq!(classify(&ExportError::BadRequest(Vec::new())), Failure::Fatal);
}

#[test]
fn classify_other_failures_as_fatal() {
    assert_eq!(classify(&ExportError::Other), Failure::Fatal);
}

#[test]
fn settle_leaves_everything_on_a_fatal_failure() {
    let mut map = FileMap::new();
    let mut existing = vec!["Kept.odt".to_string()];
    let go_on = settle(
        &mut map,
        &mut existing,
        doc("1", "Report", "v1"),
        "Report.odt".to_string(),
        &Err(ExportError::Other),
    );
    assert!(!go_on);
    assert!(map.ids().is_empty());
    assert_eq!(existing, vec!["Kept.odt".to_string()]);
}
