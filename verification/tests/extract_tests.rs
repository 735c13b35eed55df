use os_checker::extract::{
    extract_direct_reports, extract_family_records, find_segments, merge_set_into_reports,
    span_files, DedupSet, Diagnosis, RawReport,
};
use os_checker::run_checker::analysis::Kind;

fn diag(file: &str, text: &str) -> Diagnosis {
    Diagnosis {
        features: "default".to_owned(),
        kind: Kind::Lockbud,
        file: file.to_owned(),
        diag: text.to_owned(),
    }
}

#[test]
fn dedup_set_collapses_exact_duplicates() {
    let mut set = DedupSet::new();
    set.insert(diag("src/lib.rs", "deadlock"));
    set.insert(diag("src/lib.rs", "deadlock"));
    assert_eq!(set.len(), 1);
    set.insert(diag("src/lib.rs", "double lock"));
    assert_eq!(set.len(), 2);
}

#[test]
fn merge_identical_diagnoses_counts_once() {
    // Two passes that produce the same diagnosis leave one copy in the
    // report, and the count reflects one increment.
    let mut set = DedupSet::new();
    set.insert(diag("src/lib.rs", "deadlock"));
    set.insert(diag("src/lib.rs", "deadlock"));
    let mut reports: Vec<RawReport> = Vec::new();
    merge_set_into_reports(set, &mut reports);
    assert_eq!(reports.len(), 1);
    assert_eq!(reports[0].file, "src/lib.rs");
    assert_eq!(reports[0].count, 1);
    assert_eq!(reports[0].kinds.len(), 1);
    assert_eq!(reports[0].kinds[0].1, vec!["deadlock".to_owned()]);
}

#[test]
fn merge_appends_to_existing_kind() {
    let mut reports: Vec<RawReport> = Vec::new();
    diag("src/lib.rs", "first").update_raw_reports(&mut reports);
    diag("src/lib.rs", "second").update_raw_reports(&mut reports);
    assert_eq!(reports.len(), 1);
    assert_eq!(reports[0].count, 2);
    assert_eq!(
        reports[0].kinds[0].1,
        vec!["first".to_owned(), "second".to_owned()]
    );
}

#[test]
fn merge_different_features_make_two_reports() {
    let mut reports: Vec<RawReport> = Vec::new();
    diag("src/lib.rs", "text").update_raw_reports(&mut reports);
    let other = Diagnosis {
        features: "no-default".to_owned(),
        kind: Kind::Lockbud,
        file: "src/lib.rs".to_owned(),
        diag: "text".to_owned(),
    };
    other.update_raw_reports(&mut reports);
    assert_eq!(reports.len(), 2);
}

fn segment(payload_span: &str) -> String {
    // one self-delimited bracketed block holding one bug record
    format!(
        " [\n  {{\n    \"DoubleLock\": {{\n      \"first\": \"lock at {payload_span}\"\n    }}\n  }}\n    ]\n"
    )
}

#[test]
fn segmentation_finds_two_blocks() {
    let raw = format!(
        "noise before{}between{}after",
        segment("src/a.rs:1:2: 3:4"),
        segment("src/a.rs:1:2: 3:4")
    );
    let segments = find_segments(raw.as_str());
    assert_eq!(segments.len(), 2);
}

#[test]
fn span_files_picks_rs_paths() {
    let files = span_files("text src/a.rs:10:5: 10:9 more src/b.rs:1:1: 2:2 end");
    assert_eq!(files, vec!["src/a.rs".to_owned(), "src/b.rs".to_owned()]);
}

#[test]
fn two_segments_same_file_merge_into_one_report() {
    // Raw output holding two bracketed segments, each with one bug record
    // pointing at the same file: one merged report, counted by distinct
    // (kind, text) pairs, not by segments.
    let raw = format!(
        "lockbud output{}and again{}done",
        segment("src/a.rs:1:2: 3:4"),
        segment("src/a.rs:1:2: 3:4")
    );
    let mut set = DedupSet::new();
    extract_family_records(raw.as_str(), "default", Kind::Lockbud, &mut set);
    assert_eq!(set.len(), 1);
    let mut reports: Vec<RawReport> = Vec::new();
    merge_set_into_reports(set, &mut reports);
    assert_eq!(reports.len(), 1);
    assert_eq!(reports[0].file, "src/a.rs");
    assert_eq!(reports[0].count, 1);
}

#[test]
fn unparsable_segment_is_skipped() {
    let good = segment("src/a.rs:1:2: 3:4");
    let bad = " [\nnot json at all\n    ]\n".to_owned();
    let raw = format!("{bad}{good}");
    let mut set = DedupSet::new();
    extract_family_records(raw.as_str(), "default", Kind::Lockbud, &mut set);
    assert_eq!(set.len(), 1);
}

#[test]
fn recount_totals_texts_across_kinds() {
    let mut reports: Vec<RawReport> = Vec::new();
    diag("src/a.rs", "one").update_raw_reports(&mut reports);
    diag("src/a.rs", "two").update_raw_reports(&mut reports);
    let mut report = reports.remove(0);
    report.count = 0;
    report.recount();
    assert_eq!(report.count, 2);
}

#[test]
fn direct_reports_carry_kind_and_file() {
    let raw = " [\n  {\n    \"kind\": \"AtomicityViolation\",\n    \"file\": \"src/atom.rs\"\n  }\n    ]\n";
    let mut set = DedupSet::new();
    extract_direct_reports(raw, "default", Kind::Lockbud, &mut set);
    assert_eq!(set.len(), 1);
    let mut reports: Vec<RawReport> = Vec::new();
    merge_set_into_reports(set, &mut reports);
    assert_eq!(reports.len(), 1);
    assert_eq!(reports[0].file, "src/atom.rs");
    assert_eq!(reports[0].count, 1);
}

#[test]
fn merge_scans_past_reports_without_the_kind() {
    let mut reports: Vec<RawReport> = Vec::new();
    let semver = Diagnosis {
        features: "default".to_owned(),
        kind: Kind::SemverViolation,
        file: "src/lib.rs".to_owned(),
        diag: "breaking change".to_owned(),
    };
    semver.update_raw_reports(&mut reports);
    // a diagnosis of another kind opens its own report instead of joining
    diag("src/lib.rs", "deadlock").update_raw_reports(&mut reports);
    assert_eq!(reports.len(), 2);
    // and a second one of that kind joins the report that lists it
    diag("src/lib.rs", "double lock").update_raw_reports(&mut reports);
    assert_eq!(reports.len(), 2);
    assert_eq!(reports[1].count, 2);
    assert_eq!(
        reports[1].kinds[0].1,
        vec!["deadlock".to_owned(), "double lock".to_owned()]
    );
}
