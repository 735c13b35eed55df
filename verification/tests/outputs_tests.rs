use os_checker::config::checker::CheckerTool;
use os_checker::config::resolve::Resolve;
use os_checker::db::types::CacheValue;
use os_checker::run_checker::analysis::{
    Count, CountKey, FmtMessage, FmtMismatch, Kind, Output, OutputParsed, Statistics, Total,
    Unformatted,
};
use os_checker::run_checker::packages_outputs::{
    cargo_stderr_stripped, CheckerOutput, Outputs, PackagesOutputs,
};

fn sample_resolve(pkg: &str) -> Resolve {
    Resolve {
        pkg_name: pkg.to_owned(),
        pkg_dir: format!("repos/{pkg}"),
        target: "x86_64-unknown-linux-gnu".to_owned(),
        toolchain: "+nightly".to_owned(),
        checker: CheckerTool::Clippy,
        cmd: "cargo clippy".to_owned(),
        features_args: vec!["a".to_owned(), "b".to_owned()],
        env: Vec::new(),
    }
}

#[test]
fn outputs_count_sums_diagnostics() {
    let mut outputs = Outputs::new();
    outputs.push(CacheValue::new(vec!["a".to_owned(), "b".to_owned()]));
    outputs.push(CacheValue::new(vec!["c".to_owned()]));
    assert_eq!(outputs.count(), 3);
    assert_eq!(outputs.as_slice().len(), 2);
}

#[test]
fn packages_outputs_groups_by_package() {
    let mut po = PackagesOutputs::new();
    po.push_cache("beta", CacheValue::new(vec!["x".to_owned()]));
    po.push_cache("alpha", CacheValue::new(vec!["y".to_owned()]));
    po.push_cache("beta", CacheValue::new(vec!["z".to_owned()]));
    assert_eq!(po.count(), 3);
    po.sort_by_name_and_checkers();
    assert_eq!(po.count(), 3);
}

#[test]
fn cargo_stderr_marker_detected_only_after_newline() {
    let mut out = CheckerOutput {
        resolve: sample_resolve("pkg"),
        stderr: b"warning: fine\nerror: it broke\n".to_vec(),
        success: false,
        duration_ms: 12,
        diagnostics: vec!["warning: fine".to_owned()],
    };
    let header = cargo_stderr_stripped(&out, "2025-01-01").unwrap();
    assert!(header.starts_with("// pkg_name=pkg, checker=clippy\n"));
    assert!(header.contains("// toolchain=+nightly, target=x86_64-unknown-linux-gnu\n"));
    assert!(header.contains("// features=a b\n"));
    assert!(header.contains("// cmd=cargo clippy\n"));
    assert!(header.contains("// timestamp=2025-01-01\n"));
    assert!(header.ends_with("warning: fine\nerror: it broke\n"));

    out.stderr = b"all good".to_vec();
    assert!(cargo_stderr_stripped(&out, "2025-01-01").is_none());
}

#[test]
fn push_output_with_cargo_synthesizes_build_error_entry() {
    let out = CheckerOutput {
        resolve: sample_resolve("pkg"),
        stderr: b"\nerror: build broke".to_vec(),
        success: false,
        duration_ms: 1,
        diagnostics: vec!["diag".to_owned()],
    };
    let mut po = PackagesOutputs::new();
    po.push_output_with_cargo(out, "2025-01-01");
    // the synthesized build-error entry plus the checker's own diagnostics
    assert_eq!(po.count(), 2);

    let clean = CheckerOutput {
        resolve: sample_resolve("pkg2"),
        stderr: b"nothing wrong".to_vec(),
        success: true,
        duration_ms: 1,
        diagnostics: vec!["diag".to_owned()],
    };
    let mut po2 = PackagesOutputs::new();
    po2.push_output_with_cargo(clean, "2025-01-01");
    assert_eq!(po2.count(), 1);
}

#[test]
fn layout_parse_error_replaces_entry() {
    let mut po = PackagesOutputs::new();
    po.push_cache("key", CacheValue::new(vec!["old1".to_owned(), "old2".to_owned()]));
    po.push_cargo_layout_parse_error(
        "key".to_owned(),
        CacheValue::new(vec!["parse failed".to_owned()]),
    );
    assert_eq!(po.count(), 1);
}

#[test]
fn count_push_unformatted_uses_span_formula() {
    // spans of 3 lines and 1 line: 4 unformatted lines, 1 unformatted place
    let mes = FmtMessage {
        name: "src/main.rs".to_owned(),
        mismatches: vec![
            FmtMismatch {
                original_begin_line: 1,
                original_end_line: 3,
            },
            FmtMismatch {
                original_begin_line: 5,
                original_end_line: 5,
            },
        ],
    };
    let file = "src/main.rs".to_owned();
    let mut count = Count::new();
    count.push_unformatted(&file, &mes);
    assert_eq!(count.get(&file, Kind::Unformatted(Unformatted::Line)), Some(4));
    assert_eq!(count.get(&file, Kind::Unformatted(Unformatted::File)), Some(1));
    count.push_unformatted(&file, &mes);
    assert_eq!(count.get(&file, Kind::Unformatted(Unformatted::Line)), Some(8));
    assert_eq!(count.get(&file, Kind::Unformatted(Unformatted::File)), Some(2));
}

#[test]
fn statistics_groups_consecutive_outputs() {
    let outputs = [
        Output {
            package_name: "a".to_owned(),
            duration_ms: 5,
            parsed: OutputParsed::Fmt(Vec::new()),
        },
        Output {
            package_name: "a".to_owned(),
            duration_ms: 7,
            parsed: OutputParsed::Fmt(Vec::new()),
        },
        Output {
            package_name: "b".to_owned(),
            duration_ms: 1,
            parsed: OutputParsed::Fmt(Vec::new()),
        },
    ];
    let stats = Statistics::new(&outputs);
    assert_eq!(stats.len(), 2);
    assert_eq!(stats[0].pkg, "a");
    assert_eq!(stats[0].total.duration_ms, 12);
    assert_eq!(stats[1].pkg, "b");
    assert_eq!(stats[1].total.duration_ms, 1);
}

#[test]
fn total_default_is_zero() {
    let total = Total::default();
    assert_eq!(total.duration_ms, 0);
    assert!(total.counts_on_kind.is_empty());
    assert!(total.counts_on_file.is_empty());
}

#[test]
fn count_keys_distinguish_file_and_line() {
    let file = "src/a.rs".to_owned();
    let k1 = CountKey::unformatted_file(&file);
    let k2 = CountKey::unformatted_line(&file);
    assert_eq!(k1.kind, Kind::Unformatted(Unformatted::File));
    assert_eq!(k2.kind, Kind::Unformatted(Unformatted::Line));
    assert_eq!(k1.file, "src/a.rs");
}

#[test]
fn resolve_new_cargo_switches_checker_only() {
    let r = sample_resolve("pkg");
    let c = r.new_cargo();
    assert_eq!(c.checker, CheckerTool::Cargo);
    assert_eq!(c.pkg_name, r.pkg_name);
    assert_eq!(c.cmd, r.cmd);
    assert_eq!(c.target, r.target);
}

#[test]
fn ansi_escapes_are_stripped_before_the_marker_check() {
    // an escape sequence splits the marker in the raw bytes; only after
    // stripping does `\nerror: ` appear
    let mut stderr = b"warning: w\n".to_vec();
    stderr.extend_from_slice(&[0x1b]);
    stderr.extend_from_slice(b"[31merror: boom");
    let out = CheckerOutput {
        resolve: sample_resolve("pkg"),
        stderr,
        success: false,
        duration_ms: 1,
        diagnostics: Vec::new(),
    };
    assert!(cargo_stderr_stripped(&out, "2025-01-01").is_some());
}
