use os_checker::config::checker::CheckerTool;
use os_checker::config::cmds::{Cmd, Cmds};
use os_checker::config::deserialization::{Error, Meta, RepoConfig};
use os_checker::layout::{PackageInfoShared, Packages};

fn empty_config() -> RepoConfig {
    RepoConfig {
        meta: None,
        setup: None,
        targets: None,
        no_install_targets: None,
        features: None,
        env: None,
        cmds: Cmds::new(),
        packages: Vec::new(),
    }
}

fn pkg(name: &str, dir: &str) -> (String, PackageInfoShared) {
    (
        name.to_owned(),
        PackageInfoShared {
            pkg_dir: dir.to_owned(),
            targets: Vec::new(),
            toolchain: String::new(),
        },
    )
}

#[test]
fn resolve_fmt_true_clippy_custom_two_packages() {
    // A repo running fmt the built-in way and clippy through one custom
    // command, over two discovered packages: two fmt and two clippy
    // invocations come out, sorted by package then checker.
    let mut cmds = Cmds::new_with_all_checkers_enabled(false);
    cmds.insert(CheckerTool::Fmt, Cmd::Run(true));
    cmds.insert(
        CheckerTool::Clippy,
        Cmd::Steps(vec!["cargo clippy -F a,b,c".to_owned()]),
    );
    let mut config = empty_config();
    config.meta = Some(Meta {
        run_all_checkers: false,
        skip_pkg_dir_globs: Vec::new(),
        only_pkg_dir_globs: Vec::new(),
        rerun: false,
        use_last_cache: false,
    });
    config.cmds = cmds;
    let packages = Packages {
        entries: vec![pkg("package1", "p1"), pkg("package2", "p2")],
    };
    let v = config.resolve("user/repo", &packages).unwrap();
    assert_eq!(v.len(), 4);
    assert_eq!(v[0].pkg_name, "package1");
    assert_eq!(v[0].checker, CheckerTool::Fmt);
    assert_eq!(v[0].cmd, "cargo fmt");
    assert_eq!(v[1].pkg_name, "package1");
    assert_eq!(v[1].checker, CheckerTool::Clippy);
    assert_eq!(v[1].cmd, "cargo clippy -F a,b,c");
    assert_eq!(v[2].pkg_name, "package2");
    assert_eq!(v[2].checker, CheckerTool::Fmt);
    assert_eq!(v[3].pkg_name, "package2");
    assert_eq!(v[3].checker, CheckerTool::Clippy);
    // targets fall back to the host
    assert_eq!(v[0].target, "x86_64-unknown-linux-gnu");
}

#[test]
fn resolve_pkg_override_and_sibling() {
    // A package-level override switches fmt off for crate1 only; crate2
    // still runs it.
    let mut pkg_cmds = Cmds::new();
    pkg_cmds.insert(CheckerTool::Fmt, Cmd::Run(false));
    let mut pkg_config = empty_config();
    pkg_config.cmds = pkg_cmds;
    let mut repo_cmds = Cmds::new_with_all_checkers_enabled(false);
    repo_cmds.insert(CheckerTool::Fmt, Cmd::Run(true));
    let mut config = empty_config();
    config.meta = Some(Meta {
        run_all_checkers: false,
        skip_pkg_dir_globs: Vec::new(),
        only_pkg_dir_globs: Vec::new(),
        rerun: false,
        use_last_cache: false,
    });
    config.cmds = repo_cmds;
    config.packages = vec![("crate1".to_owned(), pkg_config)];
    let packages = Packages {
        entries: vec![pkg("crate1", "c1"), pkg("crate2", "c2")],
    };
    let v = config.resolve("user/repo", &packages).unwrap();
    assert_eq!(v.len(), 1);
    assert_eq!(v[0].pkg_name, "crate2");
    assert_eq!(v[0].checker, CheckerTool::Fmt);
}

#[test]
fn resolve_unknown_package_fails_with_its_name() {
    let mut config = empty_config();
    config.packages = vec![("no-such-pkg".to_owned(), empty_config())];
    let packages = Packages {
        entries: vec![pkg("crate1", "c1")],
    };
    match config.resolve("user/repo", &packages) {
        Err(Error::UnknownPackage { pkg }) => assert_eq!(pkg, "no-such-pkg"),
        other => panic!("expected an unknown-package error, got {other:?}"),
    }
}

#[test]
fn resolve_rejects_cargo_key() {
    // The synthetic `cargo` pseudo-tool cannot be configured.
    let mut cmds = Cmds::new();
    cmds.insert(CheckerTool::Cargo, Cmd::Run(true));
    let mut config = empty_config();
    config.cmds = cmds;
    let packages = Packages {
        entries: vec![pkg("crate1", "c1")],
    };
    match config.resolve("user/repo", &packages) {
        Err(Error::UnknownChecker { checker, repo, pkg }) => {
            assert_eq!(checker, CheckerTool::Cargo);
            assert_eq!(repo, "user/repo");
            assert!(pkg.is_none());
        }
        other => panic!("expected an unknown-checker error, got {other:?}"),
    }
}

#[test]
fn skip_glob_filters_unlisted_package() {
    let mut config = empty_config();
    config.meta = Some(Meta {
        run_all_checkers: true,
        skip_pkg_dir_globs: vec!["skipped/*".to_owned()],
        only_pkg_dir_globs: Vec::new(),
        rerun: false,
        use_last_cache: false,
    });
    let packages = Packages {
        entries: vec![pkg("kept", "kept/a"), pkg("dropped", "skipped/b")],
    };
    let selected = config.selected_pkgs(&packages).unwrap();
    assert_eq!(selected.len(), 1);
    assert_eq!(selected[0].0, "kept");
}

#[test]
fn validate_meta_rejects_rerun_with_cache() {
    let mut config = empty_config();
    config.meta = Some(Meta {
        run_all_checkers: true,
        skip_pkg_dir_globs: Vec::new(),
        only_pkg_dir_globs: Vec::new(),
        rerun: true,
        use_last_cache: true,
    });
    match config.validate_meta("user/repo") {
        Err(Error::MetaConflict { repo }) => assert_eq!(repo, "user/repo"),
        other => panic!("expected a meta-conflict error, got {other:?}"),
    }
}

#[test]
fn validate_meta_rejects_bad_glob() {
    let mut config = empty_config();
    config.meta = Some(Meta {
        run_all_checkers: true,
        skip_pkg_dir_globs: vec!["[".to_owned()],
        only_pkg_dir_globs: Vec::new(),
        rerun: false,
        use_last_cache: false,
    });
    match config.validate_meta("user/repo") {
        Err(Error::BadGlob { pattern, repo }) => {
            assert_eq!(pattern, "[");
            assert_eq!(repo, "user/repo");
        }
        other => panic!("expected a bad-glob error, got {other:?}"),
    }
}

#[test]
fn validate_checker_name_passes_iff_command_mentions_tool() {
    let mut cmds = Cmds::new();
    cmds.insert(
        CheckerTool::Clippy,
        Cmd::Steps(vec!["cargo clippy -F a".to_owned()]),
    );
    let mut config = empty_config();
    config.cmds = cmds;
    assert!(config.validate_checker_name("user/repo").is_ok());

    let mut bad_cmds = Cmds::new();
    bad_cmds.insert(
        CheckerTool::Clippy,
        Cmd::Steps(vec!["cargo miri run".to_owned()]),
    );
    let mut bad = empty_config();
    bad.cmds = bad_cmds;
    match bad.validate_checker_name("user/repo") {
        Err(Error::CmdNotMatch { cmd, name, repo, pkg }) => {
            assert_eq!(cmd, "cargo miri run");
            assert_eq!(name, "clippy");
            assert_eq!(repo, "user/repo");
            assert!(pkg.is_none());
        }
        other => panic!("expected a command mismatch, got {other:?}"),
    }
}

#[test]
fn validate_checker_name_reports_package_context() {
    let mut pkg_cmds = Cmds::new();
    pkg_cmds.insert(
        CheckerTool::Clippy,
        Cmd::Steps(vec!["cargo miri run".to_owned()]),
    );
    let mut pkg_config = empty_config();
    pkg_config.cmds = pkg_cmds;
    let mut config = empty_config();
    config.packages = vec![("crate1".to_owned(), pkg_config)];
    match config.validate_checker_name("user/repo") {
        Err(Error::CmdNotMatch { cmd, name, pkg, .. }) => {
            assert_eq!(cmd, "cargo miri run");
            assert_eq!(name, "clippy");
            assert_eq!(pkg.as_deref(), Some("crate1"));
        }
        other => panic!("expected a command mismatch, got {other:?}"),
    }
}

#[test]
fn checker_tool_names_round_trip() {
    let tools = [
        CheckerTool::Fmt,
        CheckerTool::Clippy,
        CheckerTool::Miri,
        CheckerTool::SemverChecks,
        CheckerTool::Audit,
        CheckerTool::Mirai,
        CheckerTool::Lockbud,
        CheckerTool::Atomvchecker,
        CheckerTool::Rapx,
        CheckerTool::Rudra,
        CheckerTool::Outdated,
        CheckerTool::Geiger,
        CheckerTool::Udeps,
        CheckerTool::Cargo,
    ];
    for t in tools {
        assert_eq!(CheckerTool::from_str(t.name()), Some(t));
    }
    assert_eq!(CheckerTool::from_str("semver-checks"), Some(CheckerTool::SemverChecks));
    assert_eq!(CheckerTool::from_str("no-such-tool"), None);
}

#[test]
fn cmds_merge_child_wins() {
    let mut base = Cmds::new_with_all_checkers_enabled(true);
    let mut child = Cmds::new();
    child.insert(CheckerTool::Miri, Cmd::Run(false));
    base.merge(&child);
    match base.get(CheckerTool::Miri) {
        Some(Cmd::Run(false)) => {}
        other => panic!("the child's binding must win, got {other:?}"),
    }
    match base.get(CheckerTool::Fmt) {
        Some(Cmd::Run(true)) => {}
        other => panic!("other bindings must stay, got {other:?}"),
    }
    assert_eq!(base.len(), 13);
}

#[test]
fn sort_packages_orders_by_name() {
    let mut config = empty_config();
    config.packages = vec![
        ("zeta".to_owned(), empty_config()),
        ("alpha".to_owned(), empty_config()),
        ("mid".to_owned(), empty_config()),
    ];
    config.sort_packages();
    let names: Vec<&str> = config.packages.iter().map(|e| e.0.as_str()).collect();
    assert_eq!(names, ["alpha", "mid", "zeta"]);
}
