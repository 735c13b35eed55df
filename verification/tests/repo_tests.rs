use os_checker::repo::{Action, CheckerTool, Config, Error, Package, RepoConfig};

fn pkgs(names: &[&str]) -> Vec<Package> {
    names
        .iter()
        .map(|n| Package {
            name: (*n).to_owned(),
            cargo_toml: format!("{n}/Cargo.toml"),
        })
        .collect()
}

fn plain_config() -> RepoConfig {
    RepoConfig {
        all: None,
        fmt: None,
        clippy: None,
        miri: None,
        semver_checks: None,
        lockbud: None,
        packages: None,
    }
}

#[test]
fn parse_scalar_reads_booleans_and_steps() {
    assert!(matches!(Action::parse_scalar("true"), Action::Perform(true)));
    assert!(matches!(Action::parse_scalar(" false "), Action::Perform(false)));
    match Action::parse_scalar(
        "# this is a comment line\ncargo miri run # a comment\ncargo miri test -- a_test_fn",
    ) {
        Action::Steps(steps) => {
            assert_eq!(
                steps,
                vec![
                    "cargo miri run".to_owned(),
                    "cargo miri test -- a_test_fn".to_owned()
                ]
            );
        }
        other => panic!("expected steps, got {other:?}"),
    }
}

#[test]
fn parse_scalar_drops_blank_lines() {
    match Action::parse_scalar("cargo fmt\n\n  \ncargo fmt --check") {
        Action::Steps(steps) => {
            assert_eq!(
                steps,
                vec!["cargo fmt".to_owned(), "cargo fmt --check".to_owned()]
            );
        }
        other => panic!("expected steps, got {other:?}"),
    }
}

#[test]
fn check_rejects_mismatched_command_with_message() {
    let action = Action::Steps(vec!["cargo miri run".to_owned()]);
    let err = action.check(CheckerTool::Clippy).unwrap_err();
    assert_eq!(
        err.message(),
        "命令 `cargo miri run` 与检查工具 `clippy` 不匹配"
    );
}

#[test]
fn check_rejects_steps_on_all() {
    let action = Action::Steps(vec!["cargo all".to_owned()]);
    match action.check(CheckerTool::All) {
        Err(Error::StepsOnAll) => {}
        other => panic!("expected the all pseudo-checker to refuse steps, got {other:?}"),
    }
}

#[test]
fn check_accepts_matching_command() {
    let action = Action::Steps(vec!["cargo clippy -F a,b,c".to_owned()]);
    assert!(action.check(CheckerTool::Clippy).is_ok());
}

#[test]
fn check_tool_action_walks_nested_packages() {
    let mut nested = plain_config();
    nested.clippy = Some(Action::Steps(vec!["cargo miri run".to_owned()]));
    let mut config = plain_config();
    config.packages = Some(vec![("crate1".to_owned(), nested)]);
    let top = Config {
        repo: "user/repo".to_owned(),
        config,
    };
    let err = top.check_fork().unwrap_err();
    assert_eq!(
        err.message(),
        "命令 `cargo miri run` 与检查工具 `clippy` 不匹配"
    );
}

#[test]
fn pkg_checker_action_expands_fmt_and_custom_clippy() {
    let mut config = plain_config();
    config.fmt = Some(Action::Perform(true));
    config.clippy = Some(Action::Steps(vec!["cargo clippy -F a,b,c".to_owned()]));
    let v = config
        .pkg_checker_action(&pkgs(&["package1", "package2"]))
        .unwrap();
    assert_eq!(v.len(), 4);
    assert_eq!(v[0].0.name, "package1");
    assert_eq!(v[0].1, "cargo fmt --manifest-path package1/Cargo.toml");
    assert_eq!(v[1].0.name, "package2");
    assert_eq!(v[1].1, "cargo fmt --manifest-path package2/Cargo.toml");
    assert_eq!(v[2].0.name, "package1");
    assert_eq!(v[2].1, "cargo clippy -F a,b,c");
    assert_eq!(v[3].0.name, "package2");
    assert_eq!(v[3].1, "cargo clippy -F a,b,c");
}

#[test]
fn pkg_checker_action_explicit_false_wins_over_all() {
    // `all: true` switches on the unmentioned clippy, while the explicit
    // `fmt: false` stays off.
    let mut config = plain_config();
    config.all = Some(Action::Perform(true));
    config.fmt = Some(Action::Perform(false));
    let v = config.pkg_checker_action(&pkgs(&["crate0"])).unwrap();
    assert_eq!(v.len(), 1);
    assert_eq!(v[0].1, "cargo clippy --manifest-path crate0/Cargo.toml");
}

#[test]
fn pkg_checker_action_all_false_runs_only_explicit() {
    let mut config = plain_config();
    config.all = Some(Action::Perform(false));
    config.fmt = Some(Action::Perform(true));
    let v = config.pkg_checker_action(&pkgs(&["crate0"])).unwrap();
    assert_eq!(v.len(), 1);
    assert_eq!(v[0].1, "cargo fmt --manifest-path crate0/Cargo.toml");
}

#[test]
fn pkg_checker_action_unknown_package_fails() {
    let mut nested = plain_config();
    nested.fmt = Some(Action::Perform(true));
    let mut config = plain_config();
    config.packages = Some(vec![("ghost".to_owned(), nested)]);
    match config.pkg_checker_action(&pkgs(&["crate0"])) {
        Err(Error::PkgNotFound { pkg, available }) => {
            assert_eq!(pkg, "ghost");
            assert_eq!(available, vec!["crate0".to_owned()]);
        }
        other => panic!("expected an unknown package, got {other:?}"),
    }
}

#[test]
fn pkg_checker_action_nested_configs_apply_per_package() {
    let mut crate1 = plain_config();
    crate1.fmt = Some(Action::Perform(false));
    crate1.clippy = Some(Action::Perform(true));
    let mut crate2 = plain_config();
    crate2.fmt = Some(Action::Perform(true));
    let mut config = plain_config();
    config.packages = Some(vec![
        ("crate1".to_owned(), crate1),
        ("crate2".to_owned(), crate2),
    ]);
    let v = config
        .pkg_checker_action(&pkgs(&["crate1", "crate2"]))
        .unwrap();
    assert_eq!(v.len(), 2);
    assert_eq!(v[0].0.name, "crate1");
    assert_eq!(v[0].1, "cargo clippy --manifest-path crate1/Cargo.toml");
    assert_eq!(v[1].0.name, "crate2");
    assert_eq!(v[1].1, "cargo fmt --manifest-path crate2/Cargo.toml");
}

#[test]
fn repo_checker_names() {
    assert_eq!(CheckerTool::All.name(), "all");
    assert_eq!(CheckerTool::SemverChecks.name(), "semver-checks");
    assert_eq!(CheckerTool::Lockbud.name(), "lockbud");
}
