use os_checker::cli::ArgsConfig;
use os_checker::layout::{
    is_peculiar_target, is_script_candidate, CargoConfigToml, CargoConfigTomlTarget,
    RustToolchain, Targets,
};

#[test]
fn args_config_execute_succeeds() {
    let args = ArgsConfig {
        config: vec!["a.json".to_owned()],
        merged: true,
        list_repos: false,
    };
    assert!(args.execute().is_ok());
}

#[test]
fn cargo_config_toml_sample_names_one_target() {
    let config = CargoConfigToml::test();
    match config.build.target {
        CargoConfigTomlTarget::Multiple(v) => assert_eq!(v, vec!["a".to_owned()]),
        CargoConfigTomlTarget::One(_) => panic!("the sample uses a target list"),
    }
}

#[test]
fn peculiar_targets_are_skipped() {
    assert!(is_peculiar_target("x86_64-fuchsia"));
    assert!(is_peculiar_target("avr-unknown-gnu-atmega328"));
    assert!(!is_peculiar_target("x86_64-unknown-linux-gnu"));
}

#[test]
fn script_candidates_cover_makefile_flavors() {
    assert!(is_script_candidate("Makefile", None));
    assert!(is_script_candidate("Makefile.linux", None));
    assert!(is_script_candidate("makefile", None));
    assert!(is_script_candidate("GNUmakefile", None));
    assert!(is_script_candidate("build", Some("sh")));
    assert!(is_script_candidate("build", Some("py")));
    assert!(is_script_candidate("rules", Some("mk")));
    assert!(is_script_candidate("tasks", Some("just")));
    assert!(!is_script_candidate("notes", Some("txt")));
    assert!(!is_script_candidate("README", None));
}

fn toolchain(targets: Option<Vec<String>>, components: Option<Vec<String>>) -> RustToolchain {
    RustToolchain {
        channel: "nightly-2020-07-10".to_owned(),
        profile: Some("minimal".to_owned()),
        targets,
        components,
        toml_path: "rust-toolchain.toml".to_owned(),
        need_install_clippy: false,
        peculiar_targets: None,
    }
}

#[test]
fn has_clippy_looks_through_components() {
    let with = toolchain(None, Some(vec!["rustfmt".to_owned(), "clippy".to_owned()]));
    assert!(with.has_clippy());
    let without = toolchain(None, Some(vec!["rustfmt".to_owned()]));
    assert!(!without.has_clippy());
    let none = toolchain(None, None);
    assert!(!none.has_clippy());
}

#[test]
fn append_targets_filters_sorts_and_dedups() {
    let mut tc = toolchain(Some(vec!["wasm32-unknown-unknown".to_owned()]), None);
    tc.append_targets(&[
        "x86_64-fuchsia".to_owned(),
        "thumbv7m-none-eabi".to_owned(),
        "wasm32-unknown-unknown".to_owned(),
    ]);
    let targets = tc.targets.unwrap();
    assert_eq!(
        targets,
        vec![
            "thumbv7m-none-eabi".to_owned(),
            "wasm32-unknown-unknown".to_owned()
        ]
    );
}

#[test]
fn check_peculiar_targets_moves_them_aside() {
    let mut tc = toolchain(
        Some(vec![
            "x86_64-fuchsia".to_owned(),
            "wasm32-unknown-unknown".to_owned(),
        ]),
        None,
    );
    tc.check_peculiar_targets();
    assert_eq!(tc.targets, Some(vec!["wasm32-unknown-unknown".to_owned()]));
    assert_eq!(tc.peculiar_targets, Some(vec!["x86_64-fuchsia".to_owned()]));
}

#[test]
fn targets_collect_sources_per_target() {
    let mut targets = Targets::new();
    targets.push_source("riscv64gc-unknown-none-elf", "Cargo.toml".to_owned());
    targets.push_source("riscv64gc-unknown-none-elf", ".cargo/config.toml".to_owned());
    targets.push_source("x86_64-fuchsia", "Makefile".to_owned());
    targets.remove_peculiar_targets();
    assert_eq!(targets.entries.len(), 1);
    assert_eq!(targets.entries[0].0, "riscv64gc-unknown-none-elf");
    assert_eq!(
        targets.entries[0].1,
        vec!["Cargo.toml".to_owned(), ".cargo/config.toml".to_owned()]
    );
}

#[test]
fn toolchain_targets_are_attributed_to_the_file() {
    let tc = toolchain(Some(vec!["thumbv7m-none-eabi".to_owned()]), None);
    let targets = tc.targets().unwrap();
    assert_eq!(targets.entries.len(), 1);
    assert_eq!(targets.entries[0].0, "thumbv7m-none-eabi");
    assert_eq!(targets.entries[0].1, vec!["rust-toolchain.toml".to_owned()]);
}
