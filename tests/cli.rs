use kicad_component_importer::cli::{choose_project_name, resolve_import, Cli, Command, ConfigFile, ImportArgs};
use kicad_component_importer::importer::ImportConfig;

fn no_overrides() -> ImportArgs {
    ImportArgs {
        source: String::from("/work/source.zip"),
        symbol_lib: None,
        footprint_lib: None,
        step_dir: None,
    }
}

#[test]
fn parse_import_command() {
    let cli = Cli::try_parse_from(&[
        "kci",
        "import",
        "source.zip",
        "--symbol-lib",
        "sym.kicad_sym",
        "--footprint-lib",
        "foot.pretty",
        "--step-dir",
        "steps",
    ])
    .unwrap();
    match cli.command {
        Command::Import(args) => {
            assert_eq!(args.source, "source.zip");
            assert_eq!(args.symbol_lib.unwrap(), "sym.kicad_sym");
            assert_eq!(args.footprint_lib.unwrap(), "foot.pretty");
            assert_eq!(args.step_dir.unwrap(), "steps");
        }
    }
}

#[test]
fn command_line_errors() {
    assert!(Cli::try_parse_from(&["kci"]).is_err());
    assert!(Cli::try_parse_from(&["kci", "export", "x"]).is_err());
    assert!(Cli::try_parse_from(&["kci", "import"]).is_err());
    assert!(Cli::try_parse_from(&["kci", "import", "a", "b"]).is_err());
    assert!(Cli::try_parse_from(&["kci", "import", "a", "--bogus"]).is_err());
    assert!(Cli::try_parse_from(&["kci", "import", "a", "--step-dir"]).is_err());
    assert!(Cli::try_parse_from(&["kci", "import", "a", "--step-dir", "x", "--step-dir", "y"]).is_err());
    let cli = Cli::try_parse_from(&["kci", "import", "--step-dir", "s", "pkg"]).unwrap();
    match cli.command {
        Command::Import(args) => {
            assert_eq!(args.source, "pkg");
            assert!(args.symbol_lib.is_none());
            assert_eq!(args.step_dir.unwrap(), "s");
        }
    }
}

#[test]
fn resolve_import_creates_default_config() {
    let plan = resolve_import(no_overrides(), "/work", None, None);
    assert!(plan.created_config());
    assert_eq!(plan.config().symbol_lib(), "project_symbols.kicad_sym");
    assert_eq!(plan.config().footprint_lib(), "project_footprints.pretty");
    assert_eq!(plan.config().step_dir(), "project_3d");
    assert_eq!(plan.config_path(), "/work/.kci_config");
    assert_eq!(plan.source(), "/work/source.zip");
    let stored = ConfigFile::from_import_config(plan.config());
    assert_eq!(stored.symbol_lib().unwrap(), "project_symbols.kicad_sym");
    assert_eq!(stored.footprint_lib().unwrap(), "project_footprints.pretty");
    assert_eq!(stored.step_dir().unwrap(), "project_3d");
}

#[test]
fn resolve_import_uses_kicad_pro_name_for_defaults() {
    let plan = resolve_import(no_overrides(), "/work", None, Some("my_project"));
    assert!(plan.created_config());
    assert_eq!(plan.config().symbol_lib(), "my_project_symbols.kicad_sym");
    assert_eq!(plan.config().footprint_lib(), "my_project_footprints.pretty");
    assert_eq!(plan.config().step_dir(), "my_project_step");
}

#[test]
fn resolve_import_uses_partial_config() {
    let stored = ConfigFile::new(Some(String::from("sym.kicad_sym")), None, None);
    let plan = resolve_import(no_overrides(), "/work", Some(stored), None);
    assert!(!plan.created_config());
    assert_eq!(plan.config().symbol_lib(), "sym.kicad_sym");
    assert_eq!(plan.config().footprint_lib(), "project_footprints.pretty");
    assert_eq!(plan.config().step_dir(), "project_3d");
}

#[test]
fn resolve_import_cli_overrides_config() {
    let stored = ConfigFile::new(
        Some(String::from("sym.kicad_sym")),
        Some(String::from("foot.pretty")),
        Some(String::from("steps")),
    );
    let args = ImportArgs {
        source: String::from("/work/source.zip"),
        symbol_lib: Some(String::from("override.kicad_sym")),
        footprint_lib: None,
        step_dir: Some(String::from("override_steps")),
    };
    let plan = resolve_import(args, "/work", Some(stored), None);
    assert_eq!(plan.config().symbol_lib(), "override.kicad_sym");
    assert_eq!(plan.config().footprint_lib(), "foot.pretty");
    assert_eq!(plan.config().step_dir(), "override_steps");
}

#[test]
fn project_name_prefers_directory_name_then_order() {
    let names = vec![String::from("zeta"), String::from("alpha"), String::from("mid")];
    assert_eq!(choose_project_name(&names, Some("mid")).unwrap(), "mid");
    assert_eq!(choose_project_name(&names, Some("none")).unwrap(), "alpha");
    assert_eq!(choose_project_name(&names, None).unwrap(), "alpha");
    assert!(choose_project_name(&Vec::new(), Some("x")).is_none());
}

#[test]
fn config_file_from_import_config() {
    let config = ImportConfig::new(String::from("a"), String::from("b"), String::from("c"));
    let stored = ConfigFile::from_import_config(&config);
    assert_eq!(stored.symbol_lib().unwrap(), "a");
    assert_eq!(stored.footprint_lib().unwrap(), "b");
    assert_eq!(stored.step_dir().unwrap(), "c");
}
