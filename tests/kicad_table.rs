use kicad_component_importer::importer::ImportConfig;
use kicad_component_importer::kicad_table::{
    ensure_project_tables, lib_name_from_path, make_uri, parse_table, project_uri, update_table, TableError,
    TableKind,
};

fn project_config() -> ImportConfig {
    ImportConfig::new(
        String::from("project_symbols.kicad_sym"),
        String::from("project_footprints.pretty"),
        String::from("project_3d"),
    )
}

#[test]
fn creates_tables_with_entries() {
    let (sym, fp) = ensure_project_tables("/work/project", &project_config(), None, None).unwrap();
    assert!(sym.contains("sym_lib_table"));
    assert!(sym.contains("project_symbols"));
    assert!(sym.contains("${KIPRJMOD}/project_symbols.kicad_sym"));
    assert!(fp.contains("fp_lib_table"));
    assert!(fp.contains("project_footprints"));
    assert!(fp.contains("${KIPRJMOD}/project_footprints.pretty"));
}

#[test]
fn updates_existing_entry() {
    let existing = "(sym_lib_table (version 7) (lib (name \"project_symbols\")(type \"KiCad\")(uri \"${KIPRJMOD}/old.kicad_sym\")(options \"\")(descr \"\")))";
    let (sym, _) = ensure_project_tables("/work/project", &project_config(), Some(existing), None).unwrap();
    assert!(sym.contains("${KIPRJMOD}/project_symbols.kicad_sym"));
    assert!(!sym.contains("old.kicad_sym"));
}

#[test]
fn fresh_table_text() {
    let text = update_table(None, TableKind::Symbol, "/p", "project_symbols.kicad_sym").unwrap();
    assert_eq!(
        text,
        "(sym_lib_table\n  (version 7)\n  (lib\n    (name \"project_symbols\")\n    (type \"KiCad\")\n    (uri \"${KIPRJMOD}/project_symbols.kicad_sym\")\n    (options \"\")\n    (descr \"\")\n  )\n)\n"
    );
}

#[test]
fn second_update_changes_nothing() {
    let first = update_table(None, TableKind::Footprint, "/p", "/p/libs/Parts.pretty").unwrap();
    let second = update_table(Some(&first), TableKind::Footprint, "/p", "/p/libs/Parts.pretty").unwrap();
    assert_eq!(first, second);
    let existing = "(fp_lib_table (lib (name Parts) (uri x)) (lib (name Other)))";
    let first = update_table(Some(existing), TableKind::Footprint, "/p", "/p/libs/Parts.pretty").unwrap();
    let second = update_table(Some(&first), TableKind::Footprint, "/p", "/p/libs/Parts.pretty").unwrap();
    assert_eq!(first, second);
}

#[test]
fn version_entry_is_inserted_after_keyword() {
    let existing = "(fp_lib_table (lib (name Other)))";
    let text = update_table(Some(existing), TableKind::Footprint, "/p", "Parts.pretty").unwrap();
    assert!(text.starts_with("(fp_lib_table\n  (version 7)\n  (lib\n    (name Other)"));
    assert!(text.contains("(name \"Parts\")"));
}

#[test]
fn table_errors() {
    assert!(matches!(parse_table("(wrong_table)", TableKind::Symbol), Err(TableError::Invalid(_))));
    assert!(matches!(parse_table("(sym_lib_table", TableKind::Symbol), Err(TableError::Parse(_))));
    assert!(update_table(Some("(sym_lib_table"), TableKind::Symbol, "/p", "a.kicad_sym").is_err());
    assert!(matches!(lib_name_from_path(TableKind::Symbol, ""), Err(TableError::Invalid(_))));
}

#[test]
fn library_names_for_tables() {
    assert_eq!(lib_name_from_path(TableKind::Symbol, "a/b/parts.kicad_sym").unwrap(), "parts");
    assert_eq!(lib_name_from_path(TableKind::Footprint, "a/b/Parts.pretty").unwrap(), "Parts");
    assert_eq!(lib_name_from_path(TableKind::Footprint, "a/b/Parts").unwrap(), "Parts");
}

#[test]
fn uris_are_relative_to_project() {
    assert_eq!(make_uri("/proj/lib/x.kicad_sym", "/proj"), "${KIPRJMOD}/lib/x.kicad_sym");
    assert_eq!(make_uri("./a.kicad_sym", "/proj"), "${KIPRJMOD}/a.kicad_sym");
    assert_eq!(make_uri("/elsewhere/x.kicad_sym", "/proj"), "/elsewhere/x.kicad_sym");
}

#[test]
fn project_uris_drop_leading_dot_slashes() {
    assert_eq!(project_uri("././lib/a.kicad_sym"), "${KIPRJMOD}/lib/a.kicad_sym");
    assert_eq!(project_uri("lib"), "${KIPRJMOD}/lib");
}

#[test]
fn footprint_library_named_only_suffix_is_rejected() {
    assert!(matches!(lib_name_from_path(TableKind::Footprint, "libs/.pretty"), Err(TableError::Invalid(_))));
    assert!(matches!(
        update_table(None, TableKind::Footprint, "/p", "libs/.pretty"),
        Err(TableError::Invalid(_))
    ));
}

#[test]
fn table_error_kinds() {
    match parse_table("(fp_lib_table)", TableKind::Symbol) {
        Err(TableError::Invalid(message)) => assert_eq!(message, "expected root list sym_lib_table"),
        other => panic!("unexpected result: {:?}", other.map(|_| ())),
    }
    match parse_table("(sym_lib_table\n", TableKind::Symbol) {
        Err(TableError::Parse(message)) => assert_eq!(message, "unterminated list at 2:1"),
        other => panic!("unexpected result: {:?}", other.map(|_| ())),
    }
}
