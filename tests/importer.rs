use kicad_component_importer::importer::{
    collect_footprints, footprint_lib_name, footprint_name_from_value, has_extension, is_zip,
    prepare_import, select_footprint_for_symbol, strip_pretty_suffix, ImportConfig, ImportError,
};
use kicad_component_importer::kicad_sym::{AddPolicy, KicadSymbolLib, Symbol};

fn symbol_lib_text(symbol_name: &str, footprint_value: &str) -> String {
    format!(
        "(kicad_symbol_lib (version 20231120) (symbol \"{}\" (property \"Footprint\" \"{}\")))",
        symbol_name, footprint_value
    )
}

fn dest_config() -> ImportConfig {
    ImportConfig::new(
        String::from("out/dest.kicad_sym"),
        String::from("out/Dest.pretty"),
        String::from("out/steps"),
    )
}

fn first_footprint(library_text: &str) -> String {
    let lib = KicadSymbolLib::parse(library_text).unwrap();
    let symbols = lib.symbols().unwrap();
    symbols.first().unwrap().property_value("Footprint").unwrap()
}

fn footprints(paths: &[&str]) -> Vec<String> {
    paths.iter().map(|p| p.to_string()).collect()
}

fn pick(symbol: &str, paths: &[&str]) -> Result<String, ImportError> {
    let symbol = Symbol::parse(symbol).unwrap();
    let infos = collect_footprints(&footprints(paths)).unwrap();
    select_footprint_for_symbol(&symbol, &infos)
}

#[test]
fn import_dir_associates_and_copies() {
    let texts = vec![symbol_lib_text("PartA", "")];
    let fps = footprints(&["source/Footprints.pretty/MyFootprint.kicad_mod"]);
    let prepared = prepare_import(&texts, &fps, &Vec::new(), None, &dest_config(), AddPolicy::ReplaceExisting).unwrap();
    let report = prepared.report();
    assert_eq!(report.symbols_added(), 1);
    assert_eq!(report.footprints_added(), 1);
    assert_eq!(report.step_files_added(), 0);
    assert_eq!(first_footprint(prepared.library_text()), "Dest:MyFootprint");
}

#[test]
fn import_zip_updates_library_prefix() {
    let texts = vec![String::from(
        "(kicad_symbol_lib (version 20231120) (symbol \"PartA\" (property \"Footprint\" \"Old:MyFootprint\")))",
    )];
    let fps = footprints(&["Footprints.pretty/MyFootprint.kicad_mod"]);
    let prepared = prepare_import(&texts, &fps, &Vec::new(), None, &dest_config(), AddPolicy::ReplaceExisting).unwrap();
    assert_eq!(first_footprint(prepared.library_text()), "Dest:MyFootprint");
}

#[test]
fn import_errors_on_ambiguous_footprints() {
    let texts = vec![symbol_lib_text("PartA", "")];
    let fps = footprints(&["source/Footprints.pretty/A.kicad_mod", "source/Footprints.pretty/B.kicad_mod"]);
    let err = prepare_import(&texts, &fps, &Vec::new(), None, &dest_config(), AddPolicy::ReplaceExisting).unwrap_err();
    match err {
        ImportError::Association(_) => {}
        other => panic!("unexpected error: {:?}", other),
    }
}

#[test]
fn declared_footprint_wins_over_count() {
    let chosen = pick(
        "(symbol \"S\" (property \"Footprint\" \"Old:Foo\"))",
        &["fp/Other.kicad_mod", "fp/Foo.kicad_mod", "fp/Third.kicad_mod"],
    );
    assert_eq!(chosen.unwrap(), "Foo");
    let chosen = pick("(symbol \"S\" (property \"Footprint\" \"  Foo  \"))", &["fp/Foo.kicad_mod", "fp/X.kicad_mod"]);
    assert_eq!(chosen.unwrap(), "Foo");
}

#[test]
fn single_footprint_applies_to_every_symbol() {
    let chosen = pick("(symbol \"S\" (property \"Footprint\" \"Lib:Missing\"))", &["fp/Bar.kicad_mod"]);
    assert_eq!(chosen.unwrap(), "Bar");
    assert_eq!(pick("(symbol \"S\")", &["fp/Bar.kicad_mod"]).unwrap(), "Bar");
}

#[test]
fn footprint_named_like_symbol_is_chosen() {
    let chosen = pick("(symbol \"Baz\" (property \"Footprint\" \" \"))", &["fp/Q.kicad_mod", "fp/Baz.kicad_mod"]);
    assert_eq!(chosen.unwrap(), "Baz");
}

#[test]
fn unresolved_symbol_is_named_in_the_error() {
    match pick("(symbol \"Lost\")", &["fp/Q.kicad_mod", "fp/R.kicad_mod"]) {
        Err(ImportError::Association(message)) => assert_eq!(message, "unable to choose footprint for symbol Lost"),
        other => panic!("unexpected result: {:?}", other),
    }
}

#[test]
fn association_writes_destination_reference() {
    let texts = vec![String::from(
        "(kicad_symbol_lib (version 1) (symbol \"Baz\") (symbol \"Q\" (property \"Footprint\" \"X:Q\")))",
    )];
    let fps = footprints(&["a/Q.kicad_mod", "a/Baz.kicad_mod"]);
    let prepared = prepare_import(&texts, &fps, &footprints(&["m.step"]), None, &dest_config(), AddPolicy::ErrorOnConflict).unwrap();
    let lib = KicadSymbolLib::parse(prepared.library_text()).unwrap();
    let symbols = lib.symbols().unwrap();
    assert_eq!(symbols[0].property_value("Footprint").unwrap(), "Dest:Baz");
    assert_eq!(symbols[1].property_value("Footprint").unwrap(), "Dest:Q");
    assert_eq!(prepared.report().symbols_added(), 2);
    assert_eq!(prepared.report().footprints_added(), 2);
    assert_eq!(prepared.report().step_files_added(), 1);
}

#[test]
fn import_merges_into_existing_library() {
    let texts = vec![symbol_lib_text("A", "F")];
    let fps = footprints(&["F.kicad_mod"]);
    let existing = "(kicad_symbol_lib (version 20231120) (symbol \"Old\") (symbol \"A\" (property \"Value\" \"1\")))";
    let prepared = prepare_import(&texts, &fps, &Vec::new(), Some(existing), &dest_config(), AddPolicy::ReplaceExisting).unwrap();
    let lib = KicadSymbolLib::parse(prepared.library_text()).unwrap();
    let names: Vec<String> = lib.symbols().unwrap().iter().map(|s| s.name().to_string()).collect();
    assert_eq!(names, vec!["Old", "A"]);
    assert!(lib.symbols().unwrap()[1].property_value("Value").is_none());
    let err = prepare_import(&texts, &fps, &Vec::new(), Some(existing), &dest_config(), AddPolicy::ErrorOnConflict).unwrap_err();
    assert!(matches!(err, ImportError::Symbol(_)));
}

#[test]
fn import_reports_missing_inputs() {
    let fps = footprints(&["F.kicad_mod"]);
    let err = prepare_import(&Vec::new(), &fps, &Vec::new(), None, &dest_config(), AddPolicy::ReplaceExisting).unwrap_err();
    assert!(matches!(err, ImportError::MissingSymbols));
    let texts = vec![symbol_lib_text("A", "")];
    let err = prepare_import(&texts, &Vec::new(), &Vec::new(), None, &dest_config(), AddPolicy::ReplaceExisting).unwrap_err();
    assert!(matches!(err, ImportError::MissingFootprints));
    let bad = vec![String::from("(not_a_lib)")];
    let err = prepare_import(&bad, &fps, &Vec::new(), None, &dest_config(), AddPolicy::ReplaceExisting).unwrap_err();
    assert!(matches!(err, ImportError::Symbol(_)));
    let config = ImportConfig::new(String::from("s.kicad_sym"), String::from("dir/.pretty"), String::from("st"));
    let err = prepare_import(&texts, &fps, &Vec::new(), None, &config, AddPolicy::ReplaceExisting).unwrap_err();
    assert!(matches!(err, ImportError::InvalidSource(_)));
}

#[test]
fn footprint_library_names() {
    assert_eq!(footprint_lib_name("libs/Dest.pretty").unwrap(), "Dest");
    assert_eq!(footprint_lib_name("libs/plain_dir").unwrap(), "plain_dir");
    assert!(matches!(footprint_lib_name("libs/.pretty"), Err(ImportError::InvalidSource(_))));
}

#[test]
fn footprint_names_from_values() {
    assert_eq!(footprint_name_from_value("A:B:C").unwrap(), "C");
    assert_eq!(footprint_name_from_value("Only").unwrap(), "Only");
    assert_eq!(footprint_name_from_value("Lib:").unwrap(), "");
    assert!(footprint_name_from_value("").is_none());
}

#[test]
fn extensions_match_ignoring_case() {
    assert!(is_zip("pkg/Part.ZIP"));
    assert!(!is_zip("pkg/Part.zipx"));
    assert!(has_extension("a/b/Model.StEp", "step"));
    assert!(!has_extension("a/b/noext", "step"));
}

#[test]
fn footprint_names_are_file_stems() {
    let infos = collect_footprints(&footprints(&["x/Foo.kicad_mod", "Bar.kicad_mod"])).unwrap();
    assert_eq!(infos[0].name(), "Foo");
    assert_eq!(infos[0].path(), "x/Foo.kicad_mod");
    assert_eq!(infos[1].name(), "Bar");
}

#[test]
fn pretty_suffix_is_stripped() {
    assert_eq!(strip_pretty_suffix("Parts.pretty"), "Parts");
    assert_eq!(strip_pretty_suffix("Parts"), "Parts");
    assert_eq!(strip_pretty_suffix(".pretty"), "");
}

#[test]
fn association_error_message_names_first_unresolved_symbol() {
    let texts = vec![String::from(
        "(kicad_symbol_lib (version 1) (symbol \"Q\") (symbol \"Lost\") (symbol \"Gone\"))",
    )];
    let fps = footprints(&["a/Q.kicad_mod", "a/R.kicad_mod"]);
    match prepare_import(&texts, &fps, &Vec::new(), None, &dest_config(), AddPolicy::ReplaceExisting) {
        Err(ImportError::Association(message)) => {
            assert_eq!(message, "unable to choose footprint for symbol Lost")
        }
        other => panic!("unexpected result: {:?}", other),
    }
}

#[test]
fn merge_conflict_reports_symbol_error() {
    let texts = vec![symbol_lib_text("A", "F")];
    let fps = footprints(&["F.kicad_mod"]);
    let existing = "(kicad_symbol_lib (version 20231120) (symbol \"A\"))";
    match prepare_import(&texts, &fps, &Vec::new(), Some(existing), &dest_config(), AddPolicy::ErrorOnConflict) {
        Err(ImportError::Symbol(e)) => assert_eq!(e.to_string(), "symbol already exists: A"),
        other => panic!("unexpected result: {:?}", other),
    }
}
