use kicad_component_importer::kicad_sym::{parse_one, parse_sexps, AddPolicy, KicadSymbolLib, Sexp, Symbol};

fn names(lib: &KicadSymbolLib) -> Vec<String> {
    lib.symbols()
        .unwrap()
        .into_iter()
        .map(|sym| sym.name().to_string())
        .collect()
}

#[test]
fn parse_symbols_from_library() {
    let input = "(kicad_symbol_lib (version 20231120) (symbol \"A\") (symbol \"B\"))";
    let lib = KicadSymbolLib::parse(input).unwrap();
    assert_eq!(names(&lib), vec!["A", "B"]);
}

#[test]
fn add_symbol_replaces_existing() {
    let input = "(kicad_symbol_lib (version 20231120) (symbol \"A\"))";
    let mut lib = KicadSymbolLib::parse(input).unwrap();
    let symbol = Symbol::parse("(symbol \"A\" (property \"Value\" \"new\"))").unwrap();
    lib.add_symbol(symbol, AddPolicy::ReplaceExisting).unwrap();
    let out = lib.to_string_pretty();
    assert!(out.contains("new"));
}

#[test]
fn add_symbol_skips_existing() {
    let input = "(kicad_symbol_lib (version 20231120) (symbol \"A\"))";
    let mut lib = KicadSymbolLib::parse(input).unwrap();
    let symbol = Symbol::parse("(symbol \"A\" (property \"Value\" \"new\"))").unwrap();
    lib.add_symbol(symbol, AddPolicy::SkipExisting).unwrap();
    let out = lib.to_string_pretty();
    assert!(!out.contains("new"));
}

#[test]
fn add_symbol_errors_on_conflict() {
    let input = "(kicad_symbol_lib (version 20231120) (symbol \"A\"))";
    let mut lib = KicadSymbolLib::parse(input).unwrap();
    let symbol = Symbol::parse("(symbol \"A\")").unwrap();
    let err = lib.add_symbol(symbol, AddPolicy::ErrorOnConflict).unwrap_err();
    assert!(err.to_string().contains("symbol already exists"));
}

#[test]
fn roundtrip_preserves_symbol_names() {
    let input = "(kicad_symbol_lib (version 20231120) (symbol \"A\") (symbol \"B\"))";
    let lib = KicadSymbolLib::parse(input).unwrap();
    let out = lib.to_string_pretty();
    let lib_again = KicadSymbolLib::parse(&out).unwrap();
    assert_eq!(names(&lib_again), vec!["A", "B"]);
}

#[test]
fn parses_comments_and_quoted_names() {
    let input = "(kicad_symbol_lib\n; comment\n(symbol \"LM 2907-8\")\n# comment\n)";
    let lib = KicadSymbolLib::parse(input).unwrap();
    assert_eq!(names(&lib), vec!["LM 2907-8"]);
    let out = lib.to_string_pretty();
    assert!(out.contains("\"LM 2907-8\""));
}

#[test]
fn set_property_updates_existing_value() {
    let mut symbol = Symbol::parse("(symbol \"A\" (property \"Footprint\" \"\"))").unwrap();
    assert_eq!(symbol.property_value("Footprint").unwrap(), "");
    symbol.set_property_value("Footprint", "Lib:FP");
    assert_eq!(symbol.property_value("Footprint").unwrap(), "Lib:FP");
}

#[test]
fn set_or_add_property_inserts_when_missing() {
    let mut symbol = Symbol::parse("(symbol \"A\")").unwrap();
    assert!(symbol.property_value("Footprint").is_none());
    symbol.set_or_add_property("Footprint", "Lib:FP");
    assert_eq!(symbol.property_value("Footprint").unwrap(), "Lib:FP");
}

#[test]
fn pretty_layout_of_nested_list() {
    let sexp = parse_one("(a (b c) d)").unwrap();
    assert_eq!(sexp.to_string_pretty(), "(a\n\t(b c)\n\td\n)\n");
    assert_eq!(sexp.to_string_pretty_with_indent("  "), "(a\n  (b c)\n  d\n)\n");
}

#[test]
fn pretty_layout_of_flat_and_empty_lists() {
    assert_eq!(parse_one("( x  y\tz )").unwrap().to_string_pretty(), "(x y z)\n");
    assert_eq!(parse_one("()").unwrap().to_string_pretty(), "()\n");
}

#[test]
fn atoms_are_quoted_and_escaped_when_needed() {
    let sexp = parse_one("(p \"a b\" \"q\\\"x\" \"\" \"line\\nnext\" plain \"quoted\")").unwrap();
    assert_eq!(
        sexp.to_string_pretty(),
        "(p \"a b\" \"q\\\"x\" \"\" \"line\\nnext\" plain \"quoted\")\n"
    );
}

#[test]
fn quoted_atom_with_space_round_trips() {
    let sexp = parse_one("\"LM 2907-8\"").unwrap();
    let text = sexp.to_string_pretty();
    assert_eq!(text, "\"LM 2907-8\"\n");
    match parse_one(&text).unwrap() {
        Sexp::Atom(a) => assert_eq!(a.value(), "LM 2907-8"),
        Sexp::List(_) => panic!("expected an atom"),
    }
}

#[test]
fn unknown_escape_passes_character_through() {
    match parse_one("\"a\\qb\"").unwrap() {
        Sexp::Atom(a) => {
            assert_eq!(a.value(), "aqb");
            assert!(a.is_quoted());
        }
        Sexp::List(_) => panic!("expected an atom"),
    }
}

#[test]
fn parse_errors_carry_positions() {
    let err = parse_sexps("(a\n  b").unwrap_err();
    assert_eq!(err.to_string(), "unterminated list at 2:4");
    let err = parse_sexps(")").unwrap_err();
    assert_eq!(err.to_string(), "unexpected ')' at 1:1");
    assert!(parse_sexps("\"abc").is_err());
    assert!(parse_sexps("\"abc\\").is_err());
}

#[test]
fn parse_sexps_reads_every_form() {
    assert_eq!(parse_sexps(" ; only a comment\n").unwrap().len(), 0);
    assert_eq!(parse_sexps("(a) b (c d)").unwrap().len(), 3);
    assert!(parse_one("(a) (b)").is_err());
    assert!(parse_one("").is_err());
}

#[test]
fn library_root_must_be_kicad_symbol_lib() {
    assert!(KicadSymbolLib::parse("(other_lib (symbol \"A\"))").is_err());
    assert!(KicadSymbolLib::parse("(kicad_symbol_lib) (kicad_symbol_lib)").is_err());
    assert!(Symbol::parse("(property \"A\")").is_err());
}

#[test]
fn replace_keeps_position_and_skip_keeps_text() {
    let input = "(kicad_symbol_lib (version 1) (symbol \"A\") (symbol \"B\"))";
    let mut lib = KicadSymbolLib::parse(input).unwrap();
    let before = lib.to_string_pretty();
    let symbol = Symbol::parse("(symbol \"A\" (property \"Value\" \"v2\"))").unwrap();
    lib.add_symbol(symbol, AddPolicy::SkipExisting).unwrap();
    assert_eq!(lib.to_string_pretty(), before);
    let symbol = Symbol::parse("(symbol \"A\" (property \"Value\" \"v2\"))").unwrap();
    assert!(lib.add_symbol(symbol, AddPolicy::ErrorOnConflict).is_err());
    assert_eq!(lib.to_string_pretty(), before);
    let symbol = Symbol::parse("(symbol \"A\" (property \"Value\" \"v2\"))").unwrap();
    lib.add_symbol(symbol, AddPolicy::ReplaceExisting).unwrap();
    assert_eq!(names(&lib), vec!["A", "B"]);
    assert_eq!(lib.symbols().unwrap()[0].property_value("Value").unwrap(), "v2");
    let symbol = Symbol::parse("(symbol \"C\")").unwrap();
    lib.add_symbol(symbol, AddPolicy::ErrorOnConflict).unwrap();
    assert_eq!(names(&lib), vec!["A", "B", "C"]);
}

#[test]
fn new_property_copies_template_fields() {
    let mut symbol = Symbol::parse(
        "(symbol \"A\" (property \"Value\" \"x\" (at 0 0 0) (effects hide)))",
    )
    .unwrap();
    symbol.set_or_add_property("Footprint", "L:F");
    let text = symbol.into_sexp().to_string_pretty();
    assert!(text.contains("(property\n\t\t\"Footprint\"\n\t\tL:F\n"));
    assert_eq!(text.matches("(effects hide)").count(), 2);
}

#[test]
fn parse_errors_report_message_and_position() {
    assert_eq!(parse_sexps("(a\n b").unwrap_err().to_string(), "unterminated list at 2:3");
    assert_eq!(parse_sexps("\"abc").unwrap_err().to_string(), "unterminated string at 1:5");
    assert_eq!(parse_sexps("\"ab\\").unwrap_err().to_string(), "unterminated escape at 1:5");
    assert_eq!(parse_sexps("(a)\n  )").unwrap_err().to_string(), "unexpected ')' at 2:3");
}

#[test]
fn parse_one_passes_errors_on() {
    assert_eq!(parse_one(")").unwrap_err().to_string(), "unexpected ')' at 1:1");
    assert_eq!(
        parse_one("(a) (b)").unwrap_err().to_string(),
        "expected a single top-level S-expression"
    );
    assert_eq!(parse_one("").unwrap_err().to_string(), "expected a single top-level S-expression");
}
