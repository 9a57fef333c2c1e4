//! Importing a vendor package: choosing each symbol's footprint and merging the
//! symbols into the destination library.
use vstd::prelude::*;
use crate::kicad_sym::{
    children, first_value, is_lib_root, library_symbols, symbol_name, symbol_nodes, with_property,
    first_symbol, AddPolicy, KicadSymError, KicadSymbolLib, Symbol,
};
use crate::node::{parse_single, pretty, Node};
use crate::paths::{extension, file_name, file_stem, path_extension, path_file_name, path_stem};
use crate::text::{
    after_last_colon, after_last_colon_chars, chars_of, ends_with, ends_with_chars, eq_ignore_ascii_case,
    eq_ignore_case, prefix_chars, string_of, str_eq, trim, trim_chars,
};

verus! {

/// Where imported symbols, footprints and 3D models go.
#[derive(Debug, Clone)]
pub struct ImportConfig {
    symbol_lib: String,
    footprint_lib: String,
    step_dir: String,
}

impl View for ImportConfig {
    type V = (Seq<char>, Seq<char>, Seq<char>);

    closed spec fn view(&self) -> (Seq<char>, Seq<char>, Seq<char>) {
        (self.symbol_lib@, self.footprint_lib@, self.step_dir@)
    }
}

impl ImportConfig {
    pub fn new(symbol_lib: String, footprint_lib: String, step_dir: String) -> (r: ImportConfig)
        ensures
            r@ == (symbol_lib@, footprint_lib@, step_dir@),
    {
        ImportConfig { symbol_lib, footprint_lib, step_dir }
    }

    pub fn symbol_lib(&self) -> (r: &str)
        ensures
            r@ == self@.0,
    {
        self.symbol_lib.as_str()
    }

    pub fn footprint_lib(&self) -> (r: &str)
        ensures
            r@ == self@.1,
    {
        self.footprint_lib.as_str()
    }

    pub fn step_dir(&self) -> (r: &str)
        ensures
            r@ == self@.2,
    {
        self.step_dir.as_str()
    }
}

/// How many symbols, footprint files and 3D-model files an import added.
#[derive(Debug, Clone)]
pub struct ImportReport {
    symbols_added: usize,
    footprints_added: usize,
    step_files_added: usize,
}

impl View for ImportReport {
    type V = (usize, usize, usize);

    closed spec fn view(&self) -> (usize, usize, usize) {
        (self.symbols_added, self.footprints_added, self.step_files_added)
    }
}

impl ImportReport {
    pub fn symbols_added(&self) -> (r: usize)
        ensures
            r == self@.0,
    {
        self.symbols_added
    }

    pub fn footprints_added(&self) -> (r: usize)
        ensures
            r == self@.1,
    {
        self.footprints_added
    }

    pub fn step_files_added(&self) -> (r: usize)
        ensures
            r == self@.2,
    {
        self.step_files_added
    }
}

#[derive(Debug)]
pub enum ImportError {
    Symbol(KicadSymError),
    InvalidSource(String),
    MissingSymbols,
    MissingFootprints,
    Association(String),
}

/// A discovered footprint file: its name (the file stem) and where it lies.
#[derive(Debug, Clone)]
pub struct FootprintInfo {
    name: String,
    path: String,
}

impl View for FootprintInfo {
    type V = (Seq<char>, Seq<char>);

    closed spec fn view(&self) -> (Seq<char>, Seq<char>) {
        (self.name@, self.path@)
    }
}

impl FootprintInfo {
    pub fn name(&self) -> (r: &str)
        ensures
            r@ == self@.0,
    {
        self.name.as_str()
    }

    pub fn path(&self) -> (r: &str)
        ensures
            r@ == self@.1,
    {
        self.path.as_str()
    }
}

/// The names of a sequence of footprints.
pub open spec fn info_names(v: Seq<FootprintInfo>) -> Seq<Seq<char>> {
    Seq::new(v.len(), |i: int| v[i]@.0)
}

/// The stems of every path, or `None` when one has none.
pub open spec fn stems(paths: Seq<Seq<char>>) -> Option<Seq<Seq<char>>>
    decreases paths.len(),
{
    if paths.len() == 0 {
        Some(Seq::empty())
    } else {
        match (stems(paths.drop_last()), path_stem(paths.last())) {
            (Some(a), Some(s)) => Some(a.push(s)),
            _ => None,
        }
    }
}

/// The views of a sequence of strings.
pub open spec fn texts(v: Seq<String>) -> Seq<Seq<char>> {
    Seq::new(v.len(), |i: int| v[i]@)
}

pub fn has_extension(path: &str, ext: &str) -> (r: bool)
    ensures
        r == match path_extension(path@) {
            Some(e) => eq_ignore_case(e, ext@),
            None => false,
        },
{
    match extension(path) {
        Some(e) => eq_ignore_ascii_case(e.as_str(), ext),
        None => false,
    }
}

pub fn is_zip(path: &str) -> (r: bool)
    ensures
        r == match path_extension(path@) {
            Some(e) => eq_ignore_case(e, "zip"@),
            None => false,
        },
{
    has_extension(path, "zip")
}

pub fn collect_footprints(paths: &Vec<String>) -> (r: Result<Vec<FootprintInfo>, ImportError>)
    ensures
        match stems(texts(paths@)) {
            Some(names) => r is Ok && info_names(r->Ok_0@) == names && r->Ok_0@.len() == paths.len(),
            None => r is Err && r->Err_0 is InvalidSource,
        },
{
    let mut out: Vec<FootprintInfo> = Vec::new();
    let mut i: usize = 0;
    while i < paths.len()
        invariant
            i <= paths.len(),
            out@.len() == i,
            stems(texts(paths@).take(i as int)) == Some(info_names(out@)),
        decreases paths.len() - i,
    {
        proof {
            assert(texts(paths@).take(i + 1).drop_last() =~= texts(paths@).take(i as int));
            assert(texts(paths@).take(i + 1).last() == paths@[i as int]@);
        }
        let name = match file_stem(paths[i].as_str()) {
            Some(n) => n,
            None => {
                proof {
                    lemma_stems_prefix(texts(paths@), i as int + 1);
                }
                let mut message = String::from_str("invalid footprint filename: ");
                message.append(paths[i].as_str());
                return Err(ImportError::InvalidSource(message));
            },
        };
        let ghost before = out@;
        out.push(FootprintInfo { name, path: paths[i].clone() });
        assert(info_names(out@) =~= info_names(before).push(out@[i as int]@.0));
        i = i + 1;
    }
    assert(texts(paths@).take(i as int) =~= texts(paths@));
    Ok(out)
}

/// Where some prefix of the paths has a stemless path, so has the whole.
proof fn lemma_stems_prefix(paths: Seq<Seq<char>>, k: int)
    requires
        0 <= k <= paths.len(),
        stems(paths.take(k)) is None,
    ensures
        stems(paths) is None,
    decreases paths.len() - k,
{
    if k < paths.len() {
        assert(paths.take(k + 1).drop_last() =~= paths.take(k));
        lemma_stems_prefix(paths, k + 1);
    } else {
        assert(paths.take(k) =~= paths);
    }
}

/// The footprint a symbol names in its `Footprint` property: the part after the
/// last `:` of the trimmed value, when that value is not blank.
pub open spec fn declared_footprint(sym: Node) -> Option<Seq<char>> {
    match first_value(children(sym), "Footprint"@, 0) {
        Some(v) => if trim(v).len() > 0 {
            Some(after_last_colon(trim(v)))
        } else {
            None
        },
        None => None,
    }
}

/// The footprint chosen for a symbol among the discovered ones: the one it names,
/// else the only one, else the one named like the symbol; `None` if none applies.
pub open spec fn select_footprint(sym: Node, names: Seq<Seq<char>>) -> Option<Seq<char>> {
    let declared = declared_footprint(sym);
    if declared is Some && names.contains(declared->Some_0) {
        declared
    } else if names.len() == 1 {
        Some(names[0])
    } else if symbol_name(sym) is Some && names.contains(symbol_name(sym)->Some_0) {
        symbol_name(sym)
    } else {
        None
    }
}

/// A symbol whose `Footprint` property names a discovered footprint gets that
/// footprint, however many were discovered.
pub proof fn law_declared_footprint_wins(sym: Node, names: Seq<Seq<char>>, f: Seq<char>)
    requires
        declared_footprint(sym) == Some(f),
        names.contains(f),
    ensures
        select_footprint(sym, names) == Some(f),
{
}

/// When exactly one footprint was discovered, a symbol without a usable property gets it.
pub proof fn law_single_footprint_applies(sym: Node, names: Seq<Seq<char>>)
    requires
        names.len() == 1,
        declared_footprint(sym) is None || !names.contains(declared_footprint(sym)->Some_0),
    ensures
        select_footprint(sym, names) == Some(names[0]),
{
}

/// Among several footprints, a symbol without a usable property gets the one named like it.
pub proof fn law_name_match_applies(sym: Node, names: Seq<Seq<char>>)
    requires
        names.len() != 1,
        declared_footprint(sym) is None || !names.contains(declared_footprint(sym)->Some_0),
        symbol_name(sym) is Some,
        names.contains(symbol_name(sym)->Some_0),
    ensures
        select_footprint(sym, names) == symbol_name(sym),
{
}

/// Among several footprints, a symbol with no usable property and no footprint of its
/// name gets none: the association fails for it.
pub proof fn law_unresolved_symbol_fails(sym: Node, names: Seq<Seq<char>>)
    requires
        names.len() != 1,
        declared_footprint(sym) is None || !names.contains(declared_footprint(sym)->Some_0),
        symbol_name(sym) is None || !names.contains(symbol_name(sym)->Some_0),
    ensures
        select_footprint(sym, names) is None,
{
}

/// The association error's message for a symbol that gets no footprint.
pub open spec fn unresolved_message(sym: Node) -> Seq<char> {
    "unable to choose footprint for symbol "@ + symbol_name(sym)->Some_0
}

/// Every symbol before index `k` gets a footprint, and the one at `k` gets none.
pub open spec fn first_unresolved(syms: Seq<Node>, names: Seq<Seq<char>>, k: int) -> bool {
    &&& 0 <= k < syms.len()
    &&& select_footprint(syms[k], names) is None
    &&& forall|j: int| 0 <= j < k ==> (#[trigger] select_footprint(syms[j], names)) is Some
}

/// The `Footprint` value that refers to footprint `name` of library `lib`.
pub open spec fn footprint_reference(lib: Seq<char>, name: Seq<char>) -> Seq<char> {
    lib + seq![':'] + name
}

/// Every symbol with its chosen footprint recorded, or `None` when one has no choice.
pub open spec fn associate_all(syms: Seq<Node>, names: Seq<Seq<char>>, lib: Seq<char>) -> Option<Seq<Node>>
    decreases syms.len(),
{
    if syms.len() == 0 {
        Some(Seq::empty())
    } else {
        match (associate_all(syms.drop_last(), names, lib), select_footprint(syms.last(), names)) {
            (Some(a), Some(f)) => Some(a.push(with_property(syms.last(), "Footprint"@, footprint_reference(lib, f)))),
            _ => None,
        }
    }
}

fn contains_name(footprints: &Vec<FootprintInfo>, name: &str) -> (r: bool)
    ensures
        r == info_names(footprints@).contains(name@),
{
    let mut i: usize = 0;
    while i < footprints.len()
        invariant
            i <= footprints.len(),
            forall|j: int| 0 <= j < i ==> info_names(footprints@)[j] != name@,
        decreases footprints.len() - i,
    {
        if str_eq(footprints[i].name.as_str(), name) {
            assert(info_names(footprints@)[i as int] == name@);
            return true;
        }
        i = i + 1;
    }
    false
}

pub fn footprint_name_from_value(value: &str) -> (r: Option<String>)
    ensures
        value@.len() == 0 ==> r is None,
        value@.len() > 0 ==> r is Some && r->Some_0@ == after_last_colon(value@),
{
    let v = chars_of(value);
    if v.len() == 0 {
        return None;
    }
    let name = after_last_colon_chars(&v);
    Some(string_of(&name))
}

pub fn select_footprint_for_symbol(symbol: &Symbol, footprints: &Vec<FootprintInfo>) -> (r: Result<
    String,
    ImportError,
>)
    requires
        symbol.wf(),
    ensures
        match select_footprint(symbol@, info_names(footprints@)) {
            Some(f) => r is Ok && r->Ok_0@ == f,
            None => r is Err && r->Err_0 is Association && r->Err_0->Association_0@ == unresolved_message(
                symbol@,
            ),
        },
{
    let ghost names = info_names(footprints@);
    if let Some(value) = symbol.property_value("Footprint") {
        let trimmed = trim_chars(&chars_of(value.as_str()));
        if trimmed.len() > 0 {
            let trimmed_text = string_of(&trimmed);
            if let Some(name) = footprint_name_from_value(trimmed_text.as_str()) {
                if contains_name(footprints, name.as_str()) {
                    return Ok(name);
                }
            }
        }
    }
    if footprints.len() == 1 {
        assert(names.len() == 1);
        return Ok(footprints[0].name.clone());
    }
    proof {
        symbol.lemma_wf();
    }
    if contains_name(footprints, symbol.name()) {
        return Ok(String::from_str(symbol.name()));
    }
    let mut message = String::from_str("unable to choose footprint for symbol ");
    message.append(symbol.name());
    assert(symbol_name(symbol@) is Some);
    Err(ImportError::Association(message))
}

pub fn associate_footprints(symbols: Vec<Symbol>, footprints: &Vec<FootprintInfo>, footprint_lib_name: &str) -> (r: Result<
    Vec<Symbol>,
    ImportError,
>)
    requires
        forall|i: int| 0 <= i < symbols@.len() ==> (#[trigger] symbols@[i]).wf(),
    ensures
        match associate_all(symbol_nodes(symbols@), info_names(footprints@), footprint_lib_name@) {
            Some(v) => r is Ok && symbol_nodes(r->Ok_0@) == v && forall|i: int|
                0 <= i < r->Ok_0@.len() ==> (#[trigger] r->Ok_0@[i]).wf(),
            None => r is Err && r->Err_0 is Association && exists|k: int|
                first_unresolved(symbol_nodes(symbols@), info_names(footprints@), k)
                    && r->Err_0->Association_0@ == unresolved_message(symbol_nodes(symbols@)[k]),
        },
{
    let ghost syms = symbol_nodes(symbols@);
    let ghost names = info_names(footprints@);
    let mut out: Vec<Symbol> = Vec::new();
    let ghost all = symbols@;
    let n = symbols.len();
    let mut rest = symbols;
    let mut i: usize = 0;
    while rest.len() > 0
        invariant
            i + rest@.len() == syms.len(),
            syms.len() == n,
            syms == symbol_nodes(symbols@),
            names == info_names(footprints@),
            syms == symbol_nodes(all),
            rest@ == all.subrange(i as int, all.len() as int),
            forall|j: int| 0 <= j < all.len() ==> (#[trigger] all[j]).wf(),
            associate_all(syms.take(i as int), names, footprint_lib_name@) == Some(symbol_nodes(out@)),
            forall|j: int| 0 <= j < out@.len() ==> (#[trigger] out@[j]).wf(),
            out@.len() == i,
            forall|j: int| 0 <= j < i ==> (#[trigger] select_footprint(syms[j], names)) is Some,
        decreases rest.len(),
    {
        let mut symbol = rest.remove(0);
        assert(symbol == all[i as int]);
        assert(symbol@ == syms[i as int]);
        proof {
            assert(syms.take(i + 1).drop_last() =~= syms.take(i as int));
            assert(rest@ =~= all.subrange(i + 1, all.len() as int));
        }
        let name = match select_footprint_for_symbol(&symbol, footprints) {
            Ok(n) => n,
            Err(e) => {
                proof {
                    let t = syms.take(i + 1);
                    assert(t.last() == syms[i as int]);
                    assert(t.drop_last() =~= syms.take(i as int));
                    assert(select_footprint(t.last(), names) is None);
                    assert(associate_all(t, names, footprint_lib_name@) is None);
                    lemma_associate_prefix(syms, names, footprint_lib_name@, i as int + 1);
                    assert(first_unresolved(syms, names, i as int));
                }
                return Err(e);
            },
        };
        let mut value = String::from_str(footprint_lib_name);
        value.append(":");
        value.append(name.as_str());
        proof {
            reveal_strlit(":");
        }
        symbol.set_or_add_property("Footprint", value.as_str());
        let ghost before = out@;
        let ghost entry = symbol@;
        assert(value@ == footprint_reference(footprint_lib_name@, name@));
        out.push(symbol);
        assert(symbol_nodes(out@) =~= symbol_nodes(before).push(entry));
        proof {
            let t = syms.take(i + 1);
            assert(t.last() == syms[i as int]);
            assert(t.drop_last() =~= syms.take(i as int));
            assert(associate_all(t, names, footprint_lib_name@) == Some(symbol_nodes(out@)));
        }
        i = i + 1;
    }
    assert(syms.take(i as int) =~= syms);
    Ok(out)
}

proof fn lemma_associate_prefix(syms: Seq<Node>, names: Seq<Seq<char>>, lib: Seq<char>, k: int)
    requires
        0 <= k <= syms.len(),
        associate_all(syms.take(k), names, lib) is None,
    ensures
        associate_all(syms, names, lib) is None,
    decreases syms.len() - k,
{
    if k < syms.len() {
        assert(syms.take(k + 1).drop_last() =~= syms.take(k));
        lemma_associate_prefix(syms, names, lib, k + 1);
    } else {
        assert(syms.take(k) =~= syms);
    }
}

/// The file-name suffix of a footprint library directory.
pub open spec fn pretty_suffix() -> Seq<char> {
    seq!['.', 'p', 'r', 'e', 't', 't', 'y']
}

/// The name of the footprint library at `path`: its file name without `.pretty`;
/// `None` when the path has no file name or the name is only the suffix.
pub open spec fn footprint_lib_of(path: Seq<char>) -> Option<Seq<char>> {
    match path_file_name(path) {
        Some(n) => if without_pretty(n).len() == 0 && n.len() > 0 {
            None
        } else {
            Some(without_pretty(n))
        },
        None => None,
    }
}

/// `name` without a trailing `.pretty`.
pub open spec fn without_pretty(name: Seq<char>) -> Seq<char> {
    if ends_with(name, pretty_suffix()) {
        name.subrange(0, name.len() - 7)
    } else {
        name
    }
}

pub fn strip_pretty_suffix(name: &str) -> (r: String)
    ensures
        r@ == without_pretty(name@),
{
    let chars = chars_of(name);
    let suffix = vec!['.', 'p', 'r', 'e', 't', 't', 'y'];
    assert(suffix@ =~= pretty_suffix());
    if ends_with_chars(&chars, &suffix) {
        let stem = prefix_chars(&chars, chars.len() - 7);
        string_of(&stem)
    } else {
        String::from_str(name)
    }
}

pub fn footprint_lib_name(path: &str) -> (r: Result<String, ImportError>)
    ensures
        match footprint_lib_of(path@) {
            Some(n) => r is Ok && r->Ok_0@ == n,
            None => r is Err && r->Err_0 is InvalidSource,
        },
{
    let name = match file_name(path) {
        Some(n) => n,
        None => {
            return Err(ImportError::InvalidSource(String::from_str("invalid footprint lib path")));
        },
    };
    let stem = strip_pretty_suffix(name.as_str());
    if chars_of(stem.as_str()).len() == 0 && chars_of(name.as_str()).len() > 0 {
        return Err(ImportError::InvalidSource(String::from_str("invalid footprint lib name")));
    }
    Ok(stem)
}

/// The library after adding `sym` under `policy`, as `add_symbol` does it; `None`
/// where it reports a conflict.
pub open spec fn add_spec(lib: Node, sym: Node, policy: AddPolicy) -> Option<Node> {
    let xs = children(lib);
    match first_symbol(xs, symbol_name(sym)->Some_0, 1) {
        None => Some(Node::Branch(xs.push(sym))),
        Some(i) => match policy {
            AddPolicy::ReplaceExisting => Some(Node::Branch(xs.update(i, sym))),
            AddPolicy::SkipExisting => Some(lib),
            AddPolicy::ErrorOnConflict => None,
        },
    }
}

/// The library after adding every symbol of `syms` in order.
pub open spec fn merge_all(lib: Node, syms: Seq<Node>, policy: AddPolicy) -> Option<Node>
    decreases syms.len(),
{
    if syms.len() == 0 {
        Some(lib)
    } else {
        match merge_all(lib, syms.drop_last(), policy) {
            Some(l) => add_spec(l, syms.last(), policy),
            None => None,
        }
    }
}

/// The symbols of every library text in order, or `None` where one is not a library.
pub open spec fn text_symbols(ts: Seq<Seq<char>>) -> Option<Seq<Node>>
    decreases ts.len(),
{
    if ts.len() == 0 {
        Some(Seq::empty())
    } else {
        match (text_symbols(ts.drop_last()), parse_single(ts.last())) {
            (Some(a), Some(n)) => if is_lib_root(n) {
                Some(a + library_symbols(n))
            } else {
                None
            },
            _ => None,
        }
    }
}

/// The text of an empty symbol library.
pub open spec fn empty_library_text() -> Seq<char> {
    "(kicad_symbol_lib (version 20231120))"@
}

/// The destination library before the import: the existing text, or an empty library.
pub open spec fn base_library(existing: Option<Seq<char>>) -> Option<Node> {
    match parse_single(
        match existing {
            Some(t) => t,
            None => empty_library_text(),
        },
    ) {
        Some(n) => if is_lib_root(n) {
            Some(n)
        } else {
            None
        },
        None => None,
    }
}

/// The symbols of an import with their footprints chosen.
pub open spec fn import_symbols(symbol_texts: Seq<Seq<char>>, footprint_paths: Seq<Seq<char>>, footprint_lib: Seq<char>) -> Option<
    Seq<Node>,
> {
    match (text_symbols(symbol_texts), stems(footprint_paths), footprint_lib_of(footprint_lib)) {
        (Some(syms), Some(names), Some(lib)) => associate_all(syms, names, lib),
        _ => None,
    }
}

/// The destination library after an import.
pub open spec fn import_library(
    symbol_texts: Seq<Seq<char>>,
    footprint_paths: Seq<Seq<char>>,
    existing: Option<Seq<char>>,
    footprint_lib: Seq<char>,
    policy: AddPolicy,
) -> Option<Node> {
    match (import_symbols(symbol_texts, footprint_paths, footprint_lib), base_library(existing)) {
        (Some(syms), Some(base)) => merge_all(base, syms, policy),
        _ => None,
    }
}

/// What an import writes: the new library text, and what it adds.
#[derive(Debug)]
pub struct PreparedImport {
    library_text: String,
    report: ImportReport,
}

impl View for PreparedImport {
    type V = (Seq<char>, (usize, usize, usize));

    closed spec fn view(&self) -> (Seq<char>, (usize, usize, usize)) {
        (self.library_text@, self.report@)
    }
}

impl PreparedImport {
    pub fn library_text(&self) -> (r: &str)
        ensures
            r@ == self@.0,
    {
        self.library_text.as_str()
    }

    pub fn report(&self) -> (r: &ImportReport)
        ensures
            r@ == self@.1,
    {
        &self.report
    }
}

fn load_or_create_symbol_lib(existing: Option<&str>) -> (r: Result<KicadSymbolLib, ImportError>)
    ensures
        match base_library(
            match existing {
                Some(t) => Some(t@),
                None => None,
            },
        ) {
            Some(n) => r is Ok && r->Ok_0.wf() && r->Ok_0@ == n,
            None => r is Err && r->Err_0 is Symbol,
        },
{
    let text = match existing {
        Some(t) => t,
        None => "(kicad_symbol_lib (version 20231120))",
    };
    match KicadSymbolLib::parse(text) {
        Ok(lib) => Ok(lib),
        Err(e) => Err(ImportError::Symbol(e)),
    }
}

fn parse_symbol_texts(symbol_texts: &Vec<String>) -> (r: Result<Vec<Symbol>, ImportError>)
    ensures
        match text_symbols(texts(symbol_texts@)) {
            Some(syms) => r is Ok && symbol_nodes(r->Ok_0@) == syms && forall|i: int|
                0 <= i < r->Ok_0@.len() ==> (#[trigger] r->Ok_0@[i]).wf(),
            None => r is Err && r->Err_0 is Symbol,
        },
{
    let ghost ts = texts(symbol_texts@);
    let mut all: Vec<Symbol> = Vec::new();
    let mut i: usize = 0;
    while i < symbol_texts.len()
        invariant
            i <= symbol_texts.len(),
            ts == texts(symbol_texts@),
            text_symbols(ts.take(i as int)) == Some(symbol_nodes(all@)),
            forall|j: int| 0 <= j < all@.len() ==> (#[trigger] all@[j]).wf(),
        decreases symbol_texts.len() - i,
    {
        let ghost t = ts.take(i + 1);
        assert(t.drop_last() =~= ts.take(i as int));
        assert(t.last() == symbol_texts@[i as int]@);
        let lib = match KicadSymbolLib::parse(symbol_texts[i].as_str()) {
            Ok(lib) => lib,
            Err(e) => {
                proof {
                    lemma_text_symbols_prefix(ts, i as int + 1);
                }
                return Err(ImportError::Symbol(e));
            },
        };
        let mut found = match lib.symbols() {
            Ok(v) => v,
            Err(e) => {
                return Err(ImportError::Symbol(e));
            },
        };
        let ghost before = all@;
        let ghost added = found@;
        all.append(&mut found);
        assert(symbol_nodes(all@) =~= symbol_nodes(before) + symbol_nodes(added));
        assert forall|j: int| 0 <= j < all@.len() implies (#[trigger] all@[j]).wf() by {
            if j >= before.len() {
                assert(all@[j] == added[j - before.len()]);
            }
        }
        i = i + 1;
    }
    assert(ts.take(i as int) =~= ts);
    Ok(all)
}

proof fn lemma_text_symbols_prefix(ts: Seq<Seq<char>>, k: int)
    requires
        0 <= k <= ts.len(),
        text_symbols(ts.take(k)) is None,
    ensures
        text_symbols(ts) is None,
    decreases ts.len() - k,
{
    if k < ts.len() {
        assert(ts.take(k + 1).drop_last() =~= ts.take(k));
        lemma_text_symbols_prefix(ts, k + 1);
    } else {
        assert(ts.take(k) =~= ts);
    }
}

proof fn lemma_merge_prefix(lib: Node, syms: Seq<Node>, policy: AddPolicy, k: int)
    requires
        0 <= k <= syms.len(),
        merge_all(lib, syms.take(k), policy) is None,
    ensures
        merge_all(lib, syms, policy) is None,
    decreases syms.len() - k,
{
    if k < syms.len() {
        assert(syms.take(k + 1).drop_last() =~= syms.take(k));
        lemma_merge_prefix(lib, syms, policy, k + 1);
    } else {
        assert(syms.take(k) =~= syms);
    }
}

/// Runs the in-memory part of an import: parses every symbol library text, chooses
/// each symbol's footprint among the footprint files, and merges the symbols into
/// the destination library (the existing text, or an empty library).
pub fn prepare_import(
    symbol_texts: &Vec<String>,
    footprint_paths: &Vec<String>,
    step_paths: &Vec<String>,
    existing_library: Option<&str>,
    config: &ImportConfig,
    policy: AddPolicy,
) -> (r: Result<PreparedImport, ImportError>)
    ensures
        symbol_texts.len() == 0 ==> r is Err && r->Err_0 is MissingSymbols,
        symbol_texts.len() > 0 && footprint_paths.len() == 0 ==> r is Err && r->Err_0 is MissingFootprints,
        symbol_texts.len() > 0 && footprint_paths.len() > 0 ==> match text_symbols(texts(symbol_texts@)) {
            None => r is Err && r->Err_0 is Symbol,
            Some(syms) => match (stems(texts(footprint_paths@)), footprint_lib_of(config@.1)) {
                (Some(names), Some(lib)) => match associate_all(syms, names, lib) {
                    None => r is Err && r->Err_0 is Association && exists|k: int|
                        first_unresolved(syms, names, k) && r->Err_0->Association_0@ == unresolved_message(syms[k]),
                    Some(chosen) => match base_library(
                        match existing_library {
                            Some(t) => Some(t@),
                            None => None,
                        },
                    ) {
                        None => r is Err && r->Err_0 is Symbol,
                        Some(base) => match merge_all(base, chosen, policy) {
                            Some(merged) => r is Ok && r->Ok_0@.0 == pretty(merged, seq!['\t']) && r->Ok_0@.1 == (
                                chosen.len() as usize,
                                footprint_paths.len(),
                                step_paths.len(),
                            ),
                            None => r is Err && r->Err_0 is Symbol && exists|k: int|
                                0 <= k < chosen.len() && r->Err_0->Symbol_0@.0 == "symbol already exists: "@
                                    + symbol_name(chosen[k])->Some_0,
                        },
                    },
                },
                _ => r is Err && r->Err_0 is InvalidSource,
            },
        },
{
    if symbol_texts.len() == 0 {
        return Err(ImportError::MissingSymbols);
    }
    if footprint_paths.len() == 0 {
        return Err(ImportError::MissingFootprints);
    }
    let ghost existing = match existing_library {
        Some(t) => Some(t@),
        None => None,
    };
    let symbols = parse_symbol_texts(symbol_texts)?;
    let footprints = collect_footprints(footprint_paths)?;
    let lib_name = footprint_lib_name(config.footprint_lib())?;
    let symbols = associate_footprints(symbols, &footprints, lib_name.as_str())?;
    let ghost syms = symbol_nodes(symbols@);
    let symbols_added = symbols.len();
    let mut target = load_or_create_symbol_lib(existing_library)?;
    let ghost base = target@;
    let ghost all = symbols@;
    assert forall|j: int| 0 <= j < syms.len() implies symbol_name(#[trigger] syms[j]) is Some by {
        all[j].lemma_wf();
    }
    let mut rest = symbols;
    let mut i: usize = 0;
    while rest.len() > 0
        invariant
            i + rest@.len() == syms.len(),
            syms.len() == symbols_added,
            syms == symbol_nodes(all),
            rest@ == all.subrange(i as int, all.len() as int),
            forall|j: int| 0 <= j < all.len() ==> (#[trigger] all[j]).wf(),
            target.wf(),
            merge_all(base, syms.take(i as int), policy) == Some(target@),
            symbol_texts.len() > 0,
            footprint_paths.len() > 0,
            existing == match existing_library {
                Some(t) => Some(t@),
                None => None,
            },
            import_symbols(texts(symbol_texts@), texts(footprint_paths@), config@.1) == Some(syms),
            base_library(existing) == Some(base),
            forall|j: int| 0 <= j < syms.len() ==> symbol_name(#[trigger] syms[j]) is Some,
        decreases rest.len(),
    {
        let symbol = rest.remove(0);
        assert(symbol == all[i as int]);
        proof {
            let t = syms.take(i + 1);
            assert(t.drop_last() =~= syms.take(i as int));
            assert(t.last() == syms[i as int]);
            assert(rest@ =~= all.subrange(i + 1, all.len() as int));
        }
        let ghost sv = symbol@;
        proof {
            symbol.lemma_wf();
        }
        match target.add_symbol(symbol, policy) {
            Ok(()) => {},
            Err(e) => {
                proof {
                    lemma_merge_prefix(base, syms, policy, i as int + 1);
                    assert(sv == syms[i as int]);
                }
                return Err(ImportError::Symbol(e));
            },
        }
        i = i + 1;
    }
    assert(syms.take(i as int) =~= syms);
    let footprints_added = footprint_paths.len();
    let step_files_added = step_paths.len();
    Ok(PreparedImport {
        library_text: target.to_string_pretty(),
        report: ImportReport { symbols_added, footprints_added, step_files_added },
    })
}

} // verus!
