//! The `import` command: its arguments, and how the destination paths are chosen
//! from the arguments, the stored configuration and the project's name.
use vstd::prelude::*;
use crate::importer::ImportConfig;
use crate::paths::{join, path_join};
use crate::text::{chars_of, str_eq};

verus! {

/// The command line: one subcommand.
#[derive(Debug)]
pub struct Cli {
    pub command: Command,
}

#[derive(Debug)]
pub enum Command {
    Import(ImportArgs),
}

/// The arguments of `import`: the package to import, and paths that override the configuration.
#[derive(Debug, Clone)]
pub struct ImportArgs {
    pub source: String,
    pub symbol_lib: Option<String>,
    pub footprint_lib: Option<String>,
    pub step_dir: Option<String>,
}

/// What the `import` arguments give: the source, then the three optional paths.
pub type ArgValues = (Option<Seq<char>>, Option<Seq<char>>, Option<Seq<char>>, Option<Seq<char>>);

/// Reads the `import` arguments from `a[k..]` into `st`: each option takes the next
/// word and may come once, one word is the source, and any other word starting
/// with `-` is refused.
pub open spec fn scan_args(a: Seq<Seq<char>>, k: int, st: ArgValues) -> Option<ArgValues>
    decreases a.len() - k,
{
    if k < 0 || k >= a.len() {
        Some(st)
    } else if a[k] == "--symbol-lib"@ {
        if k + 1 < a.len() && st.1 is None {
            scan_args(a, k + 2, (st.0, Some(a[k + 1]), st.2, st.3))
        } else {
            None
        }
    } else if a[k] == "--footprint-lib"@ {
        if k + 1 < a.len() && st.2 is None {
            scan_args(a, k + 2, (st.0, st.1, Some(a[k + 1]), st.3))
        } else {
            None
        }
    } else if a[k] == "--step-dir"@ {
        if k + 1 < a.len() && st.3 is None {
            scan_args(a, k + 2, (st.0, st.1, st.2, Some(a[k + 1])))
        } else {
            None
        }
    } else if a[k].len() > 1 && a[k][0] == '-' {
        None
    } else if st.0 is None {
        scan_args(a, k + 1, (Some(a[k]), st.1, st.2, st.3))
    } else {
        None
    }
}

/// The values of a whole command line (program name, `import`, its arguments), when it is valid.
pub open spec fn parse_command_line(a: Seq<Seq<char>>) -> Option<ArgValues> {
    if a.len() >= 2 && a[1] == "import"@ {
        match scan_args(a, 2, (None, None, None, None)) {
            Some(st) => if st.0 is Some {
                Some(st)
            } else {
                None
            },
            None => None,
        }
    } else {
        None
    }
}

pub open spec fn words(args: Seq<&str>) -> Seq<Seq<char>> {
    Seq::new(args.len(), |i: int| args[i]@)
}

pub open spec fn opt_view(o: Option<String>) -> Option<Seq<char>> {
    match o {
        Some(s) => Some(s@),
        None => None,
    }
}

pub open spec fn args_values(a: ImportArgs) -> ArgValues {
    (Some(a.source@), opt_view(a.symbol_lib), opt_view(a.footprint_lib), opt_view(a.step_dir))
}

fn owned(s: &str) -> (r: Option<String>)
    ensures
        r is Some && r->Some_0@ == s@,
{
    Some(String::from_str(s))
}

impl Cli {
    /// Reads a command line: the program name, `import`, then its arguments.
    pub fn try_parse_from(args: &[&str]) -> (r: Result<Cli, String>)
        ensures
            match parse_command_line(words(args@)) {
                Some(st) => r is Ok && match r->Ok_0.command {
                    Command::Import(a) => args_values(a) == st,
                },
                None => r is Err,
            },
    {
        let ghost a = words(args@);
        if args.len() < 2 || !str_eq(args[1], "import") {
            return Err(String::from_str("usage: kci import <SOURCE> [--symbol-lib <PATH>] [--footprint-lib <PATH>] [--step-dir <PATH>]"));
        }
        let mut source: Option<String> = None;
        let mut symbol_lib: Option<String> = None;
        let mut footprint_lib: Option<String> = None;
        let mut step_dir: Option<String> = None;
        let mut k: usize = 2;
        while k < args.len()
            invariant
                2 <= k <= args.len(),
                a == words(args@),
                a.len() >= 2 && a[1] == "import"@,
                scan_args(a, 2, (None, None, None, None)) == scan_args(
                    a,
                    k as int,
                    (opt_view(source), opt_view(symbol_lib), opt_view(footprint_lib), opt_view(step_dir)),
                ),
            decreases args.len() - k,
        {
            let word = args[k];
            assert(a[k as int] == word@);
            if str_eq(word, "--symbol-lib") || str_eq(word, "--footprint-lib") || str_eq(word, "--step-dir") {
                if k + 1 >= args.len() {
                    return Err(String::from_str("option needs a value"));
                }
                assert(a[k + 1] == args@[k + 1]@);
                let value = owned(args[k + 1]);
                if str_eq(word, "--symbol-lib") {
                    if symbol_lib.is_some() {
                        return Err(String::from_str("--symbol-lib given twice"));
                    }
                    symbol_lib = value;
                } else if str_eq(word, "--footprint-lib") {
                    if footprint_lib.is_some() {
                        return Err(String::from_str("--footprint-lib given twice"));
                    }
                    footprint_lib = value;
                } else {
                    if step_dir.is_some() {
                        return Err(String::from_str("--step-dir given twice"));
                    }
                    step_dir = value;
                }
                k = k + 2;
            } else {
                let chars = chars_of(word);
                if chars.len() > 1 && chars[0] == '-' {
                    return Err(String::from_str("unexpected option"));
                }
                if source.is_some() {
                    return Err(String::from_str("unexpected extra argument"));
                }
                source = owned(word);
                k = k + 1;
            }
        }
        match source {
            Some(source) => Ok(Cli { command: Command::Import(ImportArgs { source, symbol_lib, footprint_lib, step_dir }) }),
            None => Err(String::from_str("missing SOURCE")),
        }
    }
}

/// The paths stored in a project's configuration file; each may be absent.
#[derive(Debug, Clone)]
pub struct ConfigFile {
    symbol_lib: Option<String>,
    footprint_lib: Option<String>,
    step_dir: Option<String>,
}

impl View for ConfigFile {
    type V = (Option<Seq<char>>, Option<Seq<char>>, Option<Seq<char>>);

    closed spec fn view(&self) -> (Option<Seq<char>>, Option<Seq<char>>, Option<Seq<char>>) {
        (opt_view(self.symbol_lib), opt_view(self.footprint_lib), opt_view(self.step_dir))
    }
}

fn clone_opt(o: &Option<String>) -> (r: Option<String>)
    ensures
        opt_view(r) == opt_view(*o),
{
    match o {
        Some(s) => Some(s.clone()),
        None => None,
    }
}

impl ConfigFile {
    pub fn new(symbol_lib: Option<String>, footprint_lib: Option<String>, step_dir: Option<String>) -> (r: ConfigFile)
        ensures
            r@ == (opt_view(symbol_lib), opt_view(footprint_lib), opt_view(step_dir)),
    {
        ConfigFile { symbol_lib, footprint_lib, step_dir }
    }

    pub fn symbol_lib(&self) -> (r: Option<String>)
        ensures
            opt_view(r) == self@.0,
    {
        clone_opt(&self.symbol_lib)
    }

    pub fn footprint_lib(&self) -> (r: Option<String>)
        ensures
            opt_view(r) == self@.1,
    {
        clone_opt(&self.footprint_lib)
    }

    pub fn step_dir(&self) -> (r: Option<String>)
        ensures
            opt_view(r) == self@.2,
    {
        clone_opt(&self.step_dir)
    }

    /// The configuration that records every path of `config`.
    pub fn from_import_config(config: &ImportConfig) -> (r: ConfigFile)
        ensures
            r@ == (Some(config@.0), Some(config@.1), Some(config@.2)),
    {
        ConfigFile {
            symbol_lib: owned(config.symbol_lib()),
            footprint_lib: owned(config.footprint_lib()),
            step_dir: owned(config.step_dir()),
        }
    }
}

/// What an import will do: its source, its destinations, and where the configuration lives.
#[derive(Debug, Clone)]
pub struct ImportPlan {
    source: String,
    config: ImportConfig,
    config_path: String,
    created_config: bool,
}

impl View for ImportPlan {
    type V = (Seq<char>, (Seq<char>, Seq<char>, Seq<char>), Seq<char>, bool);

    closed spec fn view(&self) -> (Seq<char>, (Seq<char>, Seq<char>, Seq<char>), Seq<char>, bool) {
        (self.source@, self.config@, self.config_path@, self.created_config)
    }
}

impl ImportPlan {
    pub fn source(&self) -> (r: &str)
        ensures
            r@ == self@.0,
    {
        self.source.as_str()
    }

    pub fn config(&self) -> (r: &ImportConfig)
        ensures
            r@ == self@.1,
    {
        &self.config
    }

    pub fn config_path(&self) -> (r: &str)
        ensures
            r@ == self@.2,
    {
        self.config_path.as_str()
    }

    pub fn created_config(&self) -> (r: bool)
        ensures
            r == self@.3,
    {
        self.created_config
    }
}

/// The destination paths used when neither the arguments nor the configuration give
/// one: named after the project when it has a name, else fixed names.
pub open spec fn default_paths(project: Option<Seq<char>>) -> (Seq<char>, Seq<char>, Seq<char>) {
    match project {
        Some(p) => (p + "_symbols.kicad_sym"@, p + "_footprints.pretty"@, p + "_step"@),
        None => ("project_symbols.kicad_sym"@, "project_footprints.pretty"@, "project_3d"@),
    }
}

/// The first of the argument, the configured value and the default that is present.
pub open spec fn resolve(arg: Option<Seq<char>>, configured: Option<Seq<char>>, default: Seq<char>) -> Seq<char> {
    match arg {
        Some(v) => v,
        None => match configured {
            Some(v) => v,
            None => default,
        },
    }
}

fn concat(a: &str, b: &str) -> (r: String)
    ensures
        r@ == a@ + b@,
{
    let mut s = String::from_str(a);
    s.append(b);
    s
}

pub fn default_config(project_name: Option<&str>) -> (r: ImportConfig)
    ensures
        r@ == default_paths(
            match project_name {
                Some(p) => Some(p@),
                None => None,
            },
        ),
{
    match project_name {
        Some(p) => ImportConfig::new(
            concat(p, "_symbols.kicad_sym"),
            concat(p, "_footprints.pretty"),
            concat(p, "_step"),
        ),
        None => ImportConfig::new(
            String::from_str("project_symbols.kicad_sym"),
            String::from_str("project_footprints.pretty"),
            String::from_str("project_3d"),
        ),
    }
}

pub fn resolve_path(cli_value: &Option<String>, config_value: &Option<String>, default: &str) -> (r: String)
    ensures
        r@ == resolve(opt_view(*cli_value), opt_view(*config_value), default@),
{
    if let Some(value) = cli_value {
        return value.clone();
    }
    if let Some(value) = config_value {
        return value.clone();
    }
    String::from_str(default)
}

/// Decides the import's destinations: each path comes from the arguments, else the
/// stored configuration (`config_file`, `None` when the project has none), else the
/// defaults for `project_name`. The configuration is to be written when there was none.
pub fn resolve_import(args: ImportArgs, cwd: &str, config_file: Option<ConfigFile>, project_name: Option<&str>) -> (r: ImportPlan)
    ensures
        ({
            let d = default_paths(
                match project_name {
                    Some(p) => Some(p@),
                    None => None,
                },
            );
            let c: (Option<Seq<char>>, Option<Seq<char>>, Option<Seq<char>>) = match config_file {
                Some(f) => f@,
                None => (None, None, None),
            };
            r@ == (
                args.source@,
                (
                    resolve(opt_view(args.symbol_lib), c.0, d.0),
                    resolve(opt_view(args.footprint_lib), c.1, d.1),
                    resolve(opt_view(args.step_dir), c.2, d.2),
                ),
                path_join(cwd@, ".kci_config"@),
                config_file is None,
            )
        }),
{
    let config_path = join(cwd, ".kci_config");
    let defaults = default_config(project_name);
    let empty = ConfigFile { symbol_lib: None, footprint_lib: None, step_dir: None };
    let stored = match &config_file {
        Some(f) => f,
        None => &empty,
    };
    let symbol_lib = resolve_path(&args.symbol_lib, &stored.symbol_lib, defaults.symbol_lib());
    let footprint_lib = resolve_path(&args.footprint_lib, &stored.footprint_lib, defaults.footprint_lib());
    let step_dir = resolve_path(&args.step_dir, &stored.step_dir, defaults.step_dir());
    let config = ImportConfig::new(symbol_lib, footprint_lib, step_dir);
    ImportPlan { source: args.source, config, config_path, created_config: config_file.is_none() }
}

/// Whether `a` comes no later than `b` in character order (what `str`'s `<=` gives).
pub open spec fn text_le(a: Seq<char>, b: Seq<char>) -> bool
    decreases a.len(),
{
    if a.len() == 0 {
        true
    } else if b.len() == 0 {
        false
    } else if a[0] != b[0] {
        a[0] < b[0]
    } else {
        text_le(a.drop_first(), b.drop_first())
    }
}

pub proof fn lemma_text_le_total(a: Seq<char>, b: Seq<char>)
    ensures
        text_le(a, b) || text_le(b, a),
    decreases a.len(),
{
    if a.len() > 0 && b.len() > 0 && a[0] == b[0] {
        lemma_text_le_total(a.drop_first(), b.drop_first());
    }
}

pub proof fn lemma_text_le_trans(a: Seq<char>, b: Seq<char>, c: Seq<char>)
    requires
        text_le(a, b),
        text_le(b, c),
    ensures
        text_le(a, c),
    decreases a.len(),
{
    if a.len() > 0 && b.len() > 0 && c.len() > 0 && a[0] == b[0] && b[0] == c[0] {
        lemma_text_le_trans(a.drop_first(), b.drop_first(), c.drop_first());
    }
}

fn text_le_exec(a: &Vec<char>, b: &Vec<char>) -> (r: bool)
    ensures
        r == text_le(a@, b@),
{
    let mut i: usize = 0;
    assert(a@.subrange(0, a.len() as int) =~= a@);
    assert(b@.subrange(0, b.len() as int) =~= b@);
    while i < a.len() && i < b.len() && a[i] == b[i]
        invariant
            i <= a.len(),
            i <= b.len(),
            text_le(a@, b@) == text_le(a@.subrange(i as int, a.len() as int), b@.subrange(i as int, b.len() as int)),
        decreases a.len() - i,
    {
        assert(a@.subrange(i as int, a.len() as int).drop_first() =~= a@.subrange(i + 1, a.len() as int));
        assert(b@.subrange(i as int, b.len() as int).drop_first() =~= b@.subrange(i + 1, b.len() as int));
        i = i + 1;
    }
    if i == a.len() {
        true
    } else if i == b.len() {
        false
    } else {
        a[i] < b[i]
    }
}

/// The project's name among the stems of its `.kicad_pro` files: the one named like
/// the directory when there is one, else the first in order; `None` without any.
pub open spec fn project_name_choice(names: Seq<Seq<char>>, dir_name: Option<Seq<char>>) -> Option<Seq<char>> {
    if names.len() == 0 {
        None
    } else if dir_name is Some && names.contains(dir_name->Some_0) {
        dir_name
    } else {
        Some(choose|m: Seq<char>| names.contains(m) && forall|i: int| 0 <= i < names.len() ==> text_le(m, #[trigger] names[i]))
    }
}

pub open spec fn names_of(v: Seq<String>) -> Seq<Seq<char>> {
    Seq::new(v.len(), |i: int| v[i]@)
}

pub fn choose_project_name(names: &Vec<String>, dir_name: Option<&str>) -> (r: Option<String>)
    ensures
        names@.len() == 0 ==> r is None,
        names@.len() > 0 ==> r is Some && names_of(names@).contains(r->Some_0@),
        dir_name is Some && names_of(names@).contains(dir_name->Some_0@) ==> r is Some && r->Some_0@ == dir_name->Some_0@,
        names@.len() > 0 && !(dir_name is Some && names_of(names@).contains(dir_name->Some_0@)) ==> forall|i: int|
            0 <= i < names@.len() ==> text_le(r->Some_0@, #[trigger] names_of(names@)[i]),
{
    let ghost ns = names_of(names@);
    if names.len() == 0 {
        return None;
    }
    if let Some(d) = dir_name {
        let mut i: usize = 0;
        while i < names.len()
            invariant
                i <= names.len(),
                ns == names_of(names@),
                dir_name == Some(d),
                forall|j: int| 0 <= j < i ==> ns[j] != d@,
            decreases names.len() - i,
        {
            if str_eq(names[i].as_str(), d) {
                assert(ns[i as int] == d@);
                assert(ns.contains(d@));
                return Some(String::from_str(d));
            }
            i = i + 1;
        }
        assert(!ns.contains(d@));
    }
    let mut best: usize = 0;
    let mut best_chars = chars_of(names[0].as_str());
    proof {
        lemma_text_le_total(ns[0], ns[0]);
    }
    let mut i: usize = 1;
    while i < names.len()
        invariant
            1 <= i <= names.len(),
            best < names.len(),
            ns == names_of(names@),
            best_chars@ == ns[best as int],
            forall|j: int| 0 <= j < i ==> text_le(ns[best as int], #[trigger] ns[j]),
        decreases names.len() - i,
    {
        let c = chars_of(names[i].as_str());
        assert(c@ == ns[i as int]);
        if !text_le_exec(&best_chars, &c) {
            proof {
                lemma_text_le_total(ns[best as int], ns[i as int]);
                assert forall|j: int| 0 <= j <= i implies text_le(ns[i as int], #[trigger] ns[j]) by {
                    if j < i {
                        lemma_text_le_trans(ns[i as int], ns[best as int], ns[j]);
                    } else {
                        lemma_text_le_total(ns[j], ns[j]);
                    }
                }
            }
            best = i;
            best_chars = c;
        } else {
            assert(text_le(ns[best as int], ns[i as int]));
        }
        i = i + 1;
    }
    assert(ns[best as int] == names@[best as int]@);
    Some(names[best].clone())
}

} // verus!
