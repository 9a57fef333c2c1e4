//! The project's library tables (`sym-lib-table`, `fp-lib-table`): each registers
//! libraries by name, and an import makes sure its libraries are listed.
use vstd::prelude::*;
use crate::importer::{strip_pretty_suffix, without_pretty, ImportConfig};
use crate::kicad_sym::{atom_of, children, lemma_list_view, nodes_of, parse_one, Atom, Sexp};
use crate::node::{parse_single, pretty, Node};
use crate::paths::{
    file_name, file_stem, is_absolute, path_file_name, path_is_absolute, path_stem, path_strip_prefix,
    strip_prefix,
};
use crate::text::{chars_of, push_all, push_str, str_eq, string_of};

verus! {

broadcast use vstd::std_specs::vec::group_vec_axioms;

/// Which of the two tables.
#[derive(Debug, Clone, Copy, PartialEq, Eq)]
pub enum TableKind {
    Symbol,
    Footprint,
}

/// The keyword that a table of `kind` starts with.
pub open spec fn root_word(kind: TableKind) -> Seq<char> {
    match kind {
        TableKind::Symbol => "sym_lib_table"@,
        TableKind::Footprint => "fp_lib_table"@,
    }
}

impl TableKind {
    pub fn root_name(self) -> (r: &'static str)
        ensures
            r@ == root_word(self),
    {
        match self {
            TableKind::Symbol => "sym_lib_table",
            TableKind::Footprint => "fp_lib_table",
        }
    }
}

#[derive(Debug)]
pub enum TableError {
    Parse(String),
    Invalid(String),
}

/// Whether `n` is a list whose first element is the atom `root`.
pub open spec fn matches_root(n: Node, root: Seq<char>) -> bool {
    n is Branch && children(n).len() >= 1 && atom_of(children(n)[0]) == Some(root)
}

/// The table that a text holds, when it is one expression rooted at the right keyword.
pub open spec fn table_of(input: Seq<char>, kind: TableKind) -> Option<Node> {
    match parse_single(input) {
        Some(n) => if matches_root(n, root_word(kind)) {
            Some(n)
        } else {
            None
        },
        None => None,
    }
}

/// The entry `(version 7)`.
pub open spec fn version_entry() -> Node {
    Node::Branch(seq![Node::Leaf("version"@, false), Node::Leaf("7"@, false)])
}

/// A table with nothing registered.
pub open spec fn default_table(kind: TableKind) -> Node {
    Node::Branch(seq![Node::Leaf(root_word(kind), false), version_entry()])
}

/// Whether `n` is a list of two or more elements whose first is the atom `key`.
pub open spec fn is_keyed(n: Node, key: Seq<char>) -> bool {
    n is Branch && children(n).len() >= 2 && atom_of(children(n)[0]) == Some(key)
}

/// The index of the first entry keyed `key` among `xs[k..]`.
pub open spec fn keyed_index(xs: Seq<Node>, key: Seq<char>, k: int) -> Option<int>
    decreases xs.len() - k,
{
    if k < 0 || k >= xs.len() {
        None
    } else if is_keyed(xs[k], key) {
        Some(k)
    } else {
        keyed_index(xs, key, k + 1)
    }
}

/// The table with a version entry: unchanged when one follows the keyword, else
/// with `(version 7)` inserted right after it.
pub open spec fn with_version(n: Node) -> Node {
    if keyed_index(children(n), "version"@, 1) is Some {
        n
    } else {
        Node::Branch(children(n).insert(1, version_entry()))
    }
}

/// A found index points at a keyed entry at or after the start.
pub proof fn lemma_keyed_index(xs: Seq<Node>, key: Seq<char>, k: int)
    requires
        keyed_index(xs, key, k) is Some,
    ensures
        k <= keyed_index(xs, key, k)->Some_0 < xs.len(),
        is_keyed(xs[keyed_index(xs, key, k)->Some_0], key),
    decreases xs.len() - k,
{
    if 0 <= k < xs.len() && !is_keyed(xs[k], key) {
        lemma_keyed_index(xs, key, k + 1);
    }
}

/// The name a `(lib ...)` entry registers: the value of its first `name` entry.
pub open spec fn lib_name(n: Node) -> Option<Seq<char>> {
    let xs = children(n);
    if n is Branch && xs.len() >= 1 && atom_of(xs[0]) == Some("lib"@) {
        match keyed_index(xs, "name"@, 1) {
            Some(j) => atom_of(children(xs[j])[1]),
            None => None,
        }
    } else {
        None
    }
}

/// The index of the first entry among `xs[k..]` that registers `name`.
pub open spec fn first_lib(xs: Seq<Node>, name: Seq<char>, k: int) -> Option<int>
    decreases xs.len() - k,
{
    if k < 0 || k >= xs.len() {
        None
    } else if lib_name(xs[k]) == Some(name) {
        Some(k)
    } else {
        first_lib(xs, name, k + 1)
    }
}

/// A found index points at an entry that registers the name.
pub proof fn lemma_first_lib(xs: Seq<Node>, name: Seq<char>, k: int)
    requires
        first_lib(xs, name, k) is Some,
    ensures
        k <= first_lib(xs, name, k)->Some_0 < xs.len(),
        lib_name(xs[first_lib(xs, name, k)->Some_0]) == Some(name),
    decreases xs.len() - k,
{
    if 0 <= k < xs.len() && lib_name(xs[k]) != Some(name) {
        lemma_first_lib(xs, name, k + 1);
    }
}

/// `xs` with the first entry keyed `key` set to the quoted `value`, or such an entry appended.
pub open spec fn set_child(xs: Seq<Node>, key: Seq<char>, value: Seq<char>) -> Seq<Node> {
    match keyed_index(xs, key, 1) {
        Some(j) => xs.update(j, Node::Branch(children(xs[j]).update(1, Node::Leaf(value, true)))),
        None => xs.push(Node::Branch(seq![Node::Leaf(key, false), Node::Leaf(value, true)])),
    }
}

/// A `(lib ...)` entry brought up to date for library `name` at `uri`.
pub open spec fn updated_lib(n: Node, name: Seq<char>, uri: Seq<char>) -> Node {
    Node::Branch(
        set_child(
            set_child(
                set_child(set_child(set_child(children(n), "name"@, name), "type"@, "KiCad"@), "uri"@, uri),
                "options"@,
                ""@,
            ),
            "descr"@,
            ""@,
        ),
    )
}

pub open spec fn keyed_pair(key: Seq<char>, value: Seq<char>) -> Node {
    Node::Branch(seq![Node::Leaf(key, false), Node::Leaf(value, true)])
}

/// A fresh `(lib ...)` entry for library `name` at `uri`.
pub open spec fn lib_entry(name: Seq<char>, uri: Seq<char>) -> Node {
    Node::Branch(
        seq![
            Node::Leaf("lib"@, false),
            keyed_pair("name"@, name),
            keyed_pair("type"@, "KiCad"@),
            keyed_pair("uri"@, uri),
            keyed_pair("options"@, ""@),
            keyed_pair("descr"@, ""@),
        ],
    )
}

/// The table with library `name` registered at `uri`: its entry updated in place
/// when there is one, else a new entry appended.
pub open spec fn with_lib(n: Node, name: Seq<char>, uri: Seq<char>) -> Node {
    let xs = children(n);
    match first_lib(xs, name, 0) {
        Some(j) => Node::Branch(xs.update(j, updated_lib(xs[j], name, uri))),
        None => Node::Branch(xs.push(lib_entry(name, uri))),
    }
}

/// The name a library at `path` is registered under: a symbol library's file stem,
/// a footprint library's directory name without `.pretty` (`None` where that leaves
/// nothing of a non-empty name).
pub open spec fn table_lib_name(kind: TableKind, path: Seq<char>) -> Option<Seq<char>> {
    match kind {
        TableKind::Symbol => path_stem(path),
        TableKind::Footprint => match path_file_name(path) {
            Some(f) => if without_pretty(f).len() == 0 && f.len() > 0 {
                None
            } else {
                Some(without_pretty(f))
            },
            None => None,
        },
    }
}

/// `v` without every leading `./`.
pub open spec fn trim_dot_slash(v: Seq<char>) -> Seq<char>
    decreases v.len(),
{
    if v.len() >= 2 && v[0] == '.' && v[1] == '/' {
        trim_dot_slash(v.subrange(2, v.len() as int))
    } else {
        v
    }
}

/// The placeholder for the project directory in a table.
pub open spec fn project_prefix() -> Seq<char> {
    "${KIPRJMOD}/"@
}

/// How a table refers to `path`: relative to the project through the placeholder
/// when the path is relative or lies under `root`, else verbatim.
pub open spec fn uri_of(path: Seq<char>, root: Seq<char>) -> Seq<char> {
    let rel = if path_is_absolute(path) {
        path_strip_prefix(path, root)
    } else {
        Some(path)
    };
    match rel {
        Some(r) => project_prefix() + trim_dot_slash(r),
        None => path,
    }
}

/// The indentation unit of table files.
pub open spec fn table_indent() -> Seq<char> {
    seq![' ', ' ']
}

/// The tree a table update produces from the existing table (or a fresh one).
pub open spec fn updated_table(existing: Option<Seq<char>>, kind: TableKind, root: Seq<char>, lib_path: Seq<char>) -> Option<
    Node,
> {
    match table_lib_name(kind, lib_path) {
        Some(name) => {
            let base = match existing {
                Some(t) => table_of(t, kind),
                None => Some(default_table(kind)),
            };
            match base {
                Some(b) => Some(with_lib(with_version(b), name, uri_of(lib_path, root))),
                None => None,
            }
        },
        None => None,
    }
}

/// The text a table update writes.
pub open spec fn table_text(existing: Option<Seq<char>>, kind: TableKind, root: Seq<char>, lib_path: Seq<char>) -> Option<
    Seq<char>,
> {
    match updated_table(existing, kind, root, lib_path) {
        Some(t) => Some(pretty(t, table_indent())),
        None => None,
    }
}

pub fn lib_name_from_path(kind: TableKind, path: &str) -> (r: Result<String, TableError>)
    ensures
        match table_lib_name(kind, path@) {
            Some(n) => r is Ok && r->Ok_0@ == n,
            None => r is Err && r->Err_0 is Invalid,
        },
{
    match kind {
        TableKind::Symbol => match file_stem(path) {
            Some(s) => Ok(s),
            None => Err(TableError::Invalid(String::from_str("invalid symbol lib path"))),
        },
        TableKind::Footprint => {
            let name = match file_name(path) {
                Some(n) => n,
                None => {
                    return Err(TableError::Invalid(String::from_str("invalid footprint lib path")));
                },
            };
            let stem = strip_pretty_suffix(name.as_str());
            if chars_of(stem.as_str()).len() == 0 && chars_of(name.as_str()).len() > 0 {
                return Err(TableError::Invalid(String::from_str("invalid footprint lib name")));
            }
            Ok(stem)
        },
    }
}

fn trim_dot_slash_chars(v: &Vec<char>) -> (r: Vec<char>)
    ensures
        r@ == trim_dot_slash(v@),
{
    let mut a: usize = 0;
    assert(v@.subrange(0, v.len() as int) =~= v@);
    while a < v.len() && v.len() - a >= 2 && v[a] == '.' && v[a + 1] == '/'
        invariant
            a <= v.len(),
            trim_dot_slash(v@) == trim_dot_slash(v@.subrange(a as int, v.len() as int)),
        decreases v.len() - a,
    {
        assert(v@.subrange(a as int, v.len() as int).subrange(2, v.len() - a) =~= v@.subrange(a + 2, v.len() as int));
        a = a + 2;
    }
    let mut out: Vec<char> = Vec::new();
    let mut i: usize = a;
    while i < v.len()
        invariant
            a <= i <= v.len(),
            out@ == v@.subrange(a as int, i as int),
        decreases v.len() - i,
    {
        out.push(v[i]);
        i = i + 1;
        assert(out@ =~= v@.subrange(a as int, i as int));
    }
    out
}

/// The table's reference to a path relative to the project directory.
pub fn project_uri(rel: &str) -> (r: String)
    ensures
        r@ == project_prefix() + trim_dot_slash(rel@),
{
    let mut out: Vec<char> = Vec::new();
    push_str(&mut out, "${KIPRJMOD}/");
    let trimmed = trim_dot_slash_chars(&chars_of(rel));
    push_all(&mut out, &trimmed);
    string_of(&out)
}

pub fn make_uri(path: &str, project_root: &str) -> (r: String)
    ensures
        r@ == uri_of(path@, project_root@),
{
    let relative = if is_absolute(path) {
        strip_prefix(path, project_root)
    } else {
        Some(String::from_str(path))
    };
    match relative {
        Some(rel) => project_uri(rel.as_str()),
        None => String::from_str(path),
    }
}

fn keyed_pair_exec(key: &str, value: &str) -> (r: Sexp)
    ensures
        r@ == keyed_pair(key@, value@),
{
    let v = vec![Sexp::Atom(Atom::new(key)), Sexp::Atom(Atom::new_quoted(value))];
    proof {
        lemma_list_view(v);
        assert(nodes_of(v@) =~= seq![Node::Leaf(key@, false), Node::Leaf(value@, true)]);
    }
    Sexp::List(v)
}

fn default_table_exec(kind: TableKind) -> (r: Sexp)
    ensures
        r@ == default_table(kind),
{
    let v = vec![Sexp::Atom(Atom::new(kind.root_name())), keyed_atoms("version", "7")];
    proof {
        lemma_list_view(v);
        assert(nodes_of(v@) =~= seq![Node::Leaf(root_word(kind), false), version_entry()]);
    }
    Sexp::List(v)
}

fn keyed_atoms(key: &str, value: &str) -> (r: Sexp)
    ensures
        r@ == Node::Branch(seq![Node::Leaf(key@, false), Node::Leaf(value@, false)]),
{
    let v = vec![Sexp::Atom(Atom::new(key)), Sexp::Atom(Atom::new(value))];
    proof {
        lemma_list_view(v);
        assert(nodes_of(v@) =~= seq![Node::Leaf(key@, false), Node::Leaf(value@, false)]);
    }
    Sexp::List(v)
}

fn build_lib_entry(name: &str, uri: &str) -> (r: Sexp)
    ensures
        r@ == lib_entry(name@, uri@),
{
    let v = vec![
        Sexp::Atom(Atom::new("lib")),
        keyed_pair_exec("name", name),
        keyed_pair_exec("type", "KiCad"),
        keyed_pair_exec("uri", uri),
        keyed_pair_exec("options", ""),
        keyed_pair_exec("descr", ""),
    ];
    proof {
        lemma_list_view(v);
        assert(nodes_of(v@) =~= children(lib_entry(name@, uri@)));
    }
    Sexp::List(v)
}

fn is_keyed_exec(n: &Sexp, key: &str) -> (r: bool)
    ensures
        r == is_keyed(n@, key@),
{
    match n {
        Sexp::List(list) => {
            proof {
                lemma_list_view(*list);
            }
            if list.len() < 2 {
                return false;
            }
            match &list[0] {
                Sexp::Atom(a) => str_eq(a.value(), key),
                Sexp::List(_) => false,
            }
        },
        Sexp::Atom(_) => false,
    }
}

fn keyed_index_exec(items: &Vec<Sexp>, key: &str) -> (r: Option<usize>)
    ensures
        match keyed_index(nodes_of(items@), key@, 1) {
            Some(j) => r == Some(j as usize) && 1 <= j < items.len(),
            None => r is None,
        },
{
    let ghost xs = nodes_of(items@);
    let mut i: usize = 1;
    if items.len() == 0 {
        return None;
    }
    while i < items.len()
        invariant
            1 <= i <= items.len(),
            xs == nodes_of(items@),
            keyed_index(xs, key@, 1) == keyed_index(xs, key@, i as int),
        decreases items.len() - i,
    {
        if is_keyed_exec(&items[i], key) {
            assert(xs[i as int] == items@[i as int]@);
            return Some(i);
        }
        i = i + 1;
    }
    None
}

fn set_child_value(items: &mut Vec<Sexp>, key: &str, value: &str)
    ensures
        nodes_of(final(items)@) == set_child(nodes_of(old(items)@), key@, value@),
{
    let ghost xs = nodes_of(items@);
    match keyed_index_exec(items, key) {
        Some(j) => {
            proof {
                lemma_keyed_index(xs, key@, 1);
            }
            assert(xs[j as int] == items@[j as int]@);
            let mut entry = Sexp::List(Vec::new());
            std::mem::swap(&mut entry, &mut items[j]);
            let ghost old_entry = entry@;
            proof {
                crate::kicad_sym::lemma_list_view_of(&entry);
            }
            let mut inner = match entry {
                Sexp::List(inner) => inner,
                Sexp::Atom(_) => Vec::new(),
            };
            proof {
                lemma_list_view(inner);
            }
            inner[1] = Sexp::Atom(Atom::new_quoted(value));
            proof {
                lemma_list_view(inner);
                assert(nodes_of(inner@) =~= children(old_entry).update(1, Node::Leaf(value@, true)));
            }
            items[j] = Sexp::List(inner);
            assert(nodes_of(items@) =~= set_child(xs, key@, value@));
        },
        None => {
            items.push(keyed_pair_exec(key, value));
            assert(nodes_of(items@) =~= set_child(xs, key@, value@));
        },
    }
}

fn update_lib(items: &mut Vec<Sexp>, name: &str, uri: &str)
    ensures
        Node::Branch(nodes_of(final(items)@)) == updated_lib(Node::Branch(nodes_of(old(items)@)), name@, uri@),
{
    set_child_value(items, "name", name);
    set_child_value(items, "type", "KiCad");
    set_child_value(items, "uri", uri);
    set_child_value(items, "options", "");
    set_child_value(items, "descr", "");
}

fn lib_name_of(n: &Sexp) -> (r: Option<&str>)
    ensures
        match lib_name(n@) {
            Some(v) => r is Some && r->Some_0@ == v,
            None => r is None,
        },
{
    match n {
        Sexp::List(items) => {
            proof {
                lemma_list_view(*items);
            }
            if items.len() < 1 {
                return None;
            }
            let is_lib = match &items[0] {
                Sexp::Atom(a) => str_eq(a.value(), "lib"),
                Sexp::List(_) => false,
            };
            if !is_lib {
                return None;
            }
            match keyed_index_exec(items, "name") {
                Some(j) => {
                    proof {
                        lemma_keyed_index(nodes_of(items@), "name"@, 1);
                        assert(nodes_of(items@)[j as int] == items@[j as int]@);
                        crate::kicad_sym::lemma_list_view_of(&items@[j as int]);
                    }
                    match &items[j] {
                        Sexp::List(entry) => {
                            proof {
                                lemma_list_view(*entry);
                            }
                            atom_value(&entry[1])
                        },
                        Sexp::Atom(_) => None,
                    }
                },
                None => None,
            }
        },
        Sexp::Atom(_) => None,
    }
}

fn atom_value(n: &Sexp) -> (r: Option<&str>)
    ensures
        match atom_of(n@) {
            Some(v) => r is Some && r->Some_0@ == v,
            None => r is None,
        },
{
    match n {
        Sexp::Atom(a) => Some(a.value()),
        Sexp::List(_) => None,
    }
}

fn ensure_version(items: &mut Vec<Sexp>)
    requires
        old(items)@.len() >= 1,
    ensures
        Node::Branch(nodes_of(final(items)@)) == with_version(Node::Branch(nodes_of(old(items)@))),
{
    let ghost xs = nodes_of(items@);
    if keyed_index_exec(items, "version").is_some() {
        return;
    }
    items.insert(1, keyed_atoms("version", "7"));
    assert(nodes_of(items@) =~= xs.insert(1, version_entry()));
}

fn ensure_lib_entry(items: &mut Vec<Sexp>, name: &str, uri: &str)
    ensures
        Node::Branch(nodes_of(final(items)@)) == with_lib(Node::Branch(nodes_of(old(items)@)), name@, uri@),
{
    let ghost xs = nodes_of(items@);
    let mut found: Option<usize> = None;
    let mut i: usize = 0;
    while i < items.len()
        invariant_except_break
            found is None,
            first_lib(xs, name@, 0) == first_lib(xs, name@, i as int),
        invariant
            i <= items.len(),
            xs == nodes_of(items@),
        ensures
            match found {
                Some(j) => first_lib(xs, name@, 0) == Some(j as int) && j < items.len(),
                None => first_lib(xs, name@, 0) is None,
            },
        decreases items.len() - i,
    {
        let hit = match lib_name_of(&items[i]) {
            Some(n) => str_eq(n, name),
            None => false,
        };
        if hit {
            assert(xs[i as int] == items@[i as int]@);
            found = Some(i);
            break;
        }
        i = i + 1;
    }
    match found {
        Some(j) => {
            proof {
                lemma_first_lib(xs, name@, 0);
            }
            assert(xs[j as int] == items@[j as int]@);
            let mut entry = Sexp::List(Vec::new());
            std::mem::swap(&mut entry, &mut items[j]);
            let ghost old_entry = entry@;
            proof {
                crate::kicad_sym::lemma_list_view_of(&entry);
            }
            let mut inner = match entry {
                Sexp::List(inner) => inner,
                Sexp::Atom(_) => Vec::new(),
            };
            proof {
                lemma_list_view(inner);
            }
            update_lib(&mut inner, name, uri);
            proof {
                lemma_list_view(inner);
            }
            items[j] = Sexp::List(inner);
            assert(nodes_of(items@) =~= children(with_lib(Node::Branch(xs), name@, uri@)));
        },
        None => {
            items.push(build_lib_entry(name, uri));
            assert(nodes_of(items@) =~= children(with_lib(Node::Branch(xs), name@, uri@)));
        },
    }
}

/// Brings one table up to date: the existing text (or a fresh table) with a version
/// entry and an entry for the library at `lib_path`, written with two-space indents.
pub fn update_table(existing: Option<&str>, kind: TableKind, project_root: &str, lib_path: &str) -> (r: Result<
    String,
    TableError,
>)
    ensures
        match table_text(
            match existing {
                Some(t) => Some(t@),
                None => None,
            },
            kind,
            project_root@,
            lib_path@,
        ) {
            Some(t) => r is Ok && r->Ok_0@ == t,
            None => r is Err,
        },
{
    let name = lib_name_from_path(kind, lib_path)?;
    let uri = make_uri(lib_path, project_root);
    let table = match existing {
        Some(text) => parse_table(text, kind)?,
        None => default_table_exec(kind),
    };
    let ghost t0 = table@;
    proof {
        crate::kicad_sym::lemma_list_view_of(&table);
    }
    assert(t0 is Branch && children(t0).len() >= 1);
    let mut items = match table {
        Sexp::List(items) => items,
        Sexp::Atom(_) => {
            return Err(TableError::Invalid(String::from_str("expected list")));
        },
    };
    assert(nodes_of(items@) == children(t0));
    ensure_version(&mut items);
    ensure_lib_entry(&mut items, name.as_str(), uri.as_str());
    proof {
        lemma_list_view(items);
    }
    let result = Sexp::List(items);
    proof {
        reveal_strlit("  ");
        assert("  "@ =~= table_indent());
    }
    Ok(result.to_string_pretty_with_indent("  "))
}

pub fn parse_table(input: &str, kind: TableKind) -> (r: Result<Sexp, TableError>)
    ensures
        match parse_single(input@) {
            None => r is Err && r->Err_0 is Parse,
            Some(n) => if matches_root(n, root_word(kind)) {
                r is Ok && r->Ok_0@ == n
            } else {
                r is Err && r->Err_0 is Invalid && r->Err_0->Invalid_0@ == "expected root list "@ + root_word(kind)
            },
        },
{
    let sexp = match parse_one(input) {
        Ok(s) => s,
        Err(e) => {
            return Err(TableError::Parse(e.to_string()));
        },
    };
    proof {
        crate::kicad_sym::lemma_list_view_of(&sexp);
    }
    let ok = match &sexp {
        Sexp::List(items) => items.len() >= 1 && match &items[0] {
            Sexp::Atom(a) => str_eq(a.value(), kind.root_name()),
            Sexp::List(_) => false,
        },
        Sexp::Atom(_) => false,
    };
    if !ok {
        let mut message = String::from_str("expected root list ");
        message.append(kind.root_name());
        return Err(TableError::Invalid(message));
    }
    Ok(sexp)
}

/// Brings both project tables up to date for the libraries of `config`, from their
/// existing texts (`None` where a table file is absent): returns the symbol table's
/// text and the footprint table's text.
pub fn ensure_project_tables(
    project_root: &str,
    config: &ImportConfig,
    symbol_table: Option<&str>,
    footprint_table: Option<&str>,
) -> (r: Result<(String, String), TableError>)
    ensures
        match (
            table_text(
                match symbol_table {
                    Some(t) => Some(t@),
                    None => None,
                },
                TableKind::Symbol,
                project_root@,
                config@.0,
            ),
            table_text(
                match footprint_table {
                    Some(t) => Some(t@),
                    None => None,
                },
                TableKind::Footprint,
                project_root@,
                config@.1,
            ),
        ) {
            (Some(s), Some(f)) => r is Ok && r->Ok_0.0@ == s && r->Ok_0.1@ == f,
            _ => r is Err,
        },
{
    let sym = update_table(symbol_table, TableKind::Symbol, project_root, config.symbol_lib())?;
    let fp = update_table(footprint_table, TableKind::Footprint, project_root, config.footprint_lib())?;
    Ok((sym, fp))
}

} // verus!
