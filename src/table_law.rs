//! Updating a library table is idempotent: a second update with the same inputs
//! writes the same text as the first.
use vstd::prelude::*;
use crate::kicad_sym::{atom_of, children};
use crate::kicad_table::{
    default_table, first_lib, is_keyed, keyed_index, keyed_pair, lemma_first_lib, lemma_keyed_index, lib_entry,
    lib_name, matches_root, root_word, set_child, table_indent, table_lib_name, table_of, table_text,
    updated_lib, updated_table, uri_of, version_entry, with_lib, with_version, TableKind,
};
use crate::node::{all_leaves, flat_tail, leaf_text, nested_tail, pretty, render, width, Node};
use crate::round_trip::{all_ws, lemma_norm_children, lemma_parse_pretty, norm};

verus! {

proof fn lemma_render_norm(n: Node, d: nat, u: Seq<char>)
    ensures
        render(norm(n), d, u) == render(n, d, u),
    decreases n, width(n) + 1,
{
    lemma_norm_children(n);
    match n {
        Node::Leaf(v, q) => {},
        Node::Branch(xs) => {
            let ys = children(norm(n));
            if xs.len() > 0 {
                assert(all_leaves(ys) == all_leaves(xs)) by {
                    assert forall|i: int| 0 <= i < xs.len() implies (ys[i] is Leaf <==> #[trigger] xs[i] is Leaf) by {
                        lemma_norm_children(xs[i]);
                    }
                }
                if all_leaves(xs) {
                    lemma_flat_norm(n, 1);
                    lemma_norm_children(xs[0]);
                    assert(leaf_text(ys[0]) == leaf_text(xs[0]));
                } else {
                    lemma_render_norm(xs[0], d, u);
                    lemma_nested_norm(n, 1, d, u);
                }
            }
        },
    }
}

proof fn lemma_flat_norm(n: Node, k: int)
    requires
        n is Branch,
    ensures
        flat_tail(children(norm(n)), k) == flat_tail(children(n), k),
    decreases children(n).len() - k,
{
    lemma_norm_children(n);
    let xs = children(n);
    if 0 <= k < xs.len() {
        lemma_flat_norm(n, k + 1);
        lemma_norm_children(xs[k]);
        match xs[k] {
            Node::Leaf(v, q) => {},
            Node::Branch(_) => {},
        }
        assert(leaf_text(children(norm(n))[k]) == leaf_text(xs[k]));
    }
}

proof fn lemma_nested_norm(n: Node, k: int, d: nat, u: Seq<char>)
    requires
        n is Branch,
    ensures
        nested_tail(norm(n), k, d, u) == nested_tail(n, k, d, u),
    decreases n, width(n) - k,
{
    lemma_norm_children(n);
    let xs = children(n);
    if 0 <= k < xs.len() {
        lemma_nested_norm(n, k + 1, d, u);
        lemma_render_norm(xs[k], d + 1, u);
    }
}

proof fn lemma_is_keyed_norm(x: Node, key: Seq<char>)
    ensures
        is_keyed(norm(x), key) == is_keyed(x, key),
{
    lemma_norm_children(x);
    if children(x).len() > 0 {
        lemma_norm_children(children(x)[0]);
    }
}

proof fn lemma_keyed_same(xs: Seq<Node>, ys: Seq<Node>, key: Seq<char>, k: int)
    requires
        xs.len() == ys.len(),
        forall|i: int| k <= i < xs.len() ==> is_keyed(#[trigger] xs[i], key) == is_keyed(ys[i], key),
    ensures
        keyed_index(xs, key, k) == keyed_index(ys, key, k),
    decreases xs.len() - k,
{
    if 0 <= k < xs.len() {
        lemma_keyed_same(xs, ys, key, k + 1);
    }
}

proof fn lemma_keyed_push(xs: Seq<Node>, x: Node, key: Seq<char>, k: int)
    requires
        0 <= k <= xs.len(),
    ensures
        keyed_index(xs.push(x), key, k) == match keyed_index(xs, key, k) {
            Some(m) => Some(m),
            None => if is_keyed(x, key) {
                Some(xs.len() as int)
            } else {
                None
            },
        },
    decreases xs.len() - k,
{
    let ys = xs.push(x);
    if k < xs.len() {
        assert(ys[k] == xs[k]);
        lemma_keyed_push(xs, x, key, k + 1);
    } else {
        assert(ys[k] == x);
        assert(keyed_index(ys, key, k + 1) is None);
        assert(keyed_index(xs, key, k) is None);
    }
}

proof fn lemma_keyed_norm(n: Node, key: Seq<char>, k: int)
    requires
        0 <= k,
    ensures
        keyed_index(children(norm(n)), key, k) == keyed_index(children(n), key, k),
{
    lemma_norm_children(n);
    assert forall|i: int| k <= i < children(n).len() implies is_keyed(#[trigger] children(n)[i], key) == is_keyed(
        children(norm(n))[i],
        key,
    ) by {
        assert(children(norm(n))[i] == norm(children(n)[i]));
        lemma_is_keyed_norm(children(n)[i], key);
    }
    lemma_keyed_same(children(n), children(norm(n)), key, k);
}

/// The first entry keyed `key` holds the quoted `value`.
pub open spec fn has_value(cs: Seq<Node>, key: Seq<char>, value: Seq<char>) -> bool {
    match keyed_index(cs, key, 1) {
        Some(m) => children(cs[m])[1] == Node::Leaf(value, true),
        None => false,
    }
}

proof fn lemma_set_child_has(cs: Seq<Node>, key: Seq<char>, v: Seq<char>)
    requires
        cs.len() >= 1,
    ensures
        has_value(set_child(cs, key, v), key, v),
        set_child(cs, key, v).len() >= 1,
        set_child(cs, key, v)[0] == cs[0],
{
    let ys = set_child(cs, key, v);
    match keyed_index(cs, key, 1) {
        Some(m) => {
            lemma_keyed_index(cs, key, 1);
            assert forall|i: int| 1 <= i < cs.len() implies is_keyed(#[trigger] cs[i], key) == is_keyed(ys[i], key) by {
            }
            lemma_keyed_same(cs, ys, key, 1);
        },
        None => {
            lemma_keyed_push(cs, keyed_pair(key, v), key, 1);
        },
    }
}

proof fn lemma_set_child_keeps(cs: Seq<Node>, key: Seq<char>, v: Seq<char>, key2: Seq<char>, v2: Seq<char>)
    requires
        cs.len() >= 1,
        key != key2,
        has_value(cs, key2, v2),
    ensures
        has_value(set_child(cs, key, v), key2, v2),
{
    let ys = set_child(cs, key, v);
    let m2 = keyed_index(cs, key2, 1)->Some_0;
    lemma_keyed_index(cs, key2, 1);
    match keyed_index(cs, key, 1) {
        Some(m) => {
            lemma_keyed_index(cs, key, 1);
            assert forall|i: int| 1 <= i < cs.len() implies is_keyed(#[trigger] cs[i], key2) == is_keyed(ys[i], key2) by {
            }
            lemma_keyed_same(cs, ys, key2, 1);
            assert(m != m2);
        },
        None => {
            lemma_keyed_push(cs, keyed_pair(key, v), key2, 1);
            assert(ys[m2] == cs[m2]);
        },
    }
}

proof fn lemma_set_child_same(cs: Seq<Node>, key: Seq<char>, v: Seq<char>)
    requires
        has_value(cs, key, v),
    ensures
        set_child(cs, key, v) == cs,
{
    let m = keyed_index(cs, key, 1)->Some_0;
    lemma_keyed_index(cs, key, 1);
    assert(children(cs[m]).update(1, Node::Leaf(v, true)) =~= children(cs[m]));
    assert(cs.update(m, cs[m]) =~= cs);
}

proof fn lemma_has_value_norm(e: Node, key: Seq<char>, v: Seq<char>)
    requires
        has_value(children(e), key, v),
    ensures
        has_value(children(norm(e)), key, v),
{
    lemma_keyed_norm(e, key, 1);
    lemma_norm_children(e);
    let m = keyed_index(children(e), key, 1)->Some_0;
    lemma_keyed_index(children(e), key, 1);
    lemma_norm_children(children(e)[m]);
}

proof fn lemma_keys_distinct()
    ensures
        "name"@ != "type"@,
        "name"@ != "uri"@,
        "name"@ != "options"@,
        "name"@ != "descr"@,
        "type"@ != "uri"@,
        "type"@ != "options"@,
        "type"@ != "descr"@,
        "uri"@ != "options"@,
        "uri"@ != "descr"@,
        "options"@ != "descr"@,
        "lib"@ != "version"@,
{
    reveal_strlit("name");
    reveal_strlit("type");
    reveal_strlit("uri");
    reveal_strlit("options");
    reveal_strlit("descr");
    reveal_strlit("lib");
    reveal_strlit("version");
    assert("name"@[0] != "type"@[0]);
    assert("name"@[0] != "uri"@[0]);
    assert("name"@[0] != "options"@[0]);
    assert("name"@[0] != "descr"@[0]);
    assert("type"@[0] != "uri"@[0]);
    assert("type"@[0] != "options"@[0]);
    assert("type"@[0] != "descr"@[0]);
    assert("uri"@[0] != "options"@[0]);
    assert("uri"@[0] != "descr"@[0]);
    assert("options"@[0] != "descr"@[0]);
    assert("lib"@[0] != "version"@[0]);
}

/// An entry holds all five fields of a registered library.
pub open spec fn registered(cs: Seq<Node>, name: Seq<char>, uri: Seq<char>) -> bool {
    &&& has_value(cs, "name"@, name)
    &&& has_value(cs, "type"@, "KiCad"@)
    &&& has_value(cs, "uri"@, uri)
    &&& has_value(cs, "options"@, ""@)
    &&& has_value(cs, "descr"@, ""@)
}

proof fn lemma_updated_lib(y: Node, name: Seq<char>, uri: Seq<char>)
    requires
        children(y).len() >= 1,
    ensures
        registered(children(updated_lib(y, name, uri)), name, uri),
        children(updated_lib(y, name, uri)).len() >= 1,
        children(updated_lib(y, name, uri))[0] == children(y)[0],
{
    lemma_keys_distinct();
    let c0 = children(y);
    let c1 = set_child(c0, "name"@, name);
    let c2 = set_child(c1, "type"@, "KiCad"@);
    let c3 = set_child(c2, "uri"@, uri);
    let c4 = set_child(c3, "options"@, ""@);
    lemma_set_child_has(c0, "name"@, name);
    lemma_set_child_has(c1, "type"@, "KiCad"@);
    lemma_set_child_keeps(c1, "type"@, "KiCad"@, "name"@, name);
    lemma_set_child_has(c2, "uri"@, uri);
    lemma_set_child_keeps(c2, "uri"@, uri, "name"@, name);
    lemma_set_child_keeps(c2, "uri"@, uri, "type"@, "KiCad"@);
    lemma_set_child_has(c3, "options"@, ""@);
    lemma_set_child_keeps(c3, "options"@, ""@, "name"@, name);
    lemma_set_child_keeps(c3, "options"@, ""@, "type"@, "KiCad"@);
    lemma_set_child_keeps(c3, "options"@, ""@, "uri"@, uri);
    lemma_set_child_has(c4, "descr"@, ""@);
    lemma_set_child_keeps(c4, "descr"@, ""@, "name"@, name);
    lemma_set_child_keeps(c4, "descr"@, ""@, "type"@, "KiCad"@);
    lemma_set_child_keeps(c4, "descr"@, ""@, "uri"@, uri);
    lemma_set_child_keeps(c4, "descr"@, ""@, "options"@, ""@);
}

proof fn lemma_updated_lib_fixed(e: Node, name: Seq<char>, uri: Seq<char>)
    requires
        e is Branch,
        registered(children(e), name, uri),
    ensures
        updated_lib(norm(e), name, uri) == norm(e),
{
    lemma_has_value_norm(e, "name"@, name);
    lemma_has_value_norm(e, "type"@, "KiCad"@);
    lemma_has_value_norm(e, "uri"@, uri);
    lemma_has_value_norm(e, "options"@, ""@);
    lemma_has_value_norm(e, "descr"@, ""@);
    let cs = children(norm(e));
    lemma_set_child_same(cs, "name"@, name);
    lemma_set_child_same(cs, "type"@, "KiCad"@);
    lemma_set_child_same(cs, "uri"@, uri);
    lemma_set_child_same(cs, "options"@, ""@);
    lemma_set_child_same(cs, "descr"@, ""@);
    lemma_norm_children(e);
}

proof fn lemma_lib_name_of_registered(e: Node, name: Seq<char>, uri: Seq<char>)
    requires
        e is Branch,
        atom_of(children(e)[0]) == Some("lib"@),
        children(e).len() >= 1,
        registered(children(e), name, uri),
    ensures
        lib_name(e) == Some(name),
{
}

proof fn lemma_lib_name_norm(x: Node)
    ensures
        lib_name(norm(x)) == lib_name(x),
{
    lemma_norm_children(x);
    lemma_keyed_norm(x, "name"@, 1);
    if x is Branch && children(x).len() >= 1 {
        lemma_norm_children(children(x)[0]);
        match keyed_index(children(x), "name"@, 1) {
            Some(m) => {
                lemma_keyed_index(children(x), "name"@, 1);
                lemma_norm_children(children(x)[m]);
                lemma_norm_children(children(children(x)[m])[1]);
            },
            None => {},
        }
    }
}

proof fn lemma_first_lib_update(xs: Seq<Node>, name: Seq<char>, k: int, j: int, x: Node)
    requires
        first_lib(xs, name, k) == Some(j),
        lib_name(x) == Some(name),
    ensures
        first_lib(xs.update(j, x), name, k) == Some(j),
    decreases j - k,
{
    lemma_first_lib(xs, name, k);
    if k < j {
        lemma_first_lib_update(xs, name, k + 1, j, x);
    }
}

proof fn lemma_first_lib_push(xs: Seq<Node>, name: Seq<char>, k: int, x: Node)
    requires
        0 <= k <= xs.len(),
        first_lib(xs, name, k) is None,
        lib_name(x) == Some(name),
    ensures
        first_lib(xs.push(x), name, k) == Some(xs.len() as int),
    decreases xs.len() - k,
{
    if k < xs.len() {
        assert(xs.push(x)[k] == xs[k]);
        lemma_first_lib_push(xs, name, k + 1, x);
    } else {
        assert(xs.push(x)[k] == x);
    }
}

proof fn lemma_first_lib_same(xs: Seq<Node>, ys: Seq<Node>, name: Seq<char>, k: int)
    requires
        xs.len() == ys.len(),
        forall|i: int| k <= i < xs.len() ==> lib_name(#[trigger] xs[i]) == lib_name(ys[i]),
    ensures
        first_lib(xs, name, k) == first_lib(ys, name, k),
    decreases xs.len() - k,
{
    if 0 <= k < xs.len() {
        lemma_first_lib_same(xs, ys, name, k + 1);
    }
}

/// A table after one update: its root keyword is kept, it has a version entry, and
/// its first entry for the library is a registered one.
proof fn lemma_updated_shape(b: Node, name: Seq<char>, uri: Seq<char>)
    requires
        b is Branch,
        children(b).len() >= 1,
        children(b)[0] is Leaf,
    ensures
        ({
            let t = with_lib(with_version(b), name, uri);
            &&& t is Branch
            &&& children(t).len() >= 1
            &&& children(t)[0] == children(b)[0]
            &&& keyed_index(children(t), "version"@, 1) is Some
            &&& first_lib(children(t), name, 0) is Some
            &&& registered(children(children(t)[first_lib(children(t), name, 0)->Some_0]), name, uri)
            &&& children(t)[first_lib(children(t), name, 0)->Some_0] is Branch
        }),
{
    lemma_keys_distinct();
    let w = with_version(b);
    let ws = children(w);
    if keyed_index(children(b), "version"@, 1) is None {
        assert(children(b).insert(1, version_entry())[1] == version_entry());
        assert(is_keyed(version_entry(), "version"@));
        reveal_strlit("version");
    }
    assert(keyed_index(ws, "version"@, 1) is Some);
    assert(ws[0] == children(b)[0]);
    let t = with_lib(w, name, uri);
    let xs = children(t);
    match first_lib(ws, name, 0) {
        Some(j) => {
            lemma_first_lib(ws, name, 0);
            let y = ws[j];
            lemma_updated_lib(y, name, uri);
            let u = updated_lib(y, name, uri);
            assert(j != 0);
            lemma_lib_name_of_registered(u, name, uri);
            lemma_first_lib_update(ws, name, 0, j, u);
            assert(!is_keyed(y, "version"@));
            assert(!is_keyed(u, "version"@));
            assert forall|i: int| 1 <= i < ws.len() implies is_keyed(#[trigger] ws[i], "version"@) == is_keyed(
                xs[i],
                "version"@,
            ) by {
            }
            lemma_keyed_same(ws, xs, "version"@, 1);
        },
        None => {
            let e = lib_entry(name, uri);
            let base = Node::Branch(seq![Node::Leaf("lib"@, false)]);
            lemma_entry_is_update(name, uri);
            lemma_updated_lib(base, name, uri);
            lemma_lib_name_of_registered(e, name, uri);
            lemma_first_lib_push(ws, name, 0, e);
            lemma_keyed_push(ws, e, "version"@, 1);
        },
    }
}

/// A fresh library entry is what updating a bare `(lib)` entry gives.
proof fn lemma_entry_is_update(name: Seq<char>, uri: Seq<char>)
    ensures
        lib_entry(name, uri) == updated_lib(Node::Branch(seq![Node::Leaf("lib"@, false)]), name, uri),
{
    lemma_keys_distinct();
    let pair_name = keyed_pair("name"@, name);
    let pair_type = keyed_pair("type"@, "KiCad"@);
    let pair_uri = keyed_pair("uri"@, uri);
    let pair_options = keyed_pair("options"@, ""@);
    let pair_descr = keyed_pair("descr"@, ""@);
    let c0 = seq![Node::Leaf("lib"@, false)];
    let c1 = c0.push(pair_name);
    let c2 = c1.push(pair_type);
    let c3 = c2.push(pair_uri);
    let c4 = c3.push(pair_options);
    assert(keyed_index(c0, "name"@, 1) is None);
    assert(set_child(c0, "name"@, name) == c1);
    lemma_keyed_push(c0, pair_name, "type"@, 1);
    assert(set_child(c1, "type"@, "KiCad"@) == c2);
    lemma_keyed_push(c0, pair_name, "uri"@, 1);
    lemma_keyed_push(c1, pair_type, "uri"@, 1);
    assert(set_child(c2, "uri"@, uri) == c3);
    lemma_keyed_push(c0, pair_name, "options"@, 1);
    lemma_keyed_push(c1, pair_type, "options"@, 1);
    lemma_keyed_push(c2, pair_uri, "options"@, 1);
    assert(set_child(c3, "options"@, ""@) == c4);
    lemma_keyed_push(c0, pair_name, "descr"@, 1);
    lemma_keyed_push(c1, pair_type, "descr"@, 1);
    lemma_keyed_push(c2, pair_uri, "descr"@, 1);
    lemma_keyed_push(c3, pair_options, "descr"@, 1);
    assert(set_child(c4, "descr"@, ""@) == c4.push(pair_descr));
    assert(c4.push(pair_descr) =~= children(lib_entry(name, uri)));
}

/// Updating a table a second time, with the same inputs, writes the same text as
/// the first update.
pub proof fn law_table_update_idempotent(
    existing: Option<Seq<char>>,
    kind: TableKind,
    root: Seq<char>,
    lib_path: Seq<char>,
)
    requires
        table_text(existing, kind, root, lib_path) is Some,
    ensures
        table_text(Some(table_text(existing, kind, root, lib_path)->Some_0), kind, root, lib_path) == table_text(
            existing,
            kind,
            root,
            lib_path,
        ),
{
    let name = table_lib_name(kind, lib_path)->Some_0;
    let uri = uri_of(lib_path, root);
    let b = match existing {
        Some(t) => table_of(t, kind)->Some_0,
        None => default_table(kind),
    };
    let t = updated_table(existing, kind, root, lib_path)->Some_0;
    assert(t == with_lib(with_version(b), name, uri));
    lemma_updated_shape(b, name, uri);
    let text = pretty(t, table_indent());
    assert(all_ws(table_indent()));
    lemma_parse_pretty(t, table_indent());
    let nt = norm(t);
    lemma_norm_children(t);
    lemma_norm_children(children(t)[0]);
    assert(matches_root(nt, root_word(kind)));
    assert(table_of(text, kind) == Some(nt));
    lemma_keyed_norm(t, "version"@, 1);
    assert(with_version(nt) == nt);
    let xs = children(t);
    let ys = children(nt);
    assert forall|i: int| 0 <= i < xs.len() implies lib_name(#[trigger] xs[i]) == lib_name(ys[i]) by {
        lemma_lib_name_norm(xs[i]);
    }
    lemma_first_lib_same(xs, ys, name, 0);
    let j = first_lib(xs, name, 0)->Some_0;
    lemma_first_lib(xs, name, 0);
    lemma_updated_lib_fixed(xs[j], name, uri);
    assert(ys.update(j, updated_lib(ys[j], name, uri)) =~= ys);
    assert(with_lib(nt, name, uri) == nt);
    lemma_render_norm(t, 0, table_indent());
    assert(pretty(nt, table_indent()) =~= text);
}

/// Bringing a table's version and library entries up to date a second time, with the
/// same library, leaves the table as the first time left it.
pub proof fn law_table_entry_update_idempotent(b: Node, name: Seq<char>, uri: Seq<char>)
    requires
        b is Branch,
        children(b).len() >= 1,
        children(b)[0] is Leaf,
    ensures
        with_lib(with_version(with_lib(with_version(b), name, uri)), name, uri) == with_lib(with_version(b), name, uri),
{
    lemma_updated_shape(b, name, uri);
    let t = with_lib(with_version(b), name, uri);
    assert(with_version(t) == t);
    let xs = children(t);
    let j = first_lib(xs, name, 0)->Some_0;
    lemma_first_lib(xs, name, 0);
    let cs = children(xs[j]);
    lemma_set_child_same(cs, "name"@, name);
    lemma_set_child_same(cs, "type"@, "KiCad"@);
    lemma_set_child_same(cs, "uri"@, uri);
    lemma_set_child_same(cs, "options"@, ""@);
    lemma_set_child_same(cs, "descr"@, ""@);
    assert(updated_lib(xs[j], name, uri) == xs[j]);
    assert(xs.update(j, xs[j]) =~= xs);
}

} // verus!
