//! Printing then reading: the canonical layout of a tree reads back as the same
//! tree, up to which atoms carry quotes.
use vstd::prelude::*;
use crate::kicad_sym::{atom_of, children, is_lib_root, library_names, symbol_entries, symbol_name};
use crate::node::{
    all_leaves, atom_text, bare_end, escape, escape_char, flat_tail, indent, leaf_text,
    needs_quotes, nested_tail, p_all, p_items, p_sexp, parse_single, parse_text, pretty, quoted_rest, render,
    skip, unescape, is_stop, width, Node,
};
use crate::text::is_ws;

verus! {

/// The tree as it reads back after printing: every atom that is printed in quotes is quoted.
pub open spec fn norm(n: Node) -> Node
    decreases n,
{
    match n {
        Node::Leaf(v, q) => Node::Leaf(v, q || needs_quotes(v)),
        Node::Branch(xs) => Node::Branch(
            Seq::new(
                xs.len(),
                |i: int|
                    if 0 <= i < xs.len() {
                        norm(xs[i])
                    } else {
                        Node::Branch(Seq::empty())
                    },
            ),
        ),
    }
}

pub open spec fn all_ws(u: Seq<char>) -> bool {
    forall|i: int| 0 <= i < u.len() ==> is_ws(#[trigger] u[i])
}

/// `t` stands in `s` from position `p` on.
pub open spec fn at(s: Seq<char>, p: int, t: Seq<char>) -> bool {
    0 <= p && p + t.len() <= s.len() && s.subrange(p, p + t.len()) == t
}

/// Position `e` ends a token: the text ends there or a stop character follows.
pub open spec fn follows(s: Seq<char>, e: int) -> bool {
    e == s.len() || (0 <= e < s.len() && is_stop(s[e]))
}

proof fn lemma_at_split(s: Seq<char>, p: int, a: Seq<char>, b: Seq<char>)
    requires
        at(s, p, a + b),
    ensures
        at(s, p, a),
        at(s, p + a.len(), b),
{
    assert(s.subrange(p, p + a.len()) =~= s.subrange(p, p + (a + b).len()).subrange(0, a.len() as int));
    assert((a + b).subrange(0, a.len() as int) =~= a);
    assert(s.subrange(p + a.len(), p + a.len() + b.len()) =~= s.subrange(p, p + (a + b).len()).subrange(
        a.len() as int,
        (a + b).len() as int,
    ));
    assert((a + b).subrange(a.len() as int, (a + b).len() as int) =~= b);
}

proof fn lemma_at_index(s: Seq<char>, p: int, t: Seq<char>, j: int)
    requires
        at(s, p, t),
        0 <= j < t.len(),
    ensures
        s[p + j] == t[j],
{
    assert(s.subrange(p, p + t.len())[j] == s[p + j]);
}

proof fn lemma_indent_ws(u: Seq<char>, d: nat)
    requires
        all_ws(u),
    ensures
        all_ws(indent(u, d)),
    decreases d,
{
    if d > 0 {
        lemma_indent_ws(u, (d - 1) as nat);
        assert forall|i: int| 0 <= i < indent(u, d).len() implies is_ws(#[trigger] indent(u, d)[i]) by {
            if i < indent(u, (d - 1) as nat).len() {
                assert(indent(u, d)[i] == indent(u, (d - 1) as nat)[i]);
            } else {
                assert(indent(u, d)[i] == u[i - indent(u, (d - 1) as nat).len()]);
            }
        }
    }
}

/// Whitespace before a position is skipped over.
proof fn lemma_skip_ws(s: Seq<char>, p: int, w: Seq<char>)
    requires
        at(s, p, w),
        all_ws(w),
    ensures
        skip(s, p) == skip(s, p + w.len()),
    decreases w.len(),
{
    if w.len() > 0 {
        lemma_at_index(s, p, w, 0);
        assert(seq![w[0]] + w.drop_first() =~= w);
        lemma_at_split(s, p, seq![w[0]], w.drop_first());
        lemma_skip_ws(s, p + 1, w.drop_first());
    }
}

proof fn lemma_bare_end(s: Seq<char>, i: int, v: Seq<char>)
    requires
        at(s, i, v),
        forall|k: int| 0 <= k < v.len() ==> !is_stop(#[trigger] v[k]),
        follows(s, i + v.len()),
    ensures
        bare_end(s, i) == i + v.len(),
    decreases v.len(),
{
    if v.len() > 0 {
        lemma_at_index(s, i, v, 0);
        assert(seq![v[0]] + v.drop_first() =~= v);
        lemma_at_split(s, i, seq![v[0]], v.drop_first());
        lemma_bare_end(s, i + 1, v.drop_first());
    }
}

proof fn lemma_quoted(s: Seq<char>, j: int, v: Seq<char>)
    requires
        at(s, j, escape(v) + seq!['"']),
    ensures
        quoted_rest(s, j) == Some((v, j + escape(v).len() + 1)),
    decreases v.len(),
{
    if v.len() == 0 {
        lemma_at_index(s, j, escape(v) + seq!['"'], 0);
    } else {
        let c = v[0];
        let e = escape_char(c);
        let rest = v.drop_first();
        assert(escape(v) + seq!['"'] =~= e + (escape(rest) + seq!['"']));
        lemma_at_split(s, j, e, escape(rest) + seq!['"']);
        lemma_quoted(s, j + e.len(), rest);
        lemma_at_index(s, j, e, 0);
        if e.len() == 2 {
            lemma_at_index(s, j, e, 1);
        }
        assert(seq![c] + rest =~= v);
        if c == '\\' || c == '"' || c == '\n' || c == '\r' || c == '\t' {
            assert(unescape(e[1]) == c);
        }
    }
}

/// The first character of a printed tree opens a token.
proof fn lemma_render_first(n: Node, d: nat, u: Seq<char>)
    ensures
        render(n, d, u).len() > 0,
        !is_ws(render(n, d, u)[0]),
        render(n, d, u)[0] != ';',
        render(n, d, u)[0] != '#',
        render(n, d, u)[0] != ')',
        n is Branch ==> render(n, d, u)[0] == '(',
        n is Leaf ==> render(n, d, u)[0] == '"' || !is_stop(render(n, d, u)[0]),
{
    match n {
        Node::Leaf(v, q) => {
            if !(q || needs_quotes(v)) {
                assert(!is_stop(v[0]));
            }
        },
        Node::Branch(xs) => {},
    }
}

pub proof fn lemma_norm_children(n: Node)
    ensures
        children(norm(n)).len() == children(n).len(),
        forall|i: int| 0 <= i < children(n).len() ==> #[trigger] children(norm(n))[i] == norm(children(n)[i]),
        n is Branch <==> norm(n) is Branch,
        atom_of(norm(n)) == atom_of(n),
{
}

/// Reading the layout of `n` from `i` gives `norm(n)` and the position after it.
pub proof fn lemma_parse_render(n: Node, d: nat, u: Seq<char>, s: Seq<char>, i: int)
    requires
        all_ws(u),
        at(s, i, render(n, d, u)),
        follows(s, i + render(n, d, u).len()),
    ensures
        p_sexp(s, i) == Some((norm(n), i + render(n, d, u).len())),
    decreases n, width(n) + 1,
{
    let r = render(n, d, u);
    lemma_render_first(n, d, u);
    lemma_at_index(s, i, r, 0);
    assert(skip(s, i) == i);
    match n {
        Node::Leaf(v, q) => {
            if q || needs_quotes(v) {
                assert(r == seq!['"'] + (escape(v) + seq!['"']));
                lemma_at_split(s, i, seq!['"'], escape(v) + seq!['"']);
                lemma_quoted(s, i + 1, v);
            } else {
                assert forall|k: int| 0 <= k < v.len() implies !is_stop(#[trigger] v[k]) by {
                }
                lemma_bare_end(s, i, v);
                assert(s.subrange(i, bare_end(s, i)) == v);
            }
        },
        Node::Branch(xs) => {
            lemma_norm_children(n);
            if xs.len() == 0 {
                assert(r =~= seq!['(', ')']);
                lemma_at_index(s, i, r, 1);
                assert(skip(s, i + 1) == i + 1);
                assert(p_items(s, i + 1) == Some((Seq::<Node>::empty(), i + 2)));
                assert(children(norm(n)) =~= Seq::<Node>::empty());
            } else if all_leaves(xs) {
                let t0 = leaf_text(xs[0]);
                let tail = flat_tail(xs, 1) + seq![')'];
                assert(r =~= seq!['('] + (t0 + tail));
                lemma_at_split(s, i, seq!['('], t0 + tail);
                lemma_at_split(s, i + 1, t0, tail);
                lemma_flat_items(n, 1, d, u, s, i + 1 + t0.len());
                lemma_first_item(n, d, u, s, i + 1, t0, tail, (i + 1 + t0.len() + tail.len()) as int);
            } else {
                let t0 = render(xs[0], d, u);
                let tail = nested_tail(n, 1, d, u) + seq!['\n'] + indent(u, d) + seq![')'];
                assert(r =~= seq!['('] + (t0 + tail));
                lemma_at_split(s, i, seq!['('], t0 + tail);
                lemma_at_split(s, i + 1, t0, tail);
                lemma_nested_items(n, 1, d, u, s, i + 1 + t0.len());
                lemma_first_item(n, d, u, s, i + 1, t0, tail, (i + 1 + t0.len() + tail.len()) as int);
            }
        },
    }
}

/// The first child of a list, then the rest: the items read from just after `(`.
proof fn lemma_first_item(n: Node, d: nat, u: Seq<char>, s: Seq<char>, p: int, t0: Seq<char>, tail: Seq<char>, e: int)
    requires
        all_ws(u),
        n is Branch,
        children(n).len() > 0,
        t0 == (if all_leaves(children(n)) {
            leaf_text(children(n)[0])
        } else {
            render(children(n)[0], d, u)
        }),
        at(s, p, t0),
        at(s, p + t0.len(), tail),
        tail.len() > 0,
        is_stop(tail[0]),
        p_items(s, p + t0.len()) == Some((children(norm(n)).subrange(1, children(n).len() as int), e)),
    ensures
        p_items(s, p) == Some((children(norm(n)), e)),
    decreases n, width(n),
{
    let xs = children(n);
    let x = xs[0];
    lemma_norm_children(n);
    if all_leaves(xs) {
        assert(x is Leaf);
        assert(t0 == render(x, d, u));
    }
    assert(t0 == render(x, d, u));
    lemma_at_index(s, p + t0.len(), tail, 0);
    lemma_parse_render(x, d, u, s, p);
    lemma_render_first(x, d, u);
    lemma_at_index(s, p, t0, 0);
    assert(skip(s, p) == p);
    assert(seq![norm(x)] + children(norm(n)).subrange(1, xs.len() as int) =~= children(norm(n)));
}

/// The children of a flat list from index `k`, each after one space, then `)`.
proof fn lemma_flat_items(n: Node, k: int, d: nat, u: Seq<char>, s: Seq<char>, p: int)
    requires
        all_ws(u),
        n is Branch,
        all_leaves(children(n)),
        1 <= k <= children(n).len(),
        at(s, p, flat_tail(children(n), k) + seq![')']),
    ensures
        p_items(s, p) == Some((
            children(norm(n)).subrange(k, children(n).len() as int),
            p + flat_tail(children(n), k).len() + 1,
        )),
    decreases n, width(n) - k,
{
    let xs = children(n);
    lemma_norm_children(n);
    let body = flat_tail(xs, k) + seq![')'];
    if k == xs.len() {
        assert(body =~= seq![')']);
        lemma_at_index(s, p, body, 0);
        assert(skip(s, p) == p);
        assert(children(norm(n)).subrange(k, xs.len() as int) =~= Seq::<Node>::empty());
    } else {
        let x = xs[k];
        let t = leaf_text(x);
        assert(x is Leaf);
        assert(t == render(x, d, u));
        let rest = flat_tail(xs, k + 1) + seq![')'];
        assert(body =~= seq![' '] + (t + rest));
        lemma_at_split(s, p, seq![' '], t + rest);
        lemma_at_split(s, p + 1, t, rest);
        lemma_skip_ws(s, p, seq![' ']);
        lemma_render_first(x, d, u);
        lemma_at_index(s, p + 1, t, 0);
        assert(skip(s, p + 1) == p + 1);
        lemma_flat_items(n, k + 1, d, u, s, p + 1 + t.len());
        if k + 1 < xs.len() {
            assert(rest[0] == ' ');
        } else {
            assert(rest =~= seq![')']);
        }
        lemma_at_index(s, p + 1 + t.len(), rest, 0);
        lemma_parse_render(x, d, u, s, p + 1);
        assert(seq![norm(x)] + children(norm(n)).subrange(k + 1, xs.len() as int) =~= children(norm(n)).subrange(
            k,
            xs.len() as int,
        ));
    }
}

/// The children of a multi-line list from index `k`, each on its own line, then the closing line.
proof fn lemma_nested_items(n: Node, k: int, d: nat, u: Seq<char>, s: Seq<char>, p: int)
    requires
        all_ws(u),
        n is Branch,
        1 <= k <= children(n).len(),
        at(s, p, nested_tail(n, k, d, u) + seq!['\n'] + indent(u, d) + seq![')']),
    ensures
        p_items(s, p) == Some((
            children(norm(n)).subrange(k, children(n).len() as int),
            p + nested_tail(n, k, d, u).len() + 1 + indent(u, d).len() + 1,
        )),
    decreases n, width(n) - k,
{
    let xs = children(n);
    lemma_norm_children(n);
    let close = seq!['\n'] + indent(u, d) + seq![')'];
    let body = nested_tail(n, k, d, u) + close;
    assert(body =~= nested_tail(n, k, d, u) + seq!['\n'] + indent(u, d) + seq![')']);
    lemma_indent_ws(u, d);
    lemma_indent_ws(u, d + 1);
    if k == xs.len() {
        assert(body =~= (seq!['\n'] + indent(u, d)) + seq![')']);
        lemma_at_split(s, p, seq!['\n'] + indent(u, d), seq![')']);
        assert(all_ws(seq!['\n'] + indent(u, d))) by {
            assert forall|j: int| 0 <= j < (seq!['\n'] + indent(u, d)).len() implies is_ws(
                #[trigger] (seq!['\n'] + indent(u, d))[j],
            ) by {
                if j > 0 {
                    assert((seq!['\n'] + indent(u, d))[j] == indent(u, d)[j - 1]);
                }
            }
        }
        lemma_skip_ws(s, p, seq!['\n'] + indent(u, d));
        let q = p + 1 + indent(u, d).len();
        lemma_at_index(s, q, seq![')'], 0);
        assert(skip(s, q) == q);
        assert(children(norm(n)).subrange(k, xs.len() as int) =~= Seq::<Node>::empty());
    } else {
        let x = xs[k];
        let lead = seq!['\n'] + indent(u, d + 1);
        let t = render(x, d + 1, u);
        let rest = nested_tail(n, k + 1, d, u) + close;
        assert(rest =~= nested_tail(n, k + 1, d, u) + seq!['\n'] + indent(u, d) + seq![')']);
        assert(body =~= lead + (t + rest));
        lemma_at_split(s, p, lead, t + rest);
        lemma_at_split(s, p + lead.len(), t, rest);
        assert(all_ws(lead)) by {
            assert forall|j: int| 0 <= j < lead.len() implies is_ws(#[trigger] lead[j]) by {
                if j > 0 {
                    assert(lead[j] == indent(u, d + 1)[j - 1]);
                }
            }
        }
        lemma_skip_ws(s, p, lead);
        let q = p + lead.len();
        lemma_render_first(x, d + 1, u);
        lemma_at_index(s, q, t, 0);
        assert(skip(s, q) == q);
        lemma_nested_items(n, k + 1, d, u, s, q + t.len());
        assert(rest[0] == '\n');
        lemma_at_index(s, q + t.len(), rest, 0);
        lemma_parse_render(x, d + 1, u, s, q);
        assert(seq![norm(x)] + children(norm(n)).subrange(k + 1, xs.len() as int) =~= children(norm(n)).subrange(
            k,
            xs.len() as int,
        ));
    }
}

/// The printed text of a tree reads back as exactly one expression: the tree with
/// its quoting normalised.
pub proof fn lemma_parse_pretty(n: Node, u: Seq<char>)
    requires
        all_ws(u),
    ensures
        parse_text(pretty(n, u)) == Some(seq![norm(n)]),
        parse_single(pretty(n, u)) == Some(norm(n)),
{
    let r = render(n, 0, u);
    let s = pretty(n, u);
    assert(s =~= r + seq!['\n']);
    assert(s.subrange(0, s.len() as int) =~= s);
    assert(at(s, 0, r + seq!['\n']));
    lemma_at_split(s, 0, r, seq!['\n']);
    lemma_at_index(s, r.len() as int, seq!['\n'], 0);
    lemma_parse_render(n, 0, u, s, 0);
    lemma_render_first(n, 0, u);
    lemma_at_index(s, 0, r, 0);
    assert(skip(s, 0) == 0);
    let e = r.len() as int;
    assert(skip(s, e + 1) == e + 1);
    assert(skip(s, e) == e + 1);
    assert(p_all(s, e) == Some(Seq::<Node>::empty()));
    assert(seq![norm(n)] + Seq::<Node>::empty() =~= seq![norm(n)]);
}

proof fn lemma_symbol_name_norm(x: Node)
    ensures
        symbol_name(norm(x)) == symbol_name(x),
{
    lemma_norm_children(x);
    if x is Branch && children(x).len() >= 2 {
        lemma_norm_children(children(x)[0]);
        lemma_norm_children(children(x)[1]);
    }
}

proof fn lemma_entries_norm(n: Node, k: int)
    requires
        0 <= k <= children(n).len(),
    ensures
        symbol_entries(children(norm(n)), k).map_values(|x: Node| symbol_name(x)->Some_0) == symbol_entries(
            children(n),
            k,
        ).map_values(|x: Node| symbol_name(x)->Some_0),
    decreases k,
{
    lemma_norm_children(n);
    let xs = children(n);
    let ys = children(norm(n));
    if k > 1 {
        lemma_entries_norm(n, k - 1);
        lemma_symbol_name_norm(xs[k - 1]);
        let a = symbol_entries(ys, k - 1);
        let b = symbol_entries(xs, k - 1);
        if symbol_name(xs[k - 1]) is Some {
            assert(a.push(ys[k - 1]).map_values(|x: Node| symbol_name(x)->Some_0) =~= a.map_values(
                |x: Node| symbol_name(x)->Some_0,
            ).push(symbol_name(ys[k - 1])->Some_0));
            assert(b.push(xs[k - 1]).map_values(|x: Node| symbol_name(x)->Some_0) =~= b.map_values(
                |x: Node| symbol_name(x)->Some_0,
            ).push(symbol_name(xs[k - 1])->Some_0));
        }
    }
}

/// Normalising quotes changes neither whether a tree is a library nor its symbol names.
pub proof fn lemma_library_norm(n: Node)
    ensures
        is_lib_root(norm(n)) == is_lib_root(n),
        library_names(norm(n)) == library_names(n),
{
    lemma_norm_children(n);
    if n is Branch && children(n).len() >= 1 {
        lemma_norm_children(children(n)[0]);
    }
    lemma_entries_norm(n, children(n).len() as int);
}

/// Printing a library and reading the text back gives a library with the same symbol
/// names, in the same order.
pub proof fn law_round_trip_names(text: Seq<char>)
    requires
        parse_single(text) is Some,
        is_lib_root(parse_single(text)->Some_0),
    ensures
        ({
            let n = parse_single(text)->Some_0;
            let back = parse_single(pretty(n, seq!['\t']));
            &&& back is Some
            &&& is_lib_root(back->Some_0)
            &&& library_names(back->Some_0) == library_names(n)
        }),
{
    let n = parse_single(text)->Some_0;
    assert(all_ws(seq!['\t']));
    lemma_parse_pretty(n, seq!['\t']);
    lemma_library_norm(n);
}

/// An atom whose text holds a space is always printed in quotes, and its printed
/// form reads back as an atom with the same text.
pub proof fn law_spaced_atom_quoted(v: Seq<char>, quoted: bool, unit: Seq<char>)
    requires
        v.contains(' '),
        all_ws(unit),
    ensures
        atom_text(v, quoted) == seq!['"'] + escape(v) + seq!['"'],
        parse_single(pretty(Node::Leaf(v, quoted), unit)) == Some(Node::Leaf(v, true)),
{
    let i = choose|i: int| 0 <= i < v.len() && v[i] == ' ';
    assert(is_stop(v[i]));
    assert(needs_quotes(v));
    lemma_parse_pretty(Node::Leaf(v, quoted), unit);
}

} // verus!
