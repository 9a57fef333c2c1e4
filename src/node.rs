//! The mathematical model of S-expression text: a ghost tree, the grammar that
//! reads it from characters, and the canonical layout that writes it back.
use vstd::prelude::*;
use crate::text::is_ws;

verus! {

/// An S-expression as a value: a leaf atom (its text, and whether it was quoted)
/// or an ordered list of children.
pub ghost enum Node {
    Leaf(Seq<char>, bool),
    Branch(Seq<Node>),
}

/// Characters that end a bare atom.
pub open spec fn is_stop(c: char) -> bool {
    is_ws(c) || c == '(' || c == ')' || c == '"' || c == ';' || c == '#'
}

pub open spec fn needs_quotes(v: Seq<char>) -> bool {
    v.len() == 0 || exists|i: int| 0 <= i < v.len() && is_stop(#[trigger] v[i])
}

pub open spec fn escape_char(c: char) -> Seq<char> {
    if c == '\\' {
        seq!['\\', '\\']
    } else if c == '"' {
        seq!['\\', '"']
    } else if c == '\n' {
        seq!['\\', 'n']
    } else if c == '\r' {
        seq!['\\', 'r']
    } else if c == '\t' {
        seq!['\\', 't']
    } else {
        seq![c]
    }
}

pub open spec fn escape(v: Seq<char>) -> Seq<char>
    decreases v.len(),
{
    if v.len() == 0 {
        Seq::empty()
    } else {
        escape_char(v[0]) + escape(v.drop_first())
    }
}

/// The character that an escape `\c` inside a quoted atom stands for.
pub open spec fn unescape(c: char) -> char {
    if c == 'n' {
        '\n'
    } else if c == 'r' {
        '\r'
    } else if c == 't' {
        '\t'
    } else {
        c
    }
}

/// How an atom is written: quoted and escaped when it was quoted or has to be, bare otherwise.
pub open spec fn atom_text(v: Seq<char>, quoted: bool) -> Seq<char> {
    if quoted || needs_quotes(v) {
        seq!['"'] + escape(v) + seq!['"']
    } else {
        v
    }
}

pub open spec fn leaf_text(n: Node) -> Seq<char> {
    match n {
        Node::Leaf(v, q) => atom_text(v, q),
        Node::Branch(_) => Seq::empty(),
    }
}

pub open spec fn indent(unit: Seq<char>, depth: nat) -> Seq<char>
    decreases depth,
{
    if depth == 0 {
        Seq::empty()
    } else {
        indent(unit, (depth - 1) as nat) + unit
    }
}

pub open spec fn all_leaves(xs: Seq<Node>) -> bool {
    forall|i: int| 0 <= i < xs.len() ==> (#[trigger] xs[i]) is Leaf
}

pub open spec fn width(n: Node) -> nat {
    match n {
        Node::Leaf(..) => 0,
        Node::Branch(xs) => xs.len(),
    }
}

/// The children of a list node after the first, each preceded by one space.
pub open spec fn flat_tail(xs: Seq<Node>, k: int) -> Seq<char>
    decreases xs.len() - k,
{
    if k < 0 || k >= xs.len() {
        Seq::empty()
    } else {
        seq![' '] + leaf_text(xs[k]) + flat_tail(xs, k + 1)
    }
}

/// The canonical layout of `n` when it starts at nesting depth `depth`.
pub open spec fn render(n: Node, depth: nat, unit: Seq<char>) -> Seq<char>
    decreases n, width(n) + 1,
{
    match n {
        Node::Leaf(v, q) => atom_text(v, q),
        Node::Branch(xs) => {
            if xs.len() == 0 {
                seq!['(', ')']
            } else if all_leaves(xs) {
                seq!['('] + leaf_text(xs[0]) + flat_tail(xs, 1) + seq![')']
            } else {
                seq!['('] + render(xs[0], depth, unit) + nested_tail(n, 1, depth, unit) + seq!['\n']
                    + indent(unit, depth) + seq![')']
            }
        },
    }
}

/// The children of list `n` from index `k` on, each on its own line one level deeper.
pub open spec fn nested_tail(n: Node, k: int, depth: nat, unit: Seq<char>) -> Seq<char>
    decreases n, width(n) - k,
{
    match n {
        Node::Leaf(..) => Seq::empty(),
        Node::Branch(xs) => {
            if k < 0 || k >= xs.len() {
                Seq::empty()
            } else {
                seq!['\n'] + indent(unit, depth + 1) + render(xs[k], depth + 1, unit) + nested_tail(
                    n,
                    k + 1,
                    depth,
                    unit,
                )
            }
        },
    }
}

/// The whole text written for a tree: its layout at depth zero and a final newline.
pub open spec fn pretty(n: Node, unit: Seq<char>) -> Seq<char> {
    render(n, 0, unit).push('\n')
}

/// The first position at or after `i` that is not whitespace or inside a comment.
pub open spec fn skip(s: Seq<char>, i: int) -> int
    decreases s.len() - i, 1int,
{
    if i < 0 || i >= s.len() {
        i
    } else if is_ws(s[i]) {
        skip(s, i + 1)
    } else if s[i] == ';' || s[i] == '#' {
        skip_comment(s, i + 1)
    } else {
        i
    }
}

pub open spec fn skip_comment(s: Seq<char>, i: int) -> int
    decreases s.len() - i, 0int,
{
    if i < 0 || i >= s.len() {
        s.len() as int
    } else if s[i] == '\n' {
        skip(s, i + 1)
    } else {
        skip_comment(s, i + 1)
    }
}

/// The end of the bare atom that starts at `i`.
pub open spec fn bare_end(s: Seq<char>, i: int) -> int
    decreases s.len() - i,
{
    if i < 0 || i >= s.len() {
        s.len() as int
    } else if is_stop(s[i]) {
        i
    } else {
        bare_end(s, i + 1)
    }
}

/// Reads the rest of a quoted atom from `i` (just after the opening quote): its
/// value and the position after the closing quote.
pub open spec fn quoted_rest(s: Seq<char>, i: int) -> Option<(Seq<char>, int)>
    decreases s.len() - i,
{
    if i < 0 || i >= s.len() {
        None
    } else if s[i] == '"' {
        Some((Seq::empty(), i + 1))
    } else if s[i] == '\\' {
        if i + 1 >= s.len() {
            None
        } else {
            match quoted_rest(s, i + 2) {
                Some((v, e)) => Some((seq![unescape(s[i + 1])] + v, e)),
                None => None,
            }
        }
    } else {
        match quoted_rest(s, i + 1) {
            Some((v, e)) => Some((seq![s[i]] + v, e)),
            None => None,
        }
    }
}

/// Reads one expression from `i`: the tree and the position after it, or `None`
/// where the text is malformed.
pub open spec fn p_sexp(s: Seq<char>, i: int) -> Option<(Node, int)>
    decreases s.len() - i, 0int,
{
    let j = skip(s, i);
    if j < i || i < 0 || j >= s.len() {
        None
    } else if s[j] == '(' {
        match p_items(s, j + 1) {
            Some((xs, e)) => Some((Node::Branch(xs), e)),
            None => None,
        }
    } else if s[j] == '"' {
        match quoted_rest(s, j + 1) {
            Some((v, e)) => Some((Node::Leaf(v, true), e)),
            None => None,
        }
    } else if s[j] == ')' {
        None
    } else {
        let e = bare_end(s, j);
        Some((Node::Leaf(s.subrange(j, e), false), e))
    }
}

/// Reads the children of a list from `i` up to and including its closing parenthesis.
pub open spec fn p_items(s: Seq<char>, i: int) -> Option<(Seq<Node>, int)>
    decreases s.len() - i, 1int,
{
    let j = skip(s, i);
    if j < i || i < 0 || j >= s.len() {
        None
    } else if s[j] == ')' {
        Some((Seq::empty(), j + 1))
    } else {
        match p_sexp(s, j) {
            Some((x, k)) => {
                if k <= j || k > s.len() {
                    None
                } else {
                    match p_items(s, k) {
                        Some((xs, e)) => Some((seq![x] + xs, e)),
                        None => None,
                    }
                }
            },
            None => None,
        }
    }
}

/// Reads every top-level expression from `i` to the end of the text.
pub open spec fn p_all(s: Seq<char>, i: int) -> Option<Seq<Node>>
    decreases s.len() - i,
{
    let j = skip(s, i);
    if j < i || i < 0 {
        None
    } else if j >= s.len() {
        Some(Seq::empty())
    } else {
        match p_sexp(s, j) {
            Some((x, k)) => {
                if k <= j || k > s.len() {
                    None
                } else {
                    match p_all(s, k) {
                        Some(xs) => Some(seq![x] + xs),
                        None => None,
                    }
                }
            },
            None => None,
        }
    }
}

/// Skipping never moves back or past the end, and stops on a character that starts a token.
pub proof fn lemma_skip(s: Seq<char>, i: int)
    requires
        0 <= i <= s.len(),
    ensures
        i <= skip(s, i) <= s.len(),
        skip(s, i) < s.len() ==> !is_ws(s[skip(s, i)]) && s[skip(s, i)] != ';' && s[skip(s, i)] != '#',
    decreases s.len() - i, 1int,
{
    if i < s.len() {
        if is_ws(s[i]) {
            lemma_skip(s, i + 1);
        } else if s[i] == ';' || s[i] == '#' {
            lemma_skip_comment(s, i + 1);
        }
    }
}

pub proof fn lemma_skip_comment(s: Seq<char>, i: int)
    requires
        0 <= i <= s.len(),
    ensures
        i <= skip_comment(s, i) <= s.len(),
        skip_comment(s, i) < s.len() ==> !is_ws(s[skip_comment(s, i)]) && s[skip_comment(s, i)] != ';'
            && s[skip_comment(s, i)] != '#',
    decreases s.len() - i, 0int,
{
    if i < s.len() {
        if s[i] == '\n' {
            lemma_skip(s, i + 1);
        } else {
            lemma_skip_comment(s, i + 1);
        }
    }
}

/// The trees of a whole text.
pub open spec fn parse_text(s: Seq<char>) -> Option<Seq<Node>> {
    p_all(s, 0)
}

/// The single tree of a text that holds exactly one expression.
pub open spec fn parse_single(s: Seq<char>) -> Option<Node> {
    match parse_text(s) {
        Some(xs) => if xs.len() == 1 { Some(xs[0]) } else { None },
        None => None,
    }
}

/// One more than `x`, staying at the largest `usize`.
pub open spec fn bump(x: usize) -> usize {
    if x + 1 > usize::MAX {
        usize::MAX
    } else {
        (x + 1) as usize
    }
}

/// The line (counted from 1) of position `p`.
pub open spec fn line_at(s: Seq<char>, p: int) -> usize
    decreases p,
{
    if p <= 0 {
        1
    } else if s[p - 1] == '\n' {
        bump(line_at(s, p - 1))
    } else {
        line_at(s, p - 1)
    }
}

/// The column (counted from 1) of position `p`.
pub open spec fn column_at(s: Seq<char>, p: int) -> usize
    decreases p,
{
    if p <= 0 {
        1
    } else if s[p - 1] == '\n' {
        1
    } else {
        bump(column_at(s, p - 1))
    }
}

/// What an error reports: its message, with the line and column of position `e.1`.
pub open spec fn error_at(s: Seq<char>, e: (Seq<char>, int)) -> (Seq<char>, Option<usize>, Option<usize>) {
    (e.0, Some(line_at(s, e.1)), Some(column_at(s, e.1)))
}

/// Where the text does not fail: no error.
pub open spec fn no_error() -> (Seq<char>, int) {
    (Seq::empty(), 0)
}

/// The failure of a quoted atom read from `i`: its message and position.
pub open spec fn quoted_error(s: Seq<char>, i: int) -> (Seq<char>, int)
    decreases s.len() - i,
{
    if i < 0 || i >= s.len() {
        ("unterminated string"@, s.len() as int)
    } else if s[i] == '"' {
        no_error()
    } else if s[i] == '\\' {
        if i + 1 >= s.len() {
            ("unterminated escape"@, s.len() as int)
        } else {
            quoted_error(s, i + 2)
        }
    } else {
        quoted_error(s, i + 1)
    }
}

/// The failure of the expression read from `i`.
pub open spec fn sexp_error(s: Seq<char>, i: int) -> (Seq<char>, int)
    decreases s.len() - i, 0int,
{
    let j = skip(s, i);
    if j < i || i < 0 {
        no_error()
    } else if j >= s.len() {
        ("unexpected end of input"@, j)
    } else if s[j] == '(' {
        items_error(s, j + 1)
    } else if s[j] == '"' {
        quoted_error(s, j + 1)
    } else if s[j] == ')' {
        ("unexpected ')'"@, j)
    } else {
        no_error()
    }
}

/// The failure of the list items read from `i`.
pub open spec fn items_error(s: Seq<char>, i: int) -> (Seq<char>, int)
    decreases s.len() - i, 1int,
{
    let j = skip(s, i);
    if j < i || i < 0 {
        no_error()
    } else if j >= s.len() {
        ("unterminated list"@, j)
    } else if s[j] == ')' {
        no_error()
    } else {
        match p_sexp(s, j) {
            Some((x, k)) => if k <= j || k > s.len() {
                no_error()
            } else {
                items_error(s, k)
            },
            None => sexp_error(s, j),
        }
    }
}

/// The failure of the top-level expressions read from `i`.
pub open spec fn all_error(s: Seq<char>, i: int) -> (Seq<char>, int)
    decreases s.len() - i,
{
    let j = skip(s, i);
    if j < i || i < 0 || j >= s.len() {
        no_error()
    } else {
        match p_sexp(s, j) {
            Some((x, k)) => if k <= j || k > s.len() {
                no_error()
            } else {
                all_error(s, k)
            },
            None => sexp_error(s, j),
        }
    }
}

/// The error reading a whole text reports, where `parse_text` fails.
pub open spec fn parse_error(s: Seq<char>) -> (Seq<char>, Option<usize>, Option<usize>) {
    error_at(s, all_error(s, 0))
}

} // verus!
