//! S-expression values, their parser and printer, and the symbol and symbol
//! library views built on them.
use vstd::prelude::*;
use crate::node::{
    all_error, column_at, error_at, items_error, line_at, parse_error, quoted_error, sexp_error,
    lemma_skip,
    all_leaves, atom_text, bare_end, escape, escape_char, flat_tail, indent, leaf_text, needs_quotes,
    nested_tail, p_all, p_items, p_sexp, parse_single, parse_text, pretty, quoted_rest, render, skip,
    skip_comment, unescape, is_stop, Node,
};
use crate::text::{chars_of, decimal, is_ws, is_whitespace, push_all, push_decimal, string_of, str_eq};

verus! {

broadcast use vstd::std_specs::vec::group_vec_axioms;

/// A leaf value: its text, and whether it was written in quotes.
#[derive(Clone, Debug, PartialEq, Eq)]
pub struct Atom {
    value: String,
    quoted: bool,
}

impl View for Atom {
    type V = (Seq<char>, bool);

    closed spec fn view(&self) -> (Seq<char>, bool) {
        (self.value@, self.quoted)
    }
}

impl Atom {
    pub fn new(value: &str) -> (r: Atom)
        ensures
            r@ == (value@, false),
    {
        Atom { value: String::from_str(value), quoted: false }
    }

    pub fn new_quoted(value: &str) -> (r: Atom)
        ensures
            r@ == (value@, true),
    {
        Atom { value: String::from_str(value), quoted: true }
    }

    pub fn value(&self) -> (r: &str)
        ensures
            r@ == self@.0,
    {
        self.value.as_str()
    }

    pub fn is_quoted(&self) -> (r: bool)
        ensures
            r == self@.1,
    {
        self.quoted
    }

    fn duplicate(&self) -> (r: Atom)
        ensures
            r@ == self@,
    {
        Atom { value: self.value.clone(), quoted: self.quoted }
    }
}

/// An S-expression: an atom or a list of expressions.
#[derive(Debug)]
pub enum Sexp {
    Atom(Atom),
    List(Vec<Sexp>),
}

/// The trees of a sequence of expressions.
pub open spec fn nodes_of(v: Seq<Sexp>) -> Seq<Node> {
    Seq::new(v.len(), |i: int| v[i]@)
}

impl View for Sexp {
    type V = Node;

    open spec fn view(&self) -> Node
        decreases self,
    {
        match self {
            Sexp::Atom(a) => Node::Leaf(a@.0, a@.1),
            Sexp::List(items) => Node::Branch(
                Seq::new(
                    items.len() as nat,
                    |i: int|
                        if 0 <= i < items.len() {
                            items[i].view()
                        } else {
                            Node::Branch(Seq::empty())
                        },
                ),
            ),
        }
    }
}

pub proof fn lemma_list_view(items: Vec<Sexp>)
    ensures
        Sexp::List(items)@ == Node::Branch(nodes_of(items@)),
{
    assert(nodes_of(items@) =~= match Sexp::List(items)@ {
        Node::Branch(xs) => xs,
        _ => Seq::empty(),
    });
}

fn needs_quotes_exec(v: &Vec<char>) -> (r: bool)
    ensures
        r == needs_quotes(v@),
{
    if v.len() == 0 {
        return true;
    }
    let mut i: usize = 0;
    while i < v.len()
        invariant
            i <= v.len(),
            forall|j: int| 0 <= j < i ==> !is_stop(#[trigger] v@[j]),
        decreases v.len() - i,
    {
        let c = v[i];
        if is_whitespace(c) || c == '(' || c == ')' || c == '"' || c == ';' || c == '#' {
            return true;
        }
        i = i + 1;
    }
    false
}

proof fn lemma_escape_push(v: Seq<char>, c: char)
    ensures
        escape(v.push(c)) == escape(v) + escape_char(c),
    decreases v.len(),
{
    if v.len() == 0 {
        assert(v.push(c).drop_first() =~= Seq::<char>::empty());
        assert(v.push(c)[0] == c);
        assert(escape(Seq::<char>::empty()) == Seq::<char>::empty());
        assert(escape(v.push(c)) =~= escape(v) + escape_char(c));
    } else {
        lemma_escape_push(v.drop_first(), c);
        assert(v.push(c).drop_first() =~= v.drop_first().push(c));
        assert(escape(v.push(c)) =~= escape(v) + escape_char(c));
    }
}

fn push_escaped(out: &mut Vec<char>, v: &Vec<char>)
    ensures
        final(out)@ == old(out)@ + escape(v@),
{
    let mut i: usize = 0;
    while i < v.len()
        invariant
            i <= v.len(),
            out@ == old(out)@ + escape(v@.subrange(0, i as int)),
        decreases v.len() - i,
    {
        let c = v[i];
        proof {
            lemma_escape_push(v@.subrange(0, i as int), c);
            assert(v@.subrange(0, i as int).push(c) =~= v@.subrange(0, i + 1));
        }
        if c == '\\' {
            out.push('\\');
            out.push('\\');
        } else if c == '"' {
            out.push('\\');
            out.push('"');
        } else if c == '\n' {
            out.push('\\');
            out.push('n');
        } else if c == '\r' {
            out.push('\\');
            out.push('r');
        } else if c == '\t' {
            out.push('\\');
            out.push('t');
        } else {
            out.push(c);
        }
        i = i + 1;
        assert(out@ =~= old(out)@ + escape(v@.subrange(0, i as int)));
    }
    assert(v@.subrange(0, v.len() as int) =~= v@);
}

fn push_atom(out: &mut Vec<char>, atom: &Atom)
    ensures
        final(out)@ == old(out)@ + atom_text(atom@.0, atom@.1),
{
    let v = chars_of(atom.value.as_str());
    if atom.quoted || needs_quotes_exec(&v) {
        out.push('"');
        push_escaped(out, &v);
        out.push('"');
        assert(final(out)@ =~= old(out)@ + atom_text(atom@.0, atom@.1));
    } else {
        push_all(out, &v);
    }
}

impl Sexp {
    /// A copy of this expression with the same tree.
    pub fn duplicate(&self) -> (r: Sexp)
        ensures
            r@ == self@,
        decreases self,
    {
        match self {
            Sexp::Atom(a) => Sexp::Atom(a.duplicate()),
            Sexp::List(items) => {
                let mut out: Vec<Sexp> = Vec::new();
                let mut i: usize = 0;
                while i < items.len()
                    invariant
                        i <= items.len(),
                        *self == Sexp::List(*items),
                        out.len() == i,
                        forall|j: int| 0 <= j < i ==> (#[trigger] out@[j])@ == items@[j]@,
                    decreases items.len() - i,
                {
                    proof {
                        assert(decreases_to!(*self => self->List_0));
                        assert(decreases_to!(self->List_0 => self->List_0[i as int]));
                    }
                    out.push(items[i].duplicate());
                    i = i + 1;
                }
                proof {
                    lemma_list_view(out);
                    lemma_list_view(*items);
                    assert(nodes_of(out@) =~= nodes_of(items@));
                }
                Sexp::List(out)
            },
        }
    }

    pub fn to_string_pretty(&self) -> (r: String)
        ensures
            r@ == pretty(self@, seq!['\t']),
    {
        let unit = vec!['\t'];
        assert(unit@ =~= seq!['\t']);
        self.pretty_chars(&unit)
    }

    pub fn to_string_pretty_with_indent(&self, indent_str: &str) -> (r: String)
        ensures
            r@ == pretty(self@, indent_str@),
    {
        let unit = chars_of(indent_str);
        self.pretty_chars(&unit)
    }

    fn pretty_chars(&self, unit: &Vec<char>) -> (r: String)
        ensures
            r@ == pretty(self@, unit@),
    {
        let mut out: Vec<char> = Vec::new();
        let ind: Vec<char> = Vec::new();
        assert(ind@ =~= indent(unit@, 0));
        self.write_pretty(&mut out, &ind, unit, Ghost(0));
        out.push('\n');
        assert(out@ =~= pretty(self@, unit@));
        string_of(&out)
    }

    fn write_pretty(&self, out: &mut Vec<char>, ind: &Vec<char>, unit: &Vec<char>, Ghost(depth): Ghost<nat>)
        requires
            ind@ == indent(unit@, depth),
        ensures
            final(out)@ == old(out)@ + render(self@, depth, unit@),
        decreases self,
    {
        match self {
            Sexp::Atom(a) => {
                push_atom(out, a);
            },
            Sexp::List(items) => {
                proof {
                    lemma_list_view(*items);
                }
                let ghost xs = nodes_of(items@);
                out.push('(');
                if items.len() == 0 {
                    out.push(')');
                    assert(final(out)@ =~= old(out)@ + render(self@, depth, unit@));
                    return;
                }
                let mut flat = true;
                let mut k: usize = 0;
                while k < items.len()
                    invariant
                        k <= items.len(),
                        xs == nodes_of(items@),
                        flat == (forall|j: int| 0 <= j < k ==> (#[trigger] xs[j]) is Leaf),
                    decreases items.len() - k,
                {
                    let is_list = match &items[k] {
                        Sexp::List(_) => true,
                        Sexp::Atom(_) => false,
                    };
                    assert(xs[k as int] == items@[k as int]@);
                    if is_list {
                        flat = false;
                    }
                    k = k + 1;
                }
                if flat {
                    let ghost start = out@;
                    match &items[0] {
                        Sexp::Atom(a) => push_atom(out, a),
                        Sexp::List(_) => {},
                    }
                    let mut k: usize = 1;
                    while k < items.len()
                        invariant
                            1 <= k <= items.len(),
                            xs == nodes_of(items@),
                            all_leaves(xs),
                            out@ + flat_tail(xs, k as int) == start + leaf_text(xs[0]) + flat_tail(xs, 1),
                        decreases items.len() - k,
                    {
                        out.push(' ');
                        match &items[k] {
                            Sexp::Atom(a) => push_atom(out, a),
                            Sexp::List(_) => {},
                        }
                        assert(flat_tail(xs, k as int) == seq![' '] + leaf_text(xs[k as int]) + flat_tail(xs, k + 1));
                        k = k + 1;
                        assert(out@ + flat_tail(xs, k as int) =~= start + leaf_text(xs[0]) + flat_tail(xs, 1));
                    }
                    assert(flat_tail(xs, k as int) =~= Seq::<char>::empty());
                    out.push(')');
                    assert(final(out)@ =~= old(out)@ + render(self@, depth, unit@));
                    return;
                }
                let ghost start = out@;
                items[0].write_pretty(out, ind, unit, Ghost(depth));
                let mut deeper = Vec::new();
                push_all(&mut deeper, ind);
                push_all(&mut deeper, unit);
                assert(deeper@ =~= indent(unit@, depth + 1));
                let mut k: usize = 1;
                while k < items.len()
                    invariant
                        1 <= k <= items.len(),
                        xs == nodes_of(items@),
                        *self == Sexp::List(*items),
                        deeper@ == indent(unit@, depth + 1),
                        self@ == Node::Branch(xs),
                        out@ + nested_tail(self@, k as int, depth, unit@) == start + render(xs[0], depth, unit@)
                            + nested_tail(self@, 1, depth, unit@),
                    decreases items.len() - k,
                {
                    out.push('\n');
                    push_all(out, &deeper);
                    proof {
                        assert(decreases_to!(*self => self->List_0));
                        assert(decreases_to!(self->List_0 => self->List_0[k as int]));
                    }
                    items[k].write_pretty(out, &deeper, unit, Ghost(depth + 1));
                    k = k + 1;
                    assert(out@ + nested_tail(self@, k as int, depth, unit@) =~= start + render(
                        xs[0],
                        depth,
                        unit@,
                    ) + nested_tail(self@, 1, depth, unit@));
                }
                assert(nested_tail(self@, k as int, depth, unit@) =~= Seq::<char>::empty());
                out.push('\n');
                push_all(out, ind);
                out.push(')');
                assert(final(out)@ =~= old(out)@ + render(self@, depth, unit@));
            },
        }
    }
}

/// A parse or shape error, with the line and column where the parser stopped, when known.
#[derive(Debug, Clone)]
pub struct KicadSymError {
    message: String,
    line: Option<usize>,
    column: Option<usize>,
}

impl View for KicadSymError {
    type V = (Seq<char>, Option<usize>, Option<usize>);

    closed spec fn view(&self) -> (Seq<char>, Option<usize>, Option<usize>) {
        (self.message@, self.line, self.column)
    }
}

/// How an error reads: its message, then ` at line:column` when the position is known.
pub open spec fn error_text(e: (Seq<char>, Option<usize>, Option<usize>)) -> Seq<char> {
    match (e.1, e.2) {
        (Some(l), Some(c)) => e.0 + seq![' ', 'a', 't', ' '] + decimal(l as nat) + seq![':'] + decimal(
            c as nat,
        ),
        _ => e.0,
    }
}

impl KicadSymError {
    fn new(message: String) -> (r: KicadSymError)
        ensures
            r@ == (message@, None::<usize>, None::<usize>),
    {
        KicadSymError { message, line: None, column: None }
    }

    fn with_pos(message: &str, line: usize, column: usize) -> (r: KicadSymError)
        ensures
            r@ == (message@, Some(line), Some(column)),
    {
        KicadSymError { message: String::from_str(message), line: Some(line), column: Some(column) }
    }

    pub fn message(&self) -> (r: &str)
        ensures
            r@ == self@.0,
    {
        self.message.as_str()
    }

    pub fn to_string(&self) -> (r: String)
        ensures
            r@ == error_text(self@),
    {
        let mut out = chars_of(self.message.as_str());
        match (self.line, self.column) {
            (Some(l), Some(c)) => {
                out.push(' ');
                out.push('a');
                out.push('t');
                out.push(' ');
                push_decimal(&mut out, l);
                out.push(':');
                push_decimal(&mut out, c);
                assert(out@ =~= error_text(self@));
            },
            _ => {},
        }
        string_of(&out)
    }
}

struct Parser {
    chars: Vec<char>,
    pos: usize,
    line: usize,
    column: usize,
}

impl Parser {
    spec fn ok(&self) -> bool {
        &&& self.pos <= self.chars.len()
        &&& self.line == line_at(self.chars@, self.pos as int)
        &&& self.column == column_at(self.chars@, self.pos as int)
    }

    fn new(input: &str) -> (p: Parser)
        ensures
            p.ok(),
            p.chars@ == input@,
            p.pos == 0,
    {
        Parser { chars: chars_of(input), pos: 0, line: 1, column: 1 }
    }

    fn peek(&self) -> (r: Option<char>)
        requires
            self.ok(),
        ensures
            self.pos < self.chars.len() ==> r == Some(self.chars@[self.pos as int]),
            self.pos >= self.chars.len() ==> r is None,
    {
        if self.pos < self.chars.len() {
            Some(self.chars[self.pos])
        } else {
            None
        }
    }

    fn next(&mut self) -> (r: Option<char>)
        requires
            old(self).ok(),
        ensures
            final(self).ok(),
            final(self).chars@ == old(self).chars@,
            old(self).pos < old(self).chars.len() ==> r == Some(old(self).chars@[old(self).pos as int])
                && final(self).pos == old(self).pos + 1,
            old(self).pos >= old(self).chars.len() ==> r is None && final(self).pos == old(self).pos,
    {
        let ch = self.peek();
        if let Some(c) = ch {
            self.pos = self.pos + 1;
            if c == '\n' {
                self.line = self.line.saturating_add(1);
                self.column = 1;
            } else {
                self.column = self.column.saturating_add(1);
            }
        }
        ch
    }

    fn error(&self, message: &str) -> (r: KicadSymError)
        requires
            self.ok(),
        ensures
            r@ == error_at(self.chars@, (message@, self.pos as int)),
            r@ == (message@, Some(self.line), Some(self.column)),
    {
        KicadSymError::with_pos(message, self.line, self.column)
    }

    fn expect(&mut self, expected: char) -> (r: Result<(), KicadSymError>)
        requires
            old(self).ok(),
        ensures
            final(self).ok(),
            final(self).chars@ == old(self).chars@,
            r is Ok <==> old(self).pos < old(self).chars.len() && old(self).chars@[old(self).pos as int]
                == expected,
            r is Ok ==> final(self).pos == old(self).pos + 1,
            r is Err ==> r->Err_0@.1 is Some && r->Err_0@.2 is Some,
    {
        match self.next() {
            Some(ch) => {
                if ch == expected {
                    Ok(())
                } else {
                    Err(self.error("unexpected character"))
                }
            },
            None => Err(self.error("unexpected end of input")),
        }
    }

    fn skip_whitespace(&mut self)
        requires
            old(self).ok(),
        ensures
            final(self).ok(),
            final(self).chars@ == old(self).chars@,
            old(self).pos <= final(self).pos,
            skip(final(self).chars@, final(self).pos as int) == skip(old(self).chars@, old(self).pos as int),
            final(self).pos < final(self).chars.len() ==> !is_ws(final(self).chars@[final(self).pos as int]),
    {
        loop
            invariant
                self.ok(),
                self.chars@ == old(self).chars@,
                old(self).pos <= self.pos,
                skip(self.chars@, self.pos as int) == skip(old(self).chars@, old(self).pos as int),
            decreases self.chars.len() - self.pos,
        {
            match self.peek() {
                Some(ch) => {
                    if !is_whitespace(ch) {
                        return;
                    }
                    self.next();
                },
                None => return,
            }
        }
    }

    fn consume_comment(&mut self)
        requires
            old(self).ok(),
            old(self).pos < old(self).chars.len(),
            old(self).chars@[old(self).pos as int] == ';' || old(self).chars@[old(self).pos as int] == '#',
        ensures
            final(self).ok(),
            final(self).chars@ == old(self).chars@,
            old(self).pos < final(self).pos,
            skip(final(self).chars@, final(self).pos as int) == skip(old(self).chars@, old(self).pos as int),
    {
        self.next();
        loop
            invariant
                self.ok(),
                self.chars@ == old(self).chars@,
                old(self).pos < self.pos,
                skip_comment(self.chars@, self.pos as int) == skip(old(self).chars@, old(self).pos as int),
            decreases self.chars.len() - self.pos,
        {
            match self.next() {
                Some(ch) => {
                    if ch == '\n' {
                        return;
                    }
                },
                None => return,
            }
        }
    }

    fn skip_ws_and_comments(&mut self)
        requires
            old(self).ok(),
        ensures
            final(self).ok(),
            final(self).chars@ == old(self).chars@,
            final(self).pos == skip(old(self).chars@, old(self).pos as int),
    {
        loop
            invariant
                self.ok(),
                self.chars@ == old(self).chars@,
                old(self).pos <= self.pos,
                skip(self.chars@, self.pos as int) == skip(old(self).chars@, old(self).pos as int),
            decreases self.chars.len() - self.pos,
        {
            self.skip_whitespace();
            match self.peek() {
                Some(ch) => {
                    if ch == ';' || ch == '#' {
                        self.consume_comment();
                    } else {
                        return;
                    }
                },
                None => return,
            }
        }
    }

    fn parse_all(&mut self) -> (r: Result<Vec<Sexp>, KicadSymError>)
        requires
            old(self).ok(),
        ensures
            final(self).chars@ == old(self).chars@,
            match p_all(old(self).chars@, old(self).pos as int) {
                Some(xs) => r is Ok && nodes_of(r->Ok_0@) == xs,
                None => r is Err && r->Err_0@ == error_at(old(self).chars@, all_error(old(self).chars@, old(self).pos as int)),
            },
    {
        let mut items: Vec<Sexp> = Vec::new();
        let ghost s = self.chars@;
        loop
            invariant
                self.ok(),
                self.chars@ == s,
                s == old(self).chars@,
                p_all(s, old(self).pos as int) == match p_all(s, self.pos as int) {
                    Some(ys) => Some(nodes_of(items@) + ys),
                    None => None,
                },
                all_error(s, old(self).pos as int) == all_error(s, self.pos as int),
            decreases self.chars.len() - self.pos,
        {
            let ghost at = self.pos as int;
            proof {
                lemma_skip(s, at);
            }
            self.skip_ws_and_comments();
            if self.peek().is_none() {
                assert(p_all(s, at) == Some(Seq::<Node>::empty()));
                assert(nodes_of(items@) + Seq::<Node>::empty() =~= nodes_of(items@));
                return Ok(items);
            }
            let x = self.parse_sexp()?;
            let ghost xv = x@;
            let ghost before_items = items@;
            items.push(x);
            assert(nodes_of(items@) =~= nodes_of(before_items).push(xv));
            proof {
                let ghost prev = nodes_of(items@).drop_last();
                match p_all(s, self.pos as int) {
                    Some(ys) => {
                        assert(prev + (seq![xv] + ys) =~= nodes_of(items@) + ys);
                    },
                    None => {},
                }
            }
        }
    }

    fn parse_sexp(&mut self) -> (r: Result<Sexp, KicadSymError>)
        requires
            old(self).ok(),
        ensures
            final(self).ok(),
            final(self).chars@ == old(self).chars@,
            match p_sexp(old(self).chars@, old(self).pos as int) {
                Some((n, e)) => r is Ok && r->Ok_0@ == n && final(self).pos == e,
                None => r is Err && r->Err_0@ == error_at(old(self).chars@, sexp_error(old(self).chars@, old(self).pos as int)),
            },
            r is Ok ==> final(self).pos > old(self).pos,
        decreases old(self).chars.len() - old(self).pos, 1int,
    {
        let ghost s = self.chars@;
        proof {
            lemma_skip(s, self.pos as int);
        }
        self.skip_ws_and_comments();
        match self.peek() {
            Some(ch) => {
                if ch == '(' {
                    self.parse_list()
                } else if ch == '"' {
                    self.parse_quoted_atom()
                } else if ch == ')' {
                    Err(self.error("unexpected ')'"))
                } else {
                    self.parse_bare_atom()
                }
            },
            None => Err(self.error("unexpected end of input")),
        }
    }

    fn parse_list(&mut self) -> (r: Result<Sexp, KicadSymError>)
        requires
            old(self).ok(),
            old(self).pos < old(self).chars.len(),
            old(self).chars@[old(self).pos as int] == '(',
        ensures
            final(self).ok(),
            final(self).chars@ == old(self).chars@,
            match p_items(old(self).chars@, old(self).pos + 1) {
                Some((xs, e)) => r is Ok && r->Ok_0@ == Node::Branch(xs) && final(self).pos == e,
                None => r is Err && r->Err_0@ == error_at(old(self).chars@, items_error(old(self).chars@, old(self).pos + 1)),
            },
            r is Ok ==> final(self).pos > old(self).pos,
        decreases old(self).chars.len() - old(self).pos, 0int,
    {
        let ghost s = self.chars@;
        let ghost start = self.pos + 1;
        self.expect('(')?;
        let mut items: Vec<Sexp> = Vec::new();
        loop
            invariant
                self.ok(),
                self.chars@ == s,
                s == old(self).chars@,
                start == old(self).pos + 1,
                start <= self.pos,
                p_items(s, start) == match p_items(s, self.pos as int) {
                    Some((ys, e)) => Some((nodes_of(items@) + ys, e)),
                    None => None,
                },
                items_error(s, start) == items_error(s, self.pos as int),
            decreases self.chars.len() - self.pos,
        {
            let ghost at = self.pos as int;
            proof {
                lemma_skip(s, at);
            }
            self.skip_ws_and_comments();
            match self.peek() {
                Some(ch) => {
                    if ch == ')' {
                        self.next();
                        assert(p_items(s, at) == Some((Seq::<Node>::empty(), self.pos as int)));
                        assert(nodes_of(items@) + Seq::<Node>::empty() =~= nodes_of(items@));
                        proof {
                            lemma_list_view(items);
                        }
                        return Ok(Sexp::List(items));
                    }
                },
                None => {
                    return Err(self.error("unterminated list"));
                },
            }
            let x = self.parse_sexp()?;
            let ghost xv = x@;
            let ghost before_items = items@;
            items.push(x);
            assert(nodes_of(items@) =~= nodes_of(before_items).push(xv));
            proof {
                let ghost prev = nodes_of(items@).drop_last();
                match p_items(s, self.pos as int) {
                    Some((ys, e)) => {
                        assert(prev + (seq![xv] + ys) =~= nodes_of(items@) + ys);
                    },
                    None => {},
                }
            }
        }
    }

    fn parse_bare_atom(&mut self) -> (r: Result<Sexp, KicadSymError>)
        requires
            old(self).ok(),
            old(self).pos < old(self).chars.len(),
            !is_stop(old(self).chars@[old(self).pos as int]),
        ensures
            final(self).ok(),
            final(self).chars@ == old(self).chars@,
            r is Ok,
            r->Ok_0@ == Node::Leaf(
                old(self).chars@.subrange(old(self).pos as int, bare_end(old(self).chars@, old(self).pos as int)),
                false,
            ),
            final(self).pos == bare_end(old(self).chars@, old(self).pos as int),
            final(self).pos > old(self).pos,
    {
        let ghost s = self.chars@;
        let start = self.pos;
        let mut value: Vec<char> = Vec::new();
        loop
            invariant
                self.ok(),
                self.chars@ == s,
                s == old(self).chars@,
                start == old(self).pos,
                start <= self.pos,
                value@ == s.subrange(start as int, self.pos as int),
                bare_end(s, self.pos as int) == bare_end(s, start as int),
                start < s.len(),
                self.pos == start ==> !is_stop(s[start as int]),
            decreases self.chars.len() - self.pos,
        {
            match self.peek() {
                Some(ch) => {
                    if is_whitespace(ch) || ch == '(' || ch == ')' || ch == '"' || ch == ';' || ch == '#' {
                        let text = string_of(&value);
                        return Ok(Sexp::Atom(Atom { value: text, quoted: false }));
                    }
                    self.next();
                    value.push(ch);
                    assert(value@ =~= s.subrange(start as int, self.pos as int));
                },
                None => {
                    let text = string_of(&value);
                    return Ok(Sexp::Atom(Atom { value: text, quoted: false }));
                },
            }
        }
    }

    fn parse_quoted_atom(&mut self) -> (r: Result<Sexp, KicadSymError>)
        requires
            old(self).ok(),
            old(self).pos < old(self).chars.len(),
            old(self).chars@[old(self).pos as int] == '"',
        ensures
            final(self).ok(),
            final(self).chars@ == old(self).chars@,
            match quoted_rest(old(self).chars@, old(self).pos + 1) {
                Some((v, e)) => r is Ok && r->Ok_0@ == Node::Leaf(v, true) && final(self).pos == e,
                None => r is Err && r->Err_0@ == error_at(old(self).chars@, quoted_error(old(self).chars@, old(self).pos + 1)),
            },
            r is Ok ==> final(self).pos > old(self).pos,
    {
        let ghost s = self.chars@;
        let ghost start = self.pos + 1;
        self.expect('"')?;
        let mut value: Vec<char> = Vec::new();
        loop
            invariant
                self.ok(),
                self.chars@ == s,
                s == old(self).chars@,
                start == old(self).pos + 1,
                start <= self.pos,
                quoted_rest(s, start) == match quoted_rest(s, self.pos as int) {
                    Some((v, e)) => Some((value@ + v, e)),
                    None => None,
                },
                quoted_error(s, start) == quoted_error(s, self.pos as int),
            decreases self.chars.len() - self.pos,
        {
            let ghost at = self.pos as int;
            let ghost before = value@;
            let ch = match self.next() {
                Some(c) => c,
                None => {
                    return Err(self.error("unterminated string"));
                },
            };
            if ch == '"' {
                assert(before + Seq::<char>::empty() =~= before);
                let text = string_of(&value);
                return Ok(Sexp::Atom(Atom { value: text, quoted: true }));
            } else if ch == '\\' {
                let esc = match self.next() {
                    Some(c) => c,
                    None => {
                        return Err(self.error("unterminated escape"));
                    },
                };
                if esc == 'n' {
                    value.push('\n');
                } else if esc == 'r' {
                    value.push('\r');
                } else if esc == 't' {
                    value.push('\t');
                } else {
                    value.push(esc);
                }
                proof {
                    match quoted_rest(s, self.pos as int) {
                        Some((v, e)) => {
                            assert(before + (seq![unescape(esc)] + v) =~= value@ + v);
                        },
                        None => {},
                    }
                }
            } else {
                value.push(ch);
                proof {
                    match quoted_rest(s, self.pos as int) {
                        Some((v, e)) => {
                            assert(before + (seq![ch] + v) =~= value@ + v);
                        },
                        None => {},
                    }
                }
            }
        }
    }
}

/// Parses every top-level expression of `input`.
pub fn parse_sexps(input: &str) -> (r: Result<Vec<Sexp>, KicadSymError>)
    ensures
        match parse_text(input@) {
            Some(xs) => r is Ok && nodes_of(r->Ok_0@) == xs,
            None => r is Err && r->Err_0@ == parse_error(input@),
        },
{
    let mut parser = Parser::new(input);
    parser.parse_all()
}

/// Parses a text that holds exactly one expression.
pub fn parse_one(input: &str) -> (r: Result<Sexp, KicadSymError>)
    ensures
        match parse_text(input@) {
            Some(xs) => if xs.len() == 1 {
                r is Ok && r->Ok_0@ == xs[0]
            } else {
                r is Err && r->Err_0@ == ("expected a single top-level S-expression"@, None::<usize>, None::<usize>)
            },
            None => r is Err && r->Err_0@ == parse_error(input@),
        },
{
    let mut items = parse_sexps(input)?;
    if items.len() != 1 {
        return Err(KicadSymError::new(String::from_str("expected a single top-level S-expression")));
    }
    let ghost xs = nodes_of(items@);
    let x = items.remove(0);
    assert(xs[0] == x@);
    Ok(x)
}

/// The text of an atom; `None` for a list.
pub open spec fn atom_of(n: Node) -> Option<Seq<char>> {
    match n {
        Node::Leaf(v, _) => Some(v),
        Node::Branch(_) => None,
    }
}

/// The children of a list; empty for an atom.
pub open spec fn children(n: Node) -> Seq<Node> {
    match n {
        Node::Branch(xs) => xs,
        Node::Leaf(..) => Seq::empty(),
    }
}

/// The name of a `(symbol <name> ...)` entry.
pub open spec fn symbol_name(n: Node) -> Option<Seq<char>> {
    let xs = children(n);
    if n is Branch && xs.len() >= 2 && atom_of(xs[0]) == Some("symbol"@) {
        atom_of(xs[1])
    } else {
        None
    }
}

/// Whether `n` is a list that starts with the atom `property`.
pub open spec fn is_property(n: Node) -> bool {
    let xs = children(n);
    n is Branch && xs.len() >= 1 && atom_of(xs[0]) == Some("property"@)
}

/// Whether `n` is a `(property <key> <value> ...)` entry for `key`.
pub open spec fn property_for(n: Node, key: Seq<char>) -> bool {
    let xs = children(n);
    is_property(n) && xs.len() >= 3 && atom_of(xs[1]) == Some(key)
}

/// The value of `n` when it is a property entry for `key` whose value is an atom.
pub open spec fn property_of(n: Node, key: Seq<char>) -> Option<Seq<char>> {
    if property_for(n, key) {
        atom_of(children(n)[2])
    } else {
        None
    }
}

/// The first value for `key` among `xs[k..]`.
pub open spec fn first_value(xs: Seq<Node>, key: Seq<char>, k: int) -> Option<Seq<char>>
    decreases xs.len() - k,
{
    if k < 0 || k >= xs.len() {
        None
    } else if property_of(xs[k], key) is Some {
        property_of(xs[k], key)
    } else {
        first_value(xs, key, k + 1)
    }
}

/// The index of the first property entry for `key` among `xs[k..]`.
pub open spec fn first_entry(xs: Seq<Node>, key: Seq<char>, k: int) -> Option<int>
    decreases xs.len() - k,
{
    if k < 0 || k >= xs.len() {
        None
    } else if property_for(xs[k], key) {
        Some(k)
    } else {
        first_entry(xs, key, k + 1)
    }
}

/// The first list among `xs[k..]` that starts with `property`.
pub open spec fn first_property(xs: Seq<Node>, k: int) -> Option<Node>
    decreases xs.len() - k,
{
    if k < 0 || k >= xs.len() {
        None
    } else if is_property(xs[k]) {
        Some(xs[k])
    } else {
        first_property(xs, k + 1)
    }
}

/// `xs` with the element at `k` replaced, or `x` appended where `k` is past the end.
pub open spec fn put(xs: Seq<Node>, k: int, x: Node) -> Seq<Node> {
    if k < xs.len() {
        xs.update(k, x)
    } else {
        xs.push(x)
    }
}

/// The entry that a new property gets: a copy of `template` (when there is one) with
/// the key and value in its second and third places, else a bare three-element entry.
pub open spec fn new_property(template: Option<Node>, key: Seq<char>, value: Seq<char>) -> Node {
    match template {
        Some(t) => Node::Branch(put(put(children(t), 1, Node::Leaf(key, true)), 2, Node::Leaf(value, false))),
        None => Node::Branch(seq![Node::Leaf("property"@, false), Node::Leaf(key, true), Node::Leaf(value, false)]),
    }
}

/// The tree after setting the property `key` to `value`: the first entry for `key`
/// gets the new value in place; without one, a new entry is appended.
pub open spec fn with_property(n: Node, key: Seq<char>, value: Seq<char>) -> Node {
    let xs = children(n);
    match first_entry(xs, key, 0) {
        Some(i) => Node::Branch(xs.update(i, Node::Branch(children(xs[i]).update(2, Node::Leaf(value, false))))),
        None => Node::Branch(xs.push(new_property(first_property(xs, 0), key, value))),
    }
}

fn atom_is(n: &Sexp, word: &str) -> (r: bool)
    ensures
        r == (atom_of(n@) == Some(word@)),
{
    match n {
        Sexp::Atom(a) => str_eq(a.value.as_str(), word),
        Sexp::List(_) => false,
    }
}

fn atom_text_of(n: &Sexp) -> (r: Option<&str>)
    ensures
        match atom_of(n@) {
            Some(v) => r is Some && r->Some_0@ == v,
            None => r is None,
        },
{
    match n {
        Sexp::Atom(a) => Some(a.value.as_str()),
        Sexp::List(_) => None,
    }
}

fn symbol_name_of(n: &Sexp) -> (r: Option<&str>)
    ensures
        match symbol_name(n@) {
            Some(v) => r is Some && r->Some_0@ == v,
            None => r is None,
        },
{
    match n {
        Sexp::List(items) => {
            proof {
                lemma_list_view(*items);
            }
            if items.len() < 2 {
                return None;
            }
            if !atom_is(&items[0], "symbol") {
                return None;
            }
            atom_text_of(&items[1])
        },
        Sexp::Atom(_) => None,
    }
}

fn is_property_list(n: &Sexp) -> (r: bool)
    ensures
        r == is_property(n@),
{
    match n {
        Sexp::List(items) => {
            proof {
                lemma_list_view(*items);
            }
            items.len() >= 1 && atom_is(&items[0], "property")
        },
        Sexp::Atom(_) => false,
    }
}

fn is_property_for(n: &Sexp, key: &str) -> (r: bool)
    ensures
        r == property_for(n@, key@),
{
    match n {
        Sexp::List(items) => {
            proof {
                lemma_list_view(*items);
            }
            if items.len() < 3 || !is_property_list(n) {
                return false;
            }
            match atom_text_of(&items[1]) {
                Some(k) => str_eq(k, key),
                None => false,
            }
        },
        Sexp::Atom(_) => false,
    }
}

/// One component definition: a tree of the shape `(symbol <name> ...)`.
#[derive(Debug)]
pub struct Symbol {
    name: String,
    sexp: Sexp,
}

impl View for Symbol {
    type V = Node;

    closed spec fn view(&self) -> Node {
        self.sexp@
    }
}

impl Symbol {
    /// The symbol's tree is a list whose name is the cached one.
    pub closed spec fn wf(&self) -> bool {
        self.sexp is List && symbol_name(self.sexp@) == Some(self.name@)
    }

    pub proof fn lemma_wf(&self)
        requires
            self.wf(),
        ensures
            self@ is Branch,
            symbol_name(self@) is Some,
    {
    }

    pub fn parse(input: &str) -> (r: Result<Symbol, KicadSymError>)
        ensures
            match parse_single(input@) {
                Some(n) => match r {
                    Ok(sym) => symbol_name(n) is Some && sym.wf() && sym@ == n,
                    Err(_) => symbol_name(n) is None,
                },
                None => r is Err,
            },
    {
        let mut parser = Parser::new(input);
        let mut items = parser.parse_all()?;
        if items.len() != 1 {
            return Err(KicadSymError::new(String::from_str("expected a single top-level S-expression for symbol")));
        }
        let ghost xs = nodes_of(items@);
        let x = items.remove(0);
        assert(xs[0] == x@);
        Symbol::from_sexp(x)
    }

    pub fn from_sexp(sexp: Sexp) -> (r: Result<Symbol, KicadSymError>)
        ensures
            match r {
                Ok(sym) => symbol_name(sexp@) is Some && sym.wf() && sym@ == sexp@,
                Err(_) => symbol_name(sexp@) is None,
            },
    {
        let name = match symbol_name_of(&sexp) {
            Some(n) => String::from_str(n),
            None => {
                return Err(KicadSymError::new(String::from_str("symbol must be a list like (symbol <name> ...)")));
            },
        };
        Ok(Symbol { name, sexp })
    }

    pub fn name(&self) -> (r: &str)
        requires
            self.wf(),
        ensures
            symbol_name(self@) == Some(r@),
    {
        self.name.as_str()
    }

    pub fn property_value(&self, name: &str) -> (r: Option<String>)
        requires
            self.wf(),
        ensures
            match first_value(children(self@), name@, 0) {
                Some(v) => r is Some && r->Some_0@ == v,
                None => r is None,
            },
    {
        let items = match &self.sexp {
            Sexp::List(items) => items,
            Sexp::Atom(_) => {
                return None;
            },
        };
        proof {
            lemma_list_view(*items);
        }
        let ghost xs = nodes_of(items@);
        let mut i: usize = 0;
        while i < items.len()
            invariant
                i <= items.len(),
                xs == nodes_of(items@),
                xs == children(self@),
                first_value(xs, name@, 0) == first_value(xs, name@, i as int),
            decreases items.len() - i,
        {
            if is_property_for(&items[i], name) {
                proof {
                    lemma_list_view_of(&items[i as int]);
                }
                match &items[i] {
                    Sexp::List(inner) => {
                        if let Some(v) = atom_text_of(&inner[2]) {
                            return Some(String::from_str(v));
                        }
                    },
                    Sexp::Atom(_) => {},
                }
            }
            i = i + 1;
        }
        None
    }

    pub fn set_property_value(&mut self, name: &str, value: &str) -> (r: bool)
        requires
            old(self).wf(),
        ensures
            final(self).wf(),
            r == first_entry(children(old(self)@), name@, 0) is Some,
            r ==> final(self)@ == with_property(old(self)@, name@, value@),
            !r ==> final(self)@ == old(self)@,
    {
        let ghost xs = children(self@);
        proof {
            lemma_list_view_of(&self.sexp);
        }
        let mut root = Sexp::List(Vec::new());
        std::mem::swap(&mut root, &mut self.sexp);
        let mut items = match root {
            Sexp::List(items) => items,
            Sexp::Atom(a) => {
                self.sexp = Sexp::Atom(a);
                return false;
            },
        };
        proof {
            lemma_list_view(items);
        }
        let mut i: usize = 0;
        while i < items.len()
            invariant
                i <= items.len(),
                xs == nodes_of(items@),
                xs == children(old(self)@),
                old(self)@ == Node::Branch(xs),
                self.name == old(self).name,
                symbol_name(Node::Branch(xs)) == Some(self.name@),
                first_entry(xs, name@, 0) == first_entry(xs, name@, i as int),
            decreases items.len() - i,
        {
            if is_property_for(&items[i], name) {
                assert(xs[i as int] == items@[i as int]@);
                assert(first_entry(xs, name@, i as int) == Some(i as int));
                assert(i >= 2);
                let mut entry = Sexp::List(Vec::new());
                std::mem::swap(&mut entry, &mut items[i]);
                let ghost old_entry = entry@;
                let mut inner = match entry {
                    Sexp::List(inner) => inner,
                    Sexp::Atom(_) => Vec::new(),
                };
                proof {
                    lemma_list_view(inner);
                }
                inner[2] = Sexp::Atom(Atom::new(value));
                proof {
                    lemma_list_view(inner);
                    assert(nodes_of(inner@) =~= children(old_entry).update(2, Node::Leaf(value@, false)));
                }
                items[i] = Sexp::List(inner);
                proof {
                    lemma_list_view(items);
                    assert(nodes_of(items@) =~= xs.update(
                        i as int,
                        Node::Branch(children(xs[i as int]).update(2, Node::Leaf(value@, false))),
                    ));
                }
                self.sexp = Sexp::List(items);
                assert(symbol_name(self.sexp@) == Some(self.name@));
                return true;
            }
            i = i + 1;
        }
        proof {
            lemma_list_view(items);
        }
        self.sexp = Sexp::List(items);
        false
    }
}

impl Symbol {
    pub fn set_or_add_property(&mut self, name: &str, value: &str)
        requires
            old(self).wf(),
        ensures
            final(self).wf(),
            final(self)@ == with_property(old(self)@, name@, value@),
    {
        if self.set_property_value(name, value) {
            return;
        }
        let ghost xs = children(self@);
        proof {
            lemma_list_view_of(&self.sexp);
        }
        let mut root = Sexp::List(Vec::new());
        std::mem::swap(&mut root, &mut self.sexp);
        let mut items = match root {
            Sexp::List(items) => items,
            Sexp::Atom(a) => {
                self.sexp = Sexp::Atom(a);
                return;
            },
        };
        proof {
            lemma_list_view(items);
        }
        let mut template: Option<Vec<Sexp>> = None;
        let mut i: usize = 0;
        while i < items.len()
            invariant_except_break
                template is None,
                first_property(xs, 0) == first_property(xs, i as int),
            invariant
                i <= items.len(),
                xs == nodes_of(items@),
            ensures
                first_property(xs, 0) == match template {
                    Some(t) => Some(Node::Branch(nodes_of(t@))),
                    None => None,
                },
                template is Some ==> nodes_of(template->Some_0@).len() >= 1,
            decreases items.len() - i,
        {
            if is_property_list(&items[i]) {
                proof {
                    lemma_list_view_of(&items[i as int]);
                }
                let copy = items[i].duplicate();
                proof {
                    lemma_list_view_of(&copy);
                    assert(xs[i as int] == items@[i as int]@);
                }
                match copy {
                    Sexp::List(inner) => {
                        proof {
                            lemma_list_view(inner);
                        }
                        template = Some(inner);
                    },
                    Sexp::Atom(_) => {},
                }
                break;
            }
            i = i + 1;
        }
        let entry = match template {
            Some(mut t) => {
                let ghost t0 = nodes_of(t@);
                if t.len() >= 2 {
                    t[1] = Sexp::Atom(Atom::new_quoted(name));
                } else {
                    t.push(Sexp::Atom(Atom::new_quoted(name)));
                }
                let ghost t1 = nodes_of(t@);
                assert(t1 =~= put(t0, 1, Node::Leaf(name@, true)));
                if t.len() >= 3 {
                    t[2] = Sexp::Atom(Atom::new(value));
                } else {
                    t.push(Sexp::Atom(Atom::new(value)));
                }
                assert(nodes_of(t@) =~= put(t1, 2, Node::Leaf(value@, false)));
                proof {
                    lemma_list_view(t);
                }
                Sexp::List(t)
            },
            None => {
                let e = vec![
                    Sexp::Atom(Atom::new("property")),
                    Sexp::Atom(Atom::new_quoted(name)),
                    Sexp::Atom(Atom::new(value)),
                ];
                proof {
                    lemma_list_view(e);
                    assert(nodes_of(e@) =~= seq![
                        Node::Leaf("property"@, false),
                        Node::Leaf(name@, true),
                        Node::Leaf(value@, false),
                    ]);
                }
                Sexp::List(e)
            },
        };
        assert(entry@ == new_property(first_property(xs, 0), name@, value@));
        let ghost ev = entry@;
        items.push(entry);
        proof {
            lemma_list_view(items);
            assert(nodes_of(items@) =~= xs.push(ev));
        }
        self.sexp = Sexp::List(items);
    }

    pub fn into_sexp(self) -> (r: Sexp)
        ensures
            r@ == self@,
    {
        self.sexp
    }
}

/// What `add_symbol` does when the library already holds a symbol of the same name.
#[derive(Clone, Copy, Debug, PartialEq, Eq)]
pub enum AddPolicy {
    ErrorOnConflict,
    ReplaceExisting,
    SkipExisting,
}

/// Whether `n` is a list that starts with the atom `kicad_symbol_lib`.
pub open spec fn is_lib_root(n: Node) -> bool {
    n is Branch && children(n).len() >= 1 && atom_of(children(n)[0]) == Some("kicad_symbol_lib"@)
}

/// The symbol entries among `xs[1..k]`, in order.
pub open spec fn symbol_entries(xs: Seq<Node>, k: int) -> Seq<Node>
    decreases k,
{
    if k <= 1 || k > xs.len() {
        Seq::empty()
    } else if symbol_name(xs[k - 1]) is Some {
        symbol_entries(xs, k - 1).push(xs[k - 1])
    } else {
        symbol_entries(xs, k - 1)
    }
}

/// The symbols of a library tree, in order.
pub open spec fn library_symbols(n: Node) -> Seq<Node> {
    symbol_entries(children(n), children(n).len() as int)
}

/// The names of the symbols of a library tree, in order.
pub open spec fn library_names(n: Node) -> Seq<Seq<char>> {
    library_symbols(n).map_values(|x: Node| symbol_name(x)->Some_0)
}

/// The index of the first symbol named `name` among `xs[k..]`.
pub open spec fn first_symbol(xs: Seq<Node>, name: Seq<char>, k: int) -> Option<int>
    decreases xs.len() - k,
{
    if k < 0 || k >= xs.len() {
        None
    } else if symbol_name(xs[k]) == Some(name) {
        Some(k)
    } else {
        first_symbol(xs, name, k + 1)
    }
}

/// The trees of a sequence of symbols.
pub open spec fn symbol_nodes(v: Seq<Symbol>) -> Seq<Node> {
    Seq::new(v.len(), |i: int| v[i]@)
}

/// A symbol library: a tree of the shape `(kicad_symbol_lib ...)`.
#[derive(Debug)]
pub struct KicadSymbolLib {
    root: Sexp,
}

impl View for KicadSymbolLib {
    type V = Node;

    closed spec fn view(&self) -> Node {
        self.root@
    }
}

impl KicadSymbolLib {
    pub closed spec fn wf(&self) -> bool {
        self.root is List && is_lib_root(self.root@)
    }

    pub fn parse(input: &str) -> (r: Result<KicadSymbolLib, KicadSymError>)
        ensures
            match parse_single(input@) {
                Some(n) => match r {
                    Ok(lib) => is_lib_root(n) && lib.wf() && lib@ == n,
                    Err(_) => !is_lib_root(n),
                },
                None => r is Err,
            },
    {
        let mut parser = Parser::new(input);
        let mut items = parser.parse_all()?;
        if items.len() != 1 {
            return Err(KicadSymError::new(String::from_str("expected a single top-level S-expression for library")));
        }
        let ghost xs = nodes_of(items@);
        let root = items.remove(0);
        assert(xs[0] == root@);
        proof {
            lemma_list_view_of(&root);
        }
        let ok = match &root {
            Sexp::List(children) => children.len() >= 1 && atom_is(&children[0], "kicad_symbol_lib"),
            Sexp::Atom(_) => false,
        };
        if !ok {
            return Err(KicadSymError::new(String::from_str("expected root list to start with kicad_symbol_lib")));
        }
        Ok(KicadSymbolLib { root })
    }

    pub fn symbols(&self) -> (r: Result<Vec<Symbol>, KicadSymError>)
        requires
            self.wf(),
        ensures
            r is Ok,
            symbol_nodes(r->Ok_0@) == library_symbols(self@),
            forall|i: int| 0 <= i < r->Ok_0@.len() ==> (#[trigger] r->Ok_0@[i]).wf(),
    {
        let items = match &self.root {
            Sexp::List(items) => items,
            Sexp::Atom(_) => {
                return Ok(Vec::new());
            },
        };
        proof {
            lemma_list_view(*items);
        }
        let ghost xs = nodes_of(items@);
        let mut out: Vec<Symbol> = Vec::new();
        let mut i: usize = 1;
        while i < items.len()
            invariant
                1 <= i <= items.len(),
                xs == nodes_of(items@),
                symbol_nodes(out@) == symbol_entries(xs, i as int),
                forall|j: int| 0 <= j < out@.len() ==> (#[trigger] out@[j]).wf(),
            decreases items.len() - i,
        {
            if symbol_name_of(&items[i]).is_some() {
                let sym = match Symbol::from_sexp(items[i].duplicate()) {
                    Ok(sym) => sym,
                    Err(e) => {
                        return Err(e);
                    },
                };
                let ghost before = out@;
                out.push(sym);
                assert(symbol_nodes(out@) =~= symbol_nodes(before).push(xs[i as int]));
            }
            i = i + 1;
        }
        Ok(out)
    }

    pub fn add_symbol(&mut self, symbol: Symbol, policy: AddPolicy) -> (r: Result<(), KicadSymError>)
        requires
            old(self).wf(),
            symbol.wf(),
        ensures
            final(self).wf(),
            ({
                let xs = children(old(self)@);
                let name = symbol_name(symbol@)->Some_0;
                match first_symbol(xs, name, 1) {
                    None => r is Ok && final(self)@ == Node::Branch(xs.push(symbol@)),
                    Some(i) => match policy {
                        AddPolicy::ReplaceExisting => r is Ok && final(self)@ == Node::Branch(
                            xs.update(i, symbol@),
                        ),
                        AddPolicy::SkipExisting => r is Ok && *final(self) == *old(self),
                        AddPolicy::ErrorOnConflict => r is Err && *final(self) == *old(self)
                            && r->Err_0@.0 == "symbol already exists: "@ + name,
                    },
                }
            }),
    {
        let ghost xs = children(self@);
        proof {
            lemma_list_view_of(&self.root);
        }
        let mut existing: Option<usize> = None;
        let ghost name = symbol_name(symbol@)->Some_0;
        match &self.root {
            Sexp::List(items) => {
                let mut i: usize = 1;
                while i < items.len()
                    invariant_except_break
                        existing is None,
                        first_symbol(xs, name, 1) == first_symbol(xs, name, i as int),
                    invariant
                        1 <= i <= items.len(),
                        xs == nodes_of(items@),
                        symbol.wf(),
                        name == symbol_name(symbol@)->Some_0,
                    ensures
                        match existing {
                            Some(j) => first_symbol(xs, name, 1) == Some(j as int) && 1 <= j < items.len(),
                            None => first_symbol(xs, name, 1) is None,
                        },
                    decreases items.len() - i,
                {
                    proof {
                        symbol.lemma_wf();
                    }
                    let found = match symbol_name_of(&items[i]) {
                        Some(n) => str_eq(n, symbol.name()),
                        None => false,
                    };
                    if found {
                        assert(xs[i as int] == items@[i as int]@);
                        assert(symbol_name(xs[i as int]) == Some(name));
                        assert(first_symbol(xs, name, i as int) == Some(i as int));
                        existing = Some(i);
                        break;
                    }
                    i = i + 1;
                }
            },
            Sexp::Atom(_) => {},
        }
        assert(match existing {
            Some(i) => first_symbol(xs, name, 1) == Some(i as int) && 1 <= i < xs.len(),
            None => first_symbol(xs, name, 1) is None,
        });
        match existing {
            Some(idx) => {
                match policy {
                    AddPolicy::SkipExisting => {
                        return Ok(());
                    },
                    AddPolicy::ErrorOnConflict => {
                        let mut message = String::from_str("symbol already exists: ");
                        message.append(symbol.name());
                        return Err(KicadSymError::new(message));
                    },
                    AddPolicy::ReplaceExisting => {},
                }
            },
            None => {},
        }
        let mut root = Sexp::List(Vec::new());
        std::mem::swap(&mut root, &mut self.root);
        let mut items = match root {
            Sexp::List(items) => items,
            Sexp::Atom(a) => {
                self.root = Sexp::Atom(a);
                return Ok(());
            },
        };
        proof {
            lemma_list_view(items);
        }
        let ghost sv = symbol@;
        match existing {
            Some(idx) => {
                items[idx] = symbol.into_sexp();
                proof {
                    lemma_list_view(items);
                    assert(nodes_of(items@) =~= xs.update(idx as int, sv));
                }
            },
            None => {
                items.push(symbol.into_sexp());
                proof {
                    lemma_list_view(items);
                    assert(nodes_of(items@) =~= xs.push(sv));
                }
            },
        }
        self.root = Sexp::List(items);
        Ok(())
    }

    pub fn to_string_pretty(&self) -> (r: String)
        ensures
            r@ == pretty(self@, seq!['\t']),
    {
        self.root.to_string_pretty()
    }
}

pub proof fn lemma_list_view_of(n: &Sexp)
    ensures
        n is List ==> n@ == Node::Branch(nodes_of(n->List_0@)),
        n is Atom ==> n@ is Leaf,
{
    if let Sexp::List(items) = n {
        lemma_list_view(*items);
    }
}

} // verus!
