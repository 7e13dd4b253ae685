//! Markup parsing: turn document text into a node tree.
use vstd::prelude::*;
use crate::css::space_char;
use crate::dom::{AttrMap, Node};
use crate::strutil::{chars_to_string, str_eq};

verus! {

/// A point in the source where parsing could not continue.
#[derive(Debug, Clone, Copy, PartialEq, Eq, Structural)]
pub struct ParseError {
    pub position: usize,
}

pub open spec fn is_alnum_char(c: char) -> bool {
    ||| 'a' <= c <= 'z'
    ||| 'A' <= c <= 'Z'
    ||| '0' <= c <= '9'
}

fn alnum_char(c: char) -> (r: bool)
    ensures
        r == is_alnum_char(c),
{
    ('a' <= c && c <= 'z') || ('A' <= c && c <= 'Z') || ('0' <= c && c <= '9')
}

/// Elements that never carry children or a closing tag.
fn is_self_closing_tag(name: &str) -> (r: bool)
{
    str_eq(name, "area") || str_eq(name, "base") || str_eq(name, "br") || str_eq(name, "col")
        || str_eq(name, "embed") || str_eq(name, "hr") || str_eq(name, "img") || str_eq(
        name,
        "input",
    ) || str_eq(name, "link") || str_eq(name, "meta") || str_eq(name, "param") || str_eq(
        name,
        "source",
    ) || str_eq(name, "track") || str_eq(name, "wbr") || str_eq(name, "command") || str_eq(
        name,
        "keygen",
    ) || str_eq(name, "menuitem")
}

struct Parser {
    pos: usize,
    input: Vec<char>,
}

impl Parser {
    spec fn wf(self) -> bool {
        self.pos <= self.input@.len()
    }

    fn eof(&self) -> (r: bool)
        requires
            self.wf(),
        ensures
            r == (self.pos == self.input@.len()),
    {
        self.pos >= self.input.len()
    }

    fn next_char(&self) -> (r: char)
        requires
            self.pos < self.input@.len(),
        ensures
            r == self.input@[self.pos as int],
    {
        self.input[self.pos]
    }

    fn consume_char(&mut self) -> (r: char)
        requires
            old(self).pos < old(self).input@.len(),
        ensures
            final(self).input == old(self).input,
            final(self).pos == old(self).pos + 1,
            r == old(self).input@[old(self).pos as int],
    {
        // binding the length here bounds the view length by the usize range
        let n = self.input.len();
        let c = self.input[self.pos];
        self.pos = self.pos + 1;
        proof {
            assert(self.pos <= n);
        }
        c
    }

    fn starts_with_close(&self) -> (r: bool)
        requires
            self.wf(),
    {
        let n = self.input.len();
        self.pos < n && self.pos + 1 < n && self.input[self.pos] == '<' && self.input[self.pos
            + 1] == '/'
    }

    fn consume_whitespace(&mut self)
        requires
            old(self).wf(),
        ensures
            final(self).input == old(self).input,
            old(self).pos <= final(self).pos,
            final(self).wf(),
    {
        while self.pos < self.input.len() && space_char(self.input[self.pos])
            invariant
                self.input == old(self).input,
                old(self).pos <= self.pos <= self.input@.len(),
            decreases self.input@.len() - self.pos,
        {
            self.pos = self.pos + 1;
        }
    }

    fn parse_tag_attr_name(&mut self) -> (r: String)
        requires
            old(self).wf(),
        ensures
            final(self).input == old(self).input,
            old(self).pos <= final(self).pos,
            final(self).wf(),
    {
        let mut chars: Vec<char> = Vec::new();
        while self.pos < self.input.len() && alnum_char(self.input[self.pos])
            invariant
                self.input == old(self).input,
                old(self).pos <= self.pos <= self.input@.len(),
            decreases self.input@.len() - self.pos,
        {
            chars.push(self.input[self.pos]);
            self.pos = self.pos + 1;
        }
        chars_to_string(&chars)
    }

    fn parse_text(&mut self) -> (r: Node)
        requires
            old(self).wf(),
        ensures
            final(self).input == old(self).input,
            old(self).pos <= final(self).pos,
            final(self).wf(),
            old(self).pos < old(self).input@.len() && old(self).input@[old(self).pos as int]
                != '<' ==> old(self).pos < final(self).pos,
    {
        let mut chars: Vec<char> = Vec::new();
        while self.pos < self.input.len() && self.input[self.pos] != '<'
            invariant
                self.input == old(self).input,
                old(self).pos <= self.pos <= self.input@.len(),
            decreases self.input@.len() - self.pos,
        {
            chars.push(self.input[self.pos]);
            self.pos = self.pos + 1;
        }
        Node::text(chars_to_string(&chars))
    }

    fn parse_attr_value(&mut self) -> (r: Result<String, ParseError>)
        requires
            old(self).wf(),
        ensures
            final(self).input == old(self).input,
            old(self).pos <= final(self).pos,
            final(self).wf(),
    {
        if self.eof() {
            return Result::Err(ParseError { position: self.pos });
        }
        let open_quote = self.next_char();
        if !(open_quote == '"' || open_quote == '\'') {
            return Result::Err(ParseError { position: self.pos });
        }
        self.consume_char();
        let mut chars: Vec<char> = Vec::new();
        while self.pos < self.input.len() && self.input[self.pos] != open_quote
            invariant
                self.input == old(self).input,
                old(self).pos <= self.pos <= self.input@.len(),
            decreases self.input@.len() - self.pos,
        {
            chars.push(self.input[self.pos]);
            self.pos = self.pos + 1;
        }
        if self.eof() {
            return Result::Err(ParseError { position: self.pos });
        }
        self.consume_char();
        Result::Ok(chars_to_string(&chars))
    }

    fn parse_attr(&mut self) -> (r: Result<(String, String), ParseError>)
        requires
            old(self).wf(),
        ensures
            final(self).input == old(self).input,
            old(self).pos <= final(self).pos,
            final(self).wf(),
            r is Ok ==> old(self).pos < final(self).pos,
    {
        let name = self.parse_tag_attr_name();
        self.consume_whitespace();
        if self.eof() || self.next_char() != '=' {
            return Result::Err(ParseError { position: self.pos });
        }
        self.consume_char();
        self.consume_whitespace();
        let value = match self.parse_attr_value() {
            Result::Ok(v) => v,
            Result::Err(e) => {
                return Result::Err(e);
            },
        };
        Result::Ok((name, value))
    }

    fn parse_attributes(&mut self) -> (r: Result<AttrMap, ParseError>)
        requires
            old(self).wf(),
        ensures
            final(self).input == old(self).input,
            old(self).pos <= final(self).pos,
            final(self).wf(),
    {
        let mut attrs: AttrMap = Vec::new();
        loop
            invariant
                self.input == old(self).input,
                old(self).pos <= self.pos <= self.input@.len(),
            decreases self.input@.len() - self.pos,
        {
            self.consume_whitespace();
            if self.eof() {
                return Result::Err(ParseError { position: self.pos });
            }
            if self.next_char() == '>' {
                break;
            }
            match self.parse_attr() {
                Result::Ok((name, value)) => {
                    insert_attr(&mut attrs, name, value);
                },
                Result::Err(e) => {
                    return Result::Err(e);
                },
            }
        }
        Result::Ok(attrs)
    }

    fn parse_element(&mut self) -> (r: Result<Node, ParseError>)
        requires
            old(self).wf(),
        ensures
            final(self).input == old(self).input,
            old(self).pos <= final(self).pos,
            final(self).wf(),
            r is Ok ==> old(self).pos < final(self).pos,
        decreases self.input@.len() - self.pos, 0int,
    {
        if self.eof() || self.next_char() != '<' {
            return Result::Err(ParseError { position: self.pos });
        }
        self.consume_char();
        self.consume_whitespace();
        let name = self.parse_tag_attr_name();
        let attrs = match self.parse_attributes() {
            Result::Ok(a) => a,
            Result::Err(e) => {
                return Result::Err(e);
            },
        };
        if self.eof() || self.next_char() != '>' {
            return Result::Err(ParseError { position: self.pos });
        }
        self.consume_char();
        if is_self_closing_tag(name.as_str()) {
            return Result::Ok(Node::elem(name, attrs, Vec::new()));
        }
        let children = match self.parse_nodes() {
            Result::Ok(cs) => cs,
            Result::Err(e) => {
                return Result::Err(e);
            },
        };
        if self.eof() || self.next_char() != '<' {
            return Result::Err(ParseError { position: self.pos });
        }
        self.consume_char();
        if self.eof() || self.next_char() != '/' {
            return Result::Err(ParseError { position: self.pos });
        }
        self.consume_char();
        let close_name = self.parse_tag_attr_name();
        if !(close_name == name) {
            return Result::Err(ParseError { position: self.pos });
        }
        if self.eof() || self.next_char() != '>' {
            return Result::Err(ParseError { position: self.pos });
        }
        self.consume_char();
        Result::Ok(Node::elem(name, attrs, children))
    }

    fn parse_node(&mut self) -> (r: Result<Node, ParseError>)
        requires
            old(self).wf(),
        ensures
            final(self).input == old(self).input,
            old(self).pos <= final(self).pos,
            final(self).wf(),
            r is Ok ==> old(self).pos < final(self).pos,
        decreases self.input@.len() - self.pos, 1int,
    {
        if self.eof() {
            return Result::Err(ParseError { position: self.pos });
        }
        if self.next_char() == '<' {
            self.parse_element()
        } else {
            Result::Ok(self.parse_text())
        }
    }

    fn parse_nodes(&mut self) -> (r: Result<Vec<Node>, ParseError>)
        requires
            old(self).wf(),
        ensures
            final(self).input == old(self).input,
            old(self).pos <= final(self).pos,
            final(self).wf(),
        decreases self.input@.len() - self.pos, 2int,
    {
        let mut nodes: Vec<Node> = Vec::new();
        loop
            invariant
                self.input == old(self).input,
                old(self).pos <= self.pos <= self.input@.len(),
            decreases self.input@.len() - self.pos,
        {
            self.consume_whitespace();
            if self.eof() || self.starts_with_close() {
                break;
            }
            match self.parse_node() {
                Result::Ok(node) => {
                    nodes.push(node);
                },
                Result::Err(e) => {
                    return Result::Err(e);
                },
            }
        }
        Result::Ok(nodes)
    }
}

/// Bind an attribute, replacing any earlier binding of the same name.
fn insert_attr(attrs: &mut AttrMap, name: String, value: String)
{
    let mut j: usize = 0;
    let mut found: usize = 0;
    let mut has = false;
    while j < attrs.len()
        invariant
            j <= attrs@.len(),
            has ==> found < attrs@.len(),
        decreases attrs@.len() - j,
    {
        if str_eq(attrs[j].0.as_str(), name.as_str()) {
            found = j;
            has = true;
            break;
        }
        j = j + 1;
    }
    if has {
        attrs.remove(found);
    }
    attrs.push((name, value));
}

fn str_to_chars(s: &str) -> (r: Vec<char>)
    ensures
        r@ == s@,
{
    let n = s.unicode_len();
    let mut r: Vec<char> = Vec::new();
    let mut i: usize = 0;
    while i < n
        invariant
            i <= n,
            n == s@.len(),
            r@ == s@.take(i as int),
        decreases n - i,
    {
        let c = s.get_char(i);
        r.push(c);
        proof {
            assert(r@ =~= s@.take(i as int + 1));
        }
        i = i + 1;
    }
    proof {
        assert(s@.take(n as int) =~= s@);
    }
    r
}

/// Parse markup text into a node tree; several top-level nodes are wrapped
/// under a synthesized `html` element.
pub fn parse(source: String) -> (r: Result<Node, ParseError>)
{
    let mut parser = Parser { pos: 0, input: str_to_chars(source.as_str()) };
    let mut nodes = match parser.parse_nodes() {
        Result::Ok(ns) => ns,
        Result::Err(e) => {
            return Result::Err(e);
        },
    };
    if nodes.len() == 1 {
        Result::Ok(nodes.swap_remove(0))
    } else {
        Result::Ok(Node::elem(String::from_str("html"), Vec::new(), nodes))
    }
}

} // verus!
