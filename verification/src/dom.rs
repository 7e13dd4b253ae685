//! Document tree: element and text nodes with ordered children.
use vstd::prelude::*;
use crate::css::is_space_char;
use crate::css::space_char;
use crate::strutil::str_eq;
use crate::strutil::chars_to_string;

verus! {

/// Attribute mapping, kept as an ordered association list with unique keys.
pub type AttrMap = Vec<(String, String)>;

#[derive(Debug)]
pub struct ElementData {
    pub tag_name: String,
    pub attrs: AttrMap,
}

#[derive(Debug)]
pub enum NodeType {
    Element(ElementData),
    Text(String),
}

#[derive(Debug)]
pub struct Node {
    pub data: NodeType,
    pub children: Vec<Node>,
}

// ---------------------------------------------------------------------------
// Mathematical models
// ---------------------------------------------------------------------------

pub ghost struct ElementDataM {
    pub tag_name: Seq<char>,
    pub attrs: Seq<(Seq<char>, Seq<char>)>,
}

pub ghost enum NodeTypeM {
    Element(ElementDataM),
    Text(Seq<char>),
}

pub ghost struct NodeM {
    pub data: NodeTypeM,
    pub children: Seq<NodeM>,
}

pub open spec fn attrs_view(a: Seq<(String, String)>) -> Seq<(Seq<char>, Seq<char>)> {
    Seq::new(a.len(), |i: int| (a[i].0@, a[i].1@))
}

impl View for ElementData {
    type V = ElementDataM;

    open spec fn view(&self) -> ElementDataM {
        ElementDataM { tag_name: self.tag_name@, attrs: attrs_view(self.attrs@) }
    }
}

impl View for NodeType {
    type V = NodeTypeM;

    open spec fn view(&self) -> NodeTypeM {
        match self {
            NodeType::Element(e) => NodeTypeM::Element(e@),
            NodeType::Text(s) => NodeTypeM::Text(s@),
        }
    }
}

pub open spec fn nodes_view(cs: Seq<Node>) -> Seq<NodeM>
    decreases cs,
{
    if cs.len() == 0 {
        Seq::empty()
    } else {
        nodes_view(cs.drop_last()).push(node_view(cs.last()))
    }
}

pub open spec fn node_view(n: Node) -> NodeM
    decreases n,
{
    NodeM { data: n.data@, children: nodes_view(n.children@) }
}

impl View for Node {
    type V = NodeM;

    open spec fn view(&self) -> NodeM {
        node_view(*self)
    }
}

pub broadcast proof fn lemma_nodes_view_len(cs: Seq<Node>)
    ensures
        (#[trigger] nodes_view(cs)).len() == cs.len(),
    decreases cs,
{
    if cs.len() > 0 {
        lemma_nodes_view_len(cs.drop_last());
    }
}

pub broadcast proof fn lemma_nodes_view_index(cs: Seq<Node>, i: int)
    requires
        0 <= i < cs.len(),
    ensures
        #[trigger] nodes_view(cs)[i] == node_view(cs[i]),
    decreases cs,
{
    lemma_nodes_view_len(cs.drop_last());
    if i < cs.len() - 1 {
        lemma_nodes_view_index(cs.drop_last(), i);
    }
}

// ---------------------------------------------------------------------------
// Construction
// ---------------------------------------------------------------------------

impl Node {
    /// A text leaf.
    pub fn text(data: String) -> (n: Node)
        ensures
            n@.data == NodeTypeM::Text(data@),
            n@.children == Seq::<NodeM>::empty(),
    {
        Node { children: Vec::new(), data: NodeType::Text(data) }
    }

    /// An element node with the given tag, attributes and children.
    pub fn elem(name: String, attrs: AttrMap, children: Vec<Node>) -> (n: Node)
        ensures
            n@.data == NodeTypeM::Element(ElementDataM { tag_name: name@, attrs: attrs_view(attrs@) }),
            n@.children == nodes_view(children@),
    {
        Node { children, data: NodeType::Element(ElementData { tag_name: name, attrs }) }
    }
}

// ---------------------------------------------------------------------------
// Attribute lookup and class tokens
// ---------------------------------------------------------------------------

/// First value bound to `name` in the attribute list.
pub open spec fn attrs_get(attrs: Seq<(Seq<char>, Seq<char>)>, name: Seq<char>) -> Option<Seq<char>>
    decreases attrs,
{
    if attrs.len() == 0 {
        Option::None
    } else if attrs[0].0 == name {
        Option::Some(attrs[0].1)
    } else {
        attrs_get(attrs.drop_first(), name)
    }
}

/// Tokens of `s` split on runs of whitespace; empty tokens never appear.
pub open spec fn split_whitespace_spec(s: Seq<char>) -> Seq<Seq<char>>
    decreases s.len(),
{
    if s.len() == 0 {
        Seq::empty()
    } else if is_space_char(s[0]) {
        split_whitespace_spec(s.drop_first())
    } else if s.len() == 1 {
        seq![seq![s[0]]]
    } else if is_space_char(s[1]) {
        seq![seq![s[0]]] + split_whitespace_spec(s.drop_first())
    } else {
        let r = split_whitespace_spec(s.drop_first());
        r.update(0, seq![s[0]] + r[0])
    }
}

pub proof fn lemma_split_whitespace_first(s: Seq<char>)
    requires
        s.len() > 0,
        !is_space_char(s[0]),
    ensures
        split_whitespace_spec(s).len() >= 1,
    decreases s.len(),
{
    if s.len() > 1 && !is_space_char(s[1]) {
        lemma_split_whitespace_first(s.drop_first());
    }
}

fn attr_get<'a>(attrs: &'a AttrMap, name: &str) -> (r: Option<&'a String>)
    ensures
        match r {
            Option::Some(v) => attrs_get(attrs_view(attrs@), name@) == Option::Some(v@),
            Option::None => attrs_get(attrs_view(attrs@), name@) is None,
        },
{
    let ghost av = attrs_view(attrs@);
    proof {
        assert(av.skip(0) =~= av);
    }
    let mut i: usize = 0;
    while i < attrs.len()
        invariant
            i <= attrs.len(),
            av == attrs_view(attrs@),
            av.len() == attrs.len(),
            attrs_get(av, name@) == attrs_get(av.skip(i as int), name@),
        decreases attrs.len() - i,
    {
        if str_eq(attrs[i].0.as_str(), name) {
            proof {
                assert(av.skip(i as int)[0] == av[i as int]);
            }
            return Some(&attrs[i].1);
        }
        proof {
            assert(av.skip(i as int).drop_first() =~= av.skip(i as int + 1));
            assert(av.skip(i as int)[0] == av[i as int]);
        }
        i = i + 1;
    }
    proof {
        assert(av.skip(i as int) =~= Seq::empty());
    }
    None
}

fn str_chars(s: &str) -> (r: Vec<char>)
    ensures
        r@ == s@,
{
    let n = s.unicode_len();
    let mut r: Vec<char> = Vec::new();
    let mut i: usize = 0;
    while i < n
        invariant
            i <= n,
            n == s@.len(),
            r@ == s@.take(i as int),
        decreases n - i,
    {
        let c = s.get_char(i);
        r.push(c);
        proof {
            assert(r@ =~= s@.take(i as int + 1));
        }
        i = i + 1;
    }
    proof {
        assert(s@.take(n as int) =~= s@);
    }
    r
}

pub open spec fn tokens_view(r: Seq<Vec<char>>) -> Seq<Seq<char>> {
    Seq::new(r.len(), |i: int| r[i]@)
}

fn split_whitespace(v: &Vec<char>, i: usize) -> (r: Vec<Vec<char>>)
    requires
        i <= v.len(),
    ensures
        tokens_view(r@) == split_whitespace_spec(v@.skip(i as int)),
    decreases v.len() - i,
{
    if i == v.len() {
        let r: Vec<Vec<char>> = Vec::new();
        proof {
            assert(v@.skip(i as int) =~= Seq::empty());
            assert(tokens_view(r@) =~= split_whitespace_spec(v@.skip(i as int)));
        }
        r
    } else if space_char(v[i]) {
        let r = split_whitespace(v, i + 1);
        proof {
            assert(v@.skip(i as int)[0] == v@[i as int]);
            assert(v@.skip(i as int).drop_first() =~= v@.skip(i as int + 1));
        }
        r
    } else if i + 1 == v.len() || space_char(v[i + 1]) {
        let mut r = split_whitespace(v, i + 1);
        let mut tok: Vec<char> = Vec::new();
        tok.push(v[i]);
        let ghost inner = tokens_view(r@);
        r.insert(0, tok);
        proof {
            assert(tok@ =~= seq![v@[i as int]]);
            assert(v@.skip(i as int)[0] == v@[i as int]);
            assert(v@.skip(i as int).drop_first() =~= v@.skip(i as int + 1));
            if i + 1 == v.len() {
                assert(v@.skip(i as int).len() == 1);
                assert(v@.skip(i as int + 1) =~= Seq::empty());
                assert(inner =~= Seq::<Seq<char>>::empty());
            } else {
                assert(v@.skip(i as int)[1] == v@[i as int + 1]);
            }
            assert(tokens_view(r@) =~= split_whitespace_spec(v@.skip(i as int)));
        }
        r
    } else {
        let mut r = split_whitespace(v, i + 1);
        proof {
            assert(v@.skip(i as int + 1)[0] == v@[i as int + 1]);
            lemma_split_whitespace_first(v@.skip(i as int + 1));
        }
        let ghost old_toks = tokens_view(r@);
        let mut first = r.remove(0);
        first.insert(0, v[i]);
        r.insert(0, first);
        proof {
            assert(v@.skip(i as int)[0] == v@[i as int]);
            assert(v@.skip(i as int)[1] == v@[i as int + 1]);
            assert(v@.skip(i as int).drop_first() =~= v@.skip(i as int + 1));
            assert(first@ =~= seq![v@[i as int]] + old_toks[0]);
            assert(tokens_view(r@) =~= old_toks.update(0, seq![v@[i as int]] + old_toks[0]));
            assert(tokens_view(r@) =~= split_whitespace_spec(v@.skip(i as int)));
        }
        r
    }
}

impl ElementDataM {
    /// The element's id attribute, if any.
    pub open spec fn id(self) -> Option<Seq<char>> {
        attrs_get(self.attrs, "id"@)
    }

    /// The element's class tokens: its whitespace-tokenized class attribute.
    pub open spec fn classes(self) -> Seq<Seq<char>> {
        match attrs_get(self.attrs, "class"@) {
            Option::Some(s) => split_whitespace_spec(s),
            Option::None => Seq::empty(),
        }
    }
}

impl ElementData {
    /// The element's id attribute, if any.
    pub fn id(&self) -> (r: Option<&String>)
        ensures
            match r {
                Option::Some(v) => self@.id() == Option::Some(v@),
                Option::None => self@.id() is None,
            },
    {
        attr_get(&self.attrs, "id")
    }

    /// The element's class tokens.
    pub fn classes(&self) -> (r: Vec<String>)
        ensures
            tokens_str_view(r@) == self@.classes(),
    {
        match attr_get(&self.attrs, "class") {
            Option::None => {
                let r: Vec<String> = Vec::new();
                proof {
                    assert(tokens_str_view(r@) =~= Seq::<Seq<char>>::empty());
                }
                r
            },
            Option::Some(s) => {
                let cs = str_chars(s.as_str());
                let toks = split_whitespace(&cs, 0);
                proof {
                    assert(cs@.skip(0) =~= cs@);
                }
                let mut r: Vec<String> = Vec::new();
                let mut i: usize = 0;
                while i < toks.len()
                    invariant
                        i <= toks.len(),
                        tokens_view(toks@) == self@.classes(),
                        r@.len() == i,
                        forall|j: int| 0 <= j < i ==> r@[j]@ == toks@[j]@,
                    decreases toks.len() - i,
                {
                    r.push(chars_to_string(&toks[i]));
                    i = i + 1;
                }
                proof {
                    assert(tokens_str_view(r@) =~= tokens_view(toks@));
                }
                r
            },
        }
    }
}

pub open spec fn tokens_str_view(r: Seq<String>) -> Seq<Seq<char>> {
    Seq::new(r.len(), |i: int| r[i]@)
}

} // verus!
