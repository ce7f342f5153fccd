//! The tree that the parser builds out of a token stream.

use vstd::prelude::*;
use crate::token::copy_opt_string;

verus! {

/// The root of a parsed Markdown document.
#[derive(Debug, PartialEq)]
pub struct Root {
    /// The top-level nodes of the document.
    pub children: Vec<Node>,
}

/// A node of the document tree.
#[derive(Debug, PartialEq)]
pub enum Node {
    /// A paragraph.
    Paragraph { children: Vec<Node> },
    /// A heading; `depth` is the number of leading `#`.
    Heading { depth: usize, children: Vec<Node> },
    /// Plain text.
    Text { value: String },
    /// Emphasis (italic).
    Emphasis { children: Vec<Node> },
    /// Strong emphasis (bold).
    Strong { children: Vec<Node> },
    /// Inline code.
    InlineCode { value: String },
    /// A fenced code block.
    Code { lang: Option<String>, meta: Option<String>, value: String },
    /// A block quote.
    Blockquote { children: Vec<Node> },
    /// A list; `start` is the first number of an ordered list.
    List { ordered: bool, start: Option<u32>, children: Vec<Node> },
    /// An item of a list.
    ListItem { children: Vec<Node> },
    /// A horizontal rule.
    ThematicBreak,
    /// A link.
    Link { url: String, title: Option<String>, children: Vec<Node> },
    /// An image.
    Image { url: String, title: Option<String>, alt: Option<String> },
    /// A line break between two blocks or two list items.
    Break,
}

/// The mathematical value of a [`Node`]: strings become character sequences.
pub enum NodeV {
    Paragraph { children: Seq<NodeV> },
    Heading { depth: nat, children: Seq<NodeV> },
    Text { value: Seq<char> },
    Emphasis { children: Seq<NodeV> },
    Strong { children: Seq<NodeV> },
    InlineCode { value: Seq<char> },
    Code { lang: Option<Seq<char>>, meta: Option<Seq<char>>, value: Seq<char> },
    Blockquote { children: Seq<NodeV> },
    List { ordered: bool, start: Option<u32>, children: Seq<NodeV> },
    ListItem { children: Seq<NodeV> },
    ThematicBreak,
    Link { url: Seq<char>, title: Option<Seq<char>>, children: Seq<NodeV> },
    Image { url: Seq<char>, title: Option<Seq<char>>, alt: Option<Seq<char>> },
    Break,
}

/// The character sequence of an optional string.
pub open spec fn opt_view(o: Option<String>) -> Option<Seq<char>> {
    match o {
        Some(s) => Some(s@),
        None => None,
    }
}

/// The values of a sequence of nodes.
pub open spec fn nodes_view(ns: Seq<Node>) -> Seq<NodeV>
    decreases ns,
{
    if ns.len() == 0 {
        Seq::empty()
    } else {
        seq![node_view(ns[0])] + nodes_view(ns.subrange(1, ns.len() as int))
    }
}

/// The value of one node.
pub open spec fn node_view(n: Node) -> NodeV
    decreases n,
{
    match n {
        Node::Paragraph { children } => NodeV::Paragraph { children: nodes_view(children@) },
        Node::Heading { depth, children } => NodeV::Heading {
            depth: depth as nat,
            children: nodes_view(children@),
        },
        Node::Text { value } => NodeV::Text { value: value@ },
        Node::Emphasis { children } => NodeV::Emphasis { children: nodes_view(children@) },
        Node::Strong { children } => NodeV::Strong { children: nodes_view(children@) },
        Node::InlineCode { value } => NodeV::InlineCode { value: value@ },
        Node::Code { lang, meta, value } => NodeV::Code {
            lang: opt_view(lang),
            meta: opt_view(meta),
            value: value@,
        },
        Node::Blockquote { children } => NodeV::Blockquote { children: nodes_view(children@) },
        Node::List { ordered, start, children } => NodeV::List {
            ordered,
            start,
            children: nodes_view(children@),
        },
        Node::ListItem { children } => NodeV::ListItem { children: nodes_view(children@) },
        Node::ThematicBreak => NodeV::ThematicBreak,
        Node::Link { url, title, children } => NodeV::Link {
            url: url@,
            title: opt_view(title),
            children: nodes_view(children@),
        },
        Node::Image { url, title, alt } => NodeV::Image {
            url: url@,
            title: opt_view(title),
            alt: opt_view(alt),
        },
        Node::Break => NodeV::Break,
    }
}

impl View for Node {
    type V = NodeV;

    open spec fn view(&self) -> NodeV {
        node_view(*self)
    }
}

impl View for Root {
    type V = Seq<NodeV>;

    open spec fn view(&self) -> Seq<NodeV> {
        nodes_view(self.children@)
    }
}

/// Appending a node appends its value.
pub proof fn lemma_nodes_view_push(ns: Seq<Node>, n: Node)
    ensures
        nodes_view(ns.push(n)) == nodes_view(ns).push(node_view(n)),
    decreases ns.len(),
{
    let pushed = ns.push(n);
    if ns.len() == 0 {
        assert(pushed.subrange(1, pushed.len() as int) =~= Seq::<Node>::empty());
        assert(nodes_view(Seq::<Node>::empty()) =~= Seq::<NodeV>::empty());
        assert(nodes_view(ns) =~= Seq::<NodeV>::empty());
        assert(nodes_view(pushed) == seq![node_view(n)] + nodes_view(Seq::<Node>::empty()));
        assert(nodes_view(pushed) =~= nodes_view(ns).push(node_view(n)));
    } else {
        let tail = ns.subrange(1, ns.len() as int);
        assert(pushed.subrange(1, pushed.len() as int) =~= tail.push(n));
        lemma_nodes_view_push(tail, n);
        assert(pushed[0] == ns[0]);
        assert(nodes_view(pushed) == seq![node_view(ns[0])] + nodes_view(tail.push(n)));
        assert(nodes_view(ns) == seq![node_view(ns[0])] + nodes_view(tail));
        assert(nodes_view(pushed) =~= nodes_view(ns).push(node_view(n)));
    }
}

/// Appends `n` to `v`.
pub fn push_node(v: &mut Vec<Node>, n: Node)
    ensures
        nodes_view(final(v)@) == nodes_view(old(v)@).push(n@),
{
    proof {
        lemma_nodes_view_push(v@, n);
    }
    v.push(n);
}

/// A copy of a node, with the same value.
pub fn copy_node(n: &Node) -> (r: Node)
    ensures
        r@ == n@,
    decreases n,
{
    match n {
        Node::Paragraph { children } => Node::Paragraph { children: copy_nodes(children) },
        Node::Heading { depth, children } => Node::Heading {
            depth: *depth,
            children: copy_nodes(children),
        },
        Node::Text { value } => Node::Text { value: value.clone() },
        Node::Emphasis { children } => Node::Emphasis { children: copy_nodes(children) },
        Node::Strong { children } => Node::Strong { children: copy_nodes(children) },
        Node::InlineCode { value } => Node::InlineCode { value: value.clone() },
        Node::Code { lang, meta, value } => Node::Code {
            lang: copy_opt_string(lang),
            meta: copy_opt_string(meta),
            value: value.clone(),
        },
        Node::Blockquote { children } => Node::Blockquote { children: copy_nodes(children) },
        Node::List { ordered, start, children } => Node::List {
            ordered: *ordered,
            start: *start,
            children: copy_nodes(children),
        },
        Node::ListItem { children } => Node::ListItem { children: copy_nodes(children) },
        Node::ThematicBreak => Node::ThematicBreak,
        Node::Link { url, title, children } => Node::Link {
            url: url.clone(),
            title: copy_opt_string(title),
            children: copy_nodes(children),
        },
        Node::Image { url, title, alt } => Node::Image {
            url: url.clone(),
            title: copy_opt_string(title),
            alt: copy_opt_string(alt),
        },
        Node::Break => Node::Break,
    }
}

/// A copy of a list of nodes, with the same values.
pub fn copy_nodes(ns: &Vec<Node>) -> (r: Vec<Node>)
    ensures
        nodes_view(r@) == nodes_view(ns@),
    decreases ns,
{
    let mut out: Vec<Node> = Vec::new();
    let mut i: usize = 0;
    assert(ns@.subrange(0, 0) =~= Seq::<Node>::empty());
    while i < ns.len()
        invariant
            i <= ns@.len(),
            nodes_view(out@) == nodes_view(ns@.subrange(0, i as int)),
        decreases ns@.len() - i,
    {
        proof {
            assert(decreases_to!(ns => ns@[i as int]));
            lemma_nodes_view_push(ns@.subrange(0, i as int), ns@[i as int]);
            assert(ns@.subrange(0, i + 1) =~= ns@.subrange(0, i as int).push(ns@[i as int]));
        }
        let c = copy_node(&ns[i]);
        push_node(&mut out, c);
        i = i + 1;
    }
    assert(ns@.subrange(0, ns@.len() as int) =~= ns@);
    out
}

impl Clone for Node {
    fn clone(&self) -> (r: Self)
        ensures
            r@ == self@,
    {
        copy_node(self)
    }
}

impl Clone for Root {
    fn clone(&self) -> (r: Self)
        ensures
            r@ == self@,
    {
        Root { children: copy_nodes(&self.children) }
    }
}

} // verus!
