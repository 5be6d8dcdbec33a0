//! The tree a template compiles to.

use vstd::prelude::*;

verus! {

/// How a section treats the value it is named after.
#[derive(Debug, PartialEq, Eq, Clone, Copy)]
pub enum Variant {
    /// Rendered when the value is truthy, once per element for a list.
    Direct,
    /// Rendered when the value is missing or falsy.
    Inverse,
}

/// The top of a template: its nodes in source order.
#[derive(Debug, PartialEq)]
pub struct Root {
    pub children: Vec<Node>,
}

/// A block between a section tag and its matching end tag.
#[derive(Debug, PartialEq)]
pub struct Section {
    pub name: String,
    pub variant: Variant,
    pub children: Vec<Node>,
}

/// A reference to a value to interpolate.
#[derive(Debug, PartialEq)]
pub struct Variable {
    pub name: String,
    pub escaped: bool,
}

/// A reference to a named template fragment.
#[derive(Debug, PartialEq)]
pub struct Partial {
    pub name: String,
    /// Put in front of every line of the fragment when it is expanded.
    pub indent: String,
}

/// A node of the tree of a template.
#[derive(Debug, PartialEq)]
pub enum Node {
    Root(Root),
    Section(Section),
    Variable(Variable),
    Partial(Partial),
    Text(String),
}

/// The mathematical value of a [`Node`].
pub enum NodeView {
    Root(Seq<NodeView>),
    Section(Seq<char>, Variant, Seq<NodeView>),
    Variable(Seq<char>, bool),
    Partial(Seq<char>, Seq<char>),
    Text(Seq<char>),
}

/// The views of `nodes`, element by element.
pub open spec fn nodes_view(nodes: Seq<Node>) -> Seq<NodeView>
    decreases nodes,
{
    Seq::new(
        nodes.len(),
        |i: int|
            if 0 <= i < nodes.len() {
                nodes[i].view()
            } else {
                NodeView::Text(Seq::empty())
            },
    )
}

impl View for Node {
    type V = NodeView;

    open spec fn view(&self) -> NodeView
        decreases self,
    {
        match self {
            Node::Root(x) => NodeView::Root(nodes_view(x.children@)),
            Node::Section(x) => NodeView::Section(x.name@, x.variant, nodes_view(x.children@)),
            Node::Variable(x) => NodeView::Variable(x.name@, x.escaped),
            Node::Partial(x) => NodeView::Partial(x.name@, x.indent@),
            Node::Text(x) => NodeView::Text(x@),
        }
    }
}

impl NodeView {
    /// Whether the node can hold children.
    pub open spec fn is_container(self) -> bool {
        self is Root || self is Section
    }

    /// The children of a container node.
    pub open spec fn children(self) -> Seq<NodeView> {
        match self {
            NodeView::Root(c) => c,
            NodeView::Section(_, _, c) => c,
            _ => Seq::empty(),
        }
    }

    /// The node with `child` added as its last child.
    pub open spec fn with_child(self, child: NodeView) -> NodeView {
        match self {
            NodeView::Root(c) => NodeView::Root(c.push(child)),
            NodeView::Section(n, v, c) => NodeView::Section(n, v, c.push(child)),
            other => other,
        }
    }
}

/// The view of a sequence of nodes grows with the sequence.
pub proof fn lemma_nodes_view_push(nodes: Seq<Node>, node: Node)
    ensures
        nodes_view(nodes.push(node)) == nodes_view(nodes).push(node@),
{
    assert(nodes_view(nodes.push(node)) =~= nodes_view(nodes).push(node@));
}

impl Node {
    /// The children of a root or a section.
    pub fn children(&self) -> (out: &Vec<Node>)
        requires
            self@.is_container(),
        ensures
            nodes_view(out@) == self@.children(),
    {
        match self {
            Node::Root(x) => &x.children,
            Node::Section(x) => &x.children,
            _ => {
                proof {
                    assert(false);
                }
                vstd::pervasive::unreached()
            },
        }
    }

    /// Adds `child` behind the children of a root or a section.
    pub fn push(&mut self, child: Node)
        requires
            old(self)@.is_container(),
        ensures
            final(self)@ == old(self)@.with_child(child@),
    {
        match self {
            Node::Root(x) => {
                proof {
                    lemma_nodes_view_push(x.children@, child);
                }
                x.children.push(child);
            },
            Node::Section(x) => {
                proof {
                    lemma_nodes_view_push(x.children@, child);
                }
                x.children.push(child);
            },
            _ => {},
        }
    }
}

impl Default for Root {
    /// A root without children.
    fn default() -> (out: Self)
        ensures
            out.children@.len() == 0,
    {
        Root { children: Vec::new() }
    }
}

impl Section {
    /// A section without children.
    pub fn new(name: String, variant: Variant) -> (out: Self)
        ensures
            out.name == name,
            out.variant == variant,
            out.children@.len() == 0,
    {
        Section { name, variant, children: Vec::new() }
    }
}

impl Variable {
    /// A variable named `name`, to be escaped on output or not.
    pub fn new(name: String, escaped: bool) -> (out: Self)
        ensures
            out.name == name,
            out.escaped == escaped,
    {
        Variable { name, escaped }
    }
}

impl Partial {
    /// A reference to the partial `name`, found at the indentation `indent`.
    pub fn new(name: String, indent: String) -> (out: Self)
        ensures
            out.name == name,
            out.indent == indent,
    {
        Partial { name, indent }
    }
}

} // verus!
