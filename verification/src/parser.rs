//! From tokens to the tree.
//!
//! [`parse_nodes`] defines the nodes that a run of tokens stands for, inside
//! a section or at the top level; [`compile`] is the whole way from text to
//! tree.

use crate::ast::{
    lemma_nodes_view_push, nodes_view, Node, NodeView, Partial, Root, Section, Variable, Variant,
};
use crate::error::{Error, Result};
use crate::lexer::{is_literal, literal_text, tokenize, tokens_view, Lexer, Token, TokenView};
use vstd::prelude::*;

verus! {

/// `front` put before the nodes of a parse that went well.
pub open spec fn prepend(front: Seq<NodeView>, rest: Result<(Seq<NodeView>, int)>) -> Result<
    (Seq<NodeView>, int),
> {
    match rest {
        Ok((nodes, next)) => Ok((front + nodes, next)),
        Err(e) => Err(e),
    }
}

/// The nodes that the tokens from `pos` on stand for, and the index behind
/// the last token used.
///
/// Inside a section named `section`, the run ends behind the end tag of that
/// name; an end tag of another name, or no end tag at all, is a failure. At
/// the top level (`section` is `None`) the run ends with the tokens, and any
/// end tag is a failure. Comments and delimiter changes leave no node; text,
/// blanks and line endings become text nodes.
///
/// The bounds asked of the index behind a nested section make the definition
/// well founded; they always hold, see [`lemma_parse_nodes_bounds`].
pub open spec fn parse_nodes(tokens: Seq<TokenView>, pos: int, section: Option<Seq<char>>) -> Result<
    (Seq<NodeView>, int),
>
    decreases tokens.len() - pos,
{
    if pos < 0 || pos >= tokens.len() {
        match section {
            None => Ok((Seq::empty(), pos)),
            Some(_) => Err(Error::Parse),
        }
    } else {
        match tokens[pos] {
            TokenView::Comment => parse_nodes(tokens, pos + 1, section),
            TokenView::SetDelim(_, _) => parse_nodes(tokens, pos + 1, section),
            TokenView::Text(x) => prepend(
                seq![NodeView::Text(x)],
                parse_nodes(tokens, pos + 1, section),
            ),
            TokenView::Whitespace(x) => prepend(
                seq![NodeView::Text(x)],
                parse_nodes(tokens, pos + 1, section),
            ),
            TokenView::Newline(x) => prepend(
                seq![NodeView::Text(x)],
                parse_nodes(tokens, pos + 1, section),
            ),
            TokenView::Variable(name, escaped) => prepend(
                seq![NodeView::Variable(name, escaped)],
                parse_nodes(tokens, pos + 1, section),
            ),
            TokenView::Partial(name, indent) => prepend(
                seq![NodeView::Partial(name, indent)],
                parse_nodes(tokens, pos + 1, section),
            ),
            TokenView::SectionStart(name, variant) => match parse_nodes(tokens, pos + 1, Some(name)) {
                Ok((children, next)) => if pos < next <= tokens.len() {
                    prepend(
                        seq![NodeView::Section(name, variant, children)],
                        parse_nodes(tokens, next, section),
                    )
                } else {
                    Err(Error::Parse)
                },
                Err(e) => Err(e),
            },
            TokenView::SectionEnd(name) => if section == Some(name) {
                Ok((Seq::empty(), pos + 1))
            } else {
                Err(Error::Parse)
            },
        }
    }
}

/// The tree that `tokens` stand for.
pub open spec fn parse_tokens(tokens: Seq<TokenView>) -> Result<NodeView> {
    match parse_nodes(tokens, 0, None) {
        Ok((nodes, _)) => Ok(NodeView::Root(nodes)),
        Err(e) => Err(e),
    }
}

/// The tree that `text` compiles to, or the failure it is rejected with.
pub open spec fn compile(text: Seq<char>) -> Result<NodeView> {
    match tokenize(text) {
        Ok(tokens) => parse_tokens(tokens),
        Err(e) => Err(e),
    }
}

/// A parse that goes well ends within the tokens, and a section uses at least
/// its end tag.
pub proof fn lemma_parse_nodes_bounds(tokens: Seq<TokenView>, pos: int, section: Option<Seq<char>>)
    requires
        0 <= pos <= tokens.len(),
    ensures
        parse_nodes(tokens, pos, section) matches Ok((_, next)) ==> {
            &&& pos <= next <= tokens.len()
            &&& section is Some ==> pos < next
        },
    decreases tokens.len() - pos,
{
    if pos < tokens.len() {
        match tokens[pos] {
            TokenView::SectionStart(name, _) => {
                lemma_parse_nodes_bounds(tokens, pos + 1, Some(name));
                if let Ok((_, next)) = parse_nodes(tokens, pos + 1, Some(name)) {
                    lemma_parse_nodes_bounds(tokens, next, section);
                }
            },
            TokenView::SectionEnd(_) => {},
            _ => {
                lemma_parse_nodes_bounds(tokens, pos + 1, section);
            },
        }
    }
}

/// A section is closed by its own end tag, and the top level reaches the end:
/// a run parsed inside the section `name` ends just behind an end tag of
/// that name, and a run parsed at the top level ends with the tokens.
pub proof fn law_runs_end_where_they_should(
    tokens: Seq<TokenView>,
    pos: int,
    section: Option<Seq<char>>,
)
    requires
        0 <= pos <= tokens.len(),
    ensures
        parse_nodes(tokens, pos, section) matches Ok((_, next)) ==> match section {
            Some(name) => pos < next <= tokens.len() && tokens[next - 1] == TokenView::SectionEnd(
                name,
            ),
            None => next == tokens.len(),
        },
    decreases tokens.len() - pos,
{
    if pos < tokens.len() {
        match tokens[pos] {
            TokenView::SectionStart(name, _) => {
                lemma_parse_nodes_bounds(tokens, pos + 1, Some(name));
                if let Ok((_, next)) = parse_nodes(tokens, pos + 1, Some(name)) {
                    law_runs_end_where_they_should(tokens, next, section);
                }
            },
            TokenView::SectionEnd(_) => {},
            _ => {
                law_runs_end_where_they_should(tokens, pos + 1, section);
            },
        }
    }
}

/// The text nodes that literal tokens stand for, one for each.
pub open spec fn text_nodes(tokens: Seq<TokenView>) -> Seq<NodeView> {
    tokens.map_values(|t: TokenView| NodeView::Text(literal_text(t)))
}

/// Literal tokens parse into one text node each.
pub proof fn lemma_parse_literals(tokens: Seq<TokenView>, pos: int)
    requires
        0 <= pos <= tokens.len(),
        forall|i: int| 0 <= i < tokens.len() ==> is_literal(#[trigger] tokens[i]),
    ensures
        parse_nodes(tokens, pos, None) == Ok::<(Seq<NodeView>, int), Error>(
            (text_nodes(tokens.subrange(pos, tokens.len() as int)), tokens.len() as int),
        ),
    decreases tokens.len() - pos,
{
    let rest = tokens.subrange(pos, tokens.len() as int);
    if pos < tokens.len() {
        lemma_parse_literals(tokens, pos + 1);
        assert(is_literal(tokens[pos]));
        let after = tokens.subrange(pos + 1, tokens.len() as int);
        assert(seq![NodeView::Text(literal_text(tokens[pos]))] + text_nodes(after) == text_nodes(
            rest,
        ));
    } else {
        assert(text_nodes(rest) == Seq::<NodeView>::empty());
    }
}

/// What an executable parse of a run of nodes returned, as its model.
pub open spec fn nodes_result_view(r: Result<(Vec<Node>, usize)>) -> Result<(Seq<NodeView>, int)> {
    match r {
        Ok((nodes, next)) => Ok((nodes_view(nodes@), next as int)),
        Err(e) => Err(e),
    }
}

/// What an executable parse returned, as its model.
pub open spec fn node_result_view(r: Result<Node>) -> Result<NodeView> {
    match r {
        Ok(node) => Ok(node@),
        Err(e) => Err(e),
    }
}

/// Builds the tree of a template from its text.
pub struct Parser {
    lexer: Lexer,
}

impl Parser {
    /// The text that is being parsed.
    spec fn text(&self) -> Seq<char> {
        self.lexer.text()
    }

    /// Nothing has been read yet.
    spec fn fresh(&self) -> bool {
        &&& self.lexer.wf()
        &&& self.lexer.pos() == 0
        &&& self.lexer.open() == crate::lexer::default_open()
        &&& self.lexer.close() == crate::lexer::default_close()
    }

    /// A parser at the start of `text`.
    fn new(text: &str) -> (out: Self)
        ensures
            out.fresh(),
            out.text() == text@,
    {
        Parser { lexer: Lexer::new(text) }
    }

    /// Compiles `text` to its tree.
    pub fn parse(text: &str) -> (r: Result<Node>)
        ensures
            node_result_view(r) == compile(text@),
    {
        let mut parser = Parser::new(text);
        parser.root()
    }

    /// Reads the whole text and builds its root node.
    fn root(&mut self) -> (r: Result<Node>)
        requires
            old(self).fresh(),
        ensures
            node_result_view(r) == compile(old(self).text()),
    {
        let tokens = match self.lexer.tokens() {
            Ok(tokens) => tokens,
            Err(e) => {
                return Err(e);
            },
        };
        match Self::nodes(&tokens, 0, None) {
            Ok((children, _)) => Ok(Node::Root(Root { children })),
            Err(e) => Err(e),
        }
    }

    /// Parses the body of the section that was opened just before `pos`, up
    /// to and including its end tag.
    fn section(name: String, variant: Variant, tokens: &Vec<Token>, pos: usize) -> (r: Result<
        (Node, usize),
    >)
        requires
            pos <= tokens.len(),
        ensures
            match parse_nodes(tokens_view(tokens@), pos as int, Some(name@)) {
                Ok((children, next)) => {
                    &&& r matches Ok((node, end))
                    &&& node@ == NodeView::Section(name@, variant, children)
                    &&& end == next
                    &&& pos < end <= tokens.len()
                },
                Err(e) => r == Err::<(Node, usize), Error>(e),
            },
        decreases tokens.len() - pos, 1nat,
    {
        proof {
            lemma_parse_nodes_bounds(tokens_view(tokens@), pos as int, Some(name@));
        }
        match Self::nodes(tokens, pos, Some(&name)) {
            Ok((children, next)) => Ok((Node::Section(Section { name, variant, children }), next)),
            Err(e) => Err(e),
        }
    }

    /// Parses a run of nodes from `pos` on: to the end of the tokens at the
    /// top level, to the end tag of `closing` inside a section.
    fn nodes(tokens: &Vec<Token>, pos: usize, closing: Option<&String>) -> (r: Result<
        (Vec<Node>, usize),
    >)
        requires
            pos <= tokens.len(),
        ensures
            nodes_result_view(r) == parse_nodes(
                tokens_view(tokens@),
                pos as int,
                match closing {
                    Some(name) => Some(name@),
                    None => None,
                },
            ),
        decreases tokens.len() - pos, 0nat,
    {
        let ghost all = tokens_view(tokens@);
        let ghost section: Option<Seq<char>> = match closing {
            Some(name) => Some(name@),
            None => None,
        };
        let mut children: Vec<Node> = Vec::new();
        let mut i: usize = pos;
        assert(nodes_view(children@) == Seq::<NodeView>::empty());
        assert(prepend(Seq::<NodeView>::empty(), parse_nodes(all, pos as int, section))
            == parse_nodes(all, pos as int, section)) by {
            if let Ok((nodes, next)) = parse_nodes(all, pos as int, section) {
                assert(Seq::<NodeView>::empty() + nodes == nodes);
            }
        }
        while i < tokens.len()
            invariant
                pos <= i <= tokens.len(),
                all == tokens_view(tokens@),
                section == match closing {
                    Some(name) => Some(name@),
                    None => None,
                },
                parse_nodes(all, pos as int, section) == prepend(
                    nodes_view(children@),
                    parse_nodes(all, i as int, section),
                ),
            decreases tokens.len() - i,
        {
            let ghost front = nodes_view(children@);
            assert(all[i as int] == tokens@[i as int]@);
            let node = match &tokens[i] {
                Token::Comment => {
                    i = i + 1;
                    continue ;
                },
                Token::SetDelim(_, _) => {
                    i = i + 1;
                    continue ;
                },
                Token::Text(x) => {
                    i = i + 1;
                    Node::Text(x.clone())
                },
                Token::Whitespace(x) => {
                    i = i + 1;
                    Node::Text(x.clone())
                },
                Token::Newline(x) => {
                    i = i + 1;
                    Node::Text(x.clone())
                },
                Token::Variable(name, escaped) => {
                    i = i + 1;
                    Node::Variable(Variable { name: name.clone(), escaped: *escaped })
                },
                Token::Partial(name, indent) => {
                    i = i + 1;
                    Node::Partial(Partial { name: name.clone(), indent: indent.clone() })
                },
                Token::SectionStart(name, variant) => {
                    match Self::section(name.clone(), *variant, tokens, i + 1) {
                        Ok((node, next)) => {
                            i = next;
                            node
                        },
                        Err(e) => {
                            return Err(e);
                        },
                    }
                },
                Token::SectionEnd(name) => {
                    return match closing {
                        Some(open) => if *open == *name {
                            assert(front + Seq::<NodeView>::empty() == front);
                            Ok((children, i + 1))
                        } else {
                            Err(Error::Parse)
                        },
                        None => Err(Error::Parse),
                    };
                },
            };
            proof {
                lemma_nodes_view_push(children@, node);
                if let Ok((nodes, next)) = parse_nodes(all, i as int, section) {
                    assert(front.push(node@) + nodes == front + (seq![node@] + nodes));
                }
            }
            children.push(node);
        }
        match closing {
            Some(_) => Err(Error::Parse),
            None => {
                assert(nodes_view(children@) + Seq::<NodeView>::empty() == nodes_view(children@));
                Ok((children, i))
            },
        }
    }
}

} // verus!
