//! The token tree that the grammar produces and the precedence stage reads.

use vstd::prelude::*;

verus! {

/// The kind of a node of the token tree.
#[derive(Clone, Copy, Debug, PartialEq, Eq, Structural)]
pub enum Rule {
    Number,
    Add,
    Subtract,
    Multiply,
    Divide,
    Modulo,
    Power,
    UnaryMinus,
    Expr,
    Function,
    FunctionName,
    FunctionArgs,
    Equation,
}

/// The mathematical form of a token: its kind, the text it covers and its
/// children in source order.
pub struct Node {
    pub rule: Rule,
    pub text: Seq<char>,
    pub children: Seq<Node>,
}

/// A node of the token tree. It owns the text it covers and its children.
#[derive(Debug, PartialEq, Eq)]
pub struct Token {
    pub rule: Rule,
    pub text: String,
    pub children: Vec<Token>,
}

/// The node that a token stands for.
pub open spec fn node_of(t: Token) -> Node
    decreases t,
{
    Node {
        rule: t.rule,
        text: t.text@,
        children: Seq::new(
            t.children@.len(),
            |i: int|
                if 0 <= i < t.children@.len() {
                    node_of(t.children@[i])
                } else {
                    arbitrary()
                },
        ),
    }
}

/// The nodes that a sequence of tokens stands for.
pub open spec fn nodes_of(ts: Seq<Token>) -> Seq<Node> {
    Seq::new(ts.len(), |i: int| node_of(ts[i]))
}

impl View for Token {
    type V = Node;

    open spec fn view(&self) -> Node {
        node_of(*self)
    }
}

/// The node of a token has the token's kind and text, and the nodes of its
/// children.
pub proof fn lemma_node_children(t: Token)
    ensures
        node_of(t).rule == t.rule,
        node_of(t).text == t.text@,
        node_of(t).children == nodes_of(t.children@),
{
    assert(node_of(t).children =~= nodes_of(t.children@));
}

/// The nodes of a sequence with one more token are those of the sequence
/// and then the node of that token.
pub proof fn lemma_nodes_push(ts: Seq<Token>, t: Token)
    ensures
        nodes_of(ts.push(t)) == nodes_of(ts).push(node_of(t)),
{
    assert(nodes_of(ts.push(t)) =~= nodes_of(ts).push(node_of(t)));
}

} // verus!
