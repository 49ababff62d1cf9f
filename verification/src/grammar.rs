//! The grammar: how the lexemes of a text nest into a token tree.
//!
//! ```text
//! equation = expr
//! expr     = atom (infix atom)*
//! atom     = "-"* primary
//! primary  = number | name "(" (expr ("," expr)*)? ")" | "(" expr ")"
//! infix    = "+" | "-" | "*" | "/" | "%" | "^"
//! ```

use vstd::prelude::*;
use vstd::string::*;
use crate::error::ParseError;
use crate::lexer::{in_order, lex, lexemes, LexKind, Lexeme};
use crate::token::{lemma_node_children, lemma_nodes_push, node_of, nodes_of, Node, Rule, Token};

verus! {

/// The infix operator that a lexeme of kind `k` is, if it is one.
pub open spec fn infix_rule(k: LexKind) -> Option<Rule> {
    match k {
        LexKind::Plus => Some(Rule::Add),
        LexKind::Minus => Some(Rule::Subtract),
        LexKind::Star => Some(Rule::Multiply),
        LexKind::Slash => Some(Rule::Divide),
        LexKind::Percent => Some(Rule::Modulo),
        LexKind::Caret => Some(Rule::Power),
        _ => None,
    }
}

/// The text between the start of lexeme `first` and the end of lexeme `last`.
pub open spec fn span(s: Seq<char>, lx: Seq<Lexeme>, first: int, last: int) -> Seq<char> {
    s.subrange(lx[first].start as int, lx[last].end as int)
}

/// The childless node of kind `rule` for lexeme `at`.
pub open spec fn leaf(s: Seq<char>, lx: Seq<Lexeme>, rule: Rule, at: int) -> Node {
    Node { rule, text: span(s, lx, at, at), children: Seq::empty() }
}

/// `primary` at lexeme `pos`: the node and the position after it.
pub open spec fn primary_at(s: Seq<char>, lx: Seq<Lexeme>, pos: int) -> Option<(Node, int)>
    decreases lx.len() - pos, 0int,
{
    if pos < 0 || pos >= lx.len() {
        None
    } else if lx[pos].kind == LexKind::Number {
        Some((leaf(s, lx, Rule::Number, pos), pos + 1))
    } else if lx[pos].kind == LexKind::Name {
        if pos + 2 < lx.len() && lx[pos + 1].kind == LexKind::LParen {
            let name = leaf(s, lx, Rule::FunctionName, pos);
            if lx[pos + 2].kind == LexKind::RParen {
                let args = Node {
                    rule: Rule::FunctionArgs,
                    text: Seq::empty(),
                    children: Seq::empty(),
                };
                Some(
                    (
                        Node {
                            rule: Rule::Function,
                            text: span(s, lx, pos, pos + 2),
                            children: seq![name, args],
                        },
                        pos + 3,
                    ),
                )
            } else {
                match args_at(s, lx, pos + 2) {
                    Some((list, e)) => if pos + 2 < e < lx.len() && lx[e].kind
                        == LexKind::RParen {
                        let args = Node {
                            rule: Rule::FunctionArgs,
                            text: span(s, lx, pos + 2, e - 1),
                            children: list,
                        };
                        Some(
                            (
                                Node {
                                    rule: Rule::Function,
                                    text: span(s, lx, pos, e),
                                    children: seq![name, args],
                                },
                                e + 1,
                            ),
                        )
                    } else {
                        None
                    },
                    None => None,
                }
            }
        } else {
            None
        }
    } else if lx[pos].kind == LexKind::LParen {
        match expr_at(s, lx, pos + 1) {
            Some((inner, e)) => if 0 <= e < lx.len() && lx[e].kind == LexKind::RParen {
                Some((inner, e + 1))
            } else {
                None
            },
            None => None,
        }
    } else {
        None
    }
}

/// `atom` at lexeme `pos`: its nodes, one for each minus sign and one for
/// the primary, and the position after it.
pub open spec fn atom_at(s: Seq<char>, lx: Seq<Lexeme>, pos: int) -> Option<(Seq<Node>, int)>
    decreases lx.len() - pos, 1int,
{
    if pos < 0 || pos >= lx.len() {
        None
    } else if lx[pos].kind == LexKind::Minus {
        match atom_at(s, lx, pos + 1) {
            Some((rest, e)) => Some((seq![leaf(s, lx, Rule::UnaryMinus, pos)] + rest, e)),
            None => None,
        }
    } else {
        match primary_at(s, lx, pos) {
            Some((node, e)) => Some((seq![node], e)),
            None => None,
        }
    }
}

/// `(infix atom)*` at lexeme `pos`: its nodes and the position after it.
/// An operator that no atom follows ends the recognition.
pub open spec fn tail_at(s: Seq<char>, lx: Seq<Lexeme>, pos: int) -> Option<(Seq<Node>, int)>
    decreases lx.len() - pos, 2int,
{
    if pos < 0 || pos >= lx.len() {
        Some((Seq::empty(), pos))
    } else {
        match infix_rule(lx[pos].kind) {
            Some(rule) => match atom_at(s, lx, pos + 1) {
                Some((operand, e)) => if pos < e <= lx.len() {
                    match tail_at(s, lx, e) {
                        Some((rest, end)) => Some(
                            (seq![leaf(s, lx, rule, pos)] + operand + rest, end),
                        ),
                        None => None,
                    }
                } else {
                    None
                },
                None => None,
            },
            None => Some((Seq::empty(), pos)),
        }
    }
}

/// `expr` at lexeme `pos`: the node of kind `Expr` whose children are the
/// operands and operators in source order, and the position after it.
pub open spec fn expr_at(s: Seq<char>, lx: Seq<Lexeme>, pos: int) -> Option<(Node, int)>
    decreases lx.len() - pos, 3int,
{
    match atom_at(s, lx, pos) {
        Some((first, e)) => if pos < e <= lx.len() {
            match tail_at(s, lx, e) {
                Some((rest, end)) => if e <= end <= lx.len() {
                    Some(
                        (
                            Node {
                                rule: Rule::Expr,
                                text: span(s, lx, pos, end - 1),
                                children: first + rest,
                            },
                            end,
                        ),
                    )
                } else {
                    None
                },
                None => None,
            }
        } else {
            None
        },
        None => None,
    }
}

/// `expr ("," expr)*` at lexeme `pos`: the nodes of the expressions and the
/// position after the last.
pub open spec fn args_at(s: Seq<char>, lx: Seq<Lexeme>, pos: int) -> Option<(Seq<Node>, int)>
    decreases lx.len() - pos, 4int,
{
    match expr_at(s, lx, pos) {
        Some((first, e)) => if pos < e < lx.len() && lx[e].kind == LexKind::Comma {
            match args_at(s, lx, e + 1) {
                Some((rest, end)) => Some((seq![first] + rest, end)),
                None => None,
            }
        } else {
            Some((seq![first], e))
        },
        None => None,
    }
}

/// The token tree of a text: a node of kind `Equation` over the whole text,
/// whose one child is the expression that all the lexemes make up. `None`
/// where the text has no lexemes or they make up no expression.
pub open spec fn equation_of(s: Seq<char>) -> Option<Node> {
    match lexemes(s) {
        Some(lx) => match expr_at(s, lx, 0) {
            Some((node, e)) => if e == lx.len() {
                Some(Node { rule: Rule::Equation, text: s, children: seq![node] })
            } else {
                None
            },
            None => None,
        },
        None => None,
    }
}

fn infix_of(k: LexKind) -> (r: Option<Rule>)
    ensures
        r == infix_rule(k),
{
    match k {
        LexKind::Plus => Some(Rule::Add),
        LexKind::Minus => Some(Rule::Subtract),
        LexKind::Star => Some(Rule::Multiply),
        LexKind::Slash => Some(Rule::Divide),
        LexKind::Percent => Some(Rule::Modulo),
        LexKind::Caret => Some(Rule::Power),
        _ => None,
    }
}

/// The characters of `input` from `from` up to `to`.
fn slice_text(input: &str, from: usize, to: usize) -> (t: String)
    requires
        is_ascii(input),
        from <= to <= input@.len(),
    ensures
        t@ == input@.subrange(from as int, to as int),
{
    String::from_str(input.substring_ascii(from, to))
}

fn leaf_token(input: &str, lx: &Vec<Lexeme>, rule: Rule, at: usize) -> (t: Token)
    requires
        is_ascii(input),
        in_order(lx@, input@.len() as int),
        at < lx.len(),
    ensures
        node_of(t) == leaf(input@, lx@, rule, at as int),
{
    let l = lx[at];
    let t = Token { rule, text: slice_text(input, l.start, l.end), children: Vec::new() };
    proof {
        lemma_node_children(t);
        assert(nodes_of(t.children@) =~= Seq::empty());
    }
    t
}

fn primary(input: &str, lx: &Vec<Lexeme>, pos: usize) -> (r: Option<(Token, usize)>)
    requires
        is_ascii(input),
        in_order(lx@, input@.len() as int),
    ensures
        match r {
            Some((t, e)) => primary_at(input@, lx@, pos as int) == Some((node_of(t), e as int))
                && pos < e <= lx.len(),
            None => primary_at(input@, lx@, pos as int) is None,
        },
    decreases lx.len() - pos, 0int,
{
    if pos >= lx.len() {
        return None;
    }
    match lx[pos].kind {
        LexKind::Number => Some((leaf_token(input, lx, Rule::Number, pos), pos + 1)),
        LexKind::Name => {
            if lx.len() - pos <= 2 {
                return None;
            }
            match lx[pos + 1].kind {
                LexKind::LParen => {},
                _ => {
                    return None;
                },
            }
            let name = leaf_token(input, lx, Rule::FunctionName, pos);
            let ghost name_node = node_of(name);
            let (list, close) = match lx[pos + 2].kind {
                LexKind::RParen => (
                    Token { rule: Rule::FunctionArgs, text: String::new(), children: Vec::new() },
                    pos + 2,
                ),
                _ => {
                    match args(input, lx, pos + 2) {
                        Some((items, e)) => {
                            if e >= lx.len() {
                                return None;
                            }
                            match lx[e].kind {
                                LexKind::RParen => {},
                                _ => {
                                    return None;
                                },
                            }
                            (
                                Token {
                                    rule: Rule::FunctionArgs,
                                    text: slice_text(input, lx[pos + 2].start, lx[e - 1].end),
                                    children: items,
                                },
                                e,
                            )
                        },
                        None => {
                            return None;
                        },
                    }
                },
            };
            let ghost list_node = node_of(list);
            proof {
                lemma_node_children(list);
                assert(nodes_of(Seq::<Token>::empty()) =~= Seq::<Node>::empty());
            }
            let text = slice_text(input, lx[pos].start, lx[close].end);
            let mut children: Vec<Token> = Vec::new();
            children.push(name);
            children.push(list);
            let t = Token { rule: Rule::Function, text, children };
            proof {
                lemma_node_children(t);
                assert(nodes_of(t.children@) =~= seq![name_node, list_node]);
            }
            Some((t, close + 1))
        },
        LexKind::LParen => {
            match expr(input, lx, pos + 1) {
                Some((inner, e)) => {
                    if e >= lx.len() {
                        return None;
                    }
                    match lx[e].kind {
                        LexKind::RParen => Some((inner, e + 1)),
                        _ => None,
                    }
                },
                None => None,
            }
        },
        _ => None,
    }
}

fn atom(input: &str, lx: &Vec<Lexeme>, pos: usize, out: &mut Vec<Token>) -> (r: Option<usize>)
    requires
        is_ascii(input),
        in_order(lx@, input@.len() as int),
    ensures
        match r {
            Some(e) => atom_at(input@, lx@, pos as int) matches Some((made, end)) && end == e
                && nodes_of(final(out)@) == nodes_of(old(out)@) + made && pos < e <= lx.len(),
            None => atom_at(input@, lx@, pos as int) is None,
        },
    decreases lx.len() - pos, 1int,
{
    if pos >= lx.len() {
        return None;
    }
    let ghost before = nodes_of(out@);
    match lx[pos].kind {
        LexKind::Minus => {
            let sign = leaf_token(input, lx, Rule::UnaryMinus, pos);
            let ghost sign_node = node_of(sign);
            proof {
                lemma_nodes_push(out@, sign);
            }
            out.push(sign);
            match atom(input, lx, pos + 1, out) {
                Some(e) => {
                    proof {
                        let found = atom_at(input@, lx@, pos + 1)->0;
                        let rest = found.0;
                        assert(before.push(sign_node) + rest =~= before + (seq![sign_node] + rest));
                    }
                    Some(e)
                },
                None => None,
            }
        },
        _ => {
            match primary(input, lx, pos) {
                Some((t, e)) => {
                    proof {
                        lemma_nodes_push(out@, t);
                        assert(before.push(node_of(t)) =~= before + seq![node_of(t)]);
                    }
                    out.push(t);
                    Some(e)
                },
                None => None,
            }
        },
    }
}

fn expr(input: &str, lx: &Vec<Lexeme>, pos: usize) -> (r: Option<(Token, usize)>)
    requires
        is_ascii(input),
        in_order(lx@, input@.len() as int),
    ensures
        match r {
            Some((t, e)) => expr_at(input@, lx@, pos as int) == Some((node_of(t), e as int))
                && pos < e <= lx.len(),
            None => expr_at(input@, lx@, pos as int) is None,
        },
    decreases lx.len() - pos, 3int,
{
    let ghost s = input@;
    let mut children: Vec<Token> = Vec::new();
    let first_end = match atom(input, lx, pos, &mut children) {
        Some(e) => e,
        None => {
            return None;
        },
    };
    let ghost first = nodes_of(children@);
    let ghost acc = Seq::<Node>::empty();
    proof {
        assert(nodes_of(Seq::<Token>::empty()) =~= Seq::<Node>::empty());
        let found = atom_at(s, lx@, pos as int)->0;
        assert(first =~= found.0);
        assert(first + acc =~= first);
    }
    let mut cur = first_end;
    let mut done = false;
    while !done
        invariant
            s == input@,
            is_ascii(input),
            in_order(lx@, input@.len() as int),
            pos < first_end <= cur <= lx.len(),
            atom_at(s, lx@, pos as int) == Some((first, first_end as int)),
            nodes_of(children@) == first + acc,
            tail_at(s, lx@, first_end as int) == (match tail_at(s, lx@, cur as int) {
                Some((rest, end)) => Some((acc + rest, end)),
                None => None,
            }),
            done ==> tail_at(s, lx@, cur as int) == Some((Seq::<Node>::empty(), cur as int)),
        decreases lx.len() - cur + (if done { 0int } else { 1int }),
    {
        if cur >= lx.len() {
            done = true;
        } else {
            match infix_of(lx[cur].kind) {
                None => {
                    done = true;
                },
                Some(rule) => {
                    let sign = leaf_token(input, lx, rule, cur);
                    let ghost sign_node = node_of(sign);
                    proof {
                        lemma_nodes_push(children@, sign);
                    }
                    children.push(sign);
                    match atom(input, lx, cur + 1, &mut children) {
                        None => {
                            return None;
                        },
                        Some(e) => {
                            proof {
                                let found = atom_at(s, lx@, cur + 1)->0;
                                let operand = found.0;
                                let grown = acc + seq![sign_node] + operand;
                                assert((first + acc).push(sign_node) + operand =~= first + grown);
                                match tail_at(s, lx@, e as int) {
                                    Some((rest, end)) => {
                                        assert(acc + (seq![sign_node] + operand + rest) =~= grown
                                            + rest);
                                    },
                                    None => {},
                                }
                                acc = grown;
                            }
                            cur = e;
                        },
                    }
                },
            }
        }
    }
    proof {
        assert(acc + Seq::<Node>::empty() =~= acc);
    }
    let text = slice_text(input, lx[pos].start, lx[cur - 1].end);
    let t = Token { rule: Rule::Expr, text, children };
    proof {
        lemma_node_children(t);
    }
    Some((t, cur))
}

fn args(input: &str, lx: &Vec<Lexeme>, pos: usize) -> (r: Option<(Vec<Token>, usize)>)
    requires
        is_ascii(input),
        in_order(lx@, input@.len() as int),
    ensures
        match r {
            Some((v, e)) => args_at(input@, lx@, pos as int) == Some((nodes_of(v@), e as int))
                && pos < e <= lx.len(),
            None => args_at(input@, lx@, pos as int) is None,
        },
    decreases lx.len() - pos, 4int,
{
    if pos >= lx.len() {
        proof {
            assert(atom_at(input@, lx@, pos as int) is None);
            assert(expr_at(input@, lx@, pos as int) is None);
        }
        return None;
    }
    let ghost s = input@;
    let mut items: Vec<Token> = Vec::new();
    let mut start = pos;
    proof {
        assert(nodes_of(items@) =~= Seq::<Node>::empty());
    }
    loop
        invariant
            s == input@,
            is_ascii(input),
            in_order(lx@, input@.len() as int),
            pos <= start <= lx.len(),
            args_at(s, lx@, pos as int) == (match args_at(s, lx@, start as int) {
                Some((rest, end)) => Some((nodes_of(items@) + rest, end)),
                None => None,
            }),
        decreases lx.len() - start,
    {
        let ghost before = nodes_of(items@);
        match expr(input, lx, start) {
            None => {
                return None;
            },
            Some((t, e)) => {
                let ghost node = node_of(t);
                proof {
                    lemma_nodes_push(items@, t);
                }
                items.push(t);
                let more = e < lx.len() && match lx[e].kind {
                    LexKind::Comma => true,
                    _ => false,
                };
                if more {
                    proof {
                        match args_at(s, lx@, e + 1) {
                            Some((rest, end)) => {
                                assert(before + (seq![node] + rest) =~= before.push(node) + rest);
                            },
                            None => {},
                        }
                    }
                    start = e + 1;
                } else {
                    proof {
                        assert(before + seq![node] =~= before.push(node));
                    }
                    return Some((items, e));
                }
            },
        }
    }
}

/// The grammar of arithmetic expressions.
pub struct CalculatorParser;

impl CalculatorParser {
    /// Recognises `input` as one expression and returns its token tree,
    /// rooted at a node of kind `Equation`. Text that is no expression, or
    /// holds anything after it but white space, is a syntax error.
    pub fn tokenize(input: &str) -> (r: Result<Token, ParseError>)
        ensures
            match r {
                Ok(t) => equation_of(input@) == Some(t@) && input@.len() <= usize::MAX
                    && t@.rule == Rule::Equation && t@.children.len() == 1
                    && t@.children[0].rule == Rule::Expr,
                Err(e) => e == ParseError::Syntax && equation_of(input@) is None,
            },
    {
        let lx = match lex(input) {
            Some(lx) => lx,
            None => {
                return Err(ParseError::Syntax);
            },
        };
        match expr(input, &lx, 0) {
            Some((inner, e)) => {
                if e == lx.len() {
                    let ghost inner_node = node_of(inner);
                    let mut children: Vec<Token> = Vec::new();
                    children.push(inner);
                    let t = Token {
                        rule: Rule::Equation,
                        text: String::from_str(input),
                        children,
                    };
                    proof {
                        lemma_node_children(t);
                        assert(nodes_of(t.children@) =~= seq![inner_node]);
                    }
                    Ok(t)
                } else {
                    Err(ParseError::Syntax)
                }
            },
            None => Err(ParseError::Syntax),
        }
    }
}

} // verus!
