//! From text to expression: the grammar and the precedence stage in a row.

use vstd::prelude::*;
use crate::ast::{Ast, Expr};
use crate::decimal::{is_literal, lemma_number_is_literal};
use crate::error::ParseError;
use crate::grammar::{
    args_at, atom_at, equation_of, expr_at, infix_rule, primary_at, span, tail_at,
    CalculatorParser,
};
use crate::lexer::{
    is_digit, is_name_start, is_space, lexemes, lexemes_from, name_end, number_end, LexKind,
    Lexeme,
};
use crate::pratt::{
    is_infix, lemma_wf_extend, parse_expr, tree_of, wf_call, wf_nodes, wf_primary,
};
use crate::token::{lemma_node_children, Node, Rule};

verus! {

/// Each number among the lexemes covers a decimal literal.
pub open spec fn numbers_are_literals(s: Seq<char>, lx: Seq<Lexeme>) -> bool {
    forall|i: int|
        0 <= i < lx.len() && (#[trigger] lx[i]).kind == LexKind::Number ==> is_literal(
            span(s, lx, i, i),
        )
}

proof fn lemma_lexemes_numbers(s: Seq<char>, pos: int)
    requires
        0 <= pos,
        s.len() <= usize::MAX,
    ensures
        lexemes_from(s, pos) matches Some(lx) ==> numbers_are_literals(s, lx),
    decreases s.len() - pos,
{
    if pos < s.len() {
        if is_space(s[pos]) {
            lemma_lexemes_numbers(s, pos + 1);
        } else if is_digit(s[pos]) || is_name_start(s[pos]) {
            let e = if is_digit(s[pos]) {
                number_end(s, pos)
            } else {
                name_end(s, pos)
            };
            if pos < e <= s.len() {
                lemma_lexemes_numbers(s, e);
                if is_digit(s[pos]) {
                    lemma_number_is_literal(s, pos);
                }
                if let Some(lx) = lexemes_from(s, pos) {
                    let rest = lexemes_from(s, e)->0;
                    assert forall|i: int|
                        0 <= i < lx.len() && (#[trigger] lx[i]).kind
                            == LexKind::Number implies is_literal(span(s, lx, i, i)) by {
                        if i > 0 {
                            assert(lx[i] == rest[i - 1]);
                            assert(span(s, lx, i, i) == span(s, rest, i - 1, i - 1));
                        }
                    }
                }
            }
        } else {
            lemma_lexemes_numbers(s, pos + 1);
            if let Some(lx) = lexemes_from(s, pos) {
                let rest = lexemes_from(s, pos + 1)->0;
                assert forall|i: int|
                    0 <= i < lx.len() && (#[trigger] lx[i]).kind
                        == LexKind::Number implies is_literal(span(s, lx, i, i)) by {
                    if i > 0 {
                        assert(lx[i] == rest[i - 1]);
                        assert(span(s, lx, i, i) == span(s, rest, i - 1, i - 1));
                    }
                }
            }
        }
    }
}

/// What the grammar takes for a primary is a well-formed primary.
proof fn lemma_primary_wf(s: Seq<char>, lx: Seq<Lexeme>, pos: int)
    requires
        numbers_are_literals(s, lx),
    ensures
        primary_at(s, lx, pos) matches Some((node, e)) ==> wf_primary(node),
    decreases lx.len() - pos, 0int,
{
    if 0 <= pos < lx.len() {
        if lx[pos].kind == LexKind::Number {
        } else if lx[pos].kind == LexKind::Name {
            if pos + 2 < lx.len() && lx[pos + 1].kind == LexKind::LParen {
                if lx[pos + 2].kind == LexKind::RParen {
                    let found = primary_at(s, lx, pos)->0;
                    let node = found.0;
                    assert(wf_call(node.children));
                } else {
                    lemma_args_wf(s, lx, pos + 2);
                    if let Some((node, e)) = primary_at(s, lx, pos) {
                        assert(wf_call(node.children));
                    }
                }
            }
        } else if lx[pos].kind == LexKind::LParen {
            lemma_expr_wf(s, lx, pos + 1);
        }
    }
}

/// What the grammar takes for an operand are the tokens of one expression.
proof fn lemma_atom_wf(s: Seq<char>, lx: Seq<Lexeme>, pos: int)
    requires
        numbers_are_literals(s, lx),
    ensures
        atom_at(s, lx, pos) matches Some((made, e)) ==> wf_nodes(made),
    decreases lx.len() - pos, 1int,
{
    if 0 <= pos < lx.len() {
        if lx[pos].kind == LexKind::Minus {
            lemma_atom_wf(s, lx, pos + 1);
            if let Some((made, e)) = atom_at(s, lx, pos) {
                let found = atom_at(s, lx, pos + 1)->0;
                assert(made.subrange(1, made.len() as int) =~= found.0);
            }
        } else {
            lemma_primary_wf(s, lx, pos);
        }
    }
}

/// What the grammar takes for operators and operands in turn starts with an
/// infix operator, and the tokens of one expression follow it.
proof fn lemma_tail_wf(s: Seq<char>, lx: Seq<Lexeme>, pos: int)
    requires
        numbers_are_literals(s, lx),
    ensures
        tail_at(s, lx, pos) matches Some((made, e)) ==> made.len() == 0 || (is_infix(made[0].rule)
            && wf_nodes(made.subrange(1, made.len() as int))),
    decreases lx.len() - pos, 2int,
{
    if 0 <= pos < lx.len() {
        if let Some(rule) = infix_rule(lx[pos].kind) {
            lemma_atom_wf(s, lx, pos + 1);
            if let Some((operand, e)) = atom_at(s, lx, pos + 1) {
                if pos < e <= lx.len() {
                    lemma_tail_wf(s, lx, e);
                    if let Some((rest, end)) = tail_at(s, lx, e) {
                        let whole = tail_at(s, lx, pos)->0;
                        let made = whole.0;
                        let after = made.subrange(1, made.len() as int);
                        assert(after =~= operand + rest);
                        lemma_joined_wf(operand, rest);
                    }
                }
            }
        }
    }
}

/// The tokens of one expression, and then an infix operator and the tokens
/// of one expression, are the tokens of one expression.
proof fn lemma_joined_wf(first: Seq<Node>, rest: Seq<Node>)
    requires
        wf_nodes(first),
        rest.len() == 0 || (is_infix(rest[0].rule) && wf_nodes(rest.subrange(1, rest.len() as int))),
    ensures
        wf_nodes(first + rest),
{
    let all = first + rest;
    let k = first.len() as int;
    if rest.len() == 0 {
        assert(all =~= first);
    } else {
        assert(all.subrange(0, k) =~= first);
        assert(all.subrange(k + 1, all.len() as int) =~= rest.subrange(1, rest.len() as int));
        assert(all[k] == rest[0]);
        lemma_wf_extend(all, k);
    }
}

/// What the grammar takes for an expression is a token of kind `Expr` over
/// the tokens of one expression.
proof fn lemma_expr_wf(s: Seq<char>, lx: Seq<Lexeme>, pos: int)
    requires
        numbers_are_literals(s, lx),
    ensures
        expr_at(s, lx, pos) matches Some((node, e)) ==> node.rule == Rule::Expr && wf_nodes(
            node.children,
        ),
    decreases lx.len() - pos, 3int,
{
    lemma_atom_wf(s, lx, pos);
    if let Some((first, e)) = atom_at(s, lx, pos) {
        if pos < e <= lx.len() {
            lemma_tail_wf(s, lx, e);
            if let Some((rest, end)) = tail_at(s, lx, e) {
                lemma_joined_wf(first, rest);
            }
        }
    }
}

/// What the grammar takes for arguments are expressions.
proof fn lemma_args_wf(s: Seq<char>, lx: Seq<Lexeme>, pos: int)
    requires
        numbers_are_literals(s, lx),
    ensures
        args_at(s, lx, pos) matches Some((list, e)) ==> forall|i: int|
            0 <= i < list.len() ==> (#[trigger] list[i]).rule == Rule::Expr && wf_nodes(
                list[i].children,
            ),
    decreases lx.len() - pos, 4int,
{
    lemma_expr_wf(s, lx, pos);
    if let Some((first, e)) = expr_at(s, lx, pos) {
        if pos < e < lx.len() && lx[e].kind == LexKind::Comma {
            lemma_args_wf(s, lx, e + 1);
            if let Some((rest, end)) = args_at(s, lx, e + 1) {
                let list = seq![first] + rest;
                assert forall|i: int| 0 <= i < list.len() implies (#[trigger] list[i]).rule
                    == Rule::Expr && wf_nodes(list[i].children) by {
                    if i > 0 {
                        assert(list[i] == rest[i - 1]);
                    }
                }
            }
        }
    }
}

/// Every token tree of the grammar is one that the precedence stage
/// accepts: under its root stand the tokens of one expression.
pub proof fn lemma_equation_wf(s: Seq<char>)
    requires
        s.len() <= usize::MAX,
    ensures
        equation_of(s) matches Some(root) ==> wf_nodes(root.children),
{
    if let Some(lx) = lexemes(s) {
        lemma_lexemes_numbers(s, 0);
        lemma_expr_wf(s, lx, 0);
        if let Some(root) = equation_of(s) {
            assert(root.children.subrange(1, 1) =~= Seq::<Node>::empty());
            assert(wf_primary(root.children[0]));
        }
    }
}

/// Every token tree of the grammar is rooted at an equation over exactly
/// one expression.
pub proof fn lemma_equation_shape(s: Seq<char>)
    ensures
        equation_of(s) matches Some(root) ==> root.rule == Rule::Equation && root.text == s
            && root.children.len() == 1 && root.children[0].rule == Rule::Expr,
{
}

/// The expression that a text denotes, `None` where it denotes none.
pub open spec fn expression_of(s: Seq<char>) -> Option<Ast> {
    match equation_of(s) {
        Some(root) => Some(tree_of(root.children)),
        None => None,
    }
}

/// Reads `expression` as one arithmetic expression. Text that the grammar
/// does not accept is a syntax error; no other error comes out.
pub fn parse(expression: &str) -> (r: Result<Expr, ParseError>)
    ensures
        match expression_of(expression@) {
            Some(tree) => r matches Ok(e) && e@ == tree,
            None => r matches Err(err) && err == ParseError::Syntax,
        },
{
    let root = match CalculatorParser::tokenize(expression) {
        Ok(root) => root,
        Err(err) => {
            return Err(err);
        },
    };
    proof {
        lemma_equation_wf(expression@);
        lemma_node_children(root);
    }
    parse_expr(&root.children)
}

} // verus!
