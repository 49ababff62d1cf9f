//! Folding a token tree into an expression by operator precedence.
//!
//! The tokens of one expression are operands and infix operators in turn,
//! each operand a primary behind any number of minus signs. The expression
//! they denote has at its root the operator that binds loosest: of several
//! such, the last where they group to the left and the first where they
//! group to the right.

use vstd::prelude::*;
use crate::ast::{ast_of, asts_of, lemma_function_ast, Ast, Expr, Op};
use crate::decimal::{decimal_of, is_literal, Decimal};
use crate::error::ParseError;
use crate::token::{lemma_node_children, node_of, nodes_of, Node, Rule, Token};

verus! {

/// The side to which operators of one tier group.
#[derive(Clone, Copy, Debug, PartialEq, Eq, Structural)]
pub enum Assoc {
    Left,
    Right,
}

/// The precedence table: the tier of each infix operator, a higher tier
/// binding tighter, and the side to which the tier groups.
pub open spec fn binding_of(rule: Rule) -> Option<(u8, Assoc)> {
    match rule {
        Rule::Add => Some((1u8, Assoc::Left)),
        Rule::Subtract => Some((1u8, Assoc::Left)),
        Rule::Multiply => Some((2u8, Assoc::Left)),
        Rule::Divide => Some((2u8, Assoc::Left)),
        Rule::Modulo => Some((2u8, Assoc::Left)),
        Rule::Power => Some((3u8, Assoc::Right)),
        _ => None,
    }
}

/// The tier of `rule`; 0 where it is no infix operator.
pub open spec fn tier(rule: Rule) -> int {
    match binding_of(rule) {
        Some((t, _)) => t as int,
        None => 0,
    }
}

pub open spec fn is_infix(rule: Rule) -> bool {
    tier(rule) > 0
}

pub open spec fn groups_right(rule: Rule) -> bool {
    binding_of(rule) matches Some((_, Assoc::Right))
}

/// The operator that an infix token of kind `rule` stands for.
pub open spec fn op_of(rule: Rule) -> Op {
    match rule {
        Rule::Subtract => Op::Subtract,
        Rule::Multiply => Op::Multiply,
        Rule::Divide => Op::Divide,
        Rule::Modulo => Op::Modulo,
        Rule::Power => Op::Power,
        _ => Op::Add,
    }
}

/// The token at `k` is the operator at the root of `ts`: no operator of `ts`
/// binds looser, none before it binds as loose if its tier groups to the
/// right, and none after it if its tier groups to the left.
pub open spec fn is_root(ts: Seq<Node>, k: int) -> bool {
    &&& 0 <= k < ts.len()
    &&& is_infix(ts[k].rule)
    &&& forall|j: int|
        #![trigger ts[j]]
        0 <= j < k && is_infix(ts[j].rule) ==> if groups_right(ts[k].rule) {
            tier(ts[j].rule) > tier(ts[k].rule)
        } else {
            tier(ts[j].rule) >= tier(ts[k].rule)
        }
    &&& forall|j: int|
        #![trigger ts[j]]
        k < j < ts.len() && is_infix(ts[j].rule) ==> if groups_right(ts[k].rule) {
            tier(ts[j].rule) >= tier(ts[k].rule)
        } else {
            tier(ts[j].rule) > tier(ts[k].rule)
        }
}

/// The tokens are those of one expression: operands and infix operators in
/// turn, an operand first and last, each operand a well-formed primary
/// behind any number of minus signs.
pub open spec fn wf_nodes(ts: Seq<Node>) -> bool
    decreases ts,
{
    ts.len() > 0 && if ts[0].rule == Rule::UnaryMinus {
        wf_nodes(ts.subrange(1, ts.len() as int))
    } else {
        wf_primary(ts[0]) && (ts.len() == 1 || (is_infix(ts[1].rule) && wf_nodes(
            ts.subrange(2, ts.len() as int),
        )))
    }
}

/// The token is a primary: a number whose text is a decimal literal, a
/// bracketed expression, or a function call.
pub open spec fn wf_primary(n: Node) -> bool
    decreases n,
{
    match n.rule {
        Rule::Number => is_literal(n.text),
        Rule::Expr => wf_nodes(n.children),
        Rule::Function => wf_call(n.children),
        _ => false,
    }
}

/// The tokens are those of a function call: its name and its arguments,
/// each argument an expression.
pub open spec fn wf_call(ts: Seq<Node>) -> bool
    decreases ts,
{
    ts.len() == 2 && ts[0].rule == Rule::FunctionName && ts[1].rule == Rule::FunctionArgs
        && forall|i: int|
        0 <= i < ts[1].children.len() ==> (#[trigger] ts[1].children[i]).rule == Rule::Expr
            && wf_nodes(ts[1].children[i].children)
}

/// The expression that the tokens of one expression denote.
pub open spec fn tree_of(ts: Seq<Node>) -> Ast
    decreases ts,
{
    if ts.len() == 0 {
        arbitrary()
    } else if exists|k: int| is_root(ts, k) {
        let k = choose|k: int| is_root(ts, k);
        Ast::BinOp(
            Box::new(tree_of(ts.subrange(0, k))),
            op_of(ts[k].rule),
            Box::new(tree_of(ts.subrange(k + 1, ts.len() as int))),
        )
    } else if ts[0].rule == Rule::UnaryMinus {
        Ast::UnaryMinus(Box::new(tree_of(ts.subrange(1, ts.len() as int))))
    } else {
        primary_tree(ts[0])
    }
}

/// The expression that a primary denotes.
pub open spec fn primary_tree(n: Node) -> Ast
    decreases n,
{
    match n.rule {
        Rule::Number => Ast::Number(decimal_of(n.text)),
        Rule::Function => call_tree(n.children),
        _ => tree_of(n.children),
    }
}

/// The call that the tokens of a function call denote.
pub open spec fn call_tree(ts: Seq<Node>) -> Ast
    decreases ts,
{
    if ts.len() == 2 {
        Ast::Function(
            ts[0].text,
            Seq::new(
                ts[1].children.len(),
                |i: int|
                    if 0 <= i < ts[1].children.len() {
                        tree_of(ts[1].children[i].children)
                    } else {
                        arbitrary()
                    },
            ),
        )
    } else {
        arbitrary()
    }
}

/// Behind the tokens of one expression, more tokens make up one expression
/// exactly where an infix operator and the tokens of one expression follow.
pub proof fn lemma_wf_extend(ts: Seq<Node>, k: int)
    requires
        0 <= k < ts.len(),
        wf_nodes(ts.subrange(0, k)),
    ensures
        wf_nodes(ts) <==> (is_infix(ts[k].rule) && wf_nodes(ts.subrange(k + 1, ts.len() as int))),
    decreases k,
{
    let n = ts.len() as int;
    let head = ts.subrange(0, k);
    assert(head[0] == ts[0]);
    if ts[0].rule == Rule::UnaryMinus {
        let rest = ts.subrange(1, n);
        assert(head.subrange(1, k) =~= rest.subrange(0, k - 1));
        lemma_wf_extend(rest, k - 1);
        assert(rest.subrange(k, n - 1) =~= ts.subrange(k + 1, n));
    } else if k == 1 {
        assert(ts.subrange(2, n) =~= ts.subrange(k + 1, n));
    } else {
        assert(head[1] == ts[1]);
        let rest = ts.subrange(2, n);
        assert(head.subrange(2, k) =~= rest.subrange(0, k - 2));
        lemma_wf_extend(rest, k - 2);
        assert(rest.subrange(k - 1, n - 2) =~= ts.subrange(k + 1, n));
    }
}

/// The tokens of one expression have at most one root.
pub proof fn lemma_root_unique(ts: Seq<Node>, k: int)
    requires
        is_root(ts, k),
    ensures
        exists|j: int| is_root(ts, j),
        (choose|j: int| is_root(ts, j)) == k,
{
    let j = choose|j: int| is_root(ts, j);
    assert(is_root(ts, j));
    if j < k {
        assert(is_infix(ts[j].rule) && is_infix(ts[k].rule));
    } else if k < j {
        assert(is_infix(ts[j].rule) && is_infix(ts[k].rule));
    }
}

/// The precedence table.
pub fn binding(rule: Rule) -> (r: Option<(u8, Assoc)>)
    ensures
        r == binding_of(rule),
{
    match rule {
        Rule::Add => Some((1u8, Assoc::Left)),
        Rule::Subtract => Some((1u8, Assoc::Left)),
        Rule::Multiply => Some((2u8, Assoc::Left)),
        Rule::Divide => Some((2u8, Assoc::Left)),
        Rule::Modulo => Some((2u8, Assoc::Left)),
        Rule::Power => Some((3u8, Assoc::Right)),
        _ => None,
    }
}

fn operator(rule: Rule) -> (op: Op)
    ensures
        op == op_of(rule),
{
    match rule {
        Rule::Subtract => Op::Subtract,
        Rule::Multiply => Op::Multiply,
        Rule::Divide => Op::Divide,
        Rule::Modulo => Op::Modulo,
        Rule::Power => Op::Power,
        _ => Op::Add,
    }
}

/// Folds the tokens of one expression into the expression they denote.
/// Tokens that are not those of one expression are an internal error.
pub fn parse_expr(pairs: &Vec<Token>) -> (r: Result<Expr, ParseError>)
    ensures
        match r {
            Ok(e) => wf_nodes(nodes_of(pairs@)) && e@ == tree_of(nodes_of(pairs@)),
            Err(err) => err == ParseError::Internal && !wf_nodes(nodes_of(pairs@)),
        },
    decreases pairs, pairs.len() + 1, 0int,
{
    let ghost nodes = nodes_of(pairs@);
    proof {
        assert(nodes.subrange(0, nodes.len() as int) =~= nodes);
    }
    match climb(pairs, 0, 0) {
        Ok((e, _)) => Ok(e),
        Err(err) => Err(err),
    }
}

/// Resolves the operand at `pos` and then every operator that binds tighter
/// than `floor`, with its right-hand side. Returns the expression and the
/// position of the first token that is not part of it.
fn climb(pairs: &Vec<Token>, pos: usize, floor: u8) -> (r: Result<(Expr, usize), ParseError>)
    requires
        pos <= pairs.len(),
        floor <= 3,
    ensures
        match r {
            Ok((e, end)) => {
                let nodes = nodes_of(pairs@);
                &&& pos < end <= pairs.len()
                &&& wf_nodes(nodes.subrange(pos as int, end as int))
                &&& e@ == tree_of(nodes.subrange(pos as int, end as int))
                &&& forall|j: int|
                    #![trigger nodes[j]]
                    pos <= j < end && is_infix(nodes[j].rule) ==> tier(nodes[j].rule) > floor
                &&& end < pairs.len() ==> 0 < tier(nodes[end as int].rule) <= floor
            },
            Err(err) => err == ParseError::Internal && !wf_nodes(
                nodes_of(pairs@).subrange(pos as int, pairs.len() as int),
            ),
        },
    decreases pairs, pairs.len() - pos, 1int,
{
    let ghost nodes = nodes_of(pairs@);
    let ghost n = pairs.len() as int;
    let (first, first_end) = match operand(pairs, pos) {
        Ok(found) => found,
        Err(err) => {
            return Err(err);
        },
    };
    let mut lhs = first;
    let mut cur = first_end;
    // No operator taken so far binds looser than `bound`.
    let ghost bound: int = 4;
    loop
        invariant
            nodes == nodes_of(pairs@),
            n == pairs.len(),
            floor <= 3,
            pos < cur <= n,
            wf_nodes(nodes.subrange(pos as int, cur as int)),
            lhs@ == tree_of(nodes.subrange(pos as int, cur as int)),
            forall|j: int|
                #![trigger nodes[j]]
                pos <= j < cur && is_infix(nodes[j].rule) ==> tier(nodes[j].rule) > floor && tier(
                    nodes[j].rule,
                ) >= bound,
            1 <= bound <= 4,
            cur < n && is_infix(nodes[cur as int].rule) ==> tier(nodes[cur as int].rule) <= bound
                && (bound == 3 ==> tier(nodes[cur as int].rule) < 3),
        decreases n - cur,
    {
        if cur >= pairs.len() {
            return Ok((lhs, cur));
        }
        let (level, side) = match binding(pairs[cur].rule) {
            Some(found) => found,
            None => {
                proof {
                    let rest = nodes.subrange(pos as int, n);
                    assert(rest.subrange(0, cur - pos) =~= nodes.subrange(pos as int, cur as int));
                    lemma_wf_extend(rest, cur - pos);
                }
                return Err(ParseError::Internal);
            },
        };
        if level <= floor {
            return Ok((lhs, cur));
        }
        let next_floor = match side {
            Assoc::Left => level,
            Assoc::Right => level - 1,
        };
        let op = operator(pairs[cur].rule);
        match climb(pairs, cur + 1, next_floor) {
            Err(err) => {
                proof {
                    let rest = nodes.subrange(pos as int, n);
                    assert(rest.subrange(0, cur - pos) =~= nodes.subrange(pos as int, cur as int));
                    assert(rest.subrange(cur - pos + 1, rest.len() as int) =~= nodes.subrange(
                        cur + 1,
                        n,
                    ));
                    lemma_wf_extend(rest, cur - pos);
                }
                return Err(err);
            },
            Ok((rhs, end)) => {
                proof {
                    let seg = nodes.subrange(pos as int, end as int);
                    let k = cur - pos;
                    assert(seg.subrange(0, k) =~= nodes.subrange(pos as int, cur as int));
                    assert(seg.subrange(k + 1, seg.len() as int) =~= nodes.subrange(
                        cur + 1,
                        end as int,
                    ));
                    lemma_wf_extend(seg, k);
                    assert(seg[k] == nodes[cur as int]);
                    assert forall|j: int| 0 <= j < seg.len() implies #[trigger] seg[j] == nodes[pos
                        + j] by {}
                    assert(is_root(seg, k)) by {
                        assert forall|j: int| #![trigger seg[j]] 0 <= j < k && is_infix(
                            seg[j].rule,
                        ) implies if groups_right(seg[k].rule) {
                            tier(seg[j].rule) > tier(seg[k].rule)
                        } else {
                            tier(seg[j].rule) >= tier(seg[k].rule)
                        } by {
                            assert(seg[j] == nodes[pos + j]);
                        }
                        assert forall|j: int| #![trigger seg[j]] k < j < seg.len() && is_infix(
                            seg[j].rule,
                        ) implies if groups_right(seg[k].rule) {
                            tier(seg[j].rule) >= tier(seg[k].rule)
                        } else {
                            tier(seg[j].rule) > tier(seg[k].rule)
                        } by {
                            assert(seg[j] == nodes[pos + j]);
                        }
                    }
                    lemma_root_unique(seg, k);
                    bound = level as int;
                }
                lhs = Expr::BinOp { lhs: Box::new(lhs), op, rhs: Box::new(rhs) };
                cur = end;
            },
        }
    }
}

/// Resolves the operand at `pos`: a primary behind any number of minus
/// signs, each of which negates what follows it.
fn operand(pairs: &Vec<Token>, pos: usize) -> (r: Result<(Expr, usize), ParseError>)
    requires
        pos <= pairs.len(),
    ensures
        match r {
            Ok((e, end)) => {
                let nodes = nodes_of(pairs@);
                &&& pos < end <= pairs.len()
                &&& wf_nodes(nodes.subrange(pos as int, end as int))
                &&& e@ == tree_of(nodes.subrange(pos as int, end as int))
                &&& forall|j: int| #![trigger nodes[j]] pos <= j < end ==> !is_infix(nodes[j].rule)
            },
            Err(err) => err == ParseError::Internal && !wf_nodes(
                nodes_of(pairs@).subrange(pos as int, pairs.len() as int),
            ),
        },
    decreases pairs, pairs.len() - pos, 0int,
{
    let ghost nodes = nodes_of(pairs@);
    let ghost n = pairs.len() as int;
    if pos >= pairs.len() {
        return Err(ParseError::Internal);
    }
    proof {
        lemma_node_children(pairs@[pos as int]);
    }
    match pairs[pos].rule {
        Rule::UnaryMinus => match operand(pairs, pos + 1) {
            Ok((inner, end)) => {
                proof {
                    let seg = nodes.subrange(pos as int, end as int);
                    assert(seg.subrange(1, seg.len() as int) =~= nodes.subrange(
                        pos + 1,
                        end as int,
                    ));
                    assert forall|k: int| !is_root(seg, k) by {
                        if 0 <= k < seg.len() {
                            assert(seg[k] == nodes[pos + k]);
                        }
                    }
                }
                Ok((Expr::UnaryMinus(Box::new(inner)), end))
            },
            Err(err) => {
                proof {
                    let rest = nodes.subrange(pos as int, n);
                    assert(rest.subrange(1, rest.len() as int) =~= nodes.subrange(pos + 1, n));
                }
                Err(err)
            },
        },
        _ => match parse_primary(&pairs[pos]) {
            Ok(e) => {
                proof {
                    let seg = nodes.subrange(pos as int, pos + 1);
                    assert(seg[0] == node_of(pairs@[pos as int]));
                    assert forall|k: int| !is_root(seg, k) by {}
                }
                Ok((e, pos + 1))
            },
            Err(err) => {
                proof {
                    let rest = nodes.subrange(pos as int, n);
                    assert(rest[0] == node_of(pairs@[pos as int]));
                }
                Err(err)
            },
        },
    }
}

/// Resolves a primary: a number, a bracketed expression or a function call.
/// A token of another kind, or a number that is no decimal literal, is an
/// internal error.
pub fn parse_primary(token: &Token) -> (r: Result<Expr, ParseError>)
    ensures
        match r {
            Ok(e) => wf_primary(token@) && e@ == primary_tree(token@),
            Err(err) => err == ParseError::Internal && !wf_primary(token@),
        },
    decreases token, 0int, 0int,
{
    proof {
        lemma_node_children(*token);
    }
    match token.rule {
        Rule::Number => match Decimal::from_text(token.text.as_str()) {
            Some(d) => Ok(Expr::Number(d)),
            None => Err(ParseError::Internal),
        },
        Rule::Expr => parse_expr(&token.children),
        Rule::Function => parse_function(&token.children),
        _ => Err(ParseError::Internal),
    }
}

/// Builds a function call from its tokens: the name, and the arguments,
/// each folded on its own. Tokens that are not those of a function call are
/// an internal error.
pub fn parse_function(pairs: &Vec<Token>) -> (r: Result<Expr, ParseError>)
    ensures
        match r {
            Ok(e) => wf_call(nodes_of(pairs@)) && e@ == call_tree(nodes_of(pairs@)),
            Err(err) => err == ParseError::Internal && !wf_call(nodes_of(pairs@)),
        },
    decreases pairs, 0int, 0int,
{
    let ghost nodes = nodes_of(pairs@);
    if pairs.len() != 2 {
        return Err(ParseError::Internal);
    }
    proof {
        lemma_node_children(pairs@[0]);
        lemma_node_children(pairs@[1]);
    }
    match pairs[0].rule {
        Rule::FunctionName => {},
        _ => {
            return Err(ParseError::Internal);
        },
    }
    match pairs[1].rule {
        Rule::FunctionArgs => {},
        _ => {
            return Err(ParseError::Internal);
        },
    }
    let list = &pairs[1].children;
    let ghost items = nodes[1].children;
    let mut args: Vec<Expr> = Vec::new();
    let mut i: usize = 0;
    while i < list.len()
        invariant
            nodes == nodes_of(pairs@),
            pairs@.len() == 2,
            list == &pairs@[1].children,
            items == nodes[1].children,
            items == nodes_of(list@),
            i <= list@.len(),
            args@.len() == i,
            forall|k: int|
                0 <= k < i ==> (#[trigger] items[k]).rule == Rule::Expr && wf_nodes(
                    items[k].children,
                ) && ast_of(args@[k]) == tree_of(items[k].children),
        decreases list@.len() - i,
    {
        proof {
            lemma_node_children(list@[i as int]);
            assert(nodes[1].children[i as int] == node_of(list@[i as int]));
        }
        match list[i].rule {
            Rule::Expr => {},
            _ => {
                return Err(ParseError::Internal);
            },
        }
        match parse_expr(&list[i].children) {
            Ok(e) => {
                args.push(e);
            },
            Err(err) => {
                return Err(err);
            },
        }
        i = i + 1;
    }
    let name = pairs[0].text.clone();
    proof {
        lemma_function_ast(name, args);
        assert(asts_of(args@) =~= call_tree(nodes)->Function_1);
    }
    Ok(Expr::Function { name, args })
}

} // verus!
