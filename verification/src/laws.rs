//! What holds of every expression that the precedence stage folds.

use vstd::prelude::*;
use crate::ast::Ast;
use crate::pratt::{
    groups_right, is_infix, is_root, lemma_root_unique, op_of, primary_tree, tier, tree_of,
};
use crate::token::{Node, Rule};

verus! {

/// The tokens are those of one operand: there are some, and none is an
/// infix operator.
pub open spec fn is_operand(ts: Seq<Node>) -> bool {
    ts.len() > 0 && forall|j: int| 0 <= j < ts.len() ==> !is_infix((#[trigger] ts[j]).rule)
}

/// Of two operators in a row, the first is folded first: it binds tighter
/// than the second, or as tight in a tier that groups to the left.
pub open spec fn folds_first(first: Rule, second: Rule) -> bool {
    tier(first) > tier(second) || (tier(first) == tier(second) && !groups_right(second))
}

/// An infix operator between two operands is the root, the operands its
/// two sides.
pub proof fn lemma_binary(a: Seq<Node>, o: Node, c: Seq<Node>)
    requires
        is_operand(a),
        is_operand(c),
        is_infix(o.rule),
    ensures
        tree_of(a + seq![o] + c) == Ast::BinOp(
            Box::new(tree_of(a)),
            op_of(o.rule),
            Box::new(tree_of(c)),
        ),
{
    let ts = a + seq![o] + c;
    let k = a.len() as int;
    assert(ts[k] == o);
    assert forall|j: int| #![trigger ts[j]] 0 <= j < ts.len() && j != k implies !is_infix(
        ts[j].rule,
    ) by {
        if j < k {
            assert(ts[j] == a[j]);
        } else {
            assert(ts[j] == c[j - k - 1]);
        }
    }
    assert(is_root(ts, k));
    lemma_root_unique(ts, k);
    assert(ts.subrange(0, k) =~= a);
    assert(ts.subrange(k + 1, ts.len() as int) =~= c);
}

/// Precedence and associativity. Of three operands with two operators
/// between them, the operator that is folded first takes the middle
/// operand: the first operator where it binds tighter than the second, or
/// as tight in a tier that groups to the left; else the second. So
/// `a - b - c` is `(a - b) - c`, `a ^ b ^ c` is `a ^ (b ^ c)`, and
/// `a + b * c` is `a + (b * c)`.
pub proof fn lemma_chain(a: Seq<Node>, o1: Node, b: Seq<Node>, o2: Node, c: Seq<Node>)
    requires
        is_operand(a),
        is_operand(b),
        is_operand(c),
        is_infix(o1.rule),
        is_infix(o2.rule),
    ensures
        tree_of(a + seq![o1] + b + seq![o2] + c) == (if folds_first(o1.rule, o2.rule) {
            Ast::BinOp(
                Box::new(
                    Ast::BinOp(Box::new(tree_of(a)), op_of(o1.rule), Box::new(tree_of(b))),
                ),
                op_of(o2.rule),
                Box::new(tree_of(c)),
            )
        } else {
            Ast::BinOp(
                Box::new(tree_of(a)),
                op_of(o1.rule),
                Box::new(
                    Ast::BinOp(Box::new(tree_of(b)), op_of(o2.rule), Box::new(tree_of(c))),
                ),
            )
        }),
{
    let ts = a + seq![o1] + b + seq![o2] + c;
    let k1 = a.len() as int;
    let k2 = k1 + 1 + b.len();
    assert(ts[k1] == o1);
    assert(ts[k2] == o2);
    assert forall|j: int|
        #![trigger ts[j]]
        0 <= j < ts.len() && j != k1 && j != k2 implies !is_infix(ts[j].rule) by {
        if j < k1 {
            assert(ts[j] == a[j]);
        } else if j < k2 {
            assert(ts[j] == b[j - k1 - 1]);
        } else {
            assert(ts[j] == c[j - k2 - 1]);
        }
    }
    if folds_first(o1.rule, o2.rule) {
        assert(is_root(ts, k2));
        lemma_root_unique(ts, k2);
        assert(ts.subrange(0, k2) =~= a + seq![o1] + b);
        assert(ts.subrange(k2 + 1, ts.len() as int) =~= c);
        lemma_binary(a, o1, b);
    } else {
        assert(is_root(ts, k1));
        lemma_root_unique(ts, k1);
        assert(ts.subrange(0, k1) =~= a);
        assert(ts.subrange(k1 + 1, ts.len() as int) =~= b + seq![o2] + c);
        lemma_binary(b, o2, c);
    }
}

/// A minus sign before an operand negates that operand.
pub proof fn lemma_negation(sign: Node, a: Seq<Node>)
    requires
        sign.rule == Rule::UnaryMinus,
        is_operand(a),
    ensures
        is_operand(seq![sign] + a),
        tree_of(seq![sign] + a) == Ast::UnaryMinus(Box::new(tree_of(a))),
{
    let ts = seq![sign] + a;
    assert forall|j: int| 0 <= j < ts.len() implies !is_infix((#[trigger] ts[j]).rule) by {
        if j > 0 {
            assert(ts[j] == a[j - 1]);
        }
    }
    assert forall|k: int| !is_root(ts, k) by {
        if 0 <= k < ts.len() {
            assert(!is_infix(ts[k].rule));
        }
    }
    assert(ts.subrange(1, ts.len() as int) =~= a);
}

/// A minus sign binds tighter than any infix operator: before the left
/// operand of an operator, it negates that operand and not the operation.
pub proof fn lemma_negation_binds_tighter(sign: Node, a: Seq<Node>, o: Node, c: Seq<Node>)
    requires
        sign.rule == Rule::UnaryMinus,
        is_operand(a),
        is_operand(c),
        is_infix(o.rule),
    ensures
        tree_of(seq![sign] + a + seq![o] + c) == Ast::BinOp(
            Box::new(Ast::UnaryMinus(Box::new(tree_of(a)))),
            op_of(o.rule),
            Box::new(tree_of(c)),
        ),
{
    lemma_negation(sign, a);
    lemma_binary(seq![sign] + a, o, c);
}

/// Brackets leave no trace: a bracketed expression denotes what its tokens
/// denote.
pub proof fn lemma_group(group: Node)
    requires
        group.rule == Rule::Expr,
    ensures
        is_operand(seq![group]),
        tree_of(seq![group]) == tree_of(group.children),
{
    let ts = seq![group];
    assert forall|k: int| !is_root(ts, k) by {}
    assert(ts[0] == group);
    assert(primary_tree(group) == tree_of(group.children));
    assert(tree_of(ts) == primary_tree(ts[0]));
}

/// Brackets override precedence: a bracketed expression is an operand of
/// the operator beside it, whatever operators stand inside the brackets.
pub proof fn lemma_brackets_override(group: Node, o: Node, c: Seq<Node>)
    requires
        group.rule == Rule::Expr,
        is_infix(o.rule),
        is_operand(c),
    ensures
        tree_of(seq![group] + seq![o] + c) == Ast::BinOp(
            Box::new(tree_of(group.children)),
            op_of(o.rule),
            Box::new(tree_of(c)),
        ),
        tree_of(c + seq![o] + seq![group]) == Ast::BinOp(
            Box::new(tree_of(c)),
            op_of(o.rule),
            Box::new(tree_of(group.children)),
        ),
{
    lemma_group(group);
    lemma_binary(seq![group], o, c);
    lemma_binary(c, o, seq![group]);
}

} // verus!
