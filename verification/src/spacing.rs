//! White space is insignificant: the expression that a text denotes
//! depends on the kinds and the texts of its lexemes alone.

use vstd::prelude::*;
use crate::grammar::{
    args_at, atom_at, equation_of, expr_at, infix_rule, leaf, primary_at, span, tail_at,
};
use crate::lexer::{
    digits_end, is_digit, is_name_char, is_name_start, is_space, lemma_digits_end_bounds,
    lemma_name_end_bounds, lexemes, lexemes_from, name_end, number_end, symbol_kind, LexKind,
    Lexeme,
};
use crate::parser::expression_of;
use crate::pratt::{call_tree, is_root, lemma_root_unique, primary_tree, tree_of};
use crate::token::{Node, Rule};

verus! {

/// Two lexeme sequences, each of its own text, spell the same words: they
/// are as long, and lexemes at the same place are of one kind and cover the
/// same characters.
pub open spec fn same_words(s1: Seq<char>, lx1: Seq<Lexeme>, s2: Seq<char>, lx2: Seq<Lexeme>) -> bool {
    &&& lx1.len() == lx2.len()
    &&& forall|i: int|
        0 <= i < lx1.len() ==> (#[trigger] lx1[i]).kind == lx2[i].kind && span(s1, lx1, i, i)
            == span(s2, lx2, i, i)
}

/// Two tokens differ at most in the text of tokens that have children: they
/// are of one kind, numbers have the same text, calls the same name, and
/// their children are alike in turn.
pub open spec fn alike(x: Node, y: Node) -> bool
    decreases x,
{
    &&& x.rule == y.rule
    &&& x.rule == Rule::Number ==> x.text == y.text
    &&& x.rule == Rule::Function && x.children.len() == 2 ==> x.children[0].text
        == y.children[0].text
    &&& all_alike(x.children, y.children)
}

pub open spec fn all_alike(xs: Seq<Node>, ys: Seq<Node>) -> bool
    decreases xs,
{
    xs.len() == ys.len() && forall|i: int| 0 <= i < xs.len() ==> alike(#[trigger] xs[i], ys[i])
}

/// Tokens that are alike denote the same expression.
pub proof fn lemma_alike_tree(xs: Seq<Node>, ys: Seq<Node>)
    requires
        all_alike(xs, ys),
    ensures
        tree_of(xs) == tree_of(ys),
    decreases xs,
{
    let n = xs.len() as int;
    if n > 0 {
        assert forall|j: int| 0 <= j < n implies (#[trigger] ys[j]).rule == xs[j].rule by {
            assert(alike(xs[j], ys[j]));
        }
        assert forall|k: int| is_root(xs, k) == is_root(ys, k) by {
            if 0 <= k < n {
                assert(xs[k].rule == ys[k].rule);
                if is_root(xs, k) {
                    assert forall|j: int| 0 <= j < n implies (#[trigger] ys[j]).rule
                        == xs[j].rule by {}
                    assert(is_root(ys, k));
                }
                if is_root(ys, k) {
                    assert forall|j: int| 0 <= j < n implies (#[trigger] xs[j]).rule
                        == ys[j].rule by {}
                    assert(is_root(xs, k));
                }
            }
        }
        if exists|k: int| is_root(xs, k) {
            let k = choose|k: int| is_root(xs, k);
            assert(is_root(ys, k));
            lemma_root_unique(ys, k);
            assert(all_alike(xs.subrange(0, k), ys.subrange(0, k))) by {
                assert forall|i: int| 0 <= i < k implies alike(
                    #[trigger] xs.subrange(0, k)[i],
                    ys.subrange(0, k)[i],
                ) by {
                    assert(alike(xs[i], ys[i]));
                }
            }
            assert(all_alike(xs.subrange(k + 1, n), ys.subrange(k + 1, n))) by {
                assert forall|i: int| 0 <= i < n - k - 1 implies alike(
                    #[trigger] xs.subrange(k + 1, n)[i],
                    ys.subrange(k + 1, n)[i],
                ) by {
                    assert(alike(xs[k + 1 + i], ys[k + 1 + i]));
                }
            }
            lemma_alike_tree(xs.subrange(0, k), ys.subrange(0, k));
            lemma_alike_tree(xs.subrange(k + 1, n), ys.subrange(k + 1, n));
        } else {
            assert(alike(xs[0], ys[0]));
            if xs[0].rule == Rule::UnaryMinus {
                assert(all_alike(xs.subrange(1, n), ys.subrange(1, n))) by {
                    assert forall|i: int| 0 <= i < n - 1 implies alike(
                        #[trigger] xs.subrange(1, n)[i],
                        ys.subrange(1, n)[i],
                    ) by {
                        assert(alike(xs[1 + i], ys[1 + i]));
                    }
                }
                lemma_alike_tree(xs.subrange(1, n), ys.subrange(1, n));
            } else {
                lemma_alike_primary(xs[0], ys[0]);
            }
        }
    }
}

/// Primaries that are alike denote the same expression.
proof fn lemma_alike_primary(x: Node, y: Node)
    requires
        alike(x, y),
    ensures
        primary_tree(x) == primary_tree(y),
    decreases x,
{
    if x.rule == Rule::Number {
    } else if x.rule == Rule::Function {
        if x.children.len() == 2 {
            assert(alike(x.children[1], y.children[1]));
            let xa = x.children[1].children;
            let ya = y.children[1].children;
            assert forall|i: int| 0 <= i < xa.len() implies tree_of(xa[i].children) == tree_of(
                ya[i].children,
            ) by {
                assert(alike(xa[i], ya[i]));
                lemma_alike_tree(xa[i].children, ya[i].children);
            }
            assert(call_tree(x.children)->Function_1 =~= call_tree(y.children)->Function_1);
        }
    } else {
        lemma_alike_tree(x.children, y.children);
    }
}

/// Leaves of one kind over lexemes that spell the same word are alike.
proof fn lemma_leaves_alike(
    s1: Seq<char>,
    lx1: Seq<Lexeme>,
    s2: Seq<char>,
    lx2: Seq<Lexeme>,
    rule: Rule,
    pos: int,
)
    requires
        same_words(s1, lx1, s2, lx2),
        0 <= pos < lx1.len(),
    ensures
        alike(leaf(s1, lx1, rule, pos), leaf(s2, lx2, rule, pos)),
        all_alike(
            seq![leaf(s1, lx1, rule, pos)],
            seq![leaf(s2, lx2, rule, pos)],
        ),
{
    let x = leaf(s1, lx1, rule, pos);
    let y = leaf(s2, lx2, rule, pos);
    assert(lx1[pos].kind == lx2[pos].kind);
    assert(all_alike(x.children, y.children));
    assert(alike(x, y));
}

proof fn lemma_alike_join(x1: Seq<Node>, x2: Seq<Node>, y1: Seq<Node>, y2: Seq<Node>)
    requires
        all_alike(x1, y1),
        all_alike(x2, y2),
    ensures
        all_alike(x1 + x2, y1 + y2),
{
    assert forall|i: int| 0 <= i < (x1 + x2).len() implies alike(
        #[trigger] (x1 + x2)[i],
        (y1 + y2)[i],
    ) by {
        if i < x1.len() {
            assert(alike(x1[i], y1[i]));
        } else {
            assert(alike(x2[i - x1.len()], y2[i - x1.len()]));
        }
    }
}

/// The outcomes of one production on two texts agree: both fail, or both
/// end at the same lexeme with tokens that are alike.
pub open spec fn one_agrees(r1: Option<(Node, int)>, r2: Option<(Node, int)>) -> bool {
    match (r1, r2) {
        (Some((x, e1)), Some((y, e2))) => e1 == e2 && alike(x, y),
        (None, None) => true,
        _ => false,
    }
}

pub open spec fn many_agree(r1: Option<(Seq<Node>, int)>, r2: Option<(Seq<Node>, int)>) -> bool {
    match (r1, r2) {
        (Some((xs, e1)), Some((ys, e2))) => e1 == e2 && all_alike(xs, ys),
        (None, None) => true,
        _ => false,
    }
}

proof fn lemma_primary_agrees(
    s1: Seq<char>,
    lx1: Seq<Lexeme>,
    s2: Seq<char>,
    lx2: Seq<Lexeme>,
    pos: int,
)
    requires
        same_words(s1, lx1, s2, lx2),
    ensures
        one_agrees(primary_at(s1, lx1, pos), primary_at(s2, lx2, pos)),
    decreases lx1.len() - pos, 0int,
{
    if 0 <= pos < lx1.len() {
        assert(lx1[pos].kind == lx2[pos].kind);
        if lx1[pos].kind == LexKind::Number {
        } else if lx1[pos].kind == LexKind::Name {
            if pos + 2 < lx1.len() {
                assert(lx1[pos + 1].kind == lx2[pos + 1].kind);
                assert(lx1[pos + 2].kind == lx2[pos + 2].kind);
                if lx1[pos + 1].kind == LexKind::LParen {
                    if lx1[pos + 2].kind == LexKind::RParen {
                        let found1 = primary_at(s1, lx1, pos)->0;
                        let found2 = primary_at(s2, lx2, pos)->0;
                        let x = found1.0;
                        let y = found2.0;
                        assert(all_alike(x.children[1].children, y.children[1].children));
                        assert(alike(x.children[0], y.children[0]));
                        assert(alike(x.children[1], y.children[1]));
                        assert(all_alike(x.children, y.children));
                    } else {
                        lemma_args_agree(s1, lx1, s2, lx2, pos + 2);
                        if let Some((list, e)) = args_at(s1, lx1, pos + 2) {
                            if pos + 2 < e < lx1.len() {
                                assert(lx1[e].kind == lx2[e].kind);
                                if lx1[e].kind == LexKind::RParen {
                                    let found1 = primary_at(s1, lx1, pos)->0;
                                    let found2 = primary_at(s2, lx2, pos)->0;
                                    let x = found1.0;
                                    let y = found2.0;
                                    assert(alike(x.children[0], y.children[0]));
                                    assert(alike(x.children[1], y.children[1]));
                                    assert(all_alike(x.children, y.children));
                                }
                            }
                        }
                    }
                }
            }
        } else if lx1[pos].kind == LexKind::LParen {
            lemma_expr_agrees(s1, lx1, s2, lx2, pos + 1);
            if let Some((inner, e)) = expr_at(s1, lx1, pos + 1) {
                if 0 <= e < lx1.len() {
                    assert(lx1[e].kind == lx2[e].kind);
                }
            }
        }
    }
}

proof fn lemma_atom_agrees(
    s1: Seq<char>,
    lx1: Seq<Lexeme>,
    s2: Seq<char>,
    lx2: Seq<Lexeme>,
    pos: int,
)
    requires
        same_words(s1, lx1, s2, lx2),
    ensures
        many_agree(atom_at(s1, lx1, pos), atom_at(s2, lx2, pos)),
    decreases lx1.len() - pos, 1int,
{
    if 0 <= pos < lx1.len() {
        assert(lx1[pos].kind == lx2[pos].kind);
        if lx1[pos].kind == LexKind::Minus {
            lemma_atom_agrees(s1, lx1, s2, lx2, pos + 1);
            if let Some((xs, e)) = atom_at(s1, lx1, pos + 1) {
                let found = atom_at(s2, lx2, pos + 1)->0;
                let sign1 = leaf(s1, lx1, Rule::UnaryMinus, pos);
                let sign2 = leaf(s2, lx2, Rule::UnaryMinus, pos);
                lemma_leaves_alike(s1, lx1, s2, lx2, Rule::UnaryMinus, pos);
                lemma_alike_join(seq![sign1], xs, seq![sign2], found.0);
            }
        } else {
            lemma_primary_agrees(s1, lx1, s2, lx2, pos);
            if let Some((x, e)) = primary_at(s1, lx1, pos) {
                let found = primary_at(s2, lx2, pos)->0;
                assert(all_alike(seq![x], seq![found.0]));
            }
        }
    }
}

proof fn lemma_tail_agrees(
    s1: Seq<char>,
    lx1: Seq<Lexeme>,
    s2: Seq<char>,
    lx2: Seq<Lexeme>,
    pos: int,
)
    requires
        same_words(s1, lx1, s2, lx2),
    ensures
        many_agree(tail_at(s1, lx1, pos), tail_at(s2, lx2, pos)),
    decreases lx1.len() - pos, 2int,
{
    if 0 <= pos < lx1.len() {
        assert(lx1[pos].kind == lx2[pos].kind);
        if let Some(rule) = infix_rule(lx1[pos].kind) {
            lemma_atom_agrees(s1, lx1, s2, lx2, pos + 1);
            if let Some((xs, e)) = atom_at(s1, lx1, pos + 1) {
                if pos < e <= lx1.len() {
                    lemma_tail_agrees(s1, lx1, s2, lx2, e);
                    if let Some((rest1, end)) = tail_at(s1, lx1, e) {
                        let ys = atom_at(s2, lx2, pos + 1)->0;
                        let rest2 = tail_at(s2, lx2, e)->0;
                        let sign1 = leaf(s1, lx1, rule, pos);
                        let sign2 = leaf(s2, lx2, rule, pos);
                        lemma_leaves_alike(s1, lx1, s2, lx2, rule, pos);
                        lemma_alike_join(seq![sign1], xs, seq![sign2], ys.0);
                        lemma_alike_join(seq![sign1] + xs, rest1, seq![sign2] + ys.0, rest2.0);
                    }
                }
            }
        } else {
            assert(all_alike(Seq::<Node>::empty(), Seq::<Node>::empty()));
        }
    } else {
        assert(all_alike(Seq::<Node>::empty(), Seq::<Node>::empty()));
    }
}

proof fn lemma_expr_agrees(
    s1: Seq<char>,
    lx1: Seq<Lexeme>,
    s2: Seq<char>,
    lx2: Seq<Lexeme>,
    pos: int,
)
    requires
        same_words(s1, lx1, s2, lx2),
    ensures
        one_agrees(expr_at(s1, lx1, pos), expr_at(s2, lx2, pos)),
    decreases lx1.len() - pos, 3int,
{
    lemma_atom_agrees(s1, lx1, s2, lx2, pos);
    if let Some((first1, e)) = atom_at(s1, lx1, pos) {
        if pos < e <= lx1.len() {
            lemma_tail_agrees(s1, lx1, s2, lx2, e);
            if let Some((rest1, end)) = tail_at(s1, lx1, e) {
                let first2 = atom_at(s2, lx2, pos)->0;
                let rest2 = tail_at(s2, lx2, e)->0;
                lemma_alike_join(first1, rest1, first2.0, rest2.0);
            }
        }
    }
}

proof fn lemma_args_agree(
    s1: Seq<char>,
    lx1: Seq<Lexeme>,
    s2: Seq<char>,
    lx2: Seq<Lexeme>,
    pos: int,
)
    requires
        same_words(s1, lx1, s2, lx2),
    ensures
        many_agree(args_at(s1, lx1, pos), args_at(s2, lx2, pos)),
    decreases lx1.len() - pos, 4int,
{
    lemma_expr_agrees(s1, lx1, s2, lx2, pos);
    if let Some((x, e)) = expr_at(s1, lx1, pos) {
        let found = expr_at(s2, lx2, pos)->0;
        assert(all_alike(seq![x], seq![found.0]));
        if pos < e < lx1.len() {
            assert(lx1[e].kind == lx2[e].kind);
            if lx1[e].kind == LexKind::Comma {
                lemma_args_agree(s1, lx1, s2, lx2, e + 1);
                if let Some((rest1, end)) = args_at(s1, lx1, e + 1) {
                    let rest2 = args_at(s2, lx2, e + 1)->0;
                    lemma_alike_join(seq![x], rest1, seq![found.0], rest2.0);
                }
            }
        }
    }
}

/// Two texts whose lexemes spell the same words denote the same
/// expression, or both none: where the lexemes stand in the text, and so
/// what white space lies between them, changes nothing.
pub proof fn lemma_same_words_same_expression(s1: Seq<char>, s2: Seq<char>)
    requires
        lexemes(s1) is Some,
        lexemes(s2) is Some,
        same_words(s1, lexemes(s1)->0, s2, lexemes(s2)->0),
    ensures
        expression_of(s1) == expression_of(s2),
{
    let lx1 = lexemes(s1)->0;
    let lx2 = lexemes(s2)->0;
    lemma_expr_agrees(s1, lx1, s2, lx2, 0);
    if let Some(root1) = equation_of(s1) {
        let root2 = equation_of(s2)->0;
        lemma_alike_tree(root1.children, root2.children);
    }
}

/// A lexeme of this kind is a word: a number or a name.
pub open spec fn is_word(k: LexKind) -> bool {
    k == LexKind::Number || k == LexKind::Name
}

/// The lexemes at `i` and behind it are not both words.
pub open spec fn apart_at(lx: Seq<Lexeme>, i: int) -> bool {
    !(is_word(lx[i].kind) && is_word(lx[i + 1].kind))
}

/// From `from` up to `to`, no word follows a word.
pub open spec fn words_apart(lx: Seq<Lexeme>, from: int, to: int) -> bool {
    forall|i: int| from <= i && i + 1 < to ==> #[trigger] apart_at(lx, i)
}

proof fn lemma_primary_apart(s: Seq<char>, lx: Seq<Lexeme>, pos: int)
    ensures
        primary_at(s, lx, pos) matches Some((node, e)) ==> pos < e <= lx.len() && words_apart(
            lx,
            pos,
            e,
        ),
    decreases lx.len() - pos, 0int,
{
    if let Some((node, e)) = primary_at(s, lx, pos) {
        if lx[pos].kind == LexKind::Number {
        } else if lx[pos].kind == LexKind::Name {
            if lx[pos + 2].kind == LexKind::RParen {
                assert(apart_at(lx, pos));
                assert(apart_at(lx, pos + 1));
            } else {
                lemma_args_apart(s, lx, pos + 2);
                assert forall|i: int| pos <= i && i + 1 < e implies #[trigger] apart_at(lx, i) by {
                    if i < pos + 2 {
                        assert(!is_word(lx[pos + 1].kind));
                    } else if i + 1 == e - 1 {
                        assert(!is_word(lx[e - 1].kind));
                    }
                }
            }
        } else {
            lemma_expr_apart(s, lx, pos + 1);
            assert forall|i: int| pos <= i && i + 1 < e implies #[trigger] apart_at(lx, i) by {
                if i == pos {
                    assert(!is_word(lx[pos].kind));
                } else if i + 1 == e - 1 {
                    assert(!is_word(lx[e - 1].kind));
                }
            }
        }
    }
}

proof fn lemma_atom_apart(s: Seq<char>, lx: Seq<Lexeme>, pos: int)
    ensures
        atom_at(s, lx, pos) matches Some((made, e)) ==> pos < e <= lx.len() && words_apart(
            lx,
            pos,
            e,
        ),
    decreases lx.len() - pos, 1int,
{
    if let Some((made, e)) = atom_at(s, lx, pos) {
        if lx[pos].kind == LexKind::Minus {
            lemma_atom_apart(s, lx, pos + 1);
            assert forall|i: int| pos <= i && i + 1 < e implies #[trigger] apart_at(lx, i) by {
                if i == pos {
                    assert(!is_word(lx[pos].kind));
                }
            }
        } else {
            lemma_primary_apart(s, lx, pos);
        }
    }
}

proof fn lemma_tail_apart(s: Seq<char>, lx: Seq<Lexeme>, pos: int)
    ensures
        tail_at(s, lx, pos) matches Some((made, e)) ==> pos <= e && (e == pos || e <= lx.len())
            && words_apart(lx, pos, e) && (pos < e ==> !is_word(lx[pos].kind)),
    decreases lx.len() - pos, 2int,
{
    if let Some((made, end)) = tail_at(s, lx, pos) {
        if 0 <= pos < lx.len() && infix_rule(lx[pos].kind) is Some {
            lemma_atom_apart(s, lx, pos + 1);
            let found = atom_at(s, lx, pos + 1)->0;
            let e = found.1;
            lemma_tail_apart(s, lx, e);
            assert(!is_word(lx[pos].kind));
            assert forall|i: int| pos <= i && i + 1 < end implies #[trigger] apart_at(lx, i) by {
                if i == pos {
                } else if i + 1 < e {
                } else if i >= e {
                } else {
                    assert(!is_word(lx[e].kind));
                }
            }
        }
    }
}

proof fn lemma_expr_apart(s: Seq<char>, lx: Seq<Lexeme>, pos: int)
    ensures
        expr_at(s, lx, pos) matches Some((node, e)) ==> pos < e <= lx.len() && words_apart(
            lx,
            pos,
            e,
        ),
    decreases lx.len() - pos, 3int,
{
    if let Some((node, end)) = expr_at(s, lx, pos) {
        lemma_atom_apart(s, lx, pos);
        let found = atom_at(s, lx, pos)->0;
        let e = found.1;
        lemma_tail_apart(s, lx, e);
        assert forall|i: int| pos <= i && i + 1 < end implies #[trigger] apart_at(lx, i) by {
            if i + 1 < e {
            } else if i >= e {
            } else {
                assert(!is_word(lx[e].kind));
            }
        }
    }
}

proof fn lemma_args_apart(s: Seq<char>, lx: Seq<Lexeme>, pos: int)
    ensures
        args_at(s, lx, pos) matches Some((list, e)) ==> pos < e <= lx.len() && words_apart(
            lx,
            pos,
            e,
        ),
    decreases lx.len() - pos, 4int,
{
    if let Some((list, end)) = args_at(s, lx, pos) {
        lemma_expr_apart(s, lx, pos);
        let found = expr_at(s, lx, pos)->0;
        let e = found.1;
        if pos < e < lx.len() && lx[e].kind == LexKind::Comma {
            lemma_args_apart(s, lx, e + 1);
            assert forall|i: int| pos <= i && i + 1 < end implies #[trigger] apart_at(lx, i) by {
                if i + 1 < e {
                } else if i > e {
                } else {
                    assert(!is_word(lx[e].kind));
                }
            }
        }
    }
}

/// The digits of a text that starts with `x` end inside `x` where those of
/// `x` do, and else where those from the end of `x` on do.
proof fn lemma_digits_prefix(x: Seq<char>, y: Seq<char>, p: int)
    requires
        0 <= p <= x.len(),
    ensures
        digits_end(x + y, p) == (if digits_end(x, p) < x.len() {
            digits_end(x, p)
        } else {
            digits_end(x + y, x.len() as int)
        }),
    decreases x.len() - p,
{
    lemma_digits_end_bounds(x, p);
    if p < x.len() {
        assert((x + y)[p] == x[p]);
        if is_digit(x[p]) {
            lemma_digits_prefix(x, y, p + 1);
        }
    }
}

/// Behind `x`, the digits end where they end in the rest alone.
proof fn lemma_digits_suffix(x: Seq<char>, y: Seq<char>, i: int)
    requires
        0 <= i <= y.len(),
    ensures
        digits_end(x + y, x.len() + i) == x.len() + digits_end(y, i),
    decreases y.len() - i,
{
    if i < y.len() {
        assert((x + y)[x.len() + i] == y[i]);
        if is_digit(y[i]) {
            lemma_digits_suffix(x, y, i + 1);
        }
    }
}

proof fn lemma_name_prefix(x: Seq<char>, y: Seq<char>, p: int)
    requires
        0 <= p <= x.len(),
    ensures
        name_end(x + y, p) == (if name_end(x, p) < x.len() {
            name_end(x, p)
        } else {
            name_end(x + y, x.len() as int)
        }),
    decreases x.len() - p,
{
    lemma_name_end_bounds(x, p);
    if p < x.len() {
        assert((x + y)[p] == x[p]);
        if is_name_char(x[p]) {
            lemma_name_prefix(x, y, p + 1);
        }
    }
}

proof fn lemma_name_suffix(x: Seq<char>, y: Seq<char>, i: int)
    requires
        0 <= i <= y.len(),
    ensures
        name_end(x + y, x.len() + i) == x.len() + name_end(y, i),
    decreases y.len() - i,
{
    if i < y.len() {
        assert((x + y)[x.len() + i] == y[i]);
        if is_name_char(y[i]) {
            lemma_name_suffix(x, y, i + 1);
        }
    }
}

proof fn lemma_number_suffix(x: Seq<char>, y: Seq<char>, i: int)
    requires
        0 <= i <= y.len(),
    ensures
        number_end(x + y, x.len() + i) == x.len() + number_end(y, i),
{
    lemma_digits_suffix(x, y, i);
    lemma_digits_end_bounds(y, i);
    let e = digits_end(y, i);
    if e + 1 < y.len() {
        assert((x + y)[x.len() + e] == y[e]);
        assert((x + y)[x.len() + e + 1] == y[e + 1]);
        lemma_digits_suffix(x, y, e + 1);
    }
}

/// Behind `x`, a text has the lexemes that it has alone, `x.len()` further
/// on: they spell the same words.
proof fn lemma_suffix_words(x: Seq<char>, y: Seq<char>, i: int)
    requires
        0 <= i,
        x.len() + y.len() <= usize::MAX,
    ensures
        match (lexemes_from(y, i), lexemes_from(x + y, x.len() + i)) {
            (Some(own), Some(moved)) => same_words(y, own, x + y, moved) && (own.len() > 0
                && i < y.len() && !is_space(y[i]) ==> own[0].start == i),
            (None, None) => true,
            _ => false,
        },
    decreases y.len() - i,
{
    let xy = x + y;
    let d = x.len() as int;
    if i < y.len() {
        assert(xy[d + i] == y[i]);
        if is_space(y[i]) {
            lemma_suffix_words(x, y, i + 1);
        } else if is_digit(y[i]) || is_name_start(y[i]) {
            let e = if is_digit(y[i]) {
                number_end(y, i)
            } else {
                name_end(y, i)
            };
            if is_digit(y[i]) {
                lemma_number_suffix(x, y, i);
            } else {
                lemma_name_suffix(x, y, i);
            }
            if i < e <= y.len() {
                lemma_suffix_words(x, y, e);
                if let Some(rest) = lexemes_from(y, e) {
                    let moved_rest = lexemes_from(xy, d + e)->0;
                    let own = lexemes_from(y, i)->0;
                    let moved = lexemes_from(xy, d + i)->0;
                    assert(y.subrange(i, e) =~= xy.subrange(d + i, d + e));
                    assert forall|k: int| 0 <= k < own.len() implies (#[trigger] own[k]).kind
                        == moved[k].kind && span(y, own, k, k) == span(xy, moved, k, k) by {
                        if k > 0 {
                            assert(own[k] == rest[k - 1]);
                            assert(moved[k] == moved_rest[k - 1]);
                            assert(span(y, rest, k - 1, k - 1) == span(
                                xy,
                                moved_rest,
                                k - 1,
                                k - 1,
                            ));
                        }
                    }
                }
            }
        } else if symbol_kind(y[i]) is Some {
            lemma_suffix_words(x, y, i + 1);
            if let Some(rest) = lexemes_from(y, i + 1) {
                let moved_rest = lexemes_from(xy, d + i + 1)->0;
                let own = lexemes_from(y, i)->0;
                let moved = lexemes_from(xy, d + i)->0;
                assert(y.subrange(i, i + 1) =~= xy.subrange(d + i, d + i + 1));
                assert forall|k: int| 0 <= k < own.len() implies (#[trigger] own[k]).kind
                    == moved[k].kind && span(y, own, k, k) == span(xy, moved, k, k) by {
                    if k > 0 {
                        assert(own[k] == rest[k - 1]);
                        assert(moved[k] == moved_rest[k - 1]);
                        assert(span(y, rest, k - 1, k - 1) == span(
                            xy,
                            moved_rest,
                            k - 1,
                            k - 1,
                        ));
                    }
                }
            }
        }
    } else {
        assert(same_words(y, Seq::<Lexeme>::empty(), xy, Seq::<Lexeme>::empty()));
    }
}

/// A lexeme before lexemes that spell the same words, over the same
/// characters in both texts: the words stay the same.
proof fn lemma_cons_words(
    s1: Seq<char>,
    first1: Lexeme,
    rest1: Seq<Lexeme>,
    s2: Seq<char>,
    first2: Lexeme,
    rest2: Seq<Lexeme>,
)
    requires
        same_words(s1, rest1, s2, rest2),
        first1.kind == first2.kind,
        s1.subrange(first1.start as int, first1.end as int) == s2.subrange(
            first2.start as int,
            first2.end as int,
        ),
    ensures
        same_words(s1, seq![first1] + rest1, s2, seq![first2] + rest2),
{
    let lx1 = seq![first1] + rest1;
    let lx2 = seq![first2] + rest2;
    assert forall|k: int| 0 <= k < lx1.len() implies (#[trigger] lx1[k]).kind == lx2[k].kind
        && span(s1, lx1, k, k) == span(s2, lx2, k, k) by {
        if k > 0 {
            assert(lx1[k] == rest1[k - 1]);
            assert(lx2[k] == rest2[k - 1]);
            assert(span(s1, rest1, k - 1, k - 1) == span(s2, rest2, k - 1, k - 1));
        }
    }
}

proof fn lemma_rest_apart(first: Lexeme, rest: Seq<Lexeme>)
    requires
        words_apart(seq![first] + rest, 0, rest.len() as int + 1),
    ensures
        words_apart(rest, 0, rest.len() as int),
        is_word(first.kind) && rest.len() > 0 ==> !is_word(rest[0].kind),
{
    let all = seq![first] + rest;
    assert forall|i: int| 0 <= i && i + 1 < rest.len() implies #[trigger] apart_at(rest, i) by {
        assert(apart_at(all, i + 1));
        assert(all[i + 1] == rest[i]);
        assert(all[i + 2] == rest[i + 1]);
    }
    if rest.len() > 0 {
        assert(apart_at(all, 0));
        assert(all[1] == rest[0]);
    }
}

/// Where white space parts a word from what follows, what follows starts
/// with no character of a word and with no point.
proof fn lemma_after_word(a: Seq<char>, c: char, b: Seq<char>)
    requires
        is_space(c),
        a.len() + 1 + b.len() <= usize::MAX,
        lexemes_from(a + seq![c] + b, a.len() as int) matches Some(rest) && (rest.len() == 0
            || !is_word(rest[0].kind)),
    ensures
        b.len() == 0 || (!is_name_char(b[0]) && b[0] != '.'),
        digits_end(b, 0) == 0,
        name_end(b, 0) == 0,
{
    let wide = a + seq![c] + b;
    let n = a.len() as int;
    assert(wide[n] == c);
    if b.len() > 0 {
        assert(wide[n + 1] == b[0]);
        if is_name_char(b[0]) {
            let rest = lexemes_from(wide, n + 1)->0;
            assert(is_word(rest[0].kind));
        }
    }
}

/// Taking one white-space character out of a text leaves the words of its
/// lexemes as they are, where no word follows a word.
proof fn lemma_space_low(a: Seq<char>, c: char, b: Seq<char>, p: int)
    requires
        0 <= p <= a.len(),
        is_space(c),
        a.len() + 1 + b.len() <= usize::MAX,
        lexemes_from(a + seq![c] + b, p) matches Some(w) && words_apart(w, 0, w.len() as int),
    ensures
        lexemes_from(a + b, p) matches Some(t) && same_words(
            a + seq![c] + b,
            lexemes_from(a + seq![c] + b, p)->0,
            a + b,
            t,
        ),
    decreases a.len() - p,
{
    let wide = a + seq![c] + b;
    let tight = a + b;
    let n = a.len() as int;
    let w = lexemes_from(wide, p)->0;
    assert(wide =~= a + (seq![c] + b));
    assert(wide[n] == c);
    if p == n {
        assert(wide =~= (a + seq![c]) + b);
        lemma_suffix_words(a + seq![c], b, 0);
        lemma_suffix_words(a, b, 0);
        let own = lexemes_from(b, 0)->0;
        let t = lexemes_from(tight, n)->0;
        assert forall|k: int| 0 <= k < w.len() implies (#[trigger] w[k]).kind == t[k].kind
            && span(wide, w, k, k) == span(tight, t, k, k) by {
            assert(own[k].kind == w[k].kind);
            assert(own[k].kind == t[k].kind);
            assert(span(b, own, k, k) == span(wide, w, k, k));
            assert(span(b, own, k, k) == span(tight, t, k, k));
        }
    } else {
        let ch = a[p];
        assert(wide[p] == ch && tight[p] == ch);
        if is_space(ch) {
            lemma_space_low(a, c, b, p + 1);
        } else if is_digit(ch) || is_name_start(ch) {
            let e = if is_digit(ch) {
                number_end(wide, p)
            } else {
                name_end(wide, p)
            };
            let rest = lexemes_from(wide, e)->0;
            let first = w[0];
            assert(w =~= seq![first] + rest);
            lemma_rest_apart(first, rest);
            if is_digit(ch) {
                lemma_digits_prefix(a, seq![c] + b, p);
                lemma_digits_prefix(a, b, p);
                lemma_digits_end_bounds(a, p);
                lemma_digits_suffix(a, b, 0);
                let d = digits_end(a, p);
                if d < n {
                    assert(wide[d] == a[d] && tight[d] == a[d]);
                    if a[d] == '.' {
                        if d + 1 < n {
                            assert(wide[d + 1] == a[d + 1] && tight[d + 1] == a[d + 1]);
                            if is_digit(a[d + 1]) {
                                lemma_digits_prefix(a, seq![c] + b, d + 1);
                                lemma_digits_prefix(a, b, d + 1);
                                lemma_digits_end_bounds(a, d + 1);
                                if digits_end(a, d + 1) == n {
                                    lemma_after_word(a, c, b);
                                }
                            }
                        } else {
                            assert(wide[d + 1] == c);
                            assert(e == d);
                            assert(lexemes_from(wide, d) is None);
                        }
                    }
                } else {
                    lemma_after_word(a, c, b);
                }
                assert(e == number_end(tight, p));
            } else {
                lemma_name_prefix(a, seq![c] + b, p);
                lemma_name_prefix(a, b, p);
                lemma_name_end_bounds(a, p);
                lemma_name_end_bounds(a, p + 1);
                lemma_name_suffix(a, b, 0);
                if name_end(a, p) == n {
                    lemma_after_word(a, c, b);
                }
                assert(e == name_end(tight, p));
            }
            assert(p < e <= n);
            lemma_space_low(a, c, b, e);
            let rest_t = lexemes_from(tight, e)->0;
            let first_t = lexemes_from(tight, p)->0[0];
            assert(wide.subrange(p, e) =~= tight.subrange(p, e));
            lemma_cons_words(wide, first, rest, tight, first_t, rest_t);
            assert(lexemes_from(tight, p)->0 =~= seq![first_t] + rest_t);
        } else {
            let rest = lexemes_from(wide, p + 1)->0;
            let first = w[0];
            assert(w =~= seq![first] + rest);
            lemma_rest_apart(first, rest);
            lemma_space_low(a, c, b, p + 1);
            let rest_t = lexemes_from(tight, p + 1)->0;
            let first_t = lexemes_from(tight, p)->0[0];
            assert(wide.subrange(p, p + 1) =~= tight.subrange(p, p + 1));
            lemma_cons_words(wide, first, rest, tight, first_t, rest_t);
            assert(lexemes_from(tight, p)->0 =~= seq![first_t] + rest_t);
        }
    }
}

/// White space is insignificant: where a text denotes an expression, the
/// text without one of its white-space characters denotes the same
/// expression.
pub proof fn lemma_space_removed(a: Seq<char>, c: char, b: Seq<char>)
    requires
        is_space(c),
        a.len() + 1 + b.len() <= usize::MAX,
        expression_of(a + seq![c] + b) is Some,
    ensures
        expression_of(a + b) == expression_of(a + seq![c] + b),
{
    let wide = a + seq![c] + b;
    let tight = a + b;
    let w = lexemes(wide)->0;
    lemma_expr_apart(wide, w, 0);
    lemma_space_low(a, c, b, 0);
    assert(vstd::utf8::is_ascii_chars(tight)) by {
        assert forall|i: int| 0 <= i < tight.len() implies '\0' <= #[trigger] tight[i]
            <= '\u{7f}' by {
            if i < a.len() {
                assert(tight[i] == wide[i]);
            } else {
                assert(tight[i] == wide[i + 1]);
            }
        }
    }
    lemma_same_words_same_expression(wide, tight);
}

} // verus!
