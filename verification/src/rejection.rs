//! Texts that denote no expression.

use vstd::prelude::*;
use crate::grammar::{args_at, atom_at, equation_of, expr_at, infix_rule, primary_at, tail_at};
use crate::lexer::{
    digits_end, is_digit, is_name_char, is_name_start, is_space, lemma_digits_end_bounds,
    lemma_name_end_bounds, lexemes, lexemes_from, name_end, number_end, symbol_kind, LexKind,
    Lexeme,
};
use crate::parser::expression_of;

verus! {

/// What a character adds to the depth of brackets.
pub open spec fn step(c: char) -> int {
    if c == '(' {
        1
    } else if c == ')' {
        -1
    } else {
        0
    }
}

/// How many more brackets open than close in `s` from `from` up to `to`.
pub open spec fn depth(s: Seq<char>, from: int, to: int) -> int
    decreases to - from,
{
    if from >= to {
        0
    } else {
        step(s[from]) + depth(s, from + 1, to)
    }
}

/// What a lexeme adds to the depth of brackets.
pub open spec fn lex_step(k: LexKind) -> int {
    if k == LexKind::LParen {
        1
    } else if k == LexKind::RParen {
        -1
    } else {
        0
    }
}

/// How many more brackets open than close among the lexemes from `from` up
/// to `to`.
pub open spec fn lex_depth(lx: Seq<Lexeme>, from: int, to: int) -> int
    decreases to - from,
{
    if from >= to {
        0
    } else {
        lex_step(lx[from].kind) + lex_depth(lx, from + 1, to)
    }
}

proof fn lemma_depth_split(s: Seq<char>, from: int, mid: int, to: int)
    requires
        from <= mid <= to,
    ensures
        depth(s, from, to) == depth(s, from, mid) + depth(s, mid, to),
    decreases mid - from,
{
    if from < mid {
        lemma_depth_split(s, from + 1, mid, to);
    }
}

proof fn lemma_lex_depth_split(lx: Seq<Lexeme>, from: int, mid: int, to: int)
    requires
        from <= mid <= to,
    ensures
        lex_depth(lx, from, to) == lex_depth(lx, from, mid) + lex_depth(lx, mid, to),
    decreases mid - from,
{
    if from < mid {
        lemma_lex_depth_split(lx, from + 1, mid, to);
    }
}

/// A stretch of characters that are no brackets has depth 0.
proof fn lemma_depth_flat(s: Seq<char>, from: int, to: int)
    requires
        0 <= from <= to <= s.len(),
        forall|i: int| from <= i < to ==> step(#[trigger] s[i]) == 0,
    ensures
        depth(s, from, to) == 0,
    decreases to - from,
{
    if from < to {
        lemma_depth_flat(s, from + 1, to);
    }
}

proof fn lemma_lex_depth_behind(first: Lexeme, rest: Seq<Lexeme>, from: int)
    requires
        0 <= from <= rest.len(),
    ensures
        lex_depth(seq![first] + rest, from + 1, rest.len() as int + 1) == lex_depth(
            rest,
            from,
            rest.len() as int,
        ),
    decreases rest.len() - from,
{
    if from < rest.len() {
        assert((seq![first] + rest)[from + 1] == rest[from]);
        lemma_lex_depth_behind(first, rest, from + 1);
    }
}

/// The brackets of a text are those of its lexemes.
proof fn lemma_lexemes_depth(s: Seq<char>, pos: int)
    requires
        0 <= pos <= s.len(),
    ensures
        lexemes_from(s, pos) matches Some(lx) ==> lex_depth(lx, 0, lx.len() as int) == depth(
            s,
            pos,
            s.len() as int,
        ),
    decreases s.len() - pos,
{
    let n = s.len() as int;
    if pos < n {
        if is_space(s[pos]) {
            lemma_lexemes_depth(s, pos + 1);
        } else if is_digit(s[pos]) || is_name_start(s[pos]) {
            let e = if is_digit(s[pos]) {
                number_end(s, pos)
            } else {
                name_end(s, pos)
            };
            if pos < e <= n {
                if let Some(rest) = lexemes_from(s, e) {
                    lemma_lexemes_depth(s, e);
                    let lx = lexemes_from(s, pos)->0;
                    let first = lx[0];
                    assert(lx =~= seq![first] + rest);
                    lemma_lex_depth_behind(first, rest, 0);
                    lemma_depth_split(s, pos, e, n);
                    assert forall|i: int| pos <= i < e implies step(#[trigger] s[i]) == 0 by {
                        if is_digit(s[pos]) {
                            lemma_digits_end_bounds(s, pos);
                            let d = digits_end(s, pos);
                            if d < e {
                                lemma_digits_end_bounds(s, d + 1);
                                if i > d {
                                    assert(is_digit(s[i]));
                                }
                            }
                            if i < d {
                                assert(is_digit(s[i]));
                            }
                        } else {
                            lemma_name_end_bounds(s, pos);
                            assert(is_name_char(s[i]));
                        }
                    }
                    lemma_depth_flat(s, pos, e);
                }
            }
        } else if symbol_kind(s[pos]) is Some {
            if let Some(rest) = lexemes_from(s, pos + 1) {
                lemma_lexemes_depth(s, pos + 1);
                let lx = lexemes_from(s, pos)->0;
                let first = lx[0];
                assert(lx =~= seq![first] + rest);
                lemma_lex_depth_behind(first, rest, 0);
            }
        }
    }
}

proof fn lemma_primary_level(s: Seq<char>, lx: Seq<Lexeme>, pos: int)
    ensures
        primary_at(s, lx, pos) matches Some((node, e)) ==> pos < e <= lx.len() && lex_depth(
            lx,
            pos,
            e,
        ) == 0,
    decreases lx.len() - pos, 0int,
{
    if let Some((node, e)) = primary_at(s, lx, pos) {
        if lx[pos].kind == LexKind::Number {
            assert(lex_depth(lx, pos + 1, pos + 1) == 0);
        } else if lx[pos].kind == LexKind::Name {
            if lx[pos + 2].kind == LexKind::RParen {
                assert(lex_depth(lx, pos + 3, pos + 3) == 0);
                assert(lex_depth(lx, pos + 2, pos + 3) == -1);
                assert(lex_depth(lx, pos + 1, pos + 3) == 0);
            } else {
                lemma_args_level(s, lx, pos + 2);
                lemma_lex_depth_split(lx, pos + 2, e - 1, e);
                assert(lex_depth(lx, e, e) == 0);
                assert(lex_depth(lx, e - 1, e) == -1);
                assert(lex_depth(lx, pos + 1, e) == 0);
            }
        } else {
            lemma_expr_level(s, lx, pos + 1);
            lemma_lex_depth_split(lx, pos + 1, e - 1, e);
            assert(lex_depth(lx, e, e) == 0);
            assert(lex_depth(lx, e - 1, e) == -1);
        }
    }
}

proof fn lemma_atom_level(s: Seq<char>, lx: Seq<Lexeme>, pos: int)
    ensures
        atom_at(s, lx, pos) matches Some((made, e)) ==> pos < e <= lx.len() && lex_depth(
            lx,
            pos,
            e,
        ) == 0,
    decreases lx.len() - pos, 1int,
{
    if let Some((made, e)) = atom_at(s, lx, pos) {
        if lx[pos].kind == LexKind::Minus {
            lemma_atom_level(s, lx, pos + 1);
        } else {
            lemma_primary_level(s, lx, pos);
        }
    }
}

proof fn lemma_tail_level(s: Seq<char>, lx: Seq<Lexeme>, pos: int)
    ensures
        tail_at(s, lx, pos) matches Some((made, e)) ==> pos <= e && (e == pos || e <= lx.len())
            && lex_depth(lx, pos, e) == 0,
    decreases lx.len() - pos, 2int,
{
    if let Some((made, end)) = tail_at(s, lx, pos) {
        if 0 <= pos < lx.len() && infix_rule(lx[pos].kind) is Some {
            lemma_atom_level(s, lx, pos + 1);
            let found = atom_at(s, lx, pos + 1)->0;
            let e = found.1;
            lemma_tail_level(s, lx, e);
            lemma_lex_depth_split(lx, pos + 1, e, end);
        }
    }
}

proof fn lemma_expr_level(s: Seq<char>, lx: Seq<Lexeme>, pos: int)
    ensures
        expr_at(s, lx, pos) matches Some((node, e)) ==> pos < e <= lx.len() && lex_depth(
            lx,
            pos,
            e,
        ) == 0,
    decreases lx.len() - pos, 3int,
{
    if let Some((node, end)) = expr_at(s, lx, pos) {
        lemma_atom_level(s, lx, pos);
        let found = atom_at(s, lx, pos)->0;
        let e = found.1;
        lemma_tail_level(s, lx, e);
        lemma_lex_depth_split(lx, pos, e, end);
    }
}

proof fn lemma_args_level(s: Seq<char>, lx: Seq<Lexeme>, pos: int)
    ensures
        args_at(s, lx, pos) matches Some((list, e)) ==> pos < e <= lx.len() && lex_depth(
            lx,
            pos,
            e,
        ) == 0,
    decreases lx.len() - pos, 4int,
{
    if let Some((list, end)) = args_at(s, lx, pos) {
        lemma_expr_level(s, lx, pos);
        let found = expr_at(s, lx, pos)->0;
        let e = found.1;
        if pos < e < lx.len() && lx[e].kind == LexKind::Comma {
            lemma_args_level(s, lx, e + 1);
            lemma_lex_depth_split(lx, pos, e, end);
            assert(lex_depth(lx, e, end) == lex_depth(lx, e + 1, end));
        }
    }
}

/// A text whose brackets do not balance denotes no expression: in every
/// text that denotes one, as many brackets open as close.
pub proof fn lemma_brackets_balance(s: Seq<char>)
    ensures
        expression_of(s) is Some ==> depth(s, 0, s.len() as int) == 0,
        depth(s, 0, s.len() as int) != 0 ==> expression_of(s) is None,
{
    if let Some(lx) = lexemes(s) {
        lemma_lexemes_depth(s, 0);
        lemma_expr_level(s, lx, 0);
    }
}

/// A text of nothing but white space, the empty text among them, denotes
/// no expression.
pub proof fn lemma_blank_rejected(s: Seq<char>)
    requires
        forall|i: int| 0 <= i < s.len() ==> is_space(#[trigger] s[i]),
    ensures
        expression_of(s) is None,
{
    lemma_blank_lexemes(s, 0);
    if let Some(lx) = lexemes(s) {
        assert(atom_at(s, lx, 0) is None);
    }
}

proof fn lemma_blank_lexemes(s: Seq<char>, pos: int)
    requires
        0 <= pos,
        forall|i: int| 0 <= i < s.len() ==> is_space(#[trigger] s[i]),
    ensures
        lexemes_from(s, pos) == Some(Seq::<Lexeme>::empty()),
    decreases s.len() - pos,
{
    if pos < s.len() {
        lemma_blank_lexemes(s, pos + 1);
    }
}

} // verus!
