//! The expression tree and its notation.

use vstd::prelude::*;
use vstd::string::*;
use crate::decimal::{render_digits, Decimal, Digits};

verus! {

/// A binary operator.
#[derive(Clone, Copy, Debug, PartialEq, Eq, Structural)]
pub enum Op {
    Add,
    Subtract,
    Multiply,
    Divide,
    Modulo,
    Power,
}

/// The mathematical form of an expression.
pub enum Ast {
    Number(Digits),
    BinOp(Box<Ast>, Op, Box<Ast>),
    UnaryMinus(Box<Ast>),
    Function(Seq<char>, Seq<Ast>),
}

/// An expression. Each node owns its operands; the arguments of a function
/// stand in source order.
#[derive(Debug, PartialEq, Eq)]
pub enum Expr {
    Number(Decimal),
    BinOp { lhs: Box<Expr>, op: Op, rhs: Box<Expr> },
    UnaryMinus(Box<Expr>),
    Function { name: String, args: Vec<Expr> },
}

/// The mathematical form of `e`.
pub open spec fn ast_of(e: Expr) -> Ast
    decreases e,
{
    match e {
        Expr::Number(d) => Ast::Number(d@),
        Expr::BinOp { lhs, op, rhs } => Ast::BinOp(
            Box::new(ast_of(*lhs)),
            op,
            Box::new(ast_of(*rhs)),
        ),
        Expr::UnaryMinus(inner) => Ast::UnaryMinus(Box::new(ast_of(*inner))),
        Expr::Function { name, args } => Ast::Function(
            name@,
            Seq::new(
                args@.len(),
                |i: int|
                    if 0 <= i < args@.len() {
                        ast_of(args@[i])
                    } else {
                        arbitrary()
                    },
            ),
        ),
    }
}

/// The mathematical forms of the expressions `es`.
pub open spec fn asts_of(es: Seq<Expr>) -> Seq<Ast> {
    Seq::new(es.len(), |i: int| ast_of(es[i]))
}

impl View for Expr {
    type V = Ast;

    open spec fn view(&self) -> Ast {
        ast_of(*self)
    }
}

/// The form of a call is its name over the forms of its arguments.
pub proof fn lemma_function_ast(name: String, args: Vec<Expr>)
    ensures
        ast_of(Expr::Function { name, args }) == Ast::Function(name@, asts_of(args@)),
{
    assert(ast_of(Expr::Function { name, args })->Function_1 =~= asts_of(args@));
}

/// The sign of `op`.
pub open spec fn op_char(op: Op) -> char {
    match op {
        Op::Add => '+',
        Op::Subtract => '-',
        Op::Multiply => '*',
        Op::Divide => '/',
        Op::Modulo => '%',
        Op::Power => '^',
    }
}

/// The notation of `a` with every operation in brackets: `(l+r)` for a
/// binary operation, `-(x)` for a negation, `f(a, b)` for a call.
pub open spec fn render(a: Ast) -> Seq<char>
    decreases a,
{
    match a {
        Ast::Number(d) => render_digits(d),
        Ast::BinOp(l, op, r) => seq!['('] + render(*l) + seq![op_char(op)] + render(*r) + seq![')'],
        Ast::UnaryMinus(x) => seq!['-', '('] + render(*x) + seq![')'],
        Ast::Function(name, args) => name + seq!['('] + render_list(args) + seq![')'],
    }
}

/// The notations of `args`, with a comma and a space between two of them.
pub open spec fn render_list(args: Seq<Ast>) -> Seq<char>
    decreases args,
{
    if args.len() == 0 {
        Seq::empty()
    } else if args.len() == 1 {
        render(args[0])
    } else {
        render_list(args.drop_last()) + seq![',', ' '] + render(args.last())
    }
}

fn op_text(op: Op) -> (r: &'static str)
    ensures
        r@ == seq![op_char(op)],
{
    proof {
        reveal_strlit("+");
        reveal_strlit("-");
        reveal_strlit("*");
        reveal_strlit("/");
        reveal_strlit("%");
        reveal_strlit("^");
    }
    let r = match op {
        Op::Add => "+",
        Op::Subtract => "-",
        Op::Multiply => "*",
        Op::Divide => "/",
        Op::Modulo => "%",
        Op::Power => "^",
    };
    assert(r@ =~= seq![op_char(op)]);
    r
}

impl Expr {
    /// The notation of the expression with every operation in brackets.
    pub fn to_string(&self) -> (r: String)
        ensures
            r@ == render(self@),
    {
        let mut out = String::new();
        self.write(&mut out);
        out
    }

    /// Appends the notation of the expression to `out`.
    pub fn write(&self, out: &mut String)
        ensures
            final(out)@ == old(out)@ + render(self@),
        decreases self,
    {
        let ghost before = out@;
        proof {
            reveal_strlit("(");
            reveal_strlit(")");
            reveal_strlit("-(");
            reveal_strlit(", ");
        }
        match self {
            Expr::Number(d) => {
                d.write(out);
            },
            Expr::BinOp { lhs, op, rhs } => {
                out.append("(");
                lhs.write(out);
                out.append(op_text(*op));
                rhs.write(out);
                out.append(")");
                assert(out@ =~= before + render(self@));
            },
            Expr::UnaryMinus(inner) => {
                out.append("-(");
                inner.write(out);
                out.append(")");
                assert("-("@ =~= seq!['-', '(']);
                assert(out@ =~= before + render(self@));
            },
            Expr::Function { name, args } => {
                proof {
                    lemma_function_ast(*name, *args);
                }
                out.append(name.as_str());
                out.append("(");
                let ghost head = out@;
                let ghost asts = asts_of(args@);
                let mut i: usize = 0;
                while i < args.len()
                    invariant
                        i <= args@.len(),
                        asts == asts_of(args@),
                        out@ == head + render_list(asts.take(i as int)),
                        ", "@ == seq![',', ' '],
                        decreases_to!(self => args),
                    decreases args@.len() - i,
                {
                    let ghost sofar = out@;
                    if i > 0 {
                        out.append(", ");
                    }
                    args[i].write(out);
                    proof {
                        let next = asts.take(i + 1);
                        assert(next.drop_last() =~= asts.take(i as int));
                        assert(next.last() == ast_of(args@[i as int]));
                        assert(out@ =~= head + render_list(next));
                    }
                    i = i + 1;
                }
                assert(asts.take(i as int) =~= asts);
                out.append(")");
                assert(out@ =~= before + render(self@));
            },
        }
    }
}

} // verus!
