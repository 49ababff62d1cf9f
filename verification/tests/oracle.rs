//! The library against pest: the same grammar written with pest's parser
//! state, folded by pest's Pratt parser.

use numeric_evaluator::error::ParseError;
use numeric_evaluator::grammar::CalculatorParser;
use numeric_evaluator::parser::parse;
use numeric_evaluator::token::{Rule, Token};
use pest::iterators::{Pair, Pairs};
use pest::pratt_parser::{Assoc, Op, PrattParser};
use pest::{ParseResult, ParserState};

#[derive(Clone, Copy, Debug, PartialEq, Eq, PartialOrd, Ord, Hash)]
enum R {
    Number,
    Add,
    Subtract,
    Multiply,
    Divide,
    Modulo,
    Power,
    UnaryMinus,
    Expr,
    Function,
    FunctionName,
    FunctionArgs,
    Equation,
}

type State<'i> = Box<ParserState<'i, R>>;
type Step<'i> = ParseResult<State<'i>>;

fn space(s: State<'_>) -> Step<'_> {
    s.repeat(|s| s.match_char_by(|c| c == ' ' || c == '\t' || c == '\n' || c == '\r'))
}

fn digit(s: State<'_>) -> Step<'_> {
    s.match_char_by(|c| c.is_ascii_digit())
}

fn digits(s: State<'_>) -> Step<'_> {
    s.sequence(|s| digit(s).and_then(|s| s.repeat(digit)))
}

fn number(s: State<'_>) -> Step<'_> {
    s.rule(R::Number, |s| {
        s.sequence(|s| {
            digits(s).and_then(|s| {
                s.optional(|s| s.sequence(|s| s.match_string(".").and_then(digits)))
            })
        })
    })
}

fn function_name(s: State<'_>) -> Step<'_> {
    s.rule(R::FunctionName, |s| {
        s.sequence(|s| {
            s.match_char_by(|c| c.is_ascii_alphabetic() || c == '_').and_then(|s| {
                s.repeat(|s| s.match_char_by(|c| c.is_ascii_alphanumeric() || c == '_'))
            })
        })
    })
}

fn function_args(s: State<'_>) -> Step<'_> {
    s.rule(R::FunctionArgs, |s| {
        s.optional(|s| {
            s.sequence(|s| {
                expr(s).and_then(|s| {
                    s.repeat(|s| {
                        s.sequence(|s| {
                            space(s)
                                .and_then(|s| s.match_string(","))
                                .and_then(space)
                                .and_then(expr)
                        })
                    })
                })
            })
        })
    })
}

fn function(s: State<'_>) -> Step<'_> {
    s.rule(R::Function, |s| {
        s.sequence(|s| {
            function_name(s)
                .and_then(space)
                .and_then(|s| s.match_string("("))
                .and_then(space)
                .and_then(function_args)
                .and_then(space)
                .and_then(|s| s.match_string(")"))
        })
    })
}

fn primary(s: State<'_>) -> Step<'_> {
    function(s).or_else(number).or_else(|s| {
        s.sequence(|s| {
            s.match_string("(")
                .and_then(space)
                .and_then(expr)
                .and_then(space)
                .and_then(|s| s.match_string(")"))
        })
    })
}

fn atom(s: State<'_>) -> Step<'_> {
    s.sequence(|s| {
        s.repeat(|s| {
            s.sequence(|s| s.rule(R::UnaryMinus, |s| s.match_string("-")).and_then(space))
        })
        .and_then(primary)
    })
}

fn infix(s: State<'_>) -> Step<'_> {
    s.rule(R::Add, |s| s.match_string("+"))
        .or_else(|s| s.rule(R::Subtract, |s| s.match_string("-")))
        .or_else(|s| s.rule(R::Multiply, |s| s.match_string("*")))
        .or_else(|s| s.rule(R::Divide, |s| s.match_string("/")))
        .or_else(|s| s.rule(R::Modulo, |s| s.match_string("%")))
        .or_else(|s| s.rule(R::Power, |s| s.match_string("^")))
}

fn expr(s: State<'_>) -> Step<'_> {
    s.rule(R::Expr, |s| {
        s.sequence(|s| {
            atom(s).and_then(|s| {
                s.repeat(|s| {
                    s.sequence(|s| space(s).and_then(infix).and_then(space).and_then(atom))
                })
            })
        })
    })
}

fn equation(s: State<'_>) -> Step<'_> {
    s.rule(R::Equation, |s| {
        s.sequence(|s| {
            space(s).and_then(expr).and_then(space).and_then(|s| s.end_of_input())
        })
    })
}

fn pest_tree(text: &str) -> Option<Pair<'_, R>> {
    match pest::state::<R, _>(text, equation) {
        Ok(mut pairs) => pairs.next(),
        Err(_) => None,
    }
}

fn table() -> PrattParser<R> {
    PrattParser::new()
        .op(Op::infix(R::Add, Assoc::Left) | Op::infix(R::Subtract, Assoc::Left))
        .op(Op::infix(R::Multiply, Assoc::Left)
            | Op::infix(R::Divide, Assoc::Left)
            | Op::infix(R::Modulo, Assoc::Left))
        .op(Op::infix(R::Power, Assoc::Right))
        .op(Op::prefix(R::UnaryMinus))
}

fn pest_call(pairs: Pairs<'_, R>, pratt: &PrattParser<R>) -> String {
    let mut name = String::new();
    let mut args: Vec<String> = Vec::new();
    for pair in pairs {
        match pair.as_rule() {
            R::FunctionName => name = String::from(pair.as_str()),
            R::FunctionArgs => {
                for arg in pair.into_inner() {
                    args.push(pest_fold(arg.into_inner(), pratt));
                }
            }
            other => unreachable!("{:?}", other),
        }
    }
    format!("{}({})", name, args.join(", "))
}

fn pest_fold(pairs: Pairs<'_, R>, pratt: &PrattParser<R>) -> String {
    pratt
        .map_primary(|p| match p.as_rule() {
            R::Number => format!("{}", p.as_str().parse::<f64>().unwrap()),
            R::Expr => pest_fold(p.into_inner(), pratt),
            R::Function => pest_call(p.into_inner(), pratt),
            other => unreachable!("{:?}", other),
        })
        .map_infix(|lhs, op, rhs| {
            let sign = match op.as_rule() {
                R::Add => "+",
                R::Subtract => "-",
                R::Multiply => "*",
                R::Divide => "/",
                R::Modulo => "%",
                R::Power => "^",
                other => unreachable!("{:?}", other),
            };
            format!("({}{}{})", lhs, sign, rhs)
        })
        .map_prefix(|_, rhs| format!("-({})", rhs))
        .parse(pairs)
}

fn pest_show(text: &str) -> Option<String> {
    pest_tree(text).map(|root| pest_fold(root.into_inner(), &table()))
}

fn same_rule(ours: Rule, theirs: R) -> bool {
    match (ours, theirs) {
        (Rule::Number, R::Number)
        | (Rule::Add, R::Add)
        | (Rule::Subtract, R::Subtract)
        | (Rule::Multiply, R::Multiply)
        | (Rule::Divide, R::Divide)
        | (Rule::Modulo, R::Modulo)
        | (Rule::Power, R::Power)
        | (Rule::UnaryMinus, R::UnaryMinus)
        | (Rule::Expr, R::Expr)
        | (Rule::Function, R::Function)
        | (Rule::FunctionName, R::FunctionName)
        | (Rule::FunctionArgs, R::FunctionArgs)
        | (Rule::Equation, R::Equation) => true,
        _ => false,
    }
}

fn same_tree(ours: &Token, theirs: Pair<'_, R>) -> bool {
    if !same_rule(ours.rule, theirs.as_rule()) || ours.text != theirs.as_str() {
        return false;
    }
    let inner: Vec<Pair<'_, R>> = theirs.into_inner().collect();
    inner.len() == ours.children.len()
        && ours.children.iter().zip(inner).all(|(child, pair)| same_tree(child, pair))
}

fn agree(text: &str) {
    match (CalculatorParser::tokenize(text), pest_tree(text)) {
        (Ok(ours), Some(theirs)) => assert!(same_tree(&ours, theirs), "token tree of {:?}", text),
        (Err(ParseError::Syntax), None) => {}
        (ours, theirs) => panic!("{:?}: {:?} against {:?}", text, ours, theirs),
    }
    match (parse(text), pest_show(text)) {
        (Ok(ours), Some(theirs)) => assert_eq!(ours.to_string(), theirs, "{:?}", text),
        (Err(ParseError::Syntax), None) => {}
        (ours, theirs) => panic!("{:?}: {:?} against {:?}", text, ours, theirs),
    }
}

fn all_texts(parts: &[&str], most: usize, text: &mut String, count: &mut usize) {
    agree(text);
    *count += 1;
    if most == 0 {
        return;
    }
    for part in parts {
        let length = text.len();
        text.push_str(part);
        all_texts(parts, most - 1, text, count);
        text.truncate(length);
    }
}

#[test]
fn agrees_with_pest_on_the_known_expressions() {
    let texts = [
        "2+5", "-2+-5", "2+5+7", "3-7", "-3--7", "3-7-4", "6*3", "-6*-3", "6*3*8", "1/9",
        "-1/-9", "1/9/5", "3%2", "-3%-2", "3%2%3", "3^2", "-3^-2", "3^2^4", "3.2", "-3.2",
        "2+4*3", "(2+4)*3", "2-4*3", "(2-4)*3", "2+4/3", "(2+4)/3", "2-4/3", "(2-4)/3",
        "1+2*3^3", "1+(2*3)^3", "3+4*2/(1-5)^2^3", "sin(max(2, 3) / 3 * 3.1415)",
        "max(1, 2) + 4", "4 + min(5, 4)", "7 + max(2, min(47.94, trunc(22.54)))",
        " \t1\n+\r2 ", "f()", "f( )", "f ( 1 , 2 )", "--3", "- - 3", "03.20", "2.0",
        "_a1(b_2(3))", "((((1))))", "-(-(1))", "1 2", "3.", ".5", "1..2", "f(1,)", "f(,1)",
        "(", ")", "", "2+", "*2", "2 3 +", "a", "a b", "1+f", "f(1)(2)", "2\u{e9}",
    ];
    for text in texts {
        agree(text);
    }
}

#[test]
fn agrees_with_pest_on_every_short_text() {
    let parts = [
        "1", "2.5", "03.20", "+", "-", "*", "/", "%", "^", "(", ")", ",", " ", "f", ".", "x9",
    ];
    let mut count = 0;
    all_texts(&parts, 4, &mut String::new(), &mut count);
    assert_eq!(count, 1 + 16 + 16 * 16 + 16 * 16 * 16 + 16 * 16 * 16 * 16);
}

#[test]
fn agrees_with_pest_on_every_chain_of_operators() {
    let parts = ["1", "-", "+", "*", "^", "(", ")"];
    let mut count = 0;
    all_texts(&parts, 6, &mut String::new(), &mut count);
    assert!(count > 100_000);
}

#[test]
fn agrees_with_pest_on_every_short_call() {
    let parts = ["f(", "g (", "1", ",", ")", " ", "-", "+"];
    let mut count = 0;
    all_texts(&parts, 6, &mut String::new(), &mut count);
    assert!(count > 200_000);
}
