use numeric_evaluator::ast::{Expr, Op};
use numeric_evaluator::decimal::Decimal;
use numeric_evaluator::error::ParseError;
use numeric_evaluator::grammar::CalculatorParser;
use numeric_evaluator::lexer::{lex, LexKind, Lexeme};
use numeric_evaluator::pratt::{binding, parse_expr, parse_function, parse_primary, Assoc};
use numeric_evaluator::token::{Rule, Token};

fn leaf(rule: Rule, text: &str) -> Token {
    Token { rule, text: String::from(text), children: Vec::new() }
}

fn node(rule: Rule, text: &str, children: Vec<Token>) -> Token {
    Token { rule, text: String::from(text), children }
}

fn shape(token: &Token) -> String {
    let mut out = format!("{:?}[{}]", token.rule, token.text);
    if !token.children.is_empty() {
        let inner: Vec<String> = token.children.iter().map(shape).collect();
        out.push_str(&format!("{{{}}}", inner.join(" ")));
    }
    out
}

fn tree(text: &str) -> String {
    shape(&CalculatorParser::tokenize(text).unwrap())
}

fn num(text: &str) -> Expr {
    Expr::Number(Decimal::from_text(text).unwrap())
}

#[test]
fn lexemes_cover_the_tokens_and_skip_white_space() {
    assert_eq!(
        lex(" 12.5+ab_1 (").unwrap(),
        vec![
            Lexeme { kind: LexKind::Number, start: 1, end: 5 },
            Lexeme { kind: LexKind::Plus, start: 5, end: 6 },
            Lexeme { kind: LexKind::Name, start: 6, end: 10 },
            Lexeme { kind: LexKind::LParen, start: 11, end: 12 },
        ]
    );
    assert_eq!(lex("").unwrap(), vec![]);
    assert_eq!(lex(" \t\r\n").unwrap(), vec![]);
}

#[test]
fn every_symbol_has_its_kind() {
    let kinds: Vec<LexKind> = lex("+-*/%^(),").unwrap().iter().map(|l| l.kind).collect();
    assert_eq!(
        kinds,
        vec![
            LexKind::Plus,
            LexKind::Minus,
            LexKind::Star,
            LexKind::Slash,
            LexKind::Percent,
            LexKind::Caret,
            LexKind::LParen,
            LexKind::RParen,
            LexKind::Comma,
        ]
    );
}

#[test]
fn a_point_belongs_to_a_number_only_between_digits() {
    assert_eq!(lex("1.5").unwrap(), vec![Lexeme { kind: LexKind::Number, start: 0, end: 3 }]);
    assert_eq!(lex("1."), None);
    assert_eq!(lex(".5"), None);
    assert_eq!(lex("1.5.5"), None);
    assert_eq!(lex("1.x"), None);
}

#[test]
fn characters_outside_the_grammar_have_no_lexemes() {
    for text in ["$", "1 # 2", "a!b", "\u{e9}", "1\u{a0}2", "[1]", "1=1", "\u{0}"] {
        assert_eq!(lex(text), None, "{:?}", text);
    }
}

#[test]
fn the_tree_is_rooted_at_an_equation_over_one_expression() {
    let root = CalculatorParser::tokenize(" 2 + 5 ").unwrap();
    assert_eq!(root.rule, Rule::Equation);
    assert_eq!(root.text, " 2 + 5 ");
    assert_eq!(root.children.len(), 1);
    assert_eq!(root.children[0].rule, Rule::Expr);
    assert_eq!(root.children[0].text, "2 + 5");
    assert_eq!(tree("2+5"), "Equation[2+5]{Expr[2+5]{Number[2] Add[+] Number[5]}}");
}

#[test]
fn each_operator_has_a_kind_of_its_own() {
    assert_eq!(
        tree("1+2-3*4/5%6^7"),
        "Equation[1+2-3*4/5%6^7]{Expr[1+2-3*4/5%6^7]{Number[1] Add[+] Number[2] Subtract[-] \
         Number[3] Multiply[*] Number[4] Divide[/] Number[5] Modulo[%] Number[6] Power[^] \
         Number[7]}}"
    );
}

#[test]
fn a_minus_sign_before_an_operand_is_unary() {
    assert_eq!(
        tree("-3--7"),
        "Equation[-3--7]{Expr[-3--7]{UnaryMinus[-] Number[3] Subtract[-] UnaryMinus[-] \
         Number[7]}}"
    );
}

#[test]
fn the_same_text_gives_the_same_token_tree() {
    for text in ["1", " f ( 1 , 2 ) ^ -3 ", "((1))"] {
        assert_eq!(CalculatorParser::tokenize(text), CalculatorParser::tokenize(text));
    }
    let expected = node(
        Rule::Equation,
        "-1",
        vec![node(Rule::Expr, "-1", vec![leaf(Rule::UnaryMinus, "-"), leaf(Rule::Number, "1")])],
    );
    assert_eq!(CalculatorParser::tokenize("-1"), Ok(expected));
}

#[test]
fn brackets_make_a_nested_expression() {
    assert_eq!(
        tree("( 2+4 ) * 3"),
        "Equation[( 2+4 ) * 3]{Expr[( 2+4 ) * 3]{Expr[2+4]{Number[2] Add[+] Number[4]} \
         Multiply[*] Number[3]}}"
    );
}

#[test]
fn a_call_holds_its_name_and_its_arguments() {
    assert_eq!(
        tree("max(2, 3)"),
        "Equation[max(2, 3)]{Expr[max(2, 3)]{Function[max(2, 3)]{FunctionName[max] \
         FunctionArgs[2, 3]{Expr[2]{Number[2]} Expr[3]{Number[3]}}}}}"
    );
    assert_eq!(
        tree("f( )"),
        "Equation[f( )]{Expr[f( )]{Function[f( )]{FunctionName[f] FunctionArgs[]}}}"
    );
}

#[test]
fn text_outside_the_grammar_has_no_tree() {
    for text in ["", "2+", "(2", "2)", "f(", "f(1,)", "2 2", "2 $", "\u{e9}"] {
        assert_eq!(CalculatorParser::tokenize(text).unwrap_err(), ParseError::Syntax);
    }
}

#[test]
fn the_table_orders_the_tiers() {
    assert_eq!(binding(Rule::Add), Some((1, Assoc::Left)));
    assert_eq!(binding(Rule::Subtract), Some((1, Assoc::Left)));
    assert_eq!(binding(Rule::Multiply), Some((2, Assoc::Left)));
    assert_eq!(binding(Rule::Divide), Some((2, Assoc::Left)));
    assert_eq!(binding(Rule::Modulo), Some((2, Assoc::Left)));
    assert_eq!(binding(Rule::Power), Some((3, Assoc::Right)));
    for rule in [
        Rule::Number,
        Rule::UnaryMinus,
        Rule::Expr,
        Rule::Function,
        Rule::FunctionName,
        Rule::FunctionArgs,
        Rule::Equation,
    ] {
        assert_eq!(binding(rule), None);
    }
}

#[test]
fn tokens_made_by_hand_are_folded() {
    let pairs = vec![
        leaf(Rule::Number, "1"),
        leaf(Rule::Add, "+"),
        leaf(Rule::Number, "2"),
        leaf(Rule::Multiply, "*"),
        leaf(Rule::UnaryMinus, "-"),
        leaf(Rule::Number, "3"),
    ];
    assert_eq!(parse_expr(&pairs).unwrap().to_string(), "(1+(2*-(3)))");
    let group = node(Rule::Expr, "", vec![leaf(Rule::Number, "4"), leaf(Rule::Subtract, "-"), leaf(Rule::Number, "5")]);
    let pairs = vec![group, leaf(Rule::Power, "^"), leaf(Rule::Number, "6")];
    assert_eq!(parse_expr(&pairs).unwrap().to_string(), "((4-5)^6)");
}

#[test]
fn every_operator_token_gives_its_operator() {
    let cases = [
        (Rule::Add, Op::Add),
        (Rule::Subtract, Op::Subtract),
        (Rule::Multiply, Op::Multiply),
        (Rule::Divide, Op::Divide),
        (Rule::Modulo, Op::Modulo),
        (Rule::Power, Op::Power),
    ];
    for (rule, op) in cases {
        let pairs = vec![leaf(Rule::Number, "1"), leaf(rule, ""), leaf(Rule::Number, "2")];
        let expected = Expr::BinOp { lhs: Box::new(num("1")), op, rhs: Box::new(num("2")) };
        assert_eq!(parse_expr(&pairs), Ok(expected));
    }
}

#[test]
fn tokens_that_are_no_expression_are_an_internal_error() {
    let cases: Vec<Vec<Token>> = vec![
        vec![],
        vec![leaf(Rule::Add, "+")],
        vec![leaf(Rule::UnaryMinus, "-")],
        vec![leaf(Rule::Number, "1"), leaf(Rule::Number, "2")],
        vec![leaf(Rule::Number, "1"), leaf(Rule::Add, "+")],
        vec![leaf(Rule::Add, "+"), leaf(Rule::Number, "1")],
        vec![leaf(Rule::Number, "1"), leaf(Rule::UnaryMinus, "-"), leaf(Rule::Number, "2")],
        vec![leaf(Rule::Number, "1"), leaf(Rule::Add, "+"), leaf(Rule::Multiply, "*"), leaf(Rule::Number, "2")],
        vec![leaf(Rule::Number, "1"), leaf(Rule::Power, "^"), leaf(Rule::Number, "2"), leaf(Rule::Equation, "")],
        vec![leaf(Rule::FunctionName, "f")],
        vec![leaf(Rule::FunctionArgs, "")],
        vec![leaf(Rule::Equation, "1")],
        vec![leaf(Rule::Expr, "")],
        vec![node(Rule::Expr, "", vec![leaf(Rule::Add, "+")])],
        vec![leaf(Rule::Function, "f()")],
    ];
    for pairs in cases {
        assert_eq!(parse_expr(&pairs), Err(ParseError::Internal), "{:?}", pairs);
    }
}

#[test]
fn a_number_that_is_no_literal_is_an_internal_error() {
    for text in ["", "abc", "1.", ".5", "1.2.3", "-1", "1e5", " 1", "1 ", "\u{664}", "+1", "1_0"] {
        assert_eq!(parse_primary(&leaf(Rule::Number, text)), Err(ParseError::Internal));
        assert_eq!(parse_expr(&vec![leaf(Rule::Number, text)]), Err(ParseError::Internal));
    }
    assert_eq!(parse_primary(&leaf(Rule::Number, "1.50")), Ok(num("1.5")));
}

#[test]
fn a_call_is_built_from_its_name_and_arguments() {
    let argument = |text: &str| node(Rule::Expr, text, vec![leaf(Rule::Number, text)]);
    let pairs = vec![
        leaf(Rule::FunctionName, "max"),
        node(Rule::FunctionArgs, "", vec![argument("2"), argument("3")]),
    ];
    let expected = Expr::Function { name: String::from("max"), args: vec![num("2"), num("3")] };
    assert_eq!(parse_function(&pairs), Ok(expected));
    let pairs = vec![leaf(Rule::FunctionName, "now"), leaf(Rule::FunctionArgs, "")];
    assert_eq!(parse_function(&pairs).unwrap().to_string(), "now()");
}

#[test]
fn tokens_that_are_no_call_are_an_internal_error() {
    let argument = |text: &str| node(Rule::Expr, text, vec![leaf(Rule::Number, text)]);
    let cases: Vec<Vec<Token>> = vec![
        vec![],
        vec![leaf(Rule::FunctionName, "f")],
        vec![leaf(Rule::FunctionArgs, "")],
        vec![leaf(Rule::FunctionArgs, ""), leaf(Rule::FunctionName, "f")],
        vec![leaf(Rule::FunctionName, "f"), leaf(Rule::FunctionArgs, ""), leaf(Rule::FunctionArgs, "")],
        vec![leaf(Rule::FunctionName, "f"), leaf(Rule::Number, "1")],
        vec![leaf(Rule::FunctionName, "f"), node(Rule::FunctionArgs, "", vec![leaf(Rule::Number, "1")])],
        vec![leaf(Rule::FunctionName, "f"), node(Rule::FunctionArgs, "", vec![argument("1"), leaf(Rule::Expr, "")])],
        vec![leaf(Rule::FunctionName, "f"), node(Rule::FunctionArgs, "", vec![argument("x")])],
    ];
    for pairs in cases {
        assert_eq!(parse_function(&pairs), Err(ParseError::Internal), "{:?}", pairs);
    }
}

#[test]
fn decimals_are_read_from_literals_only() {
    for text in ["", ".", "1.", ".1", "1..2", "a", "1a", "-1", " 1", "1 ", "1,5", "\u{ff11}"] {
        assert_eq!(Decimal::from_text(text), None, "{:?}", text);
    }
    let d = Decimal::from_text("0012.3400").unwrap();
    assert_eq!(d.whole_digits(), &vec![1u8, 2]);
    assert_eq!(d.fraction_digits(), &vec![3u8, 4]);
    assert_eq!(d.to_string(), "12.34");
    let zero = Decimal::from_text("000.000").unwrap();
    assert!(zero.whole_digits().is_empty());
    assert!(zero.fraction_digits().is_empty());
    assert_eq!(zero.to_string(), "0");
    assert_eq!(Decimal::from_text("0.5").unwrap().to_string(), "0.5");
    assert_eq!(Decimal::from_text("10").unwrap().to_string(), "10");
    assert_eq!(d.clone(), d);
}

#[test]
fn the_notation_brackets_every_operation() {
    let sum = Expr::BinOp { lhs: Box::new(num("2")), op: Op::Add, rhs: Box::new(num("5")) };
    assert_eq!(sum.to_string(), "(2+5)");
    assert_eq!(Expr::UnaryMinus(Box::new(sum)).to_string(), "-((2+5))");
    let call = Expr::Function {
        name: String::from("f"),
        args: vec![num("1"), num("2.5"), Expr::Function { name: String::from("g"), args: vec![] }],
    };
    assert_eq!(call.to_string(), "f(1, 2.5, g())");
    let mut out = String::from("x = ");
    call.write(&mut out);
    assert_eq!(out, "x = f(1, 2.5, g())");
}
