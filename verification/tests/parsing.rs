use numeric_evaluator::ast::{Expr, Op};
use numeric_evaluator::decimal::Decimal;
use numeric_evaluator::error::ParseError;
use numeric_evaluator::parser::parse;

fn show(text: &str) -> String {
    parse(text).unwrap().to_string()
}

fn num(text: &str) -> Expr {
    Expr::Number(Decimal::from_text(text).unwrap())
}

fn bin(lhs: Expr, op: Op, rhs: Expr) -> Expr {
    Expr::BinOp { lhs: Box::new(lhs), op, rhs: Box::new(rhs) }
}

fn neg(inner: Expr) -> Expr {
    Expr::UnaryMinus(Box::new(inner))
}

fn call(name: &str, args: Vec<Expr>) -> Expr {
    Expr::Function { name: String::from(name), args }
}

#[test]
fn can_parse_plus() {
    assert_eq!("(2+5)", parse("2+5").unwrap().to_string());
    assert_eq!("(-(2)+-(5))", parse("-2+-5").unwrap().to_string());
    assert_eq!("((2+5)+7)", parse("2+5+7").unwrap().to_string());
}

#[test]
fn can_parse_minus() {
    assert_eq!("(3-7)", parse("3-7").unwrap().to_string());
    assert_eq!("(-(3)--(7))", parse("-3--7").unwrap().to_string());
    assert_eq!("((3-7)-4)", parse("3-7-4").unwrap().to_string());
}

#[test]
fn can_parse_multiply() {
    assert_eq!("(6*3)", parse("6*3").unwrap().to_string());
    assert_eq!("(-(6)*-(3))", parse("-6*-3").unwrap().to_string());
    assert_eq!("((6*3)*8)", parse("6*3*8").unwrap().to_string());
}

#[test]
fn can_parse_divide() {
    assert_eq!("(1/9)", parse("1/9").unwrap().to_string());
    assert_eq!("(-(1)/-(9))", parse("-1/-9").unwrap().to_string());
    assert_eq!("((1/9)/5)", parse("1/9/5").unwrap().to_string());
}

#[test]
fn can_parse_modulus() {
    assert_eq!("(3%2)", parse("3%2").unwrap().to_string());
    assert_eq!("(-(3)%-(2))", parse("-3%-2").unwrap().to_string());
    assert_eq!("((3%2)%3)", parse("3%2%3").unwrap().to_string());
}

#[test]
fn can_parse_power() {
    assert_eq!("(3^2)", parse("3^2").unwrap().to_string());
    assert_eq!("(-(3)^-(2))", parse("-3^-2").unwrap().to_string());
    assert_eq!("(3^(2^4))", parse("3^2^4").unwrap().to_string());
}

#[test]
fn can_parse_decimal() {
    assert_eq!("3.2", parse("3.2").unwrap().to_string());
    assert_eq!("-(3.2)", parse("-3.2").unwrap().to_string());
}

#[test]
fn can_parse_order_of_operations() {
    assert_eq!("(2+(4*3))", parse("2+4*3").unwrap().to_string());
    assert_eq!("((2+4)*3)", parse("(2+4)*3").unwrap().to_string());

    assert_eq!("(2-(4*3))", parse("2-4*3").unwrap().to_string());
    assert_eq!("((2-4)*3)", parse("(2-4)*3").unwrap().to_string());

    assert_eq!("(2+(4/3))", parse("2+4/3").unwrap().to_string());
    assert_eq!("((2+4)/3)", parse("(2+4)/3").unwrap().to_string());

    assert_eq!("(2-(4/3))", parse("2-4/3").unwrap().to_string());
    assert_eq!("((2-4)/3)", parse("(2-4)/3").unwrap().to_string());

    assert_eq!("(1+(2*(3^3)))", parse("1+2*3^3").unwrap().to_string());
    assert_eq!("(1+((2*3)^3))", parse("1+(2*3)^3").unwrap().to_string());
}

#[test]
fn can_parse_tests_wikipedia() {
    assert_eq!(
        "(3+((4*2)/((1-5)^(2^3))))",
        parse("3+4*2/(1-5)^2^3").unwrap().to_string()
    );
    assert_eq!(
        "sin(((max(2, 3)/3)*3.1415))",
        parse("sin(max(2, 3) / 3 * 3.1415)").unwrap().to_string()
    );
}

#[test]
fn can_parse_functions() {
    assert_eq!("(max(1, 2)+4)", parse("max(1, 2) + 4").unwrap().to_string());
    assert_eq!("(4+min(5, 4))", parse("4 + min(5, 4)").unwrap().to_string());
    assert_eq!(
        "(7+max(2, min(47.94, trunc(22.54))))",
        parse("7 + max(2, min(47.94, trunc(22.54)))").unwrap().to_string()
    );
}

#[test]
fn the_same_text_gives_the_same_tree() {
    for text in ["1", "1+2*3^3", "-f(1, g(2), (3))%4", "max(2, min(47.94, trunc(22.54)))"] {
        assert_eq!(parse(text), parse(text));
        assert!(parse(text).is_ok());
    }
    for text in ["", "1+", "("] {
        assert_eq!(parse(text), parse(text));
    }
}

#[test]
fn subtraction_groups_to_the_left() {
    let expected = bin(bin(num("3"), Op::Subtract, num("7")), Op::Subtract, num("4"));
    assert_eq!(parse("3-7-4"), Ok(expected));
    let other = bin(num("3"), Op::Subtract, bin(num("7"), Op::Subtract, num("4")));
    assert_ne!(parse("3-7-4"), Ok(other));
}

#[test]
fn every_left_tier_groups_to_the_left() {
    assert_eq!(show("1+2-3+4"), "(((1+2)-3)+4)");
    assert_eq!(show("8/4*2%3"), "(((8/4)*2)%3)");
    assert_eq!(show("1-2*3/4-5"), "((1-((2*3)/4))-5)");
}

#[test]
fn power_groups_to_the_right() {
    let expected = bin(num("3"), Op::Power, bin(num("2"), Op::Power, num("4")));
    assert_eq!(parse("3^2^4"), Ok(expected));
    let other = bin(bin(num("3"), Op::Power, num("2")), Op::Power, num("4"));
    assert_ne!(parse("3^2^4"), Ok(other));
    assert_eq!(show("2^3^4^5"), "(2^(3^(4^5)))");
}

#[test]
fn tighter_tiers_are_folded_first() {
    let product = bin(num("4"), Op::Multiply, num("3"));
    assert_eq!(parse("2+4*3"), Ok(bin(num("2"), Op::Add, product)));
    let cube = bin(num("3"), Op::Power, num("3"));
    let expected = bin(num("1"), Op::Add, bin(num("2"), Op::Multiply, cube));
    assert_eq!(parse("1+2*3^3"), Ok(expected));
    assert_eq!(show("2^3*4+5"), "(((2^3)*4)+5)");
    assert_eq!(show("1+2^3^2*4-5"), "((1+((2^(3^2))*4))-5)");
}

#[test]
fn brackets_override_precedence() {
    let sum = bin(num("2"), Op::Add, num("4"));
    assert_eq!(parse("(2+4)*3"), Ok(bin(sum, Op::Multiply, num("3"))));
    assert_eq!(show("((2))"), "2");
    assert_eq!(show("(3^2)^4"), "((3^2)^4)");
    assert_eq!(show("3-(7-4)"), "(3-(7-4))");
    assert_eq!(parse("((2+4))"), parse("2+4"));
}

#[test]
fn unary_minus_binds_tighter_than_any_infix_operator() {
    let expected = bin(neg(num("2")), Op::Add, neg(num("5")));
    assert_eq!(parse("-2+-5"), Ok(expected));
    assert_eq!(parse("-3^2"), Ok(bin(neg(num("3")), Op::Power, num("2"))));
    assert_eq!(parse("-2*3"), Ok(bin(neg(num("2")), Op::Multiply, num("3"))));
    assert_eq!(parse("-(2+3)"), Ok(neg(bin(num("2"), Op::Add, num("3")))));
}

#[test]
fn unary_minus_takes_the_whole_primary() {
    assert_eq!(parse("-sin(1)"), Ok(neg(call("sin", vec![num("1")]))));
    assert_eq!(show("-sin(1)+2"), "(-(sin(1))+2)");
    assert_eq!(show("-(1+2)*3"), "(-((1+2))*3)");
}

#[test]
fn minus_signs_nest() {
    assert_eq!(parse("--3"), Ok(neg(neg(num("3")))));
    assert_eq!(show("2---3"), "(2--(-(3)))");
}

#[test]
fn nested_calls_keep_their_arguments() {
    let trunc = call("trunc", vec![num("22.54")]);
    let min = call("min", vec![num("47.94"), trunc]);
    let max = call("max", vec![num("2"), min]);
    assert_eq!(
        parse("7 + max(2, min(47.94, trunc(22.54)))"),
        Ok(bin(num("7"), Op::Add, max))
    );
}

#[test]
fn arguments_are_whole_expressions_in_source_order() {
    assert_eq!(show("f(1+2, 3*4, -5)"), "f((1+2), (3*4), -(5))");
    assert_eq!(show("f(g(1, 2), h(3))"), "f(g(1, 2), h(3))");
}

#[test]
fn a_call_may_have_no_arguments() {
    assert_eq!(parse("now()"), Ok(call("now", vec![])));
    assert_eq!(show("now( )"), "now()");
    assert_eq!(show("1+f()"), "(1+f())");
}

#[test]
fn names_hold_letters_digits_and_underscores() {
    assert_eq!(show("log10(5)"), "log10(5)");
    assert_eq!(show("_my_Fn2(1)"), "_my_Fn2(1)");
    assert_eq!(parse("2x(1)"), Err(ParseError::Syntax));
}

#[test]
fn decimal_literals_keep_their_exact_value() {
    match parse("3.2").unwrap() {
        Expr::Number(d) => {
            assert_eq!(d.whole_digits(), &vec![3u8]);
            assert_eq!(d.fraction_digits(), &vec![2u8]);
            assert_eq!(d.to_string().parse::<f64>().unwrap(), 3.2);
        }
        other => panic!("not a number: {:?}", other),
    }
    for (text, value) in [("47.94", 47.94), ("3.1415", 3.1415), ("0.5", 0.5), ("1250", 1250.0)] {
        assert_eq!(show(text).parse::<f64>().unwrap(), value);
        assert_eq!(show(text), format!("{}", value));
    }
}

#[test]
fn zeros_that_add_nothing_are_dropped() {
    assert_eq!(show("03.20"), "3.2");
    assert_eq!(show("007"), "7");
    assert_eq!(show("2.0"), "2");
    assert_eq!(show("0.0"), "0");
    assert_eq!(show("0"), "0");
    assert_eq!(show("0.050"), "0.05");
    assert_eq!(show("100"), "100");
    assert_eq!(parse("2.50"), parse("2.5"));
    assert_eq!(parse("02"), parse("2.000"));
}

#[test]
fn long_literals_lose_no_digit() {
    let text = "123456789012345678901234567890.000000000000000000000000000001";
    assert_eq!(show(text), text);
}

#[test]
fn malformed_text_is_a_syntax_error() {
    let cases = [
        "", " ", "(", ")", "()", "(2+3", "2+3)", "((2)", "2 3", "2+", "+2", "*", "2 $ 3", "2+3 x",
        "2+3;", "max(1,", "max(,)", "max(1,)", "max(,1)", "max 1", "max", "max(1 2)", "3.", ".5",
        "1..2", "1.2.3", "1 . 2", "1. 2", "2 + * 3", "2(3)", "(2)(3)", "f(1)(2)", "2+\u{e9}",
        "\u{ff12}", "1,2", "-", "--", "2-", "a", "a+1", "1e5", "0x10", "2 ^", "2**3",
    ];
    for text in cases {
        assert_eq!(parse(text), Err(ParseError::Syntax), "{:?}", text);
    }
}

#[test]
fn white_space_between_tokens_changes_nothing() {
    assert_eq!(parse("max(2, 3)"), parse("max(2,3)"));
    assert_eq!(parse(" \t max \n (\r 2 ,3 )  "), parse("max(2,3)"));
    assert_eq!(parse("1+2*3"), parse(" 1 +\t2\n*\r\n3 "));
    assert_eq!(parse("- 2"), parse("-2"));
    assert_eq!(parse("- - 2"), parse("--2"));
    assert_eq!(show("  7  "), "7");
}

#[test]
fn white_space_inside_a_token_splits_it() {
    assert_eq!(parse("1 2"), Err(ParseError::Syntax));
    assert_eq!(parse("ma x(1)"), Err(ParseError::Syntax));
    assert_eq!(parse("3 .2"), Err(ParseError::Syntax));
}

#[test]
fn deep_nesting_is_followed() {
    let mut text = String::new();
    for _ in 0..200 {
        text.push('(');
    }
    text.push('1');
    for _ in 0..200 {
        text.push(')');
    }
    assert_eq!(show(&text), "1");
    let mut sum = String::from("1");
    let mut expected = String::from("1");
    for _ in 0..500 {
        sum.push_str("+1");
        expected = format!("({}+1)", expected);
    }
    assert_eq!(show(&sum), expected);
}

#[test]
fn the_notation_reads_back_as_the_same_expression() {
    let texts = [
        "1", "-1", "1+2", "1-2-3", "2^3^4", "1+2*3^4%5/6-7", "f()", "f(1, -g(2, 3.5), (4))",
        "-(-(3))", "(1+2)*(3+4)", "-sin(max(2, 3) / 3 * 3.1415)^2", "0.001+100",
    ];
    for text in texts {
        let first = parse(text).unwrap();
        let second = parse(&first.to_string()).unwrap();
        assert_eq!(first, second, "{:?}", text);
        assert_eq!(first.to_string(), second.to_string());
    }
}

#[test]
fn brackets_that_do_not_balance_are_a_syntax_error() {
    for text in ["(1", "1)", "((1)", "(1))", "f(1", "f(1))", "(f(1)", ")(", "(1+(2*3)", "1+(2*3))"] {
        let opens = text.chars().filter(|c| *c == '(').count();
        let closes = text.chars().filter(|c| *c == ')').count();
        assert!(opens != closes || text == ")(");
        assert_eq!(parse(text), Err(ParseError::Syntax), "{:?}", text);
    }
}

#[test]
fn text_of_white_space_alone_is_a_syntax_error() {
    for text in ["", " ", "\t", "\n", "\r\n", "   \t \n "] {
        assert_eq!(parse(text), Err(ParseError::Syntax), "{:?}", text);
    }
}

#[test]
fn taking_out_a_white_space_character_keeps_the_expression() {
    let text = " max ( 2 ,\t-3 ) *\n( 4 - 5.5 ) ^ f ( ) ";
    let expected = parse(text).unwrap();
    let mut current = String::from(text);
    while let Some(at) = current.find(|c: char| c == ' ' || c == '\t' || c == '\n') {
        current.remove(at);
        assert_eq!(parse(&current).as_ref(), Ok(&expected), "{:?}", current);
    }
    assert_eq!(current, "max(2,-3)*(4-5.5)^f()");
}

#[test]
fn the_crate_root_offers_the_entry_points() {
    let root = numeric_evaluator::CalculatorParser::tokenize("1+2").unwrap();
    assert_eq!(root.rule, numeric_evaluator::Rule::Equation);
    let folded = numeric_evaluator::parse_expr(&root.children).unwrap();
    assert_eq!(Ok(folded), numeric_evaluator::parse("1+2"));
}
