use math::evaluator::{evaluate, DetailedEvaluationResult, EvaluationContext, EvaluationError};
use math::lexer::{LexError, Lexer};
use math::parser::{BindPower, Parser};
use math::rational::Rational;
use math::syntax::{ASTNode, ExpressionTokens};

type Context = EvaluationContext<fn(Rational) -> Rational>;

fn whole(n: i64) -> Rational {
    Rational::from_integer(n).unwrap()
}

fn fraction(n: i64, d: i64) -> Rational {
    Rational::from_fraction(n, d).unwrap()
}

fn tokens(src: &str) -> Vec<ExpressionTokens> {
    Lexer::new(src.to_string()).tokenize().unwrap()
}

fn tree(src: &str) -> ASTNode {
    Parser::new(tokens(src)).parse().unwrap()
}

fn sqrt(x: Rational) -> Rational {
    let v = (x.numerator() as f64 / x.denominator() as f64).sqrt();
    fraction((v * 1e9).round() as i64, 1_000_000_000)
}

fn run(src: &str, context: &Context) -> DetailedEvaluationResult {
    evaluate(&tree(src), context)
}

fn steps(result: &DetailedEvaluationResult) -> Vec<&str> {
    result.steps.iter().map(|s| s.as_str()).collect()
}

#[test]
fn literal_is_one_number_token() {
    assert_eq!(tokens("42"), vec![ExpressionTokens::Number(whole(42))]);
    assert_eq!(tokens("2.50"), vec![ExpressionTokens::Number(fraction(5, 2))]);
    assert_eq!(tokens("0.125"), vec![ExpressionTokens::Number(fraction(1, 8))]);
    assert_eq!(tokens("7."), vec![ExpressionTokens::Number(whole(7))]);
    assert_eq!(
        tokens("9223372036854775807"),
        vec![ExpressionTokens::Number(whole(i64::MAX))]
    );
}

#[test]
fn parenthesized_expression_gives_same_tree() {
    for e in ["1 + 2 * x", "3 - 2 - 1", "f(4) / (2 - y)", "7"] {
        let wrapped = format!("({})", e);
        assert_eq!(tree(e), tree(&wrapped));
    }
}

#[test]
fn subtraction_groups_to_the_left() {
    let r = run("3 - 2 - 1", &Context::new());
    assert_eq!(r.value, Ok(whole(0)));
    assert_eq!(steps(&r), vec!["3 - 2 = 1", "1 - 1 = 0"]);
    assert_eq!(tree("3 - 2 - 1"), tree("(3 - 2) - 1"));
    assert_eq!(tree("8 / 4 * 2"), tree("(8 / 4) * 2"));
    assert_eq!(run("8 / 4 * 2", &Context::new()).value, Ok(whole(4)));
    assert_eq!(run("3 - (2 - 1)", &Context::new()).value, Ok(whole(2)));
}

#[test]
fn multiplication_binds_tighter_than_addition() {
    let r = run("3 + 5 * 2", &Context::new());
    assert_eq!(r.value, Ok(whole(13)));
    assert_eq!(steps(&r), vec!["5 * 2 = 10", "3 + 10 = 13"]);
}

#[test]
fn division_by_zero_fails() {
    let r = run("5 / 0", &Context::new());
    assert_eq!(r.value, Err(EvaluationError::DivisionByZero));
    assert!(r.steps.is_empty());
}

#[test]
fn undefined_variable_fails() {
    let r = run("x + 1", &Context::new());
    assert_eq!(r.value, Err(EvaluationError::UndefinedVariable("x".to_string())));
    assert!(r.steps.is_empty());
}

#[test]
fn function_call_end_to_end() {
    let mut context = Context::new();
    context.set_function("sqrt".to_string(), sqrt);
    let r = run("(3 + (5 - (3 * sqrt(16)))) * 2", &context);
    assert_eq!(r.value, Ok(whole(-8)));
    assert_eq!(
        steps(&r),
        vec!["sqrt(16) = 4", "3 * 4 = 12", "5 - 12 = -7", "3 + -7 = -4", "-4 * 2 = -8"]
    );
}

#[test]
fn repeated_evaluation_is_identical() {
    let mut context = Context::new();
    context.set_function("sqrt".to_string(), sqrt);
    context.set_variable("x".to_string(), fraction(1, 3));
    let t = tree("sqrt(9) * x - 1 / 2");
    let first = evaluate(&t, &context);
    let second = evaluate(&t, &context);
    assert_eq!(first.value, second.value);
    assert_eq!(first.steps, second.steps);
    assert_eq!(first.value, Ok(fraction(1, 2)));
    let failing = tree("y + x");
    assert_eq!(evaluate(&failing, &context).value, evaluate(&failing, &context).value);
}

#[test]
fn malformed_literal_is_a_lex_error() {
    assert_eq!(
        Lexer::new("1.2.3".to_string()).tokenize(),
        Err(LexError::InvalidNumber { position: 0, text: "1.2.3".to_string() })
    );
    assert_eq!(
        Lexer::new("x + 4..5".to_string()).tokenize(),
        Err(LexError::InvalidNumber { position: 4, text: "4..5".to_string() })
    );
}

#[test]
fn literal_out_of_range_is_a_lex_error() {
    assert_eq!(
        Lexer::new("9223372036854775808".to_string()).tokenize(),
        Err(LexError::InvalidNumber { position: 0, text: "9223372036854775808".to_string() })
    );
    assert_eq!(
        Lexer::new("1.0000000000000000001".to_string()).tokenize(),
        Err(LexError::InvalidNumber { position: 0, text: "1.0000000000000000001".to_string() })
    );
    assert_eq!(tokens("1.000000000000000001"), vec![ExpressionTokens::Number(fraction(1_000_000_000_000_000_001, 1_000_000_000_000_000_000))]);
}

#[test]
fn literal_with_trailing_zeros_or_small_value_is_read() {
    assert_eq!(tokens("0.50000000000000000000"), vec![ExpressionTokens::Number(fraction(1, 2))]);
    assert_eq!(
        tokens("9223372036854775807.000"),
        vec![ExpressionTokens::Number(whole(i64::MAX))]
    );
    assert_eq!(
        tokens("0.00000001490116119384765625"),
        vec![ExpressionTokens::Number(fraction(1, 67108864))]
    );
    assert_eq!(tokens("100"), vec![ExpressionTokens::Number(whole(100))]);
    assert_eq!(
        Lexer::new("18446744073709551616.0".to_string()).tokenize(),
        Err(LexError::InvalidNumber { position: 0, text: "18446744073709551616.0".to_string() })
    );
}

#[test]
fn malformed_literal_after_other_tokens() {
    assert_eq!(
        Lexer::new("( 1.2.3".to_string()).tokenize(),
        Err(LexError::InvalidNumber { position: 2, text: "1.2.3".to_string() })
    );
}

#[test]
fn identifiers_continue_over_letters_of_any_script() {
    assert_eq!(
        tokens("aé1 * b_\u{3000}+ c"),
        vec![
            ExpressionTokens::Variable("aé1".to_string()),
            ExpressionTokens::Operator('*'),
            ExpressionTokens::Variable("b_".to_string()),
            ExpressionTokens::Operator('+'),
            ExpressionTokens::Variable("c".to_string()),
        ]
    );
    assert_eq!(tokens("é"), vec![]);
    let mut context = Context::new();
    context.set_variable("größe".to_string(), whole(3));
    assert_eq!(run("größe * 2", &context).value, Ok(whole(6)));
}

#[test]
fn unknown_characters_are_skipped() {
    assert_eq!(
        tokens("3 $ + é 4"),
        vec![
            ExpressionTokens::Number(whole(3)),
            ExpressionTokens::Operator('+'),
            ExpressionTokens::Number(whole(4)),
        ]
    );
    assert_eq!(tokens(" \t\n "), vec![]);
}

#[test]
fn every_token_kind_is_read() {
    assert_eq!(
        tokens("(_a1 +b2)*f(1)/-"),
        vec![
            ExpressionTokens::LeftParenthesis,
            ExpressionTokens::Variable("_a1".to_string()),
            ExpressionTokens::Operator('+'),
            ExpressionTokens::Variable("b2".to_string()),
            ExpressionTokens::RightParenthesis,
            ExpressionTokens::Operator('*'),
            ExpressionTokens::Variable("f".to_string()),
            ExpressionTokens::LeftParenthesis,
            ExpressionTokens::Number(whole(1)),
            ExpressionTokens::RightParenthesis,
            ExpressionTokens::Operator('/'),
            ExpressionTokens::Operator('-'),
        ]
    );
}

#[test]
fn tokenize_continues_where_it_stopped() {
    let mut lexer = Lexer::new("1 + 2".to_string());
    assert_eq!(lexer.tokenize().unwrap().len(), 3);
    assert_eq!(lexer.tokenize(), Ok(vec![]));
}

#[test]
fn structural_failures_give_no_tree() {
    for src in ["", "(1 + 2", ")", "1 +", "f(1", "* 2", "()"] {
        assert_eq!(Parser::new(tokens(src)).parse(), None, "{}", src);
    }
    assert_eq!(Parser::new(vec![ExpressionTokens::Function("f".to_string())]).parse(), None);
}

#[test]
fn trailing_tokens_are_left_unread() {
    assert_eq!(tree("1 2"), ASTNode::Number(whole(1)));
    assert_eq!(tree("x )"), ASTNode::Variable("x".to_string()));
}

#[test]
fn call_and_grouping_shapes() {
    assert_eq!(
        tree("f(x) * (1 + 2)"),
        ASTNode::Operator {
            operator: '*',
            left: Box::new(ASTNode::Function {
                name: "f".to_string(),
                argument: Box::new(ASTNode::Variable("x".to_string())),
            }),
            right: Box::new(ASTNode::Operator {
                operator: '+',
                left: Box::new(ASTNode::Number(whole(1))),
                right: Box::new(ASTNode::Number(whole(2))),
            }),
        }
    );
}

#[test]
fn variables_are_read_from_the_context() {
    let mut context = Context::new();
    context.set_variable("x".to_string(), whole(4));
    assert_eq!(context.get_variable(&"x".to_string()), Some(whole(4)));
    assert_eq!(run("x * x", &context).value, Ok(whole(16)));
    context.set_variable("x".to_string(), whole(5));
    assert_eq!(context.get_variable(&"x".to_string()), Some(whole(5)));
    assert_eq!(context.get_variable(&"y".to_string()), None);
    assert_eq!(run("x * x", &context).value, Ok(whole(25)));
}

#[test]
fn undefined_function_fails_after_its_argument() {
    let r = run("g(1 + 1)", &Context::new());
    assert_eq!(r.value, Err(EvaluationError::UndefinedFunction("g".to_string())));
    assert_eq!(steps(&r), vec!["1 + 1 = 2"]);
}

#[test]
fn failure_keeps_steps_already_taken() {
    let r = run("(1 + 2) + (3 * 4 + y)", &Context::new());
    assert_eq!(r.value, Err(EvaluationError::UndefinedVariable("y".to_string())));
    assert_eq!(steps(&r), vec!["1 + 2 = 3", "3 * 4 = 12"]);
    let r = run("(1 + 2) / (1 - 1) * 5", &Context::new());
    assert_eq!(r.value, Err(EvaluationError::DivisionByZero));
    assert_eq!(steps(&r), vec!["1 + 2 = 3", "1 - 1 = 0"]);
}

#[test]
fn fractions_are_exact() {
    let r = run("1 / 3 + 1 / 6", &Context::new());
    assert_eq!(r.value, Ok(fraction(1, 2)));
    assert_eq!(steps(&r), vec!["1 / 3 = 1/3", "1 / 6 = 1/6", "1/3 + 1/6 = 1/2"]);
    let r = run("0.5 - (2 / 4) * 3", &Context::new());
    assert_eq!(r.value, Ok(whole(-1)));
    assert_eq!(steps(&r), vec!["2 / 4 = 1/2", "1/2 * 3 = 3/2", "1/2 - 3/2 = -1"]);
}

#[test]
fn overflow_is_reported() {
    let r = run("9223372036854775807 * 2", &Context::new());
    assert_eq!(r.value, Err(EvaluationError::Overflow));
    assert!(r.steps.is_empty());
    let r = run("(1 / 9223372036854775807) / 2", &Context::new());
    assert_eq!(r.value, Err(EvaluationError::Overflow));
    assert_eq!(steps(&r), vec!["1 / 9223372036854775807 = 1/9223372036854775807"]);
}

#[test]
fn unary_operators_are_evaluated() {
    let context = Context::new();
    let minus = ASTNode::UnaryOperator { operator: '-', operand: Box::new(tree("1 + 2")) };
    let r = evaluate(&minus, &context);
    assert_eq!(r.value, Ok(whole(-3)));
    assert_eq!(steps(&r), vec!["1 + 2 = 3", "-3 = -3"]);
    let plus = ASTNode::UnaryOperator { operator: '+', operand: Box::new(ASTNode::Number(whole(7))) };
    let r = evaluate(&plus, &context);
    assert_eq!(r.value, Ok(whole(7)));
    assert!(r.steps.is_empty());
    let other = ASTNode::UnaryOperator { operator: '!', operand: Box::new(ASTNode::Number(whole(7))) };
    assert_eq!(
        evaluate(&other, &context).value,
        Err(EvaluationError::SyntaxError("Unknown operator".to_string()))
    );
}

#[test]
fn unknown_binary_operator_is_a_syntax_error() {
    let node = ASTNode::Operator {
        operator: '%',
        left: Box::new(ASTNode::Number(whole(7))),
        right: Box::new(ASTNode::Number(whole(2))),
    };
    let r = evaluate(&node, &Context::new());
    assert_eq!(r.value, Err(EvaluationError::SyntaxError("Unknown operator".to_string())));
    assert!(r.steps.is_empty());
}

#[test]
fn bind_powers() {
    assert_eq!(BindPower::get_bind_power('+'), Some((10, 9)));
    assert_eq!(BindPower::get_bind_power('-'), Some((10, 9)));
    assert_eq!(BindPower::get_bind_power('*'), Some((20, 19)));
    assert_eq!(BindPower::get_bind_power('/'), Some((20, 19)));
    assert_eq!(BindPower::get_bind_power('%'), None);
}

#[test]
fn rationals_are_kept_in_lowest_terms() {
    let r = fraction(-6, 4);
    assert_eq!((r.numerator(), r.denominator()), (-3, 2));
    assert_eq!(fraction(6, -4), r);
    assert_eq!(r.to_text(), "-3/2");
    assert_eq!(whole(120).to_text(), "120");
    assert_eq!(whole(0).to_text(), "0");
    assert_eq!(Rational::from_fraction(1, 0), None);
    assert_eq!(Rational::from_integer(i64::MIN), None);
    assert_eq!(Rational::from_fraction(i64::MIN, 1), None);
    assert_eq!(fraction(i64::MIN, 2).numerator(), i64::MIN / 2);
    assert!(whole(0).is_zero());
    assert_eq!(whole(3).add(fraction(1, 2)), Some(fraction(7, 2)));
    assert_eq!(whole(3).sub(fraction(1, 2)), Some(fraction(5, 2)));
    assert_eq!(whole(3).mul(fraction(1, 6)), Some(fraction(1, 2)));
    assert_eq!(whole(3).div(whole(-6)), Some(fraction(-1, 2)));
    assert_eq!(whole(3).neg(), whole(-3));
}
