use letter_calc::evaluate;
use letter_calc::tokenize;
use letter_calc::BinOp;
use letter_calc::ErrorKind;
use letter_calc::Expression;
use letter_calc::ExpressionParser;
use letter_calc::Term;
use letter_calc::Token;

fn num(s: &str) -> Token {
    Token::Number(s.chars().collect())
}

fn lit(s: &str) -> Term {
    Term::Number(s.chars().collect())
}

fn apply(op: BinOp, l: Term, r: Term) -> Term {
    Term::Apply(op, Box::new(l), Box::new(r))
}

/// The floating-point value of a term, as the engine's callers compute it.
fn value(t: &Term) -> f64 {
    match t {
        Term::Number(d) => d.iter().collect::<String>().parse().unwrap(),
        Term::Apply(op, l, r) => {
            let (a, b) = (value(l), value(r));
            match op {
                BinOp::Add => a + b,
                BinOp::Sub => a - b,
                BinOp::Mul => a * b,
                BinOp::Div => a / b,
            }
        }
    }
}

fn run(input: &str) -> f64 {
    let expression = Expression::parse(input).unwrap();
    value(&expression.evaluate().unwrap())
}

#[test]
fn parse_3a2c4() {
    assert_eq!(run("3a2c4"), 20_f64);
}

#[test]
fn parse_32a2d2() {
    assert_eq!(run("32a2d2"), 17_f64);
}

#[test]
fn parse_500a10b66c32() {
    assert_eq!(run("500a10b66c32"), 14208_f64);
}

#[test]
fn parse_3ae4c66fb32() {
    assert_eq!(run("3ae4c66fb32"), 235_f64);
}

#[test]
fn parse_3c4d2aee2a4c41fc4f() {
    assert_eq!(run("3c4d2aee2a4c41fc4f"), 990_f64);
}

#[test]
fn tokenize_letters_into_tokens() {
    let e = tokenize("3a2c4").unwrap();
    assert_eq!(
        e.tokens,
        vec![num("3"), Token::Operator('+'), num("2"), Token::Operator('*'), num("4")]
    );
}

#[test]
fn tokenize_symbols_like_letters() {
    assert_eq!(tokenize("3+2*4").unwrap(), tokenize("3a2c4").unwrap());
    assert_eq!(tokenize("(1-2)/3").unwrap(), tokenize("e1b2fd3").unwrap());
    assert_eq!(
        tokenize("e1f").unwrap().tokens,
        vec![Token::LeftParen, num("1"), Token::RightParen]
    );
}

#[test]
fn evaluate_left_to_right_without_precedence() {
    let e = tokenize("3a2c4").unwrap();
    assert_eq!(
        evaluate(&e).unwrap(),
        apply(BinOp::Mul, apply(BinOp::Add, lit("3"), lit("2")), lit("4"))
    );
}

#[test]
fn evaluate_division_after_sum() {
    let e = tokenize("32a2d2").unwrap();
    assert_eq!(
        evaluate(&e).unwrap(),
        apply(BinOp::Div, apply(BinOp::Add, lit("32"), lit("2")), lit("2"))
    );
    assert_eq!(value(&evaluate(&e).unwrap()), 17.0);
}

#[test]
fn evaluate_operator_spanning_a_group() {
    let e = tokenize("3ae4c66fb32").unwrap();
    assert_eq!(
        evaluate(&e).unwrap(),
        apply(
            BinOp::Add,
            lit("3"),
            apply(BinOp::Sub, apply(BinOp::Mul, lit("4"), lit("66")), lit("32"))
        )
    );
    assert_eq!(value(&evaluate(&e).unwrap()), 235.0);
}

#[test]
fn literal_round_trips_its_value() {
    let e = tokenize("42").unwrap();
    assert_eq!(e.tokens, vec![num("42")]);
    assert_eq!(e.tokens[0].number_value(), Some(42));
    assert_eq!(tokenize("0").unwrap().tokens[0].number_value(), Some(0));
    let max = tokenize("18446744073709551615").unwrap();
    assert_eq!(max.tokens[0].number_value(), Some(u64::MAX));
}

#[test]
fn number_value_beyond_u64_is_none() {
    let e = tokenize("18446744073709551616").unwrap();
    assert_eq!(e.tokens[0].number_value(), None);
    assert_eq!(Token::Operator('+').number_value(), None);
    assert_eq!(num("1x").number_value(), None);
    assert_eq!(num("").number_value(), None);
}

#[test]
fn spaces_do_not_end_a_number() {
    assert_eq!(tokenize(" 4 2 ").unwrap().tokens, vec![num("42")]);
    assert_eq!(run("1 0 a 5"), 15.0);
}

#[test]
fn leading_operator_fails() {
    let e = Expression { tokens: vec![Token::Operator('+'), num("1")] };
    assert_eq!(evaluate(&e), Err(ErrorKind::OperatorWithoutOperands('+')));
    assert_eq!(
        evaluate(&tokenize("c2").unwrap()),
        Err(ErrorKind::OperatorWithoutOperands('*'))
    );
}

#[test]
fn unmatched_right_paren_fails() {
    assert_eq!(
        evaluate(&tokenize("f").unwrap()),
        Err(ErrorKind::UnexpectedRightParenthesis)
    );
    assert_eq!(
        evaluate(&tokenize("3a4f").unwrap()),
        Err(ErrorKind::UnexpectedRightParenthesis)
    );
    assert_eq!(
        evaluate(&tokenize("e1f2f").unwrap()),
        Err(ErrorKind::UnexpectedRightParenthesis)
    );
}

#[test]
fn unclosed_left_paren_fails() {
    assert_eq!(
        evaluate(&tokenize("e3a4").unwrap()),
        Err(ErrorKind::UnmatchedLeftParenthesis)
    );
    assert_eq!(
        evaluate(&tokenize("3ae").unwrap()),
        Err(ErrorKind::UnmatchedLeftParenthesis)
    );
}

#[test]
fn letter_past_f_is_rejected() {
    assert_eq!(tokenize("3g4").err(), Some(ErrorKind::UnexpectedCharacter('g')));
    assert_eq!(tokenize("1A").err(), Some(ErrorKind::UnexpectedCharacter('A')));
    assert_eq!(tokenize("1.5").err(), Some(ErrorKind::UnexpectedCharacter('.')));
    assert_eq!(tokenize("1\t2").err(), Some(ErrorKind::UnexpectedCharacter('\t')));
    assert_eq!(Expression::parse("zq").err(), Some(ErrorKind::UnexpectedCharacter('z')));
}

#[test]
fn evaluate_twice_gives_same_result() {
    let e = tokenize("3ae4c66fb32").unwrap();
    let copy = e.clone();
    let first = evaluate(&e);
    let second = evaluate(&e);
    assert_eq!(first, second);
    assert_eq!(e, copy);
    let bad = tokenize("e1").unwrap();
    assert_eq!(evaluate(&bad), evaluate(&bad));
}

#[test]
fn too_many_operands_fails() {
    assert_eq!(evaluate(&tokenize("e3fe4f").unwrap()), Err(ErrorKind::TooManyOperands));
    let e = Expression { tokens: vec![num("3"), num("4")] };
    assert_eq!(evaluate(&e), Err(ErrorKind::TooManyOperands));
}

#[test]
fn invalid_operator_fails() {
    let e = Expression { tokens: vec![num("3"), Token::Operator('%'), num("4")] };
    assert_eq!(evaluate(&e), Err(ErrorKind::InvalidOperator('%')));
    assert_eq!(
        Expression::apply_operator(lit("1"), lit("2"), '^'),
        Err(ErrorKind::InvalidOperator('^'))
    );
    assert_eq!(
        Expression::apply_operator(lit("1"), lit("2"), '-'),
        Ok(apply(BinOp::Sub, lit("1"), lit("2")))
    );
}

#[test]
fn empty_input_is_malformed() {
    assert_eq!(tokenize("").unwrap().tokens, vec![]);
    assert_eq!(evaluate(&tokenize("").unwrap()), Err(ErrorKind::MalformedExpression));
    assert_eq!(evaluate(&tokenize("   ").unwrap()), Err(ErrorKind::MalformedExpression));
}

#[test]
fn operator_with_single_operand_in_group_is_malformed() {
    assert_eq!(
        evaluate(&tokenize("3eaa1f").unwrap()),
        Err(ErrorKind::MalformedExpression)
    );
}

#[test]
fn trailing_operator_is_ignored() {
    assert_eq!(evaluate(&tokenize("3a").unwrap()), Ok(lit("3")));
    assert_eq!(run("7"), 7.0);
}

#[test]
fn division_by_zero_builds_the_term() {
    let t = evaluate(&tokenize("1d0").unwrap()).unwrap();
    assert_eq!(t, apply(BinOp::Div, lit("1"), lit("0")));
    assert!(value(&t).is_infinite());
}

#[test]
fn long_chain_has_no_precedence() {
    let e = tokenize("2a3c4b1d2").unwrap();
    assert_eq!(
        evaluate(&e).unwrap(),
        apply(
            BinOp::Div,
            apply(
                BinOp::Sub,
                apply(BinOp::Mul, apply(BinOp::Add, lit("2"), lit("3")), lit("4")),
                lit("1")
            ),
            lit("2")
        )
    );
    assert_eq!(run("2+3*4-1/2"), 9.5);
}
