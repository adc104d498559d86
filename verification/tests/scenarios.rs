use calculator::{Bracket, Calculator, Error, Operator, Token};

fn number(numeral: String) -> f32 {
    numeral.parse::<f32>().unwrap()
}

fn numeral(text: String) -> String {
    text
}

fn arithmetic(op: Operator, left: f32, right: f32) -> f32 {
    match op {
        Operator::Add => left + right,
        Operator::Sub => left - right,
        Operator::Mul => left * right,
        Operator::Div => left / right,
    }
}

fn calculate(text: &str) -> Result<Option<f32>, Error> {
    let tokens = Calculator::parse(text, number)?;
    Ok(Calculator::evaluate(Calculator::post_fix(tokens), arithmetic))
}

fn num(value: f32) -> Token<f32> {
    Token::Number(value)
}

fn op(operator: Operator) -> Token<f32> {
    Token::Op(operator)
}

#[test]
fn multiplication_binds_tighter_than_addition() {
    let tokens = Calculator::parse("2+3*4", number).unwrap();
    assert_eq!(
        tokens,
        vec![num(2.0), op(Operator::Add), num(3.0), op(Operator::Mul), num(4.0)]
    );
    let postfix = Calculator::post_fix(tokens);
    assert_eq!(
        postfix,
        vec![num(2.0), num(3.0), num(4.0), op(Operator::Mul), op(Operator::Add)]
    );
    assert_eq!(Calculator::evaluate(postfix, arithmetic), Some(14.0));
}

#[test]
fn brackets_group_before_multiplication() {
    let tokens = Calculator::parse("(2+3)*4", number).unwrap();
    assert_eq!(tokens[0], Token::Bracket(Bracket::Open));
    assert_eq!(tokens[4], Token::Bracket(Bracket::Close));
    let postfix = Calculator::post_fix(tokens);
    assert_eq!(
        postfix,
        vec![num(2.0), num(3.0), op(Operator::Add), num(4.0), op(Operator::Mul)]
    );
    assert_eq!(Calculator::evaluate(postfix, arithmetic), Some(20.0));
}

#[test]
fn division_by_zero_is_infinite() {
    assert_eq!(calculate("1/0"), Ok(Some(f32::INFINITY)));
}

#[test]
fn zero_by_zero_is_not_a_number() {
    let value = calculate("0/0").unwrap().unwrap();
    assert!(value.is_nan());
}

#[test]
fn unclosed_bracket_is_mismatched() {
    assert_eq!(Calculator::parse("(1+2", number), Err(Error::MismatchedParen));
}

#[test]
fn closing_bracket_without_opening_is_mismatched() {
    assert_eq!(Calculator::parse("1+2)", number), Err(Error::MismatchedParen));
    assert_eq!(Calculator::parse(")(", number), Err(Error::MismatchedParen));
}

#[test]
fn unknown_character_is_a_bad_token() {
    assert_eq!(Calculator::parse("3&4", number), Err(Error::BadToken('&')));
    assert_eq!(Calculator::parse("3\r4", number), Err(Error::BadToken('\r')));
    assert_eq!(Calculator::parse("x", number), Err(Error::BadToken('x')));
}

#[test]
fn two_decimal_points_are_no_number() {
    assert_eq!(Calculator::parse("1.2.3", number), Err(Error::InvalidNumber));
    assert_eq!(Calculator::parse("1+.", number), Err(Error::InvalidNumber));
    assert_eq!(Calculator::parse("..", number), Err(Error::InvalidNumber));
}

#[test]
fn first_failure_from_the_left_is_reported() {
    assert_eq!(Calculator::parse("1..2&", number), Err(Error::InvalidNumber));
    assert_eq!(Calculator::parse("&1..2", number), Err(Error::BadToken('&')));
    assert_eq!(Calculator::parse(")&", number), Err(Error::MismatchedParen));
    assert_eq!(Calculator::parse("(&", number), Err(Error::BadToken('&')));
    assert_eq!(Calculator::parse("(1..", number), Err(Error::InvalidNumber));
}

#[test]
fn two_numbers_without_operator_have_no_result() {
    let tokens = Calculator::parse("1 2", number).unwrap();
    assert_eq!(tokens, vec![num(1.0), num(2.0)]);
    assert_eq!(calculate("1 2"), Ok(None));
}

#[test]
fn empty_text_has_no_tokens_and_no_result() {
    let tokens = Calculator::parse("", number).unwrap();
    assert_eq!(tokens, Vec::<Token<f32>>::new());
    let postfix = Calculator::post_fix(tokens);
    assert_eq!(postfix, Vec::<Token<f32>>::new());
    assert_eq!(Calculator::evaluate(postfix, arithmetic), None);
}

#[test]
fn single_number_is_its_own_value() {
    let tokens = Calculator::parse("42", number).unwrap();
    assert_eq!(tokens, vec![num(42.0)]);
    let postfix = Calculator::post_fix(tokens);
    assert_eq!(postfix, vec![num(42.0)]);
    assert_eq!(Calculator::evaluate(postfix, arithmetic), Some(42.0));
}

#[test]
fn numerals_are_handed_to_the_conversion_as_written() {
    let tokens = Calculator::parse("12.5+.5*7.", numeral).unwrap();
    assert_eq!(
        tokens,
        vec![
            Token::Number(String::from("12.5")),
            Token::Op(Operator::Add),
            Token::Number(String::from(".5")),
            Token::Op(Operator::Mul),
            Token::Number(String::from("7.")),
        ]
    );
}

#[test]
fn numerals_of_the_lexer_are_numerals_of_the_float_parser() {
    for text in ["0", "12", "1.5", ".5", "5.", "007", "123456789012345678901234567890"] {
        let tokens = Calculator::parse(text, numeral).unwrap();
        assert_eq!(tokens, vec![Token::Number(String::from(text))]);
        assert!(text.parse::<f32>().is_ok());
    }
    for text in [".", "1.2.3", "..", "1..", "..1"] {
        assert_eq!(Calculator::parse(text, numeral), Err(Error::InvalidNumber));
        assert!(text.parse::<f32>().is_err());
    }
}

#[test]
fn blanks_separate_tokens() {
    let tokens = Calculator::parse(" 1\t+\n2 ", number).unwrap();
    assert_eq!(tokens, vec![num(1.0), op(Operator::Add), num(2.0)]);
    assert_eq!(calculate(" 1\t+\n2 "), Ok(Some(3.0)));
}

#[test]
fn every_operator_and_bracket_is_lexed() {
    let tokens = Calculator::parse("(+-*/)", number).unwrap();
    assert_eq!(
        tokens,
        vec![
            Token::Bracket(Bracket::Open),
            op(Operator::Add),
            op(Operator::Sub),
            op(Operator::Mul),
            op(Operator::Div),
            Token::Bracket(Bracket::Close),
        ]
    );
}

#[test]
fn well_formed_text_has_as_many_open_as_close_brackets() {
    let tokens = Calculator::parse("((1+2)*(3-(4/5)))", number).unwrap();
    let open = tokens.iter().filter(|t| **t == Token::Bracket(Bracket::Open)).count();
    let close = tokens.iter().filter(|t| **t == Token::Bracket(Bracket::Close)).count();
    assert_eq!(open, 4);
    assert_eq!(close, 4);
}

#[test]
fn postfix_is_shorter_by_the_brackets() {
    let tokens = Calculator::parse("((1+2)*(3-(4/5)))", number).unwrap();
    let length = tokens.len();
    let postfix = Calculator::post_fix(tokens);
    assert_eq!(postfix.len(), length - 4 - 4);
    assert!(postfix.iter().all(|t| !matches!(t, Token::Bracket(_))));
}

#[test]
fn unclosed_bracket_stays_in_the_postfix() {
    let postfix = Calculator::post_fix(vec![Token::Bracket(Bracket::Open), num(1.0)]);
    assert_eq!(postfix, vec![num(1.0), Token::Bracket(Bracket::Open)]);
}

#[test]
fn unopened_bracket_flushes_the_operators() {
    let postfix = Calculator::post_fix(vec![
        num(1.0),
        op(Operator::Add),
        num(2.0),
        Token::Bracket(Bracket::Close),
        op(Operator::Mul),
        num(3.0),
    ]);
    assert_eq!(
        postfix,
        vec![num(1.0), num(2.0), op(Operator::Add), num(3.0), op(Operator::Mul)]
    );
}

#[test]
fn operators_of_equal_rank_go_from_left_to_right() {
    assert_eq!(calculate("10-4-3"), Ok(Some(3.0)));
    assert_eq!(calculate("10-4+3"), Ok(Some(9.0)));
    assert_eq!(calculate("10+4-3"), Ok(Some(11.0)));
    assert_eq!(calculate("16/4/2"), Ok(Some(2.0)));
    assert_eq!(calculate("16/4*2"), Ok(Some(8.0)));
    assert_eq!(calculate("16*4/2"), Ok(Some(32.0)));
    let postfix = Calculator::post_fix(Calculator::parse("1+2-3", number).unwrap());
    assert_eq!(
        postfix,
        vec![num(1.0), num(2.0), op(Operator::Add), num(3.0), op(Operator::Sub)]
    );
}

#[test]
fn products_come_before_sums() {
    assert_eq!(calculate("1+2*3-8/4"), Ok(Some(5.0)));
    assert_eq!(calculate("2*3+4*5"), Ok(Some(26.0)));
    let postfix = Calculator::post_fix(Calculator::parse("1+2*3-8/4", number).unwrap());
    assert_eq!(
        postfix,
        vec![
            num(1.0),
            num(2.0),
            num(3.0),
            op(Operator::Mul),
            op(Operator::Add),
            num(8.0),
            num(4.0),
            op(Operator::Div),
            op(Operator::Sub),
        ]
    );
}

#[test]
fn conversion_keeps_the_order_of_the_operands() {
    let postfix = Calculator::post_fix(Calculator::parse("(1+2)*3-4/(5+6)", number).unwrap());
    let operands: Vec<f32> = postfix
        .iter()
        .filter_map(|t| match t {
            Token::Number(n) => Some(*n),
            _ => None,
        })
        .collect();
    assert_eq!(operands, vec![1.0, 2.0, 3.0, 4.0, 5.0, 6.0]);
}

#[test]
fn converting_a_postfix_sequence_again_keeps_its_operands() {
    let postfix = vec![num(1.0), num(2.0), op(Operator::Add), num(3.0), op(Operator::Mul)];
    let again = Calculator::post_fix(postfix);
    assert_eq!(
        again,
        vec![num(1.0), num(2.0), num(3.0), op(Operator::Mul), op(Operator::Add)]
    );
}

#[test]
fn operator_takes_right_operand_from_the_top() {
    let post = vec![num(7.0), num(2.0), op(Operator::Sub)];
    assert_eq!(Calculator::evaluate(post, arithmetic), Some(5.0));
    let post = vec![num(7.0), num(2.0), op(Operator::Div)];
    assert_eq!(Calculator::evaluate(post, arithmetic), Some(3.5));
}

#[test]
fn operator_without_operands_has_no_result() {
    assert_eq!(Calculator::evaluate(vec![op(Operator::Add)], arithmetic), None);
    assert_eq!(Calculator::evaluate(vec![num(1.0), op(Operator::Add)], arithmetic), None);
    assert_eq!(
        Calculator::evaluate(vec![num(1.0), op(Operator::Add), num(2.0)], arithmetic),
        None
    );
    assert_eq!(calculate("+"), Ok(None));
    assert_eq!(calculate("1+"), Ok(None));
}

#[test]
fn evaluation_skips_brackets() {
    let post = vec![
        Token::Bracket(Bracket::Open),
        num(1.0),
        num(2.0),
        Token::Bracket(Bracket::Close),
        op(Operator::Add),
    ];
    assert_eq!(Calculator::evaluate(post, arithmetic), Some(3.0));
}

#[test]
fn precedence_of_operators() {
    assert_eq!(Operator::Add.precedence(), 1);
    assert_eq!(Operator::Sub.precedence(), 1);
    assert_eq!(Operator::Mul.precedence(), 2);
    assert_eq!(Operator::Div.precedence(), 2);
}

#[test]
fn evaluation_works_on_any_number_type() {
    let tokens = Calculator::parse("(2+3)*4-6/3", |s: String| s.parse::<i64>().unwrap()).unwrap();
    let value = Calculator::evaluate(Calculator::post_fix(tokens), |op, l: i64, r: i64| match op {
        Operator::Add => l + r,
        Operator::Sub => l - r,
        Operator::Mul => l * r,
        Operator::Div => l / r,
    });
    assert_eq!(value, Some(18));
}
