use shunting_yard::error::ParseError;
use shunting_yard::lexer::Lexer;
use shunting_yard::parser::ShuntingYardParser;
use shunting_yard::token::{Loc, Token, TokenValue};

fn names(list: &[&str]) -> Vec<String> {
    list.iter().map(|name| name.to_string()).collect()
}

fn parse_with(source: &str, functions: &[&str], bindings: &[&str]) -> Result<Vec<Token>, ParseError> {
    let lexer = Lexer::new(source.to_string()).unwrap();
    let parser = ShuntingYardParser::new(lexer.tokens, &names(functions), &names(bindings))?;
    assert!(parser.input_queue.is_empty());
    assert!(parser.operator_stack.is_empty());
    Ok(parser.output_queue.into_iter().collect())
}

fn parse(source: &str) -> Result<Vec<Token>, ParseError> {
    parse_with(source, &["max", "sin"], &["x", "y"])
}

fn spell(value: &TokenValue) -> String {
    match value {
        TokenValue::Identifier(name) => name.clone(),
        TokenValue::Integer(n) => n.to_string(),
        TokenValue::Float(text) => text.clone(),
        TokenValue::String(text) => format!("{:?}", text),
        TokenValue::Plus => "+".to_string(),
        TokenValue::Minus => "-".to_string(),
        TokenValue::Star => "*".to_string(),
        TokenValue::Slash => "/".to_string(),
        TokenValue::Mod => "%".to_string(),
        TokenValue::Equal => "=".to_string(),
        TokenValue::PlusEqual => "+=".to_string(),
        TokenValue::MinusEqual => "-=".to_string(),
        TokenValue::LogNot => "!".to_string(),
        TokenValue::BitNot => "~".to_string(),
        TokenValue::LogAnd => "&&".to_string(),
        TokenValue::LogOr => "||".to_string(),
        TokenValue::BitAnd => "&".to_string(),
        TokenValue::BitOr => "|".to_string(),
        TokenValue::BitXor => "^".to_string(),
        TokenValue::LeftShift => "<<".to_string(),
        TokenValue::RightShift => ">>".to_string(),
        TokenValue::EqualEqual => "==".to_string(),
        TokenValue::NotEqual => "!=".to_string(),
        TokenValue::Less => "<".to_string(),
        TokenValue::LessEqual => "<=".to_string(),
        TokenValue::Greater => ">".to_string(),
        TokenValue::GreaterEqual => ">=".to_string(),
        other => format!("{:?}", other),
    }
}

fn rpn_with(source: &str, functions: &[&str], bindings: &[&str]) -> String {
    let tokens = parse_with(source, functions, bindings).unwrap();
    let words: Vec<String> = tokens.iter().map(|token| spell(&token.value)).collect();
    words.join(" ")
}

fn rpn(source: &str) -> String {
    rpn_with(source, &["max", "sin"], &["x", "y"])
}

#[test]
fn empty_input_gives_empty_output() {
    assert_eq!(parse(""), Ok(vec![]));
}

#[test]
fn single_operand_passes_through() {
    assert_eq!(
        parse("42"),
        Ok(vec![Token::new(Loc::new(1, 1), Loc::new(1, 3), TokenValue::Integer(42))])
    );
}

#[test]
fn higher_precedence_binds_first() {
    assert_eq!(rpn("3 + 4 * 2"), "3 4 2 * +");
    assert_eq!(rpn("3 * 4 + 2"), "3 4 * 2 +");
    assert_eq!(rpn("1 | 2 ^ 3 & 4 == 5 < 6 << 7 + 8 * 9"), "1 2 3 4 5 6 7 8 9 * + << < == & ^ |");
    assert_eq!(rpn("1 * 2 + 3 << 4 < 5 == 6 & 7 ^ 8 | 9"), "1 2 * 3 + 4 << 5 < 6 == 7 & 8 ^ 9 |");
    assert_eq!(rpn("x || y && 1"), "x y 1 && ||");
}

#[test]
fn parentheses_group() {
    assert_eq!(rpn("(3 + 4) * 2"), "3 4 + 2 *");
    assert_eq!(rpn("2 * (3 + 4)"), "2 3 4 + *");
    assert_eq!(rpn("((1))"), "1");
    assert_eq!(rpn("(1 + (2 - 3)) * (4 / 5)"), "1 2 3 - + 4 5 / *");
}

#[test]
fn tokens_keep_their_locations() {
    assert_eq!(
        parse("(3 + 4) * 2"),
        Ok(vec![
            Token::new(Loc::new(1, 2), Loc::new(1, 3), TokenValue::Integer(3)),
            Token::new(Loc::new(1, 6), Loc::new(1, 7), TokenValue::Integer(4)),
            Token::new(Loc::new(1, 4), Loc::new(1, 5), TokenValue::Plus),
            Token::new(Loc::new(1, 11), Loc::new(1, 12), TokenValue::Integer(2)),
            Token::new(Loc::new(1, 9), Loc::new(1, 10), TokenValue::Star),
        ])
    );
}

#[test]
fn function_follows_its_arguments() {
    assert_eq!(rpn("max(10, 1309, x * 2 + y)"), "10 1309 x 2 * y + max");
    assert_eq!(rpn("x = max(10, 1309, x * 2 + y)"), "x 10 1309 x 2 * y + max =");
    assert_eq!(rpn("sin(x) + 1"), "x sin 1 +");
    assert_eq!(rpn("max(sin(x), (y))"), "x sin y max");
    assert_eq!(rpn("2 * sin(max(x, y) + 1)"), "2 x y max 1 + sin *");
}

#[test]
fn function_names_and_bindings_are_what_the_caller_says() {
    assert_eq!(rpn_with("f(a) + g", &["f"], &["a"]), "a f g +");
    assert_eq!(rpn_with("max(1, 2)", &[], &[]), "max 1 2");
    assert_eq!(rpn_with("max(1, 2)", &["max"], &["max"]), "max 1 2");
    assert_eq!(rpn_with("x(1)", &["x"], &[]), "1 x");
}

#[test]
fn unknown_identifier_is_an_operand() {
    assert_eq!(rpn("a + b * c"), "a b c * +");
    assert_eq!(rpn("z"), "z");
}

#[test]
fn literals_are_operands() {
    assert_eq!(rpn("1.5 + \"s\" * 2"), "1.5 \"s\" 2 * +");
}

#[test]
fn left_associative_operators_leave_in_order() {
    assert_eq!(rpn("1 - 2 - 3"), "1 2 - 3 -");
    assert_eq!(rpn("1 - 2 + 3 - 4"), "1 2 - 3 + 4 -");
    assert_eq!(rpn("8 / 4 * 2 % 3"), "8 4 / 2 * 3 %");
}

#[test]
fn right_associative_operators_leave_in_reverse() {
    assert_eq!(rpn("a = b = c"), "a b c = =");
    assert_eq!(rpn("a = b += c -= 1"), "a b c 1 -= += =");
    assert_eq!(rpn("! ~ x"), "x ~ !");
    assert_eq!(rpn("a = 1 + 2"), "a 1 2 + =");
}

#[test]
fn comma_releases_waiting_operators() {
    assert_eq!(rpn("max(1 + 2, 3)"), "1 2 + 3 max");
    assert_eq!(rpn("1 + 2, 3 * 4"), "1 2 + 3 4 *");
    assert_eq!(rpn(","), "");
    assert_eq!(rpn("(1 + 2, 3)"), "1 2 + 3");
}

#[test]
fn unclosed_left_parenthesis_is_mismatched() {
    assert_eq!(parse("(1 + 2"), Err(ParseError::MismatchedParentheses));
    assert_eq!(parse("("), Err(ParseError::MismatchedParentheses));
    assert_eq!(parse("max(1, (2 + 3)"), Err(ParseError::MismatchedParentheses));
    assert_eq!(parse("((1) + 2"), Err(ParseError::MismatchedParentheses));
}

#[test]
fn stray_right_parenthesis_is_mismatched() {
    assert_eq!(parse(")"), Err(ParseError::MismatchedParentheses));
    assert_eq!(parse("1 + 2)"), Err(ParseError::MismatchedParentheses));
    assert_eq!(parse("(1 + 2))"), Err(ParseError::MismatchedParentheses));
    assert_eq!(parse(")("), Err(ParseError::MismatchedParentheses));
    assert_eq!(parse("max 1)"), Err(ParseError::MismatchedParentheses));
}

#[test]
fn right_parenthesis_on_a_function_name_is_mismatched() {
    assert_eq!(parse("(max)"), Err(ParseError::MismatchedParentheses));
    assert_eq!(parse("(max + 1)"), Err(ParseError::MismatchedParentheses));
}

#[test]
fn token_outside_expressions_is_unhandled() {
    assert_eq!(parse("{"), Err(ParseError::UnhandledToken));
    assert_eq!(parse("1 + 2;"), Err(ParseError::UnhandledToken));
    assert_eq!(parse("if x"), Err(ParseError::UnhandledToken));
    assert_eq!(parse("a.b"), Err(ParseError::UnhandledToken));
    assert_eq!(parse("a :: b"), Err(ParseError::UnhandledToken));
    assert_eq!(parse("true"), Err(ParseError::UnhandledToken));
    let eof = vec![Token::new(Loc::new(1, 1), Loc::new(1, 1), TokenValue::EOF)];
    assert!(matches!(
        ShuntingYardParser::new(eof, &Vec::new(), &Vec::new()),
        Err(ParseError::UnhandledToken)
    ));
}

#[test]
fn first_error_is_reported() {
    assert_eq!(parse(") {"), Err(ParseError::MismatchedParentheses));
    assert_eq!(parse("{ )"), Err(ParseError::UnhandledToken));
    assert_eq!(parse("( ;"), Err(ParseError::UnhandledToken));
}

#[test]
fn function_without_call_leaves_at_the_end() {
    assert_eq!(rpn("max"), "max");
    assert_eq!(rpn("1 + max"), "1 max +");
    assert_eq!(rpn("max + 1"), "1 + max");
}

#[test]
fn postfix_holds_no_parenthesis_and_no_comma() {
    let tokens = parse("x = max((1 + 2) * 3, sin(y), (4))").unwrap();
    assert_eq!(tokens.len(), 11);
    for t in &tokens {
        assert!(
            !matches!(t.value, TokenValue::LeftParen | TokenValue::RightParen | TokenValue::Comma),
            "{:?}",
            t
        );
    }
    assert_eq!(rpn("x = max((1 + 2) * 3, sin(y), (4))"), "x 1 2 + 3 * y sin 4 max =");
}
