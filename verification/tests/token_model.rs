use shunting_yard::keyword::lookup;
use shunting_yard::token::{Assoc, Loc, Token, TokenValue};

fn all_operators() -> Vec<TokenValue> {
    vec![
        TokenValue::Equal,
        TokenValue::PlusEqual,
        TokenValue::MinusEqual,
        TokenValue::StarEqual,
        TokenValue::SlashEqual,
        TokenValue::ModEqual,
        TokenValue::BitAndEqual,
        TokenValue::BitOrEqual,
        TokenValue::BitXorEqual,
        TokenValue::LeftShiftEqual,
        TokenValue::RightShiftEqual,
        TokenValue::LogOr,
        TokenValue::LogAnd,
        TokenValue::BitOr,
        TokenValue::BitXor,
        TokenValue::BitAnd,
        TokenValue::EqualEqual,
        TokenValue::NotEqual,
        TokenValue::Less,
        TokenValue::LessEqual,
        TokenValue::Greater,
        TokenValue::GreaterEqual,
        TokenValue::LeftShift,
        TokenValue::RightShift,
        TokenValue::Plus,
        TokenValue::Minus,
        TokenValue::Star,
        TokenValue::Slash,
        TokenValue::Mod,
        TokenValue::LogNot,
        TokenValue::BitNot,
    ]
}

#[test]
fn loc_new_keeps_line_and_column() {
    let loc = Loc::new(3, 7);
    assert_eq!(loc.line, 3);
    assert_eq!(loc.col, 7);
    assert_eq!(loc, Loc { line: 3, col: 7 });
}

#[test]
fn token_new_keeps_its_parts() {
    let token = Token::new(Loc::new(1, 2), Loc::new(1, 4), TokenValue::Integer(42));
    assert_eq!(token.start_loc, Loc { line: 1, col: 2 });
    assert_eq!(token.end_loc, Loc { line: 1, col: 4 });
    assert_eq!(token.value, TokenValue::Integer(42));
}

#[test]
fn precedence_table() {
    assert_eq!(TokenValue::Comma.precedence(), Some(0));
    for v in [
        TokenValue::Equal,
        TokenValue::PlusEqual,
        TokenValue::MinusEqual,
        TokenValue::StarEqual,
        TokenValue::SlashEqual,
        TokenValue::ModEqual,
        TokenValue::BitAndEqual,
        TokenValue::BitOrEqual,
        TokenValue::BitXorEqual,
        TokenValue::LeftShiftEqual,
        TokenValue::RightShiftEqual,
    ] {
        assert_eq!(v.precedence(), Some(1), "{:?}", v);
    }
    assert_eq!(TokenValue::LogOr.precedence(), Some(3));
    assert_eq!(TokenValue::LogAnd.precedence(), Some(4));
    assert_eq!(TokenValue::BitOr.precedence(), Some(5));
    assert_eq!(TokenValue::BitXor.precedence(), Some(6));
    assert_eq!(TokenValue::BitAnd.precedence(), Some(7));
    assert_eq!(TokenValue::EqualEqual.precedence(), Some(8));
    assert_eq!(TokenValue::NotEqual.precedence(), Some(8));
    assert_eq!(TokenValue::Less.precedence(), Some(9));
    assert_eq!(TokenValue::LessEqual.precedence(), Some(9));
    assert_eq!(TokenValue::Greater.precedence(), Some(9));
    assert_eq!(TokenValue::GreaterEqual.precedence(), Some(9));
    assert_eq!(TokenValue::LeftShift.precedence(), Some(10));
    assert_eq!(TokenValue::RightShift.precedence(), Some(10));
    assert_eq!(TokenValue::Plus.precedence(), Some(11));
    assert_eq!(TokenValue::Minus.precedence(), Some(11));
    assert_eq!(TokenValue::Star.precedence(), Some(12));
    assert_eq!(TokenValue::Slash.precedence(), Some(12));
    assert_eq!(TokenValue::Mod.precedence(), Some(12));
    assert_eq!(TokenValue::LogNot.precedence(), Some(13));
    assert_eq!(TokenValue::BitNot.precedence(), Some(13));
}

#[test]
fn kinds_outside_the_table_have_no_precedence() {
    for v in [
        TokenValue::LeftParen,
        TokenValue::RightParen,
        TokenValue::LeftBrace,
        TokenValue::Dot,
        TokenValue::Colon,
        TokenValue::Semicolon,
        TokenValue::If,
        TokenValue::EOF,
        TokenValue::Integer(1),
        TokenValue::Float(String::from("1.5")),
        TokenValue::String(String::from("s")),
        TokenValue::Identifier(String::from("x")),
    ] {
        assert_eq!(v.precedence(), None, "{:?}", v);
        assert_eq!(v.assoc(), None, "{:?}", v);
    }
}

#[test]
fn assignments_and_unary_operators_group_to_the_right() {
    for v in all_operators() {
        let expected = match v.precedence() {
            Some(1) | Some(13) => Assoc::Right,
            _ => Assoc::Left,
        };
        assert_eq!(v.assoc(), Some(expected), "{:?}", v);
    }
    assert_eq!(TokenValue::Comma.assoc(), Some(Assoc::Left));
}

#[test]
fn is_op_holds_of_the_operators_only() {
    let operators = all_operators();
    assert_eq!(operators.len(), 31);
    for v in operators {
        assert!(v.is_op(), "{:?}", v);
        assert!(matches!(v.precedence(), Some(1..=13)), "{:?}", v);
    }
    assert!(!TokenValue::LeftParen.is_op());
    assert!(!TokenValue::Comma.is_op());
    assert!(!TokenValue::RightParen.is_op());
    assert!(!TokenValue::Integer(3).is_op());
    assert!(!TokenValue::Identifier(String::from("max")).is_op());
    assert!(!TokenValue::While.is_op());
    assert!(!TokenValue::LeftBrace.is_op());
    assert!(!TokenValue::Dot.is_op());
    assert!(!TokenValue::EOF.is_op());
    assert!(!TokenValue::Float(String::from("1.5")).is_op());
    assert!(!TokenValue::String(String::from("+")).is_op());
}

#[test]
fn is_func_and_is_binding_test_the_name() {
    let known = vec![String::from("max"), String::from("sin")];
    assert!(TokenValue::Identifier(String::from("max")).is_func(&known));
    assert!(TokenValue::Identifier(String::from("sin")).is_func(&known));
    assert!(!TokenValue::Identifier(String::from("min")).is_func(&known));
    assert!(!TokenValue::Identifier(String::from("ma")).is_func(&known));
    assert!(!TokenValue::String(String::from("max")).is_func(&known));
    assert!(!TokenValue::Plus.is_func(&known));
    assert!(!TokenValue::Identifier(String::from("max")).is_func(&Vec::new()));

    let bound = vec![String::from("x"), String::from("y")];
    assert!(TokenValue::Identifier(String::from("x")).is_binding(&bound));
    assert!(TokenValue::Identifier(String::from("y")).is_binding(&bound));
    assert!(!TokenValue::Identifier(String::from("z")).is_binding(&bound));
    assert!(!TokenValue::Integer(1).is_binding(&bound));
}

#[test]
fn lookup_finds_each_keyword() {
    assert_eq!(lookup("struct"), Some(TokenValue::Struct));
    assert_eq!(lookup("enum"), Some(TokenValue::Enum));
    assert_eq!(lookup("trait"), Some(TokenValue::Trait));
    assert_eq!(lookup("impl"), Some(TokenValue::Impl));
    assert_eq!(lookup("fn"), Some(TokenValue::Fn));
    assert_eq!(lookup("let"), Some(TokenValue::Let));
    assert_eq!(lookup("mut"), Some(TokenValue::Mut));
    assert_eq!(lookup("if"), Some(TokenValue::If));
    assert_eq!(lookup("else"), Some(TokenValue::Else));
    assert_eq!(lookup("while"), Some(TokenValue::While));
    assert_eq!(lookup("for"), Some(TokenValue::For));
    assert_eq!(lookup("in"), Some(TokenValue::In));
    assert_eq!(lookup("return"), Some(TokenValue::Return));
    assert_eq!(lookup("yield"), Some(TokenValue::Yield));
    assert_eq!(lookup("break"), Some(TokenValue::Break));
    assert_eq!(lookup("true"), Some(TokenValue::True));
    assert_eq!(lookup("false"), Some(TokenValue::False));
    assert_eq!(lookup("null"), Some(TokenValue::Null));
}

#[test]
fn lookup_finds_nothing_else() {
    assert_eq!(lookup(""), None);
    assert_eq!(lookup("i"), None);
    assert_eq!(lookup("iff"), None);
    assert_eq!(lookup("If"), None);
    assert_eq!(lookup("structs"), None);
    assert_eq!(lookup("max"), None);
}
