use shunting_yard::error::{LexicalError, LexicalErrorKind};
use shunting_yard::lexer::Lexer;
use shunting_yard::token::{Loc, Token, TokenValue};

fn lex(source: &str) -> Vec<Token> {
    match Lexer::new(source.to_string()) {
        Ok(lexer) => lexer.tokens,
        Err(error) => panic!("{:?} in {:?}", error, source),
    }
}

fn values(source: &str) -> Vec<TokenValue> {
    lex(source).into_iter().map(|token| token.value).collect()
}

fn lex_error(source: &str) -> LexicalError {
    match Lexer::new(source.to_string()) {
        Ok(lexer) => panic!("{:?} lexed as {:?}", source, lexer.tokens),
        Err(error) => error,
    }
}

fn token(line: u32, col: u32, end_line: u32, end_col: u32, value: TokenValue) -> Token {
    Token::new(Loc::new(line, col), Loc::new(end_line, end_col), value)
}

fn ident(name: &str) -> TokenValue {
    TokenValue::Identifier(name.to_string())
}

#[test]
fn empty_source_has_no_tokens() {
    assert_eq!(lex(""), vec![]);
    assert_eq!(lex(" \t\r\n  "), vec![]);
}

#[test]
fn single_character_punctuation_spans_one_character() {
    let cases = [
        ("(", TokenValue::LeftParen),
        (")", TokenValue::RightParen),
        ("{", TokenValue::LeftBrace),
        ("}", TokenValue::RightBrace),
        (",", TokenValue::Comma),
        (".", TokenValue::Dot),
        (";", TokenValue::Semicolon),
        ("~", TokenValue::BitNot),
        (":", TokenValue::Colon),
        ("+", TokenValue::Plus),
        ("-", TokenValue::Minus),
        ("*", TokenValue::Star),
        ("/", TokenValue::Slash),
        ("%", TokenValue::Mod),
        ("=", TokenValue::Equal),
        ("!", TokenValue::LogNot),
        ("<", TokenValue::Less),
        (">", TokenValue::Greater),
        ("&", TokenValue::BitAnd),
        ("|", TokenValue::BitOr),
        ("^", TokenValue::BitXor),
    ];
    for (source, value) in cases {
        assert_eq!(lex(source), vec![token(1, 1, 1, 2, value.clone())], "{:?}", source);
        let padded = format!("  {} ", source);
        assert_eq!(lex(&padded), vec![token(1, 3, 1, 4, value)], "{:?}", padded);
    }
}

#[test]
fn compound_operators_are_one_token() {
    let cases = [
        ("::", TokenValue::ColonColon),
        ("==", TokenValue::EqualEqual),
        ("!=", TokenValue::NotEqual),
        ("<=", TokenValue::LessEqual),
        (">=", TokenValue::GreaterEqual),
        ("<<", TokenValue::LeftShift),
        (">>", TokenValue::RightShift),
        ("&&", TokenValue::LogAnd),
        ("||", TokenValue::LogOr),
        ("+=", TokenValue::PlusEqual),
        ("-=", TokenValue::MinusEqual),
        ("*=", TokenValue::StarEqual),
        ("/=", TokenValue::SlashEqual),
        ("%=", TokenValue::ModEqual),
        ("&=", TokenValue::BitAndEqual),
        ("|=", TokenValue::BitOrEqual),
        ("^=", TokenValue::BitXorEqual),
    ];
    for (source, value) in cases {
        assert_eq!(lex(source), vec![token(1, 1, 1, 3, value)], "{:?}", source);
    }
    assert_eq!(lex("<<="), vec![token(1, 1, 1, 4, TokenValue::LeftShiftEqual)]);
    assert_eq!(lex(">>="), vec![token(1, 1, 1, 4, TokenValue::RightShiftEqual)]);
}

#[test]
fn longest_symbol_wins() {
    assert_eq!(values("a<<=b"), vec![ident("a"), TokenValue::LeftShiftEqual, ident("b")]);
    assert_eq!(values("<<<"), vec![TokenValue::LeftShift, TokenValue::Less]);
    assert_eq!(values("<<=="), vec![TokenValue::LeftShiftEqual, TokenValue::Equal]);
    assert_eq!(values("< <="), vec![TokenValue::Less, TokenValue::LessEqual]);
    assert_eq!(values("<< ="), vec![TokenValue::LeftShift, TokenValue::Equal]);
    assert_eq!(values(">>>="), vec![TokenValue::RightShift, TokenValue::GreaterEqual]);
    assert_eq!(values("==="), vec![TokenValue::EqualEqual, TokenValue::Equal]);
    assert_eq!(values("!=="), vec![TokenValue::NotEqual, TokenValue::Equal]);
    assert_eq!(values("&&&"), vec![TokenValue::LogAnd, TokenValue::BitAnd]);
    assert_eq!(values("&&="), vec![TokenValue::LogAnd, TokenValue::Equal]);
    assert_eq!(values("||="), vec![TokenValue::LogOr, TokenValue::Equal]);
    assert_eq!(values(":::"), vec![TokenValue::ColonColon, TokenValue::Colon]);
    assert_eq!(values("~="), vec![TokenValue::BitNot, TokenValue::Equal]);
    assert_eq!(values("+-"), vec![TokenValue::Plus, TokenValue::Minus]);
}

#[test]
fn line_comment_yields_no_token() {
    assert_eq!(lex("// nothing here"), vec![]);
    assert_eq!(lex("//"), vec![]);
    assert_eq!(
        lex("1 // one\n+ 2"),
        vec![
            token(1, 1, 1, 2, TokenValue::Integer(1)),
            token(2, 1, 2, 2, TokenValue::Plus),
            token(2, 3, 2, 4, TokenValue::Integer(2)),
        ]
    );
    assert_eq!(
        lex("// a\n// b\n\nx"),
        vec![token(4, 1, 4, 2, ident("x"))]
    );
    assert_eq!(values("a / b /= c // d / e"), vec![
        ident("a"),
        TokenValue::Slash,
        ident("b"),
        TokenValue::SlashEqual,
        ident("c"),
    ]);
}

#[test]
fn newline_starts_a_line_at_column_one() {
    assert_eq!(
        lex("a\n  b\r\n\tc"),
        vec![
            token(1, 1, 1, 2, ident("a")),
            token(2, 3, 2, 4, ident("b")),
            token(3, 2, 3, 3, ident("c")),
        ]
    );
}

#[test]
fn integer_literal_has_its_value() {
    assert_eq!(lex("0"), vec![token(1, 1, 1, 2, TokenValue::Integer(0))]);
    assert_eq!(lex("007"), vec![token(1, 1, 1, 4, TokenValue::Integer(7))]);
    assert_eq!(lex("1309"), vec![token(1, 1, 1, 5, TokenValue::Integer(1309))]);
    assert_eq!(
        lex("9223372036854775807"),
        vec![token(1, 1, 1, 20, TokenValue::Integer(i64::MAX))]
    );
    for text in ["1", "42", "1234567890", "000123", "4611686018427387904"] {
        assert_eq!(values(text), vec![TokenValue::Integer(text.parse::<i64>().unwrap())]);
    }
}

#[test]
fn integer_literal_too_large_is_malformed() {
    assert_eq!(
        lex_error("9223372036854775808"),
        LexicalError { kind: LexicalErrorKind::MalformedNumber, loc: Loc::new(1, 1) }
    );
    assert_eq!(
        lex_error("x = 123456789012345678901234567890"),
        LexicalError { kind: LexicalErrorKind::MalformedNumber, loc: Loc::new(1, 5) }
    );
}

#[test]
fn float_literal_carries_its_text() {
    assert_eq!(
        lex("123.456"),
        vec![token(1, 1, 1, 8, TokenValue::Float("123.456".to_string()))]
    );
    let tokens = lex("0.5 10.25");
    assert_eq!(tokens.len(), 2);
    let mut numbers: Vec<f64> = Vec::new();
    for t in tokens {
        match t.value {
            TokenValue::Float(text) => numbers.push(text.parse::<f64>().unwrap()),
            other => panic!("{:?}", other),
        }
    }
    assert_eq!(numbers, vec![0.5, 10.25]);
}

#[test]
fn dot_without_digit_is_not_part_of_a_number() {
    assert_eq!(
        lex("123."),
        vec![token(1, 1, 1, 4, TokenValue::Integer(123)), token(1, 4, 1, 5, TokenValue::Dot)]
    );
    assert_eq!(
        values("123. 123.456 2193\n,391048"),
        vec![
            TokenValue::Integer(123),
            TokenValue::Dot,
            TokenValue::Float("123.456".to_string()),
            TokenValue::Integer(2193),
            TokenValue::Comma,
            TokenValue::Integer(391048),
        ]
    );
    assert_eq!(
        values("1.2.3"),
        vec![TokenValue::Float("1.2".to_string()), TokenValue::Dot, TokenValue::Integer(3)]
    );
    assert_eq!(values(".5"), vec![TokenValue::Dot, TokenValue::Integer(5)]);
    assert_eq!(values("1.x"), vec![TokenValue::Integer(1), TokenValue::Dot, ident("x")]);
}

#[test]
fn string_literal_is_decoded() {
    assert_eq!(
        lex("\"a\\nb\\\"c\""),
        vec![token(1, 1, 1, 10, TokenValue::String("a\nb\"c".to_string()))]
    );
    assert_eq!(lex("\"\""), vec![token(1, 1, 1, 3, TokenValue::String(String::new()))]);
    assert_eq!(
        values("\"\\0\\n\\r\\t\\\\\\\"\""),
        vec![TokenValue::String("\0\n\r\t\\\"".to_string())]
    );
    assert_eq!(
        values("\"greater\" \"less\""),
        vec![TokenValue::String("greater".to_string()), TokenValue::String("less".to_string())]
    );
}

#[test]
fn string_literal_may_span_lines_and_hold_any_character() {
    assert_eq!(
        lex("\"a\nb\" c"),
        vec![
            token(1, 1, 2, 3, TokenValue::String("a\nb".to_string())),
            token(2, 4, 2, 5, ident("c")),
        ]
    );
    assert_eq!(
        lex("\"h\u{e9} // @\""),
        vec![token(1, 1, 1, 10, TokenValue::String("h\u{e9} // @".to_string()))]
    );
}

#[test]
fn unterminated_string_is_reported_at_the_end() {
    assert_eq!(
        lex_error("\"abc"),
        LexicalError { kind: LexicalErrorKind::UnterminatedString, loc: Loc::new(1, 5) }
    );
    assert_eq!(
        lex_error("x = \"a\nbc"),
        LexicalError { kind: LexicalErrorKind::UnterminatedString, loc: Loc::new(2, 3) }
    );
    assert_eq!(
        lex_error("\""),
        LexicalError { kind: LexicalErrorKind::UnterminatedString, loc: Loc::new(1, 2) }
    );
    assert_eq!(
        lex_error("\"a\\\""),
        LexicalError { kind: LexicalErrorKind::UnterminatedString, loc: Loc::new(1, 5) }
    );
}

#[test]
fn invalid_escape_is_reported_after_the_backslash() {
    assert_eq!(
        lex_error("\"a\\qb\""),
        LexicalError { kind: LexicalErrorKind::InvalidEscape, loc: Loc::new(1, 4) }
    );
    assert_eq!(
        lex_error("\"\\"),
        LexicalError { kind: LexicalErrorKind::InvalidEscape, loc: Loc::new(1, 3) }
    );
    assert_eq!(
        lex_error("\"\\N\""),
        LexicalError { kind: LexicalErrorKind::InvalidEscape, loc: Loc::new(1, 3) }
    );
}

#[test]
fn unexpected_character_is_reported_where_it_stands() {
    assert_eq!(
        lex_error("@"),
        LexicalError { kind: LexicalErrorKind::UnexpectedCharacter, loc: Loc::new(1, 1) }
    );
    assert_eq!(
        lex_error("a +\n  b # c"),
        LexicalError { kind: LexicalErrorKind::UnexpectedCharacter, loc: Loc::new(2, 5) }
    );
    assert_eq!(
        lex_error("caf\u{e9}"),
        LexicalError { kind: LexicalErrorKind::UnexpectedCharacter, loc: Loc::new(1, 4) }
    );
    for source in ["\\", "'", "?", "[", "]", "$", "`", "\0", "\u{b}"] {
        assert_eq!(lex_error(source).kind, LexicalErrorKind::UnexpectedCharacter, "{:?}", source);
    }
}

#[test]
fn first_error_ends_the_scan() {
    assert_eq!(
        lex_error("1 @ \"open"),
        LexicalError { kind: LexicalErrorKind::UnexpectedCharacter, loc: Loc::new(1, 3) }
    );
    assert_eq!(
        lex_error("\"\\x\" 99999999999999999999"),
        LexicalError { kind: LexicalErrorKind::InvalidEscape, loc: Loc::new(1, 3) }
    );
}

#[test]
fn keywords_and_identifiers() {
    assert_eq!(
        values("struct enum trait impl fn let mut if else while for in return yield break true false null"),
        vec![
            TokenValue::Struct,
            TokenValue::Enum,
            TokenValue::Trait,
            TokenValue::Impl,
            TokenValue::Fn,
            TokenValue::Let,
            TokenValue::Mut,
            TokenValue::If,
            TokenValue::Else,
            TokenValue::While,
            TokenValue::For,
            TokenValue::In,
            TokenValue::Return,
            TokenValue::Yield,
            TokenValue::Break,
            TokenValue::True,
            TokenValue::False,
            TokenValue::Null,
        ]
    );
    assert_eq!(
        values("iffy _if in_ For x1 _ __a9Z"),
        vec![
            ident("iffy"),
            ident("_if"),
            ident("in_"),
            ident("For"),
            ident("x1"),
            ident("_"),
            ident("__a9Z"),
        ]
    );
    assert_eq!(lex("while"), vec![token(1, 1, 1, 6, TokenValue::While)]);
    assert_eq!(lex(" whilst"), vec![token(1, 2, 1, 8, ident("whilst"))]);
    assert_eq!(values("1abc"), vec![TokenValue::Integer(1), ident("abc")]);
}

#[test]
fn statement_with_braces_and_strings() {
    assert_eq!(
        values("if (x > 3) { print(\"greater\"); } else { print(\"less\") }"),
        vec![
            TokenValue::If,
            TokenValue::LeftParen,
            ident("x"),
            TokenValue::Greater,
            TokenValue::Integer(3),
            TokenValue::RightParen,
            TokenValue::LeftBrace,
            ident("print"),
            TokenValue::LeftParen,
            TokenValue::String("greater".to_string()),
            TokenValue::RightParen,
            TokenValue::Semicolon,
            TokenValue::RightBrace,
            TokenValue::Else,
            TokenValue::LeftBrace,
            ident("print"),
            TokenValue::LeftParen,
            TokenValue::String("less".to_string()),
            TokenValue::RightParen,
            TokenValue::RightBrace,
        ]
    );
}

#[test]
fn call_expression_with_locations() {
    assert_eq!(
        lex("x = max(10, 1309, x * 2 + y)"),
        vec![
            token(1, 1, 1, 2, ident("x")),
            token(1, 3, 1, 4, TokenValue::Equal),
            token(1, 5, 1, 8, ident("max")),
            token(1, 8, 1, 9, TokenValue::LeftParen),
            token(1, 9, 1, 11, TokenValue::Integer(10)),
            token(1, 11, 1, 12, TokenValue::Comma),
            token(1, 13, 1, 17, TokenValue::Integer(1309)),
            token(1, 17, 1, 18, TokenValue::Comma),
            token(1, 19, 1, 20, ident("x")),
            token(1, 21, 1, 22, TokenValue::Star),
            token(1, 23, 1, 24, TokenValue::Integer(2)),
            token(1, 25, 1, 26, TokenValue::Plus),
            token(1, 27, 1, 28, ident("y")),
            token(1, 28, 1, 29, TokenValue::RightParen),
        ]
    );
}

#[test]
fn tokens_lie_one_after_the_other() {
    let source = "x = max(10, 1309,\n  x * 2 + y) // done\n\"a\nb\" <<= 1.5";
    let tokens = lex(source);
    assert_eq!(tokens.len(), 17);
    let key = |loc: Loc| (loc.line, loc.col);
    let mut last = (1, 1);
    for t in &tokens {
        assert!(last <= key(t.start_loc), "{:?}", t);
        assert!(key(t.start_loc) < key(t.end_loc), "{:?}", t);
        last = key(t.end_loc);
    }
    assert_eq!(last, (4, 11));
}

fn lexer_at(source: &str, index: usize, line: u32, col: u32) -> Lexer {
    Lexer {
        source: source.chars().collect(),
        tokens: Vec::new(),
        start_idx: index,
        start_loc: Loc::new(line, col),
        curr_idx: index,
        curr_loc: Loc::new(line, col),
    }
}

#[test]
fn one_step_on_punctuation_appends_one_token() {
    let cases = [
        ('(', TokenValue::LeftParen),
        (')', TokenValue::RightParen),
        ('{', TokenValue::LeftBrace),
        ('}', TokenValue::RightBrace),
        (',', TokenValue::Comma),
        ('.', TokenValue::Dot),
        (';', TokenValue::Semicolon),
        ('~', TokenValue::BitNot),
    ];
    for (c, value) in cases {
        let source = format!("a\n b{}=c", c);
        let mut lexer = lexer_at(&source, 4, 2, 3);
        lexer.tokens.push(token(1, 1, 1, 2, ident("a")));
        assert_eq!(lexer.scan_token(), Ok(()));
        assert_eq!(
            lexer.tokens,
            vec![token(1, 1, 1, 2, ident("a")), token(2, 3, 2, 4, value)],
            "{:?}",
            source
        );
        assert_eq!(lexer.curr_idx, 5);
        assert_eq!(lexer.curr_loc, Loc::new(2, 4));
        assert_eq!(lexer.source, source.chars().collect::<Vec<char>>());
    }
}

#[test]
fn one_step_reads_the_longest_symbol() {
    let cases = [
        ("<<=1", 3, TokenValue::LeftShiftEqual),
        (">>=1", 3, TokenValue::RightShiftEqual),
        ("<<1", 2, TokenValue::LeftShift),
        ("<=1", 2, TokenValue::LessEqual),
        ("<1", 1, TokenValue::Less),
        ("&&=", 2, TokenValue::LogAnd),
        ("/=/", 2, TokenValue::SlashEqual),
        ("=", 1, TokenValue::Equal),
    ];
    for (rest, len, value) in cases {
        let source = format!("x {}", rest);
        let mut lexer = lexer_at(&source, 2, 1, 3);
        assert_eq!(lexer.scan_token(), Ok(()));
        assert_eq!(lexer.tokens, vec![token(1, 3, 1, 3 + len, value)], "{:?}", source);
        assert_eq!(lexer.curr_idx, 2 + len as usize);
        assert_eq!(lexer.curr_loc, Loc::new(1, 3 + len));
    }
}

#[test]
fn one_step_on_white_space_appends_nothing() {
    for c in [' ', '\r', '\t'] {
        let source = format!("a{}b", c);
        let mut lexer = lexer_at(&source, 1, 7, 2);
        assert_eq!(lexer.scan_token(), Ok(()));
        assert_eq!(lexer.tokens, vec![]);
        assert_eq!(lexer.curr_idx, 2);
        assert_eq!(lexer.curr_loc, Loc::new(7, 3));
    }
    let mut lexer = lexer_at("a\nb", 1, 7, 2);
    assert_eq!(lexer.scan_token(), Ok(()));
    assert_eq!(lexer.tokens, vec![]);
    assert_eq!(lexer.curr_idx, 2);
    assert_eq!(lexer.curr_loc, Loc::new(8, 1));
}

#[test]
fn one_step_on_a_comment_stops_before_the_newline() {
    let mut lexer = lexer_at("1 // two\n3", 2, 1, 3);
    assert_eq!(lexer.scan_token(), Ok(()));
    assert_eq!(lexer.tokens, vec![]);
    assert_eq!(lexer.curr_idx, 8);
    assert_eq!(lexer.curr_loc, Loc::new(1, 9));
}

#[test]
fn one_step_reports_its_error() {
    let mut lexer = lexer_at("a\n #", 3, 2, 2);
    assert_eq!(
        lexer.scan_token(),
        Err(LexicalError { kind: LexicalErrorKind::UnexpectedCharacter, loc: Loc::new(2, 2) })
    );
}

#[test]
fn scan_number_reads_the_digits_after_the_first() {
    let mut lexer = lexer_at("(1309, 2.50)x", 1, 1, 2);
    lexer.curr_idx = 2;
    lexer.curr_loc = Loc::new(1, 3);
    assert_eq!(lexer.scan_number(), Ok(()));
    assert_eq!(lexer.tokens, vec![token(1, 2, 1, 6, TokenValue::Integer(1309))]);
    assert_eq!(lexer.curr_idx, 5);
    assert_eq!(lexer.curr_loc, Loc::new(1, 6));

    let mut lexer = lexer_at("(1309, 2.50)x", 7, 1, 8);
    lexer.curr_idx = 8;
    lexer.curr_loc = Loc::new(1, 9);
    assert_eq!(lexer.scan_number(), Ok(()));
    assert_eq!(lexer.tokens, vec![token(1, 8, 1, 12, TokenValue::Float("2.50".to_string()))]);
    assert_eq!(lexer.curr_idx, 11);
    assert_eq!(lexer.curr_loc, Loc::new(1, 12));

    let mut lexer = lexer_at("99999999999999999999", 0, 1, 1);
    lexer.curr_idx = 1;
    lexer.curr_loc = Loc::new(1, 2);
    assert_eq!(
        lexer.scan_number(),
        Err(LexicalError { kind: LexicalErrorKind::MalformedNumber, loc: Loc::new(1, 1) })
    );
}

#[test]
fn scan_string_and_scan_identifier_read_from_the_cursor() {
    let mut lexer = lexer_at("\"a\\tb\" c", 0, 1, 1);
    lexer.curr_idx = 1;
    lexer.curr_loc = Loc::new(1, 2);
    assert_eq!(lexer.scan_string(), Ok(()));
    assert_eq!(lexer.tokens, vec![token(1, 1, 1, 7, TokenValue::String("a\tb".to_string()))]);
    assert_eq!(lexer.curr_idx, 6);

    let mut lexer = lexer_at("whiles while", 0, 1, 1);
    lexer.curr_idx = 1;
    lexer.curr_loc = Loc::new(1, 2);
    lexer.scan_identifier();
    assert_eq!(lexer.tokens, vec![token(1, 1, 1, 7, ident("whiles"))]);
    assert_eq!(lexer.curr_idx, 6);
    assert_eq!(lexer.curr_loc, Loc::new(1, 7));

    let mut lexer = lexer_at("whiles while", 7, 1, 8);
    lexer.curr_idx = 8;
    lexer.curr_loc = Loc::new(1, 9);
    lexer.scan_identifier();
    assert_eq!(lexer.tokens, vec![token(1, 8, 1, 13, TokenValue::While)]);
}
