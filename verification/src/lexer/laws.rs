//! What holds of every source text: laws of the lexical grammar, and of one
//! step of the lexer at any position of a text.

use vstd::prelude::*;
use crate::error::{LexicalError, LexicalErrorKind};
use crate::lexer::grammar::{
    after, col_at, decimal_value, is_digit, is_space, lemma_loc_bounds, lemma_run_continues,
    lemma_run_end, lemma_scan_advances, line_at, loc_at, number_at, run_end, scan_at, symbol1,
    symbol2, symbol3, symbol_at, tokenize, tokens_from, Class, Scan,
};
use crate::lexer::Lexer;
use crate::token::{token_views, Kind, Loc, Token, TokenView};

verus! {

/// The characters that are a symbol by themselves and begin no longer one.
pub open spec fn is_punctuation(c: char) -> bool {
    c == '(' || c == ')' || c == '{' || c == '}' || c == ',' || c == '.' || c == ';' || c == '~'
}

/// How a symbol is written; empty for a kind that is no symbol.
pub open spec fn spelling(kind: Kind) -> Seq<char> {
    match kind {
        Kind::LeftParen => seq!['('],
        Kind::RightParen => seq![')'],
        Kind::LeftBrace => seq!['{'],
        Kind::RightBrace => seq!['}'],
        Kind::Comma => seq![','],
        Kind::Dot => seq!['.'],
        Kind::Semicolon => seq![';'],
        Kind::Colon => seq![':'],
        Kind::ColonColon => seq![':', ':'],
        Kind::Plus => seq!['+'],
        Kind::Minus => seq!['-'],
        Kind::Star => seq!['*'],
        Kind::Slash => seq!['/'],
        Kind::Mod => seq!['%'],
        Kind::LogNot => seq!['!'],
        Kind::BitNot => seq!['~'],
        Kind::LogAnd => seq!['&', '&'],
        Kind::BitAnd => seq!['&'],
        Kind::LogOr => seq!['|', '|'],
        Kind::BitOr => seq!['|'],
        Kind::BitXor => seq!['^'],
        Kind::LeftShift => seq!['<', '<'],
        Kind::RightShift => seq!['>', '>'],
        Kind::Equal => seq!['='],
        Kind::PlusEqual => seq!['+', '='],
        Kind::MinusEqual => seq!['-', '='],
        Kind::StarEqual => seq!['*', '='],
        Kind::SlashEqual => seq!['/', '='],
        Kind::ModEqual => seq!['%', '='],
        Kind::BitAndEqual => seq!['&', '='],
        Kind::BitOrEqual => seq!['|', '='],
        Kind::BitXorEqual => seq!['^', '='],
        Kind::LeftShiftEqual => seq!['<', '<', '='],
        Kind::RightShiftEqual => seq!['>', '>', '='],
        Kind::EqualEqual => seq!['=', '='],
        Kind::NotEqual => seq!['!', '='],
        Kind::Greater => seq!['>'],
        Kind::GreaterEqual => seq!['>', '='],
        Kind::Less => seq!['<'],
        Kind::LessEqual => seq!['<', '='],
        _ => Seq::empty(),
    }
}

/// Whether `word` stands in `src` at position `pos`.
pub open spec fn stands_at(src: Seq<char>, pos: int, word: Seq<char>) -> bool {
    pos + word.len() <= src.len() && src.subrange(pos, pos + word.len()) == word
}

/// One step to the right: after a newline the next line begins at column 1,
/// after any other character the column grows by one.
pub proof fn lemma_loc_step(src: Seq<char>, pos: int)
    requires
        0 <= pos < src.len(),
    ensures
        src[pos] == '\n' ==> line_at(src, pos + 1) == line_at(src, pos) + 1 && col_at(src, pos + 1)
            == 1,
        src[pos] != '\n' ==> line_at(src, pos + 1) == line_at(src, pos) && col_at(src, pos + 1)
            == col_at(src, pos) + 1,
{
}

/// Over a stretch without a newline the line stays and the column grows by
/// the length of the stretch.
pub proof fn lemma_loc_in_line(src: Seq<char>, from: int, to: int)
    requires
        0 <= from <= to <= src.len(),
        forall|i: int| from <= i < to ==> src[i] != '\n',
    ensures
        line_at(src, to) == line_at(src, from),
        col_at(src, to) == col_at(src, from) + (to - from),
    decreases to - from,
{
    if from < to {
        lemma_loc_in_line(src, from, to - 1);
    }
}

/// A punctuation character is one token, which spans that character and no
/// more.
pub proof fn lemma_punctuation_is_one_token(src: Seq<char>, pos: int)
    requires
        0 <= pos < src.len(),
        is_punctuation(src[pos]),
    ensures
        symbol1(src[pos]) is Some,
        tokens_from(src, pos) == after(
            seq![
                TokenView {
                    start_loc: loc_at(src, pos),
                    end_loc: loc_at(src, pos + 1),
                    value: symbol1(src[pos])->0,
                },
            ],
            tokens_from(src, pos + 1),
        ),
        line_at(src, pos + 1) == line_at(src, pos),
        col_at(src, pos + 1) == col_at(src, pos) + 1,
{
}

/// A text of one symbol character is one token from line 1, column 1 to
/// line 1, column 2.
pub proof fn lemma_single_symbol(c: char)
    requires
        symbol1(c) is Some,
    ensures
        tokenize(seq![c]) == Ok::<Seq<TokenView>, LexicalError>(
            seq![
                TokenView {
                    start_loc: Loc { line: 1, col: 1 },
                    end_loc: Loc { line: 1, col: 2 },
                    value: symbol1(c)->0,
                },
            ],
        ),
{
    let src = seq![c];
    let token = TokenView {
        start_loc: Loc { line: 1, col: 1 },
        end_loc: Loc { line: 1, col: 2 },
        value: symbol1(c)->0,
    };
    assert(symbol_at(src, 0) == Some((symbol1(c)->0, 1int)));
    assert(scan_at(src, 0) == Scan::Token { value: symbol1(c)->0, end: 1 });
    assert(line_at(src, 1) == 1 && col_at(src, 1) == 2) by {
        lemma_loc_step(src, 0);
    }
    assert(tokens_from(src, 1) == Ok::<Seq<TokenView>, LexicalError>(Seq::empty()));
    assert(seq![token] + Seq::<TokenView>::empty() == seq![token]);
}

/// Of the symbols that stand at a position, the lexer reads the longest:
/// where the spelling of a symbol stands and no comment begins, one token is
/// read, it is a symbol whose spelling stands there, and it is no shorter
/// than the first.
pub proof fn lemma_longest_symbol_is_read(src: Seq<char>, pos: int, kind: Kind)
    requires
        0 <= pos < src.len(),
        spelling(kind).len() > 0,
        stands_at(src, pos, spelling(kind)),
        !stands_at(src, pos, seq!['/', '/']),
    ensures
        scan_at(src, pos) matches Scan::Token { value, end } && {
            &&& stands_at(src, pos, spelling(value))
            &&& end == pos + spelling(value).len()
            &&& spelling(kind).len() <= spelling(value).len()
        },
{
    let word = spelling(kind);
    assert(word[0] == src.subrange(pos, pos + word.len())[0]);
    if word.len() >= 2 {
        assert(word[1] == src.subrange(pos, pos + word.len())[1]);
    }
    if word.len() >= 3 {
        assert(word[2] == src.subrange(pos, pos + word.len())[2]);
    }
    if pos + 1 < src.len() && src[pos] == '/' && src[pos + 1] == '/' {
        assert(src.subrange(pos, pos + 2) == seq!['/', '/']);
    }
    match scan_at(src, pos) {
        Scan::Token { value, end } => {
            if pos + 2 < src.len() && symbol3(src[pos], src[pos + 1], src[pos + 2]) is Some {
                assert(src.subrange(pos, pos + 3) == spelling(value));
            } else if pos + 1 < src.len() && symbol2(src[pos], src[pos + 1]) is Some {
                assert(src.subrange(pos, pos + 2) == spelling(value));
            } else {
                assert(src.subrange(pos, pos + 1) == spelling(value));
            }
        },
        _ => {},
    }
}

/// White space yields no token.
pub proof fn lemma_space_yields_no_token(src: Seq<char>, pos: int)
    requires
        0 <= pos < src.len(),
        is_space(src[pos]),
    ensures
        tokens_from(src, pos) == tokens_from(src, pos + 1),
{
}

/// A line comment yields no token: the tokens from `//` on are those from
/// the end of its line on, which is the first newline after it or the end of
/// the text, and on the same line as the `//`.
pub proof fn lemma_comment_yields_no_token(src: Seq<char>, pos: int)
    requires
        0 <= pos,
        stands_at(src, pos, seq!['/', '/']),
    ensures
        tokens_from(src, pos) == tokens_from(src, run_end(src, pos + 2, Class::InLine)),
        pos + 2 <= run_end(src, pos + 2, Class::InLine) <= src.len(),
        forall|i: int| pos <= i < run_end(src, pos + 2, Class::InLine) ==> src[i] != '\n',
        run_end(src, pos + 2, Class::InLine) < src.len() ==> src[run_end(
            src,
            pos + 2,
            Class::InLine,
        )] == '\n',
        line_at(src, run_end(src, pos + 2, Class::InLine)) == line_at(src, pos),
{
    let word = src.subrange(pos, pos + 2);
    assert(word[0] == '/' && word[1] == '/');
    let end = run_end(src, pos + 2, Class::InLine);
    lemma_run_end(src, pos + 2, Class::InLine);
    assert forall|i: int| pos <= i < end implies src[i] != '\n' by {
        if i >= pos + 2 {
            assert(Class::InLine.has(src[i]));
        }
    }
    lemma_loc_in_line(src, pos, end);
}

/// A text of decimal digits is one integer token with the value that the
/// digits denote, or a malformed number where that value does not fit.
pub proof fn lemma_integer_literal(digits: Seq<char>)
    requires
        0 < digits.len() < u32::MAX,
        forall|i: int| 0 <= i < digits.len() ==> is_digit(#[trigger] digits[i]),
    ensures
        decimal_value(digits) <= i64::MAX ==> tokenize(digits) == Ok::<
            Seq<TokenView>,
            LexicalError,
        >(
            seq![
                TokenView {
                    start_loc: Loc { line: 1, col: 1 },
                    end_loc: Loc { line: 1, col: (1 + digits.len()) as u32 },
                    value: Kind::Integer(decimal_value(digits) as i64),
                },
            ],
        ),
        decimal_value(digits) > i64::MAX ==> tokenize(digits) == Err::<
            Seq<TokenView>,
            LexicalError,
        >(
            LexicalError {
                kind: LexicalErrorKind::MalformedNumber,
                loc: Loc { line: 1, col: 1 },
            },
        ),
{
    let len = digits.len() as int;
    lemma_run_continues(digits, 0, len, Class::Digit);
    assert(run_end(digits, len, Class::Digit) == len);
    assert(digits.subrange(0, len) == digits);
    assert(symbol_at(digits, 0) is None);
    assert(scan_at(digits, 0) == number_at(digits, 0));
    assert forall|i: int| 0 <= i < len implies digits[i] != '\n' by {
        assert(is_digit(digits[i]));
    }
    lemma_loc_in_line(digits, 0, len);
    if decimal_value(digits) <= i64::MAX {
        let token = TokenView {
            start_loc: Loc { line: 1, col: 1 },
            end_loc: Loc { line: 1, col: (1 + digits.len()) as u32 },
            value: Kind::Integer(decimal_value(digits) as i64),
        };
        assert(tokens_from(digits, len) == Ok::<Seq<TokenView>, LexicalError>(Seq::empty()));
        assert(seq![token] + Seq::<TokenView>::empty() == seq![token]);
    }
}

/// A text of decimal digits, a `.` and more decimal digits is one float
/// token that carries the text.
pub proof fn lemma_float_literal(whole: Seq<char>, fraction: Seq<char>)
    requires
        0 < whole.len(),
        0 < fraction.len(),
        whole.len() + fraction.len() + 1 < u32::MAX,
        forall|i: int| 0 <= i < whole.len() ==> is_digit(#[trigger] whole[i]),
        forall|i: int| 0 <= i < fraction.len() ==> is_digit(#[trigger] fraction[i]),
    ensures
        tokenize(whole + seq!['.'] + fraction) == Ok::<Seq<TokenView>, LexicalError>(
            seq![
                TokenView {
                    start_loc: Loc { line: 1, col: 1 },
                    end_loc: Loc {
                        line: 1,
                        col: (2 + whole.len() + fraction.len()) as u32,
                    },
                    value: Kind::Float(whole + seq!['.'] + fraction),
                },
            ],
        ),
{
    let text = whole + seq!['.'] + fraction;
    let dot = whole.len() as int;
    let len = text.len() as int;
    assert(text[dot] == '.');
    assert forall|i: int| 0 <= i < dot implies is_digit(#[trigger] text[i]) by {
        assert(text[i] == whole[i]);
    }
    assert forall|i: int| dot + 1 <= i < len implies is_digit(#[trigger] text[i]) by {
        assert(text[i] == fraction[i - dot - 1]);
    }
    lemma_run_continues(text, 0, dot, Class::Digit);
    assert(run_end(text, dot, Class::Digit) == dot);
    lemma_run_continues(text, dot + 1, len, Class::Digit);
    assert(run_end(text, len, Class::Digit) == len);
    assert(text.subrange(0, len) == text);
    assert(symbol_at(text, 0) is None);
    assert(scan_at(text, 0) == number_at(text, 0));
    assert forall|i: int| 0 <= i < len implies text[i] != '\n' by {
        if i != dot {
            assert(is_digit(text[i]));
        }
    }
    lemma_loc_in_line(text, 0, len);
    let token = TokenView {
        start_loc: Loc { line: 1, col: 1 },
        end_loc: Loc { line: 1, col: (2 + whole.len() + fraction.len()) as u32 },
        value: Kind::Float(text),
    };
    assert(tokens_from(text, len) == Ok::<Seq<TokenView>, LexicalError>(Seq::empty()));
    assert(seq![token] + Seq::<TokenView>::empty() == seq![token]);
}

/// Whether `a` comes before `b` in a text.
pub open spec fn before(a: Loc, b: Loc) -> bool {
    a.line < b.line || (a.line == b.line && a.col < b.col)
}

/// Whether `a` comes before `b` in a text, or is `b`.
pub open spec fn not_after(a: Loc, b: Loc) -> bool {
    a == b || before(a, b)
}

/// A later position has a later location.
proof fn lemma_loc_grows(src: Seq<char>, from: int, to: int)
    requires
        0 <= from <= to <= src.len() < u32::MAX,
    ensures
        not_after(loc_at(src, from), loc_at(src, to)),
        from < to ==> before(loc_at(src, from), loc_at(src, to)),
    decreases to - from,
{
    if from < to {
        lemma_loc_grows(src, from, to - 1);
        lemma_loc_bounds(src, to - 1);
        lemma_loc_bounds(src, to);
        lemma_loc_bounds(src, from);
    }
}

/// Whether `tokens` span stretches of `src` that lie one after the other, the
/// first of them at position `from` or after it.
spec fn lie_in_order(src: Seq<char>, tokens: Seq<TokenView>, from: int) -> bool
    decreases tokens.len(),
{
    tokens.len() == 0 || exists|start: int, end: int|
        #![trigger loc_at(src, start), loc_at(src, end)]
        {
            &&& from <= start < end <= src.len()
            &&& tokens[0].start_loc == loc_at(src, start)
            &&& tokens[0].end_loc == loc_at(src, end)
            &&& lie_in_order(src, tokens.skip(1), end)
        }
}

/// The tokens from a position on span stretches of the text from that
/// position on, one after the other.
proof fn lemma_tokens_lie_in_order(src: Seq<char>, pos: int)
    requires
        0 <= pos,
    ensures
        tokens_from(src, pos) matches Ok(tokens) ==> lie_in_order(src, tokens, pos),
    decreases src.len() - pos,
{
    if pos < src.len() {
        lemma_scan_advances(src, pos);
        match scan_at(src, pos) {
            Scan::Token { value, end } => {
                lemma_tokens_lie_in_order(src, end);
                match tokens_from(src, end) {
                    Ok(rest) => {
                        let tokens = tokens_from(src, pos)->Ok_0;
                        assert(tokens.skip(1) == rest);
                        assert(tokens[0].start_loc == loc_at(src, pos));
                        assert(tokens[0].end_loc == loc_at(src, end));
                    },
                    Err(error) => {},
                }
            },
            Scan::Skip { end } => {
                lemma_tokens_lie_in_order(src, end);
                match tokens_from(src, end) {
                    Ok(tokens) => {
                        if tokens.len() > 0 {
                            let (first, last) = choose|first: int, last: int|
                                #![trigger loc_at(src, first), loc_at(src, last)]
                                {
                                    &&& end <= first < last <= src.len()
                                    &&& tokens[0].start_loc == loc_at(src, first)
                                    &&& tokens[0].end_loc == loc_at(src, last)
                                    &&& lie_in_order(src, tokens.skip(1), last)
                                };
                            assert(tokens[0].start_loc == loc_at(src, first) && tokens[0].end_loc
                                == loc_at(src, last));
                        }
                    },
                    Err(error) => {},
                }
            },
            Scan::Fail { kind, at } => {},
        }
    }
}

/// Tokens that lie in order from a position on begin at its location or
/// after it, end after they begin and before the next one begins, and end
/// within the text.
proof fn lemma_order_of_locations(src: Seq<char>, tokens: Seq<TokenView>, from: int)
    requires
        0 <= from <= src.len() < u32::MAX,
        lie_in_order(src, tokens, from),
    ensures
        forall|i: int|
            0 <= i < tokens.len() ==> {
                &&& not_after(loc_at(src, from), (#[trigger] tokens[i]).start_loc)
                &&& before(tokens[i].start_loc, tokens[i].end_loc)
                &&& not_after(tokens[i].end_loc, loc_at(src, src.len() as int))
            },
        forall|i: int, j: int|
            0 <= i < j < tokens.len() ==> not_after(
                (#[trigger] tokens[i]).end_loc,
                (#[trigger] tokens[j]).start_loc,
            ),
    decreases tokens.len(),
{
    if tokens.len() > 0 {
        let (start, end) = choose|start: int, end: int|
            #![trigger loc_at(src, start), loc_at(src, end)]
            {
                &&& from <= start < end <= src.len()
                &&& tokens[0].start_loc == loc_at(src, start)
                &&& tokens[0].end_loc == loc_at(src, end)
                &&& lie_in_order(src, tokens.skip(1), end)
            };
        let rest = tokens.skip(1);
        lemma_order_of_locations(src, rest, end);
        lemma_loc_grows(src, from, start);
        lemma_loc_grows(src, start, end);
        lemma_loc_grows(src, end, src.len() as int);
        assert forall|i: int| 0 <= i < tokens.len() implies {
            &&& not_after(loc_at(src, from), (#[trigger] tokens[i]).start_loc)
            &&& before(tokens[i].start_loc, tokens[i].end_loc)
            &&& not_after(tokens[i].end_loc, loc_at(src, src.len() as int))
        } by {
            if i > 0 {
                assert(tokens[i] == rest[i - 1]);
            }
        }
        assert forall|i: int, j: int| 0 <= i < j < tokens.len() implies not_after(
            (#[trigger] tokens[i]).end_loc,
            (#[trigger] tokens[j]).start_loc,
        ) by {
            assert(tokens[j] == rest[j - 1]);
            if i > 0 {
                assert(tokens[i] == rest[i - 1]);
            }
        }
    }
}

/// Every token ends after it begins, no token begins before the one before
/// it has ended, and all lie between the first location and that of the
/// end of the text.
pub proof fn lemma_tokens_in_order(src: Seq<char>)
    requires
        src.len() < u32::MAX,
    ensures
        tokenize(src) matches Ok(tokens) ==> {
            &&& forall|i: int|
                0 <= i < tokens.len() ==> {
                    &&& not_after(Loc { line: 1, col: 1 }, (#[trigger] tokens[i]).start_loc)
                    &&& before(tokens[i].start_loc, tokens[i].end_loc)
                    &&& not_after(tokens[i].end_loc, loc_at(src, src.len() as int))
                }
            &&& forall|i: int, j: int|
                0 <= i < j < tokens.len() ==> not_after(
                    (#[trigger] tokens[i]).end_loc,
                    (#[trigger] tokens[j]).start_loc,
                )
        },
{
    lemma_tokens_lie_in_order(src, 0);
    match tokenize(src) {
        Ok(tokens) => {
            lemma_order_of_locations(src, tokens, 0);
        },
        Err(error) => {},
    }
}

/// No two symbols are written alike.
pub proof fn lemma_spelling_names_one(a: Kind, b: Kind)
    requires
        spelling(a).len() > 0,
        spelling(a) == spelling(b),
    ensures
        a == b,
{
    let word = spelling(a);
    assert(spelling(b).len() == word.len());
    assert(spelling(b)[0] == word[0]);
    if word.len() >= 2 {
        assert(spelling(b)[1] == word[1]);
    }
    if word.len() >= 3 {
        assert(spelling(b)[2] == word[2]);
    }
}

/// The digits from `pos` to `end`, where neither a digit nor a `.` with a
/// digit follows, are one integer literal: it has the value that the digits
/// denote, or is malformed where that value does not fit; and it lies in one
/// line.
pub proof fn lemma_integer_at(src: Seq<char>, pos: int, end: int)
    requires
        0 <= pos < end <= src.len(),
        forall|i: int| pos <= i < end ==> is_digit(#[trigger] src[i]),
        end < src.len() ==> !is_digit(src[end]),
        !(end + 1 < src.len() && src[end] == '.' && is_digit(src[end + 1])),
    ensures
        scan_at(src, pos) == number_at(src, pos),
        decimal_value(src.subrange(pos, end)) <= i64::MAX ==> number_at(src, pos) == (Scan::Token {
            value: Kind::Integer(decimal_value(src.subrange(pos, end)) as i64),
            end,
        }),
        decimal_value(src.subrange(pos, end)) > i64::MAX ==> number_at(src, pos) == (Scan::Fail {
            kind: LexicalErrorKind::MalformedNumber,
            at: pos,
        }),
        line_at(src, end) == line_at(src, pos),
        col_at(src, end) == col_at(src, pos) + (end - pos),
{
    assert forall|i: int| pos <= i < end implies Class::Digit.has(#[trigger] src[i]) by {
        assert(is_digit(src[i]));
    }
    lemma_run_continues(src, pos, end, Class::Digit);
    assert(run_end(src, end, Class::Digit) == end);
    assert(is_digit(src[pos]));
    assert(symbol_at(src, pos) is None);
    assert forall|i: int| pos <= i < end implies src[i] != '\n' by {
        assert(is_digit(src[i]));
    }
    lemma_loc_in_line(src, pos, end);
}

/// The digits from `pos` to `dot`, the `.` at `dot` and the digits from
/// there to `end`, where no digit follows, are one float literal that carries
/// that text; and it lies in one line.
pub proof fn lemma_float_at(src: Seq<char>, pos: int, dot: int, end: int)
    requires
        0 <= pos < dot,
        dot + 1 < end <= src.len(),
        src[dot] == '.',
        forall|i: int| pos <= i < dot ==> is_digit(#[trigger] src[i]),
        forall|i: int| dot < i < end ==> is_digit(#[trigger] src[i]),
        end < src.len() ==> !is_digit(src[end]),
    ensures
        scan_at(src, pos) == number_at(src, pos),
        number_at(src, pos) == (Scan::Token { value: Kind::Float(src.subrange(pos, end)), end }),
        line_at(src, end) == line_at(src, pos),
        col_at(src, end) == col_at(src, pos) + (end - pos),
{
    assert forall|i: int| pos <= i < dot implies Class::Digit.has(#[trigger] src[i]) by {
        assert(is_digit(src[i]));
    }
    assert forall|i: int| dot + 1 <= i < end implies Class::Digit.has(#[trigger] src[i]) by {
        assert(is_digit(src[i]));
    }
    lemma_run_continues(src, pos, dot, Class::Digit);
    assert(run_end(src, dot, Class::Digit) == dot);
    lemma_run_continues(src, dot + 1, end, Class::Digit);
    assert(run_end(src, end, Class::Digit) == end);
    assert(is_digit(src[dot + 1]));
    assert(is_digit(src[pos]));
    assert(symbol_at(src, pos) is None);
    assert forall|i: int| pos <= i < end implies src[i] != '\n' by {
        if i != dot {
            assert(is_digit(src[i]));
        }
    }
    lemma_loc_in_line(src, pos, end);
}

/// What a scan that reads a token leaves: the text as it was, one token more,
/// which spans from `start_loc` to the location of `end`, and the cursor at
/// `end`.
pub proof fn lemma_scanned_token(
    after: Lexer,
    source: Vec<char>,
    tokens: Vec<Token>,
    start_loc: Loc,
    res: Result<(), LexicalError>,
    value: Kind,
    end: int,
)
    requires
        after.scanned(source, tokens, start_loc, res, Scan::Token { value, end }),
    ensures
        res is Ok,
        after.source == source,
        after.wf(),
        after.curr_idx == end,
        after.curr_loc == loc_at(source@, end),
        after.tokens@.len() == tokens@.len() + 1,
        token_views(after.tokens@) == token_views(tokens@).push(
            TokenView { start_loc, end_loc: loc_at(source@, end), value },
        ),
{
    reveal(Lexer::scanned);
    assert(token_views(after.tokens@).len() == token_views(tokens@).len() + 1);
}

/// What a scan that skips leaves: the text and the tokens as they were, and
/// the cursor at `end`.
pub proof fn lemma_scanned_skip(
    after: Lexer,
    source: Vec<char>,
    tokens: Vec<Token>,
    start_loc: Loc,
    res: Result<(), LexicalError>,
    end: int,
)
    requires
        after.scanned(source, tokens, start_loc, res, Scan::Skip { end }),
    ensures
        res is Ok,
        after.source == source,
        after.tokens == tokens,
        after.wf(),
        after.curr_idx == end,
        after.curr_loc == loc_at(source@, end),
{
    reveal(Lexer::scanned);
}

/// What a scan that fails reports: the error at the location of `at`.
pub proof fn lemma_scanned_fail(
    after: Lexer,
    source: Vec<char>,
    tokens: Vec<Token>,
    start_loc: Loc,
    res: Result<(), LexicalError>,
    kind: LexicalErrorKind,
    at: int,
)
    requires
        after.scanned(source, tokens, start_loc, res, Scan::Fail { kind, at }),
    ensures
        res == Err::<(), LexicalError>(LexicalError { kind, loc: loc_at(source@, at) }),
        after.source == source,
{
    reveal(Lexer::scanned);
}

/// Whether `after` and `res` are what `scan_token` leaves of `before`.
pub open spec fn stepped(before: Lexer, after: Lexer, res: Result<(), LexicalError>) -> bool {
    after.scanned(
        before.source,
        before.tokens,
        before.start_loc,
        res,
        scan_at(before.source@, before.curr_idx as int),
    )
}

/// One step on a punctuation character appends exactly one token, of the
/// kind of that character, which spans from the cursor to the next column,
/// and moves the cursor there.
pub proof fn lemma_step_punctuation(before: Lexer, after: Lexer, res: Result<(), LexicalError>)
    requires
        before.wf(),
        before.start_idx == before.curr_idx < before.source@.len(),
        is_punctuation(before.source@[before.curr_idx as int]),
        stepped(before, after, res),
    ensures
        res is Ok,
        after.source == before.source,
        after.curr_idx == before.curr_idx + 1,
        before.curr_loc.col < u32::MAX,
        after.curr_loc == (Loc {
            line: before.curr_loc.line,
            col: (before.curr_loc.col + 1) as u32,
        }),
        after.tokens@.len() == before.tokens@.len() + 1,
        symbol1(before.source@[before.curr_idx as int]) is Some,
        token_views(after.tokens@) == token_views(before.tokens@).push(
            TokenView {
                start_loc: before.curr_loc,
                end_loc: after.curr_loc,
                value: symbol1(before.source@[before.curr_idx as int])->0,
            },
        ),
{
    let src = before.source@;
    let pos = before.curr_idx as int;
    let value = symbol1(src[pos])->0;
    assert(scan_at(src, pos) == Scan::Token { value, end: pos + 1 });
    lemma_scanned_token(
        after,
        before.source,
        before.tokens,
        before.start_loc,
        res,
        value,
        pos + 1,
    );
    lemma_loc_step(src, pos);
    lemma_loc_bounds(src, pos);
    lemma_loc_bounds(src, pos + 1);
}

/// One step where the symbol `kind` stands at the cursor, no longer symbol
/// does and no comment begins appends exactly one token, of kind `kind`,
/// which spans as many columns as `kind` has characters, and moves the
/// cursor past it.
pub proof fn lemma_step_symbol(
    before: Lexer,
    after: Lexer,
    res: Result<(), LexicalError>,
    kind: Kind,
)
    requires
        before.wf(),
        before.start_idx == before.curr_idx < before.source@.len(),
        spelling(kind).len() > 0,
        stands_at(before.source@, before.curr_idx as int, spelling(kind)),
        forall|other: Kind|
            stands_at(before.source@, before.curr_idx as int, #[trigger] spelling(other))
                ==> spelling(other).len() <= spelling(kind).len(),
        !stands_at(before.source@, before.curr_idx as int, seq!['/', '/']),
        stepped(before, after, res),
    ensures
        res is Ok,
        after.source == before.source,
        after.curr_idx == before.curr_idx + spelling(kind).len(),
        before.curr_loc.col + spelling(kind).len() <= u32::MAX,
        after.curr_loc == (Loc {
            line: before.curr_loc.line,
            col: (before.curr_loc.col + spelling(kind).len()) as u32,
        }),
        after.tokens@.len() == before.tokens@.len() + 1,
        token_views(after.tokens@) == token_views(before.tokens@).push(
            TokenView { start_loc: before.curr_loc, end_loc: after.curr_loc, value: kind },
        ),
{
    let src = before.source@;
    let pos = before.curr_idx as int;
    lemma_longest_symbol_is_read(src, pos, kind);
    match scan_at(src, pos) {
        Scan::Token { value, end } => {
            assert(spelling(value).len() <= spelling(kind).len());
            assert(spelling(value) == spelling(kind)) by {
                assert(src.subrange(pos, pos + spelling(value).len()) == spelling(value));
                assert(src.subrange(pos, pos + spelling(kind).len()) == spelling(kind));
            }
            lemma_spelling_names_one(kind, value);
            lemma_scanned_token(
                after,
                before.source,
                before.tokens,
                before.start_loc,
                res,
                value,
                end,
            );
            assert forall|i: int| pos <= i < end implies src[i] != '\n' by {
                assert(src[i] == src.subrange(pos, end)[i - pos]);
                assert(src[i] == spelling(kind)[i - pos]);
            }
            lemma_loc_in_line(src, pos, end);
            lemma_loc_bounds(src, pos);
            lemma_loc_bounds(src, end);
        },
        _ => {},
    }
}

/// One step on a white-space character appends no token and moves the
/// cursor by one: after a newline to column 1 of the next line, else to the
/// next column.
pub proof fn lemma_step_space(before: Lexer, after: Lexer, res: Result<(), LexicalError>)
    requires
        before.wf(),
        before.start_idx == before.curr_idx < before.source@.len(),
        is_space(before.source@[before.curr_idx as int]),
        stepped(before, after, res),
    ensures
        res is Ok,
        after.source == before.source,
        after.tokens == before.tokens,
        after.curr_idx == before.curr_idx + 1,
        before.curr_loc.line < u32::MAX,
        before.curr_loc.col < u32::MAX,
        after.curr_loc == if before.source@[before.curr_idx as int] == '\n' {
            Loc { line: (before.curr_loc.line + 1) as u32, col: 1 }
        } else {
            Loc { line: before.curr_loc.line, col: (before.curr_loc.col + 1) as u32 }
        },
{
    let src = before.source@;
    let pos = before.curr_idx as int;
    assert(symbol_at(src, pos) is None);
    assert(scan_at(src, pos) == Scan::Skip { end: pos + 1 });
    lemma_scanned_skip(after, before.source, before.tokens, before.start_loc, res, pos + 1);
    lemma_loc_step(src, pos);
    lemma_loc_bounds(src, pos);
    lemma_loc_bounds(src, pos + 1);
}

/// A scan of the digits from the start of a token to `end`, where neither a
/// digit nor a `.` with a digit follows, appends exactly one integer token
/// with the value that the digits denote, which spans as many columns as
/// there are digits, and moves the cursor to `end`; or reports a malformed
/// number at the start of the token where that value does not fit. `scan` is
/// what was scanned for: the token at the start, or the number there.
pub proof fn lemma_step_integer(
    before: Lexer,
    after: Lexer,
    res: Result<(), LexicalError>,
    scan: Scan,
    end: int,
)
    requires
        before.wf(),
        before.start_idx < end <= before.source@.len(),
        forall|i: int| before.start_idx <= i < end ==> is_digit(#[trigger] before.source@[i]),
        end < before.source@.len() ==> !is_digit(before.source@[end]),
        !(end + 1 < before.source@.len() && before.source@[end] == '.' && is_digit(
            before.source@[end + 1],
        )),
        scan == scan_at(before.source@, before.start_idx as int) || scan == number_at(
            before.source@,
            before.start_idx as int,
        ),
        after.scanned(before.source, before.tokens, before.start_loc, res, scan),
    ensures
        after.source == before.source,
        decimal_value(before.source@.subrange(before.start_idx as int, end)) <= i64::MAX ==> {
            &&& res is Ok
            &&& after.curr_idx == end
            &&& before.start_loc.col + (end - before.start_idx) <= u32::MAX
            &&& after.curr_loc == (Loc {
                line: before.start_loc.line,
                col: (before.start_loc.col + (end - before.start_idx)) as u32,
            })
            &&& after.tokens@.len() == before.tokens@.len() + 1
            &&& token_views(after.tokens@) == token_views(before.tokens@).push(
                TokenView {
                    start_loc: before.start_loc,
                    end_loc: after.curr_loc,
                    value: Kind::Integer(
                        decimal_value(before.source@.subrange(before.start_idx as int, end)) as i64,
                    ),
                },
            )
        },
        decimal_value(before.source@.subrange(before.start_idx as int, end)) > i64::MAX ==> res
            == Err::<(), LexicalError>(
            LexicalError { kind: LexicalErrorKind::MalformedNumber, loc: before.start_loc },
        ),
{
    let src = before.source@;
    let pos = before.start_idx as int;
    let value = decimal_value(src.subrange(pos, end));
    lemma_integer_at(src, pos, end);
    lemma_loc_bounds(src, pos);
    lemma_loc_bounds(src, end);
    if value <= i64::MAX {
        lemma_scanned_token(
            after,
            before.source,
            before.tokens,
            before.start_loc,
            res,
            Kind::Integer(value as i64),
            end,
        );
    } else {
        lemma_scanned_fail(
            after,
            before.source,
            before.tokens,
            before.start_loc,
            res,
            LexicalErrorKind::MalformedNumber,
            pos,
        );
    }
}

/// A scan of the digits from the start of a token to `dot`, the `.` there
/// and the digits from there to `end`, where no digit follows, appends
/// exactly one float token that carries that text, which spans as many
/// columns as the text has characters, and moves the cursor to `end`. `scan`
/// is what was scanned for: the token at the start, or the number there.
pub proof fn lemma_step_float(
    before: Lexer,
    after: Lexer,
    res: Result<(), LexicalError>,
    scan: Scan,
    dot: int,
    end: int,
)
    requires
        before.wf(),
        before.start_idx < dot,
        dot + 1 < end <= before.source@.len(),
        before.source@[dot] == '.',
        forall|i: int| before.start_idx <= i < dot ==> is_digit(#[trigger] before.source@[i]),
        forall|i: int| dot < i < end ==> is_digit(#[trigger] before.source@[i]),
        end < before.source@.len() ==> !is_digit(before.source@[end]),
        scan == scan_at(before.source@, before.start_idx as int) || scan == number_at(
            before.source@,
            before.start_idx as int,
        ),
        after.scanned(before.source, before.tokens, before.start_loc, res, scan),
    ensures
        res is Ok,
        after.source == before.source,
        after.curr_idx == end,
        before.start_loc.col + (end - before.start_idx) <= u32::MAX,
        after.curr_loc == (Loc {
            line: before.start_loc.line,
            col: (before.start_loc.col + (end - before.start_idx)) as u32,
        }),
        after.tokens@.len() == before.tokens@.len() + 1,
        token_views(after.tokens@) == token_views(before.tokens@).push(
            TokenView {
                start_loc: before.start_loc,
                end_loc: after.curr_loc,
                value: Kind::Float(before.source@.subrange(before.start_idx as int, end)),
            },
        ),
{
    let src = before.source@;
    let pos = before.start_idx as int;
    lemma_float_at(src, pos, dot, end);
    lemma_loc_bounds(src, pos);
    lemma_loc_bounds(src, end);
    lemma_scanned_token(
        after,
        before.source,
        before.tokens,
        before.start_loc,
        res,
        Kind::Float(src.subrange(pos, end)),
        end,
    );
}

} // verus!
