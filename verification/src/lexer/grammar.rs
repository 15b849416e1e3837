//! The lexical grammar, as functions on a sequence of characters: where each
//! token starts and ends, what it carries, and the sequence of tokens that a
//! whole source text stands for.

use vstd::prelude::*;
use crate::error::{LexicalError, LexicalErrorKind};
use crate::keyword::keyword;
use crate::token::{Kind, Loc, TokenView};

verus! {

pub open spec fn is_digit(c: char) -> bool {
    '0' <= c && c <= '9'
}

pub open spec fn is_alpha(c: char) -> bool {
    ('A' <= c && c <= 'Z') || ('a' <= c && c <= 'z') || c == '_'
}

pub open spec fn is_alphanumeric(c: char) -> bool {
    is_digit(c) || is_alpha(c)
}

/// The characters that separate tokens and produce none.
pub open spec fn is_space(c: char) -> bool {
    c == ' ' || c == '\r' || c == '\t' || c == '\n'
}

/// The line of position `pos`: one more than the number of newlines before
/// it.
pub open spec fn line_at(src: Seq<char>, pos: int) -> int
    decreases pos,
{
    if pos <= 0 {
        1
    } else if src[pos - 1] == '\n' {
        line_at(src, pos - 1) + 1
    } else {
        line_at(src, pos - 1)
    }
}

/// The column of position `pos`: one more than the number of characters
/// between it and the start of its line.
pub open spec fn col_at(src: Seq<char>, pos: int) -> int
    decreases pos,
{
    if pos <= 0 {
        1
    } else if src[pos - 1] == '\n' {
        1
    } else {
        col_at(src, pos - 1) + 1
    }
}

/// The location of position `pos` of `src`.
pub open spec fn loc_at(src: Seq<char>, pos: int) -> Loc {
    Loc { line: line_at(src, pos) as u32, col: col_at(src, pos) as u32 }
}

/// The symbols of one character.
pub open spec fn symbol1(a: char) -> Option<Kind> {
    match a {
        '(' => Some(Kind::LeftParen),
        ')' => Some(Kind::RightParen),
        '{' => Some(Kind::LeftBrace),
        '}' => Some(Kind::RightBrace),
        ',' => Some(Kind::Comma),
        '.' => Some(Kind::Dot),
        ';' => Some(Kind::Semicolon),
        ':' => Some(Kind::Colon),
        '~' => Some(Kind::BitNot),
        '+' => Some(Kind::Plus),
        '-' => Some(Kind::Minus),
        '*' => Some(Kind::Star),
        '/' => Some(Kind::Slash),
        '%' => Some(Kind::Mod),
        '=' => Some(Kind::Equal),
        '!' => Some(Kind::LogNot),
        '<' => Some(Kind::Less),
        '>' => Some(Kind::Greater),
        '&' => Some(Kind::BitAnd),
        '|' => Some(Kind::BitOr),
        '^' => Some(Kind::BitXor),
        _ => None,
    }
}

/// The symbols of two characters.
pub open spec fn symbol2(a: char, b: char) -> Option<Kind> {
    match (a, b) {
        (':', ':') => Some(Kind::ColonColon),
        ('+', '=') => Some(Kind::PlusEqual),
        ('-', '=') => Some(Kind::MinusEqual),
        ('*', '=') => Some(Kind::StarEqual),
        ('/', '=') => Some(Kind::SlashEqual),
        ('%', '=') => Some(Kind::ModEqual),
        ('=', '=') => Some(Kind::EqualEqual),
        ('!', '=') => Some(Kind::NotEqual),
        ('<', '<') => Some(Kind::LeftShift),
        ('<', '=') => Some(Kind::LessEqual),
        ('>', '>') => Some(Kind::RightShift),
        ('>', '=') => Some(Kind::GreaterEqual),
        ('&', '&') => Some(Kind::LogAnd),
        ('&', '=') => Some(Kind::BitAndEqual),
        ('|', '|') => Some(Kind::LogOr),
        ('|', '=') => Some(Kind::BitOrEqual),
        ('^', '=') => Some(Kind::BitXorEqual),
        _ => None,
    }
}

/// The symbols of three characters.
pub open spec fn symbol3(a: char, b: char, c: char) -> Option<Kind> {
    match (a, b, c) {
        ('<', '<', '=') => Some(Kind::LeftShiftEqual),
        ('>', '>', '=') => Some(Kind::RightShiftEqual),
        _ => None,
    }
}

/// The symbol that starts at `pos`, with its length: of the symbols that
/// the text at `pos` begins with, the longest.
pub open spec fn symbol_at(src: Seq<char>, pos: int) -> Option<(Kind, int)> {
    if pos + 2 < src.len() && symbol3(src[pos], src[pos + 1], src[pos + 2]) is Some {
        Some((symbol3(src[pos], src[pos + 1], src[pos + 2])->0, 3))
    } else if pos + 1 < src.len() && symbol2(src[pos], src[pos + 1]) is Some {
        Some((symbol2(src[pos], src[pos + 1])->0, 2))
    } else if symbol1(src[pos]) is Some {
        Some((symbol1(src[pos])->0, 1))
    } else {
        None
    }
}

/// A set of characters that a run is made of.
pub enum Class {
    /// The decimal digits.
    Digit,
    /// Letters, digits and the underscore.
    Word,
    /// Every character but the newline.
    InLine,
}

impl Class {
    pub open spec fn has(self, c: char) -> bool {
        match self {
            Class::Digit => is_digit(c),
            Class::Word => is_alphanumeric(c),
            Class::InLine => c != '\n',
        }
    }
}

/// Where the longest run of characters of `class` that starts at `pos`
/// ends: the first position from `pos` on that holds a character outside the
/// class, or the end of the text.
pub open spec fn run_end(src: Seq<char>, pos: int, class: Class) -> int
    decreases src.len() - pos,
{
    if 0 <= pos < src.len() && class.has(src[pos]) {
        run_end(src, pos + 1, class)
    } else {
        pos
    }
}

/// The number that a sequence of decimal digits denotes.
pub open spec fn decimal_value(digits: Seq<char>) -> nat
    decreases digits.len(),
{
    if digits.len() == 0 {
        0
    } else {
        (decimal_value(digits.drop_last()) * 10 + (digits.last() as int - '0' as int)) as nat
    }
}

/// The character that an escape sequence stands for, by the character that
/// follows the backslash.
pub open spec fn escape(c: char) -> Option<char> {
    match c {
        '0' => Some('\0'),
        'n' => Some('\n'),
        'r' => Some('\r'),
        't' => Some('\t'),
        '\\' => Some('\\'),
        '"' => Some('"'),
        _ => None,
    }
}

/// What scanning at one position yields.
pub enum Scan {
    /// A token of kind `value`, which ends before position `end`.
    Token { value: Kind, end: int },
    /// White space or a comment, which ends before position `end`.
    Skip { end: int },
    /// An error of kind `kind`, reported at position `at`.
    Fail { kind: LexicalErrorKind, at: int },
}

impl Scan {
    /// The same result with `prefix` put in front of the text of a string
    /// literal.
    pub open spec fn with_prefix(self, prefix: Seq<char>) -> Scan {
        match self {
            Scan::Token { value: Kind::String(text), end } => Scan::Token {
                value: Kind::String(prefix + text),
                end,
            },
            other => other,
        }
    }
}

/// The rest of a string literal, from position `pos` inside it: the decoded
/// text up to the closing quote, or the first error.
pub open spec fn string_rest(src: Seq<char>, pos: int) -> Scan
    decreases src.len() - pos,
{
    if pos < 0 || pos >= src.len() {
        Scan::Fail { kind: LexicalErrorKind::UnterminatedString, at: src.len() as int }
    } else if src[pos] == '"' {
        Scan::Token { value: Kind::String(Seq::empty()), end: pos + 1 }
    } else if src[pos] == '\\' {
        if pos + 1 < src.len() && escape(src[pos + 1]) is Some {
            string_rest(src, pos + 2).with_prefix(seq![escape(src[pos + 1])->0])
        } else {
            Scan::Fail { kind: LexicalErrorKind::InvalidEscape, at: pos + 1 }
        }
    } else {
        string_rest(src, pos + 1).with_prefix(seq![src[pos]])
    }
}

/// The numeric literal that starts at `pos`, where a digit stands: a run of
/// digits, and, if a `.` and a digit follow, the `.` and a second run.
pub open spec fn number_at(src: Seq<char>, pos: int) -> Scan {
    let whole_end = run_end(src, pos, Class::Digit);
    if whole_end + 1 < src.len() && src[whole_end] == '.' && is_digit(src[whole_end + 1]) {
        let end = run_end(src, whole_end + 1, Class::Digit);
        Scan::Token { value: Kind::Float(src.subrange(pos, end)), end }
    } else {
        let value = decimal_value(src.subrange(pos, whole_end));
        if value <= i64::MAX {
            Scan::Token { value: Kind::Integer(value as i64), end: whole_end }
        } else {
            Scan::Fail { kind: LexicalErrorKind::MalformedNumber, at: pos }
        }
    }
}

/// The word that starts at `pos`, where a letter or an underscore stands: a
/// keyword if it spells one, else an identifier.
pub open spec fn word_at(src: Seq<char>, pos: int) -> Scan {
    let end = run_end(src, pos, Class::Word);
    let word = src.subrange(pos, end);
    match keyword(word) {
        Some(value) => Scan::Token { value, end },
        None => Scan::Token { value: Kind::Identifier(word), end },
    }
}

/// What stands at position `pos` of `src`, for `0 <= pos < src.len()`.
pub open spec fn scan_at(src: Seq<char>, pos: int) -> Scan {
    let c = src[pos];
    if c == '/' && pos + 1 < src.len() && src[pos + 1] == '/' {
        Scan::Skip { end: run_end(src, pos + 2, Class::InLine) }
    } else {
        match symbol_at(src, pos) {
            Some((value, len)) => Scan::Token { value, end: pos + len },
            None => if c == '"' {
                string_rest(src, pos + 1)
            } else if is_digit(c) {
                number_at(src, pos)
            } else if is_alpha(c) {
                word_at(src, pos)
            } else if is_space(c) {
                Scan::Skip { end: pos + 1 }
            } else {
                Scan::Fail { kind: LexicalErrorKind::UnexpectedCharacter, at: pos }
            },
        }
    }
}

/// The tokens of `src` from position `pos` on, or the first error.
pub open spec fn tokens_from(src: Seq<char>, pos: int) -> Result<Seq<TokenView>, LexicalError>
    decreases src.len() - pos,
    via tokens_from_decreases
{
    if pos < 0 || pos >= src.len() {
        Ok(Seq::empty())
    } else {
        match scan_at(src, pos) {
            Scan::Token { value, end } => match tokens_from(src, end) {
                Ok(rest) => Ok(
                    seq![
                        TokenView { start_loc: loc_at(src, pos), end_loc: loc_at(src, end), value },
                    ] + rest,
                ),
                Err(error) => Err(error),
            },
            Scan::Skip { end } => tokens_from(src, end),
            Scan::Fail { kind, at } => Err(LexicalError { kind, loc: loc_at(src, at) }),
        }
    }
}

/// Each scan ends after the position at which it began, so what is left of
/// the text gets shorter.
#[via_fn]
proof fn tokens_from_decreases(src: Seq<char>, pos: int) {
    if 0 <= pos < src.len() {
        lemma_scan_advances(src, pos);
    }
}

/// The tokens `done` followed by what is still to come.
pub open spec fn after(
    done: Seq<TokenView>,
    rest: Result<Seq<TokenView>, LexicalError>,
) -> Result<Seq<TokenView>, LexicalError> {
    match rest {
        Ok(tokens) => Ok(done + tokens),
        Err(error) => Err(error),
    }
}

/// The tokens that `src` stands for, or the first error in it.
pub open spec fn tokenize(src: Seq<char>) -> Result<Seq<TokenView>, LexicalError> {
    tokens_from(src, 0)
}

/// Nothing followed by what is to come is what is to come, tokens followed
/// by nothing more are those tokens, and a token may be counted with those
/// before it or with those after it.
pub proof fn lemma_after(
    done: Seq<TokenView>,
    token: TokenView,
    rest: Result<Seq<TokenView>, LexicalError>,
)
    ensures
        after(Seq::empty(), rest) == rest,
        after(done, Ok(Seq::empty())) == Ok::<Seq<TokenView>, LexicalError>(done),
        after(done.push(token), rest) == after(done, after(seq![token], rest)),
{
    assert(done + Seq::<TokenView>::empty() == done);
    match rest {
        Ok(tokens) => {
            assert(Seq::<TokenView>::empty() + tokens == tokens);
            assert(done.push(token) + tokens == done + (seq![token] + tokens));
        },
        Err(error) => {},
    }
}

/// Putting nothing in front changes nothing, and putting `second` and then
/// `first` in front puts `first + second` there.
pub proof fn lemma_with_prefix(scan: Scan, first: Seq<char>, second: Seq<char>)
    ensures
        scan.with_prefix(Seq::empty()) == scan,
        scan.with_prefix(second).with_prefix(first) == scan.with_prefix(first + second),
{
    match scan {
        Scan::Token { value: Kind::String(text), end } => {
            assert(Seq::<char>::empty() + text == text);
            assert(first + (second + text) == (first + second) + text);
        },
        _ => {},
    }
}

/// A run ends between its start and the end of the text, holds only
/// characters of its class, and is followed by none.
pub proof fn lemma_run_end(src: Seq<char>, pos: int, class: Class)
    requires
        0 <= pos <= src.len(),
    ensures
        pos <= run_end(src, pos, class) <= src.len(),
        forall|i: int| pos <= i < run_end(src, pos, class) ==> class.has(#[trigger] src[i]),
        run_end(src, pos, class) < src.len() ==> !class.has(src[run_end(src, pos, class)]),
    decreases src.len() - pos,
{
    if pos < src.len() && class.has(src[pos]) {
        lemma_run_end(src, pos + 1, class);
    }
}

/// A run that starts inside a stretch of characters of its class ends where
/// the run from the end of the stretch ends.
pub proof fn lemma_run_continues(src: Seq<char>, from: int, to: int, class: Class)
    requires
        0 <= from <= to <= src.len(),
        forall|i: int| from <= i < to ==> class.has(#[trigger] src[i]),
    ensures
        run_end(src, from, class) == run_end(src, to, class),
    decreases to - from,
{
    if from < to {
        lemma_run_continues(src, from + 1, to, class);
    }
}

/// The rest of a string literal ends after `pos`, within the text, and an
/// error in it is reported there too.
pub proof fn lemma_string_rest_bounds(src: Seq<char>, pos: int)
    requires
        0 <= pos <= src.len(),
    ensures
        match string_rest(src, pos) {
            Scan::Token { value, end } => value is String && pos < end <= src.len(),
            Scan::Skip { .. } => false,
            Scan::Fail { kind, at } => pos <= at <= src.len(),
        },
    decreases src.len() - pos,
{
    if pos < src.len() && src[pos] != '"' {
        if src[pos] == '\\' {
            if pos + 1 < src.len() && escape(src[pos + 1]) is Some {
                lemma_string_rest_bounds(src, pos + 2);
            }
        } else {
            lemma_string_rest_bounds(src, pos + 1);
        }
    }
}

/// Every scan consumes at least one character and stays within the text; an
/// error is reported at a position of the text or at its end.
pub proof fn lemma_scan_advances(src: Seq<char>, pos: int)
    requires
        0 <= pos < src.len(),
    ensures
        match scan_at(src, pos) {
            Scan::Token { value, end } => pos < end <= src.len(),
            Scan::Skip { end } => pos < end <= src.len(),
            Scan::Fail { kind, at } => pos <= at <= src.len(),
        },
{
    lemma_run_end(src, pos, Class::Digit);
    lemma_run_end(src, pos, Class::Word);
    if pos + 1 < src.len() {
        lemma_run_end(src, pos + 2, Class::InLine);
    }
    lemma_string_rest_bounds(src, pos + 1);
    let whole_end = run_end(src, pos, Class::Digit);
    if whole_end + 1 < src.len() {
        lemma_run_end(src, whole_end + 1, Class::Digit);
    }
}

/// Lines and columns are at least 1 and grow by at most one per character.
pub proof fn lemma_loc_bounds(src: Seq<char>, pos: int)
    requires
        0 <= pos,
    ensures
        1 <= line_at(src, pos) <= pos + 1,
        1 <= col_at(src, pos) <= pos + 1,
    decreases pos,
{
    if pos > 0 {
        lemma_loc_bounds(src, pos - 1);
    }
}

} // verus!
