//! The lexer: scans a source text from left to right into tokens.

pub mod grammar;
pub mod laws;

use vstd::prelude::*;
use crate::error::{LexicalError, LexicalErrorKind};
use crate::keyword::lookup;
use crate::lexer::grammar::{
    after, decimal_value, lemma_after, lemma_loc_bounds, lemma_run_continues, lemma_scan_advances,
    lemma_with_prefix, loc_at, number_at, run_end, scan_at, string_rest, tokenize, tokens_from,
    word_at, Class, Scan,
};
use crate::token::{lemma_token_views, token_views, Loc, Token, TokenValue, TokenView};

verus! {

/// Trusted, of `std::string::String::push`: afterwards the string holds the
/// characters that it held before, in their order, and `ch` after them.
pub assume_specification[ std::string::String::push ](s: &mut std::string::String, ch: char)
    ensures
        final(s)@ == old(s)@.push(ch),
;

/// The characters of `source`, in order.
fn chars_of(source: &String) -> (chars: Vec<char>)
    ensures
        chars@ == source@,
{
    let mut chars: Vec<char> = Vec::new();
    for c in it: source.as_str().chars()
        invariant
            chars@ == it.seq().take(it.index() as int),
            it.seq() == source@,
    {
        chars.push(c);
    }
    chars
}

/// A prefix of a sequence of digits denotes no more than the whole.
proof fn lemma_decimal_value_grows(digits: Seq<char>, n: int)
    requires
        0 <= n <= digits.len(),
        forall|i: int| 0 <= i < digits.len() ==> grammar::is_digit(#[trigger] digits[i]),
    ensures
        decimal_value(digits.take(n)) <= decimal_value(digits),
    decreases digits.len() - n,
{
    if n < digits.len() {
        let longer = digits.take(n + 1);
        assert(longer.drop_last() == digits.take(n));
        lemma_decimal_value_grows(digits, n + 1);
    } else {
        assert(digits.take(n) == digits);
    }
}

/// The state of a scan: the source text, the tokens read so far, and two
/// cursors, one at the start of the token being read and one at the next
/// unread character.
#[derive(Debug, Clone, PartialEq)]
pub struct Lexer {
    pub source: Vec<char>,
    pub tokens: Vec<Token>,
    pub start_idx: usize,
    pub start_loc: Loc,
    pub curr_idx: usize,
    pub curr_loc: Loc,
}

impl Lexer {
    /// The cursors lie in the source text, one behind the other, and each
    /// location is that of its cursor.
    pub open spec fn wf(&self) -> bool {
        &&& self.source@.len() < u32::MAX
        &&& self.start_idx <= self.curr_idx <= self.source@.len()
        &&& self.start_loc == loc_at(self.source@, self.start_idx as int)
        &&& self.curr_loc == loc_at(self.source@, self.curr_idx as int)
    }

    /// `self` is what a lexer with the text `source`, the tokens `tokens` and
    /// the start of a token at `start_loc` becomes by one scan whose result
    /// is `scan`, and `res` reports it: a token is appended and the cursor
    /// stands at its end, or nothing is appended and the cursor stands at the
    /// end of what was skipped, or `res` is the error at its location.
    ///
    /// The body is hidden from the solver until it is revealed; the laws
    /// `lemma_scanned_token`, `lemma_scanned_skip` and `lemma_scanned_fail`
    /// give what it says case by case.
    #[verifier::opaque]
    pub open spec fn scanned(
        &self,
        source: Vec<char>,
        tokens: Vec<Token>,
        start_loc: Loc,
        res: Result<(), LexicalError>,
        scan: Scan,
    ) -> bool {
        &&& self.source == source
        &&& match scan {
            Scan::Token { value, end } => {
                &&& res is Ok
                &&& self.wf()
                &&& self.curr_idx == end
                &&& token_views(self.tokens@) == token_views(tokens@).push(
                    TokenView { start_loc, end_loc: loc_at(source@, end), value },
                )
            },
            Scan::Skip { end } => {
                &&& res is Ok
                &&& self.wf()
                &&& self.curr_idx == end
                &&& self.tokens == tokens
            },
            Scan::Fail { kind, at } => res == Err::<(), LexicalError>(
                LexicalError { kind, loc: loc_at(source@, at) },
            ),
        }
    }

    /// Scans the whole of `source`. Returns the lexer that holds the tokens of
    /// `source`, or the first lexical error.
    pub fn new(source: String) -> (res: Result<Self, LexicalError>)
        requires
            source@.len() < u32::MAX,
        ensures
            match res {
                Ok(lexer) => {
                    &&& tokenize(source@) == Ok::<Seq<TokenView>, LexicalError>(
                        token_views(lexer.tokens@),
                    )
                    &&& lexer.source@ == source@
                    &&& lexer.wf()
                    &&& lexer.start_idx == lexer.curr_idx == source@.len()
                },
                Err(error) => tokenize(source@) == Err::<Seq<TokenView>, LexicalError>(error),
            },
    {
        let mut l = Self {
            source: chars_of(&source),
            tokens: Vec::new(),
            start_idx: 0,
            start_loc: Loc { line: 1, col: 1 },
            curr_idx: 0,
            curr_loc: Loc { line: 1, col: 1 },
        };
        match l.scan_tokens() {
            Ok(()) => Ok(l),
            Err(error) => Err(error),
        }
    }

    fn error(kind: LexicalErrorKind, loc: Loc) -> (error: LexicalError)
        ensures
            error == (LexicalError { kind, loc }),
    {
        LexicalError { kind, loc }
    }

    fn is_at_end(&self) -> (at_end: bool)
        ensures
            at_end == (self.curr_idx >= self.source@.len()),
    {
        self.curr_idx >= self.source.len()
    }

    /// The next unread character, or NUL at the end of the text.
    fn peek(&self) -> (c: char)
        ensures
            c == if self.curr_idx < self.source@.len() {
                self.source@[self.curr_idx as int]
            } else {
                '\0'
            },
    {
        if self.is_at_end() {
            '\0'
        } else {
            self.source[self.curr_idx]
        }
    }

    /// The character after the next unread one, or NUL where the text ends
    /// before it.
    fn peek_next(&self) -> (c: char)
        requires
            self.wf(),
        ensures
            c == if self.curr_idx + 1 < self.source@.len() {
                self.source@[self.curr_idx + 1]
            } else {
                '\0'
            },
    {
        if self.curr_idx + 1 >= self.source.len() {
            '\0'
        } else {
            self.source[self.curr_idx + 1]
        }
    }

    fn increment_position(&mut self)
        requires
            old(self).wf(),
            old(self).curr_idx < old(self).source@.len(),
        ensures
            final(self).wf(),
            final(self).curr_idx == old(self).curr_idx + 1,
            final(self).source == old(self).source,
            final(self).tokens == old(self).tokens,
            final(self).start_idx == old(self).start_idx,
            final(self).start_loc == old(self).start_loc,
    {
        proof {
            lemma_loc_bounds(self.source@, self.curr_idx as int);
        }
        if self.peek() == '\n' {
            self.curr_idx += 1;
            self.curr_loc.line += 1;
            self.curr_loc.col = 1;
        } else {
            self.curr_idx += 1;
            self.curr_loc.col += 1;
        }
    }

    fn next(&mut self) -> (c: char)
        requires
            old(self).wf(),
            old(self).curr_idx < old(self).source@.len(),
        ensures
            c == old(self).source@[old(self).curr_idx as int],
            final(self).wf(),
            final(self).curr_idx == old(self).curr_idx + 1,
            final(self).source == old(self).source,
            final(self).tokens == old(self).tokens,
            final(self).start_idx == old(self).start_idx,
            final(self).start_loc == old(self).start_loc,
    {
        let c = self.peek();
        self.increment_position();
        c
    }

    /// Consumes the next character if it is `expected`.
    fn match_char(&mut self, expected: char) -> (matched: bool)
        requires
            old(self).wf(),
        ensures
            matched == (old(self).curr_idx < old(self).source@.len() && old(self).source@[old(
                self,
            ).curr_idx as int] == expected),
            final(self).wf(),
            final(self).curr_idx == if matched {
                old(self).curr_idx + 1
            } else {
                old(self).curr_idx as int
            },
            final(self).source == old(self).source,
            final(self).tokens == old(self).tokens,
            final(self).start_idx == old(self).start_idx,
            final(self).start_loc == old(self).start_loc,
    {
        if self.is_at_end() {
            false
        } else if self.peek() != expected {
            false
        } else {
            self.increment_position();
            true
        }
    }

    fn scan_tokens(&mut self) -> (res: Result<(), LexicalError>)
        requires
            old(self).wf(),
            old(self).curr_idx == 0,
            old(self).tokens@.len() == 0,
        ensures
            final(self).source == old(self).source,
            match res {
                Ok(()) => {
                    &&& tokenize(old(self).source@) == Ok::<Seq<TokenView>, LexicalError>(
                        token_views(final(self).tokens@),
                    )
                    &&& final(self).wf()
                    &&& final(self).start_idx == final(self).curr_idx == old(self).source@.len()
                },
                Err(error) => tokenize(old(self).source@) == Err::<Seq<TokenView>, LexicalError>(
                    error,
                ),
            },
    {
        proof {
            assert(token_views(self.tokens@) == Seq::<TokenView>::empty());
            lemma_after(Seq::empty(), arbitrary(), tokens_from(self.source@, 0));
        }
        while !self.is_at_end()
            invariant
                self.wf(),
                self.source == old(self).source,
                tokenize(self.source@) == after(
                    token_views(self.tokens@),
                    tokens_from(self.source@, self.curr_idx as int),
                ),
            decreases self.source@.len() - self.curr_idx,
        {
            self.start_idx = self.curr_idx;
            self.start_loc = self.curr_loc;
            let ghost done = token_views(self.tokens@);
            let ghost src = self.source@;
            let ghost pos = self.curr_idx as int;
            let scanned = self.scan_token();
            proof {
                reveal(Lexer::scanned);
                lemma_scan_advances(src, pos);
                if let Scan::Token { value, end } = scan_at(src, pos) {
                    let token = TokenView {
                        start_loc: loc_at(src, pos),
                        end_loc: loc_at(src, end),
                        value,
                    };
                    lemma_after(done, token, tokens_from(src, end));
                }
            }
            match scanned {
                Ok(()) => {},
                Err(error) => {
                    return Err(error);
                },
            }
        }
        self.start_idx = self.curr_idx;
        self.start_loc = self.curr_loc;
        proof {
            lemma_after(token_views(self.tokens@), arbitrary(), Ok(Seq::empty()));
        }
        Ok(())
    }

    fn is_digit(c: char) -> (b: bool)
        ensures
            b == grammar::is_digit(c),
    {
        match c {
            '0'..='9' => true,
            _ => false,
        }
    }

    fn is_alpha(c: char) -> (b: bool)
        ensures
            b == grammar::is_alpha(c),
    {
        match c {
            'A'..='Z' | 'a'..='z' | '_' => true,
            _ => false,
        }
    }

    fn is_alphanumeric(c: char) -> (b: bool)
        ensures
            b == grammar::is_alphanumeric(c),
    {
        Self::is_digit(c) || Self::is_alpha(c)
    }

    /// Reads what starts at the cursor: one token, a stretch of white space
    /// or a comment.
    pub fn scan_token(&mut self) -> (res: Result<(), LexicalError>)
        requires
            old(self).wf(),
            old(self).start_idx == old(self).curr_idx,
            old(self).curr_idx < old(self).source@.len(),
        ensures
            final(self).scanned(
                old(self).source,
                old(self).tokens,
                old(self).start_loc,
                res,
                scan_at(old(self).source@, old(self).curr_idx as int),
            ),
    {
        let c: char = self.next();
        match c {
            '(' => self.add_token(Token::new(self.start_loc, self.curr_loc, TokenValue::LeftParen)),
            ')' => self.add_token(
                Token::new(self.start_loc, self.curr_loc, TokenValue::RightParen),
            ),
            '{' => self.add_token(Token::new(self.start_loc, self.curr_loc, TokenValue::LeftBrace)),
            '}' => self.add_token(
                Token::new(self.start_loc, self.curr_loc, TokenValue::RightBrace),
            ),
            ',' => self.add_token(Token::new(self.start_loc, self.curr_loc, TokenValue::Comma)),
            '.' => self.add_token(Token::new(self.start_loc, self.curr_loc, TokenValue::Dot)),
            ';' => self.add_token(Token::new(self.start_loc, self.curr_loc, TokenValue::Semicolon)),
            ':' => {
                if self.match_char(':') {
                    self.add_token(
                        Token::new(self.start_loc, self.curr_loc, TokenValue::ColonColon),
                    )
                } else {
                    self.add_token(Token::new(self.start_loc, self.curr_loc, TokenValue::Colon))
                }
            },
            '+' => {
                if self.match_char('=') {
                    self.add_token(Token::new(self.start_loc, self.curr_loc, TokenValue::PlusEqual))
                } else {
                    self.add_token(Token::new(self.start_loc, self.curr_loc, TokenValue::Plus))
                }
            },
            '-' => {
                if self.match_char('=') {
                    self.add_token(
                        Token::new(self.start_loc, self.curr_loc, TokenValue::MinusEqual),
                    )
                } else {
                    self.add_token(Token::new(self.start_loc, self.curr_loc, TokenValue::Minus))
                }
            },
            '*' => {
                if self.match_char('=') {
                    self.add_token(Token::new(self.start_loc, self.curr_loc, TokenValue::StarEqual))
                } else {
                    self.add_token(Token::new(self.start_loc, self.curr_loc, TokenValue::Star))
                }
            },
            '/' => {
                if self.match_char('/') {
                    self.skip_line();
                    proof {
                        reveal(Lexer::scanned);
                    }
                } else if self.match_char('=') {
                    self.add_token(
                        Token::new(self.start_loc, self.curr_loc, TokenValue::SlashEqual),
                    )
                } else {
                    self.add_token(Token::new(self.start_loc, self.curr_loc, TokenValue::Slash))
                }
            },
            '%' => {
                if self.match_char('=') {
                    self.add_token(Token::new(self.start_loc, self.curr_loc, TokenValue::ModEqual))
                } else {
                    self.add_token(Token::new(self.start_loc, self.curr_loc, TokenValue::Mod))
                }
            },
            '=' => {
                if self.match_char('=') {
                    self.add_token(
                        Token::new(self.start_loc, self.curr_loc, TokenValue::EqualEqual),
                    )
                } else {
                    self.add_token(Token::new(self.start_loc, self.curr_loc, TokenValue::Equal))
                }
            },
            '!' => {
                if self.match_char('=') {
                    self.add_token(Token::new(self.start_loc, self.curr_loc, TokenValue::NotEqual))
                } else {
                    self.add_token(Token::new(self.start_loc, self.curr_loc, TokenValue::LogNot))
                }
            },
            '<' => {
                if self.match_char('<') {
                    if self.match_char('=') {
                        self.add_token(
                            Token::new(self.start_loc, self.curr_loc, TokenValue::LeftShiftEqual),
                        )
                    } else {
                        self.add_token(
                            Token::new(self.start_loc, self.curr_loc, TokenValue::LeftShift),
                        )
                    }
                } else if self.match_char('=') {
                    self.add_token(Token::new(self.start_loc, self.curr_loc, TokenValue::LessEqual))
                } else {
                    self.add_token(Token::new(self.start_loc, self.curr_loc, TokenValue::Less))
                }
            },
            '>' => {
                if self.match_char('>') {
                    if self.match_char('=') {
                        self.add_token(
                            Token::new(self.start_loc, self.curr_loc, TokenValue::RightShiftEqual),
                        )
                    } else {
                        self.add_token(
                            Token::new(self.start_loc, self.curr_loc, TokenValue::RightShift),
                        )
                    }
                } else if self.match_char('=') {
                    self.add_token(
                        Token::new(self.start_loc, self.curr_loc, TokenValue::GreaterEqual),
                    )
                } else {
                    self.add_token(Token::new(self.start_loc, self.curr_loc, TokenValue::Greater))
                }
            },
            '&' => {
                if self.match_char('&') {
                    self.add_token(Token::new(self.start_loc, self.curr_loc, TokenValue::LogAnd))
                } else if self.match_char('=') {
                    self.add_token(
                        Token::new(self.start_loc, self.curr_loc, TokenValue::BitAndEqual),
                    )
                } else {
                    self.add_token(Token::new(self.start_loc, self.curr_loc, TokenValue::BitAnd))
                }
            },
            '|' => {
                if self.match_char('|') {
                    self.add_token(Token::new(self.start_loc, self.curr_loc, TokenValue::LogOr))
                } else if self.match_char('=') {
                    self.add_token(
                        Token::new(self.start_loc, self.curr_loc, TokenValue::BitOrEqual),
                    )
                } else {
                    self.add_token(Token::new(self.start_loc, self.curr_loc, TokenValue::BitOr))
                }
            },
            '~' => self.add_token(Token::new(self.start_loc, self.curr_loc, TokenValue::BitNot)),
            '^' => {
                if self.match_char('=') {
                    self.add_token(
                        Token::new(self.start_loc, self.curr_loc, TokenValue::BitXorEqual),
                    )
                } else {
                    self.add_token(Token::new(self.start_loc, self.curr_loc, TokenValue::BitXor))
                }
            },
            '"' => {
                return self.scan_string();
            },
            ' ' | '\r' | '\t' | '\n' => {
                proof {
                    reveal(Lexer::scanned);
                }
            },
            '0'..='9' => {
                return self.scan_number();
            },
            'A'..='Z' | 'a'..='z' | '_' => self.scan_identifier(),
            _ => {
                proof {
                    reveal(Lexer::scanned);
                }
                return Err(Self::error(LexicalErrorKind::UnexpectedCharacter, self.start_loc));
            },
        }
        Ok(())
    }

    /// Skips the rest of the line, up to its newline.
    fn skip_line(&mut self)
        requires
            old(self).wf(),
        ensures
            final(self).wf(),
            final(self).curr_idx == run_end(
                old(self).source@,
                old(self).curr_idx as int,
                Class::InLine,
            ),
            final(self).source == old(self).source,
            final(self).tokens == old(self).tokens,
            final(self).start_idx == old(self).start_idx,
            final(self).start_loc == old(self).start_loc,
    {
        while self.peek() != '\n' && !self.is_at_end()
            invariant
                self.wf(),
                old(self).curr_idx <= self.curr_idx,
                run_end(self.source@, self.curr_idx as int, Class::InLine) == run_end(
                    old(self).source@,
                    old(self).curr_idx as int,
                    Class::InLine,
                ),
                self.source == old(self).source,
                self.tokens == old(self).tokens,
                self.start_idx == old(self).start_idx,
                self.start_loc == old(self).start_loc,
            decreases self.source@.len() - self.curr_idx,
        {
            self.increment_position();
        }
    }

    /// Reads a string literal whose opening quote has been consumed.
    pub fn scan_string(&mut self) -> (res: Result<(), LexicalError>)
        requires
            old(self).wf(),
        ensures
            final(self).scanned(
                old(self).source,
                old(self).tokens,
                old(self).start_loc,
                res,
                string_rest(old(self).source@, old(self).curr_idx as int),
            ),
    {
        let mut str = String::new();
        let ghost src = self.source@;
        let ghost first = self.curr_idx as int;
        proof {
            lemma_with_prefix(string_rest(src, first), Seq::empty(), Seq::empty());
        }
        while self.peek() != '"' && !self.is_at_end()
            invariant
                self.wf(),
                src == self.source@,
                first == old(self).curr_idx,
                first <= self.curr_idx,
                string_rest(src, first) == string_rest(src, self.curr_idx as int).with_prefix(str@),
                self.source == old(self).source,
                self.tokens == old(self).tokens,
                self.start_idx == old(self).start_idx,
                self.start_loc == old(self).start_loc,
            decreases self.source@.len() - self.curr_idx,
        {
            let ghost pos = self.curr_idx as int;
            let ghost text = str@;
            let c = self.next();
            let decoded: char;
            if c == '\\' {
                if self.match_char('0') {
                    decoded = '\0';
                } else if self.match_char('n') {
                    decoded = '\n';
                } else if self.match_char('r') {
                    decoded = '\r';
                } else if self.match_char('t') {
                    decoded = '\t';
                } else if self.match_char('\\') {
                    decoded = '\\';
                } else if self.match_char('"') {
                    decoded = '"';
                } else {
                    proof {
                        reveal(Lexer::scanned);
                    }
                    return Err(Self::error(LexicalErrorKind::InvalidEscape, self.curr_loc));
                }
            } else {
                decoded = c;
            }
            str.push(decoded);
            proof {
                let rest = string_rest(src, self.curr_idx as int);
                assert(string_rest(src, pos) == rest.with_prefix(seq![decoded]));
                lemma_with_prefix(rest, text, seq![decoded]);
                assert(text + seq![decoded] == text.push(decoded));
            }
        }

        if self.is_at_end() {
            proof {
                reveal(Lexer::scanned);
            }
            return Err(Self::error(LexicalErrorKind::UnterminatedString, self.curr_loc));
        }
        self.next();
        assert(str@ + Seq::<char>::empty() == str@);
        self.add_token(Token::new(self.start_loc, self.curr_loc, TokenValue::String(str)));
        Ok(())
    }

    /// The text between the two cursors.
    fn lexeme(&self) -> (text: String)
        requires
            self.wf(),
        ensures
            text@ == self.source@.subrange(self.start_idx as int, self.curr_idx as int),
    {
        let mut text = String::new();
        let mut i: usize = self.start_idx;
        while i < self.curr_idx
            invariant
                self.wf(),
                self.start_idx <= i <= self.curr_idx,
                text@ == self.source@.subrange(self.start_idx as int, i as int),
            decreases self.curr_idx - i,
        {
            text.push(self.source[i]);
            assert(self.source@.subrange(self.start_idx as int, i + 1) == self.source@.subrange(
                self.start_idx as int,
                i as int,
            ).push(self.source@[i as int]));
            i = i + 1;
        }
        text
    }

    /// The number that the digits between the two cursors denote, if it fits.
    fn integer(&self) -> (value: Option<i64>)
        requires
            self.wf(),
            forall|i: int|
                self.start_idx <= i < self.curr_idx ==> grammar::is_digit(
                    #[trigger] self.source@[i],
                ),
        ensures
            match value {
                Some(n) => n == decimal_value(
                    self.source@.subrange(self.start_idx as int, self.curr_idx as int),
                ),
                None => decimal_value(
                    self.source@.subrange(self.start_idx as int, self.curr_idx as int),
                ) > i64::MAX,
            },
    {
        let ghost digits = self.source@.subrange(self.start_idx as int, self.curr_idx as int);
        let mut n: i64 = 0;
        let mut i: usize = self.start_idx;
        assert(digits.take(0) == Seq::<char>::empty());
        while i < self.curr_idx
            invariant
                self.wf(),
                self.start_idx <= i <= self.curr_idx,
                digits == self.source@.subrange(self.start_idx as int, self.curr_idx as int),
                forall|j: int| 0 <= j < digits.len() ==> grammar::is_digit(#[trigger] digits[j]),
                0 <= n,
                n == decimal_value(digits.take(i - self.start_idx)),
            decreases self.curr_idx - i,
        {
            let ghost k = i - self.start_idx;
            let c = self.source[i];
            assert(c == digits[k]);
            let digit: i64 = (c as u32 - '0' as u32) as i64;
            proof {
                assert(digits.take(k + 1).drop_last() == digits.take(k));
                lemma_decimal_value_grows(digits, k + 1);
            }
            if n > (i64::MAX - digit) / 10 {
                return None;
            }
            n = n * 10 + digit;
            i = i + 1;
        }
        assert(digits.take(digits.len() as int) == digits);
        Some(n)
    }

    /// Reads a numeric literal whose first digits have been consumed.
    pub fn scan_number(&mut self) -> (res: Result<(), LexicalError>)
        requires
            old(self).wf(),
            old(self).start_idx < old(self).curr_idx,
            forall|i: int|
                old(self).start_idx <= i < old(self).curr_idx ==> grammar::is_digit(
                    #[trigger] old(self).source@[i],
                ),
        ensures
            final(self).scanned(
                old(self).source,
                old(self).tokens,
                old(self).start_loc,
                res,
                number_at(old(self).source@, old(self).start_idx as int),
            ),
    {
        let ghost src = self.source@;
        let ghost start = self.start_idx as int;
        while Self::is_digit(self.peek())
            invariant
                self.wf(),
                start < self.curr_idx,
                forall|i: int| start <= i < self.curr_idx ==> grammar::is_digit(#[trigger] src[i]),
                self.source == old(self).source,
                src == self.source@,
                self.tokens == old(self).tokens,
                self.start_idx == old(self).start_idx,
                self.start_loc == old(self).start_loc,
            decreases self.source@.len() - self.curr_idx,
        {
            self.increment_position();
        }
        proof {
            lemma_run_continues(src, start, self.curr_idx as int, Class::Digit);
        }
        if !(self.peek() == '.' && Self::is_digit(self.peek_next())) {
            match self.integer() {
                Some(n) => {
                    self.add_token(
                        Token::new(self.start_loc, self.curr_loc, TokenValue::Integer(n)),
                    );
                    Ok(())
                },
                None => {
                    proof {
                        reveal(Lexer::scanned);
                    }
                    Err(Self::error(LexicalErrorKind::MalformedNumber, self.start_loc))
                },
            }
        } else {
            let ghost dot = self.curr_idx as int;
            self.increment_position();
            while Self::is_digit(self.peek())
                invariant
                    self.wf(),
                    dot < self.curr_idx,
                    forall|i: int|
                        dot + 1 <= i < self.curr_idx ==> grammar::is_digit(#[trigger] src[i]),
                    self.source == old(self).source,
                    src == self.source@,
                    self.tokens == old(self).tokens,
                    self.start_idx == old(self).start_idx,
                    self.start_loc == old(self).start_loc,
                decreases self.source@.len() - self.curr_idx,
            {
                self.increment_position();
            }
            proof {
                lemma_run_continues(src, dot + 1, self.curr_idx as int, Class::Digit);
            }
            let text = self.lexeme();
            self.add_token(Token::new(self.start_loc, self.curr_loc, TokenValue::Float(text)));
            Ok(())
        }
    }

    /// Reads a keyword or an identifier whose first characters have been
    /// consumed.
    pub fn scan_identifier(&mut self)
        requires
            old(self).wf(),
            old(self).start_idx < old(self).curr_idx,
            forall|i: int|
                old(self).start_idx <= i < old(self).curr_idx ==> grammar::is_alphanumeric(
                    #[trigger] old(self).source@[i],
                ),
        ensures
            final(self).scanned(
                old(self).source,
                old(self).tokens,
                old(self).start_loc,
                Ok(()),
                word_at(old(self).source@, old(self).start_idx as int),
            ),
    {
        let ghost src = self.source@;
        let ghost start = self.start_idx as int;
        while Self::is_alphanumeric(self.peek())
            invariant
                self.wf(),
                start < self.curr_idx,
                forall|i: int|
                    start <= i < self.curr_idx ==> grammar::is_alphanumeric(#[trigger] src[i]),
                self.source == old(self).source,
                src == self.source@,
                self.tokens == old(self).tokens,
                self.start_idx == old(self).start_idx,
                self.start_loc == old(self).start_loc,
            decreases self.source@.len() - self.curr_idx,
        {
            self.increment_position();
        }
        proof {
            lemma_run_continues(src, start, self.curr_idx as int, Class::Word);
        }
        let word = self.lexeme();
        match lookup(word.as_str()) {
            Some(token_value) => {
                self.add_token(Token::new(self.start_loc, self.curr_loc, token_value));
            },
            None => {
                self.add_token(
                    Token::new(self.start_loc, self.curr_loc, TokenValue::Identifier(word)),
                );
            },
        }
    }

    fn add_token(&mut self, token: Token)
        requires
            old(self).wf(),
            token.start_loc == old(self).start_loc,
            token.end_loc == old(self).curr_loc,
        ensures
            final(self).scanned(
                old(self).source,
                old(self).tokens,
                old(self).start_loc,
                Ok(()),
                Scan::Token { value: token.value@, end: old(self).curr_idx as int },
            ),
    {
        self.tokens.push(token);
        proof {
            reveal(Lexer::scanned);
            lemma_token_views(old(self).tokens@, token, 0, 0);
        }
    }
}

} // verus!
