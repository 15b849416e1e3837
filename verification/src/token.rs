//! The token model: source locations, token kinds with their payloads, and
//! the precedence, associativity and classification of each kind.

use vstd::prelude::*;

verus! {

/// A position in the source text; lines and columns start at 1.
#[derive(Debug, Clone, Copy, PartialEq, Eq, Structural)]
pub struct Loc {
    pub line: u32,
    pub col: u32,
}

impl Loc {
    pub fn new(line: u32, col: u32) -> (loc: Self)
        ensures
            loc == (Loc { line, col }),
    {
        Self { line, col }
    }
}

/// How operators of equal precedence group.
#[derive(Debug, Clone, Copy, PartialEq, Eq, Structural)]
pub enum Assoc {
    Left,
    Right,
}

/// The kind of a token, with the payload of the literal kinds.
///
/// `Float` carries the text of the literal, digits on both sides of one
/// `.`; turning that text into a binary floating-point number is left to the
/// caller.
#[derive(Debug, Clone, PartialEq, Eq)]
pub enum TokenValue {
    // Literals
    Identifier(String),
    Integer(i64),
    Float(String),
    String(String),
    // Keywords
    Struct,
    Enum,
    Trait,
    Impl,
    Fn,
    Let,
    Mut,
    If,
    Else,
    While,
    For,
    In,
    Return,
    Yield,
    Break,
    True,
    False,
    Null,
    // Punctuation
    LeftParen,
    RightParen,
    LeftBrace,
    RightBrace,
    Comma,
    Dot,
    Colon,
    ColonColon,
    Semicolon,
    // Arithmetic operators
    Plus,
    Minus,
    Star,
    Slash,
    Mod,
    // Logical and bitwise operators
    LogNot,
    BitNot,
    LogAnd,
    BitAnd,
    LogOr,
    BitOr,
    BitXor,
    LeftShift,
    RightShift,
    // Assignment operators
    Equal,
    PlusEqual,
    MinusEqual,
    StarEqual,
    SlashEqual,
    ModEqual,
    BitAndEqual,
    BitOrEqual,
    BitXorEqual,
    LeftShiftEqual,
    RightShiftEqual,
    // Comparison operators
    EqualEqual,
    NotEqual,
    Greater,
    GreaterEqual,
    Less,
    LessEqual,
    EOF,
}

/// The mathematical value of a [`TokenValue`]: the same kinds, with text
/// payloads as character sequences.
pub enum Kind {
    Identifier(Seq<char>),
    Integer(i64),
    Float(Seq<char>),
    String(Seq<char>),
    Struct,
    Enum,
    Trait,
    Impl,
    Fn,
    Let,
    Mut,
    If,
    Else,
    While,
    For,
    In,
    Return,
    Yield,
    Break,
    True,
    False,
    Null,
    LeftParen,
    RightParen,
    LeftBrace,
    RightBrace,
    Comma,
    Dot,
    Colon,
    ColonColon,
    Semicolon,
    Plus,
    Minus,
    Star,
    Slash,
    Mod,
    LogNot,
    BitNot,
    LogAnd,
    BitAnd,
    LogOr,
    BitOr,
    BitXor,
    LeftShift,
    RightShift,
    Equal,
    PlusEqual,
    MinusEqual,
    StarEqual,
    SlashEqual,
    ModEqual,
    BitAndEqual,
    BitOrEqual,
    BitXorEqual,
    LeftShiftEqual,
    RightShiftEqual,
    EqualEqual,
    NotEqual,
    Greater,
    GreaterEqual,
    Less,
    LessEqual,
    EOF,
}

impl View for TokenValue {
    type V = Kind;

    open spec fn view(&self) -> Kind {
        match *self {
            TokenValue::Identifier(name) => Kind::Identifier(name@),
            TokenValue::Integer(n) => Kind::Integer(n),
            TokenValue::Float(text) => Kind::Float(text@),
            TokenValue::String(text) => Kind::String(text@),
            TokenValue::Struct => Kind::Struct,
            TokenValue::Enum => Kind::Enum,
            TokenValue::Trait => Kind::Trait,
            TokenValue::Impl => Kind::Impl,
            TokenValue::Fn => Kind::Fn,
            TokenValue::Let => Kind::Let,
            TokenValue::Mut => Kind::Mut,
            TokenValue::If => Kind::If,
            TokenValue::Else => Kind::Else,
            TokenValue::While => Kind::While,
            TokenValue::For => Kind::For,
            TokenValue::In => Kind::In,
            TokenValue::Return => Kind::Return,
            TokenValue::Yield => Kind::Yield,
            TokenValue::Break => Kind::Break,
            TokenValue::True => Kind::True,
            TokenValue::False => Kind::False,
            TokenValue::Null => Kind::Null,
            TokenValue::LeftParen => Kind::LeftParen,
            TokenValue::RightParen => Kind::RightParen,
            TokenValue::LeftBrace => Kind::LeftBrace,
            TokenValue::RightBrace => Kind::RightBrace,
            TokenValue::Comma => Kind::Comma,
            TokenValue::Dot => Kind::Dot,
            TokenValue::Colon => Kind::Colon,
            TokenValue::ColonColon => Kind::ColonColon,
            TokenValue::Semicolon => Kind::Semicolon,
            TokenValue::Plus => Kind::Plus,
            TokenValue::Minus => Kind::Minus,
            TokenValue::Star => Kind::Star,
            TokenValue::Slash => Kind::Slash,
            TokenValue::Mod => Kind::Mod,
            TokenValue::LogNot => Kind::LogNot,
            TokenValue::BitNot => Kind::BitNot,
            TokenValue::LogAnd => Kind::LogAnd,
            TokenValue::BitAnd => Kind::BitAnd,
            TokenValue::LogOr => Kind::LogOr,
            TokenValue::BitOr => Kind::BitOr,
            TokenValue::BitXor => Kind::BitXor,
            TokenValue::LeftShift => Kind::LeftShift,
            TokenValue::RightShift => Kind::RightShift,
            TokenValue::Equal => Kind::Equal,
            TokenValue::PlusEqual => Kind::PlusEqual,
            TokenValue::MinusEqual => Kind::MinusEqual,
            TokenValue::StarEqual => Kind::StarEqual,
            TokenValue::SlashEqual => Kind::SlashEqual,
            TokenValue::ModEqual => Kind::ModEqual,
            TokenValue::BitAndEqual => Kind::BitAndEqual,
            TokenValue::BitOrEqual => Kind::BitOrEqual,
            TokenValue::BitXorEqual => Kind::BitXorEqual,
            TokenValue::LeftShiftEqual => Kind::LeftShiftEqual,
            TokenValue::RightShiftEqual => Kind::RightShiftEqual,
            TokenValue::EqualEqual => Kind::EqualEqual,
            TokenValue::NotEqual => Kind::NotEqual,
            TokenValue::Greater => Kind::Greater,
            TokenValue::GreaterEqual => Kind::GreaterEqual,
            TokenValue::Less => Kind::Less,
            TokenValue::LessEqual => Kind::LessEqual,
            TokenValue::EOF => Kind::EOF,
        }
    }
}

impl Kind {
    /// A numeric or string literal.
    pub open spec fn is_literal(self) -> bool {
        self is Integer || self is Float || self is String
    }

    /// `=` and the compound assignments `+= -= *= /= %= &= |= ^= <<= >>=`.
    pub open spec fn is_assignment(self) -> bool {
        ||| self is Equal
        ||| self is PlusEqual
        ||| self is MinusEqual
        ||| self is StarEqual
        ||| self is SlashEqual
        ||| self is ModEqual
        ||| self is BitAndEqual
        ||| self is BitOrEqual
        ||| self is BitXorEqual
        ||| self is LeftShiftEqual
        ||| self is RightShiftEqual
    }

    /// `!` and `~`.
    pub open spec fn is_unary(self) -> bool {
        self is LogNot || self is BitNot
    }

    /// How tightly the kind binds; a higher number binds tighter. `None`
    /// for the kinds that have no place in the precedence table.
    pub open spec fn precedence(self) -> Option<u8> {
        if self is Comma {
            Some(0u8)
        } else if self.is_assignment() {
            Some(1u8)
        } else if self is LogOr {
            Some(3u8)
        } else if self is LogAnd {
            Some(4u8)
        } else if self is BitOr {
            Some(5u8)
        } else if self is BitXor {
            Some(6u8)
        } else if self is BitAnd {
            Some(7u8)
        } else if self is EqualEqual || self is NotEqual {
            Some(8u8)
        } else if self is Less || self is LessEqual || self is Greater || self is GreaterEqual {
            Some(9u8)
        } else if self is LeftShift || self is RightShift {
            Some(10u8)
        } else if self is Plus || self is Minus {
            Some(11u8)
        } else if self is Star || self is Slash || self is Mod {
            Some(12u8)
        } else if self.is_unary() {
            Some(13u8)
        } else {
            None
        }
    }

    /// Right for the assignments and the unary operators, left for every
    /// other kind of the precedence table.
    pub open spec fn assoc(self) -> Option<Assoc> {
        if self.is_assignment() || self.is_unary() {
            Some(Assoc::Right)
        } else if self.precedence() is Some {
            Some(Assoc::Left)
        } else {
            None
        }
    }

    /// An operator: any kind of the precedence table but the comma. A
    /// parenthesis is none.
    pub open spec fn is_op(self) -> bool {
        self.precedence() is Some && !(self is Comma)
    }

    /// An identifier whose name is among `known`.
    pub open spec fn is_named_in(self, known: Seq<Seq<char>>) -> bool {
        self matches Kind::Identifier(name) && known.contains(name)
    }
}

/// The character sequences of a list of names.
pub open spec fn names(known: Seq<String>) -> Seq<Seq<char>> {
    known.map_values(|name: String| name@)
}

/// Whether `name` occurs in `known`.
fn contains_name(known: &Vec<String>, name: &String) -> (found: bool)
    ensures
        found == names(known@).contains(name@),
{
    let mut i: usize = 0;
    while i < known.len()
        invariant
            i <= known.len(),
            forall|j: int| 0 <= j < i ==> names(known@)[j] != name@,
        decreases known.len() - i,
    {
        if known[i] == *name {
            assert(names(known@)[i as int] == name@);
            return true;
        }
        i = i + 1;
    }
    false
}

impl TokenValue {
    pub fn precedence(&self) -> (p: Option<u8>)
        ensures
            p == self@.precedence(),
    {
        match self {
            Self::Comma => Some(0),
            Self::Equal
            | Self::PlusEqual
            | Self::MinusEqual
            | Self::StarEqual
            | Self::SlashEqual
            | Self::ModEqual
            | Self::RightShiftEqual
            | Self::LeftShiftEqual
            | Self::BitAndEqual
            | Self::BitOrEqual
            | Self::BitXorEqual => Some(1),
            Self::LogOr => Some(3),
            Self::LogAnd => Some(4),
            Self::BitOr => Some(5),
            Self::BitXor => Some(6),
            Self::BitAnd => Some(7),
            Self::EqualEqual | Self::NotEqual => Some(8),
            Self::Less | Self::LessEqual | Self::Greater | Self::GreaterEqual => Some(9),
            Self::LeftShift | Self::RightShift => Some(10),
            Self::Plus | Self::Minus => Some(11),
            Self::Star | Self::Slash | Self::Mod => Some(12),
            Self::LogNot | Self::BitNot => Some(13),
            _ => None,
        }
    }

    pub fn assoc(&self) -> (a: Option<Assoc>)
        ensures
            a == self@.assoc(),
    {
        match self {
            Self::Equal
            | Self::PlusEqual
            | Self::MinusEqual
            | Self::StarEqual
            | Self::SlashEqual
            | Self::ModEqual
            | Self::RightShiftEqual
            | Self::LeftShiftEqual
            | Self::BitAndEqual
            | Self::BitOrEqual
            | Self::BitXorEqual
            | Self::LogNot
            | Self::BitNot => Some(Assoc::Right),
            Self::Comma
            | Self::LogOr
            | Self::LogAnd
            | Self::BitOr
            | Self::BitXor
            | Self::BitAnd
            | Self::EqualEqual
            | Self::NotEqual
            | Self::Less
            | Self::LessEqual
            | Self::Greater
            | Self::GreaterEqual
            | Self::LeftShift
            | Self::RightShift
            | Self::Plus
            | Self::Minus
            | Self::Star
            | Self::Slash
            | Self::Mod => Some(Assoc::Left),
            _ => None,
        }
    }

    pub fn is_func(&self, known_funcs: &Vec<String>) -> (b: bool)
        ensures
            b == self@.is_named_in(names(known_funcs@)),
    {
        match self {
            Self::Identifier(name) => contains_name(known_funcs, name),
            _ => false,
        }
    }

    pub fn is_op(&self) -> (b: bool)
        ensures
            b == self@.is_op(),
    {
        match self {
            Self::Equal
            | Self::PlusEqual
            | Self::MinusEqual
            | Self::StarEqual
            | Self::SlashEqual
            | Self::ModEqual
            | Self::RightShiftEqual
            | Self::LeftShiftEqual
            | Self::BitAndEqual
            | Self::BitOrEqual
            | Self::BitXorEqual
            | Self::LogNot
            | Self::BitNot
            | Self::LogOr
            | Self::LogAnd
            | Self::BitOr
            | Self::BitXor
            | Self::BitAnd
            | Self::EqualEqual
            | Self::NotEqual
            | Self::Less
            | Self::LessEqual
            | Self::Greater
            | Self::GreaterEqual
            | Self::LeftShift
            | Self::RightShift
            | Self::Plus
            | Self::Minus
            | Self::Star
            | Self::Slash
            | Self::Mod => true,
            _ => false,
        }
    }

    pub fn is_binding(&self, known_bindings: &Vec<String>) -> (b: bool)
        ensures
            b == self@.is_named_in(names(known_bindings@)),
    {
        match self {
            Self::Identifier(name) => contains_name(known_bindings, name),
            _ => false,
        }
    }
}

/// A token: its kind and the span of source text it was read from. `end_loc`
/// is the position just after the last character of the token.
#[derive(Debug, Clone, PartialEq, Eq)]
pub struct Token {
    pub start_loc: Loc,
    pub end_loc: Loc,
    pub value: TokenValue,
}

/// The mathematical value of a [`Token`].
pub struct TokenView {
    pub start_loc: Loc,
    pub end_loc: Loc,
    pub value: Kind,
}

impl View for Token {
    type V = TokenView;

    open spec fn view(&self) -> TokenView {
        TokenView { start_loc: self.start_loc, end_loc: self.end_loc, value: self.value@ }
    }
}

impl Token {
    pub fn new(start_loc: Loc, end_loc: Loc, value: TokenValue) -> (token: Self)
        ensures
            token == (Token { start_loc, end_loc, value }),
    {
        Self { start_loc, end_loc, value }
    }
}

/// The mathematical values of a sequence of tokens.
pub open spec fn token_views(tokens: Seq<Token>) -> Seq<TokenView> {
    tokens.map_values(|token: Token| token@)
}

/// The values of a sequence with one more token at its end, at its front, or
/// of a stretch of it, are the values of the sequence changed alike.
pub proof fn lemma_token_views(tokens: Seq<Token>, token: Token, from: int, to: int)
    ensures
        token_views(tokens.push(token)) == token_views(tokens).push(token@),
        token_views(seq![token] + tokens) == seq![token@] + token_views(tokens),
        0 <= from <= to <= tokens.len() ==> token_views(tokens.subrange(from, to)) == token_views(
            tokens,
        ).subrange(from, to),
{
    assert(token_views(tokens.push(token)) =~= token_views(tokens).push(token@));
    assert(token_views(seq![token] + tokens) =~= seq![token@] + token_views(tokens));
    if 0 <= from <= to <= tokens.len() {
        assert(token_views(tokens.subrange(from, to)) =~= token_views(tokens).subrange(from, to));
    }
}

} // verus!
