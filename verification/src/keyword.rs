//! The keywords of the language.

use vstd::prelude::*;
use crate::token::{Kind, TokenValue};

verus! {

/// The keyword that `word` spells, if it spells one.
pub open spec fn keyword(word: Seq<char>) -> Option<Kind> {
    if word == "struct"@ {
        Some(Kind::Struct)
    } else if word == "enum"@ {
        Some(Kind::Enum)
    } else if word == "trait"@ {
        Some(Kind::Trait)
    } else if word == "impl"@ {
        Some(Kind::Impl)
    } else if word == "fn"@ {
        Some(Kind::Fn)
    } else if word == "let"@ {
        Some(Kind::Let)
    } else if word == "mut"@ {
        Some(Kind::Mut)
    } else if word == "if"@ {
        Some(Kind::If)
    } else if word == "else"@ {
        Some(Kind::Else)
    } else if word == "while"@ {
        Some(Kind::While)
    } else if word == "for"@ {
        Some(Kind::For)
    } else if word == "in"@ {
        Some(Kind::In)
    } else if word == "return"@ {
        Some(Kind::Return)
    } else if word == "yield"@ {
        Some(Kind::Yield)
    } else if word == "break"@ {
        Some(Kind::Break)
    } else if word == "true"@ {
        Some(Kind::True)
    } else if word == "false"@ {
        Some(Kind::False)
    } else if word == "null"@ {
        Some(Kind::Null)
    } else {
        None
    }
}

/// Whether two strings hold the same characters.
fn same_text(a: &str, b: &str) -> (same: bool)
    ensures
        same == (a@ == b@),
{
    let n: usize = a.unicode_len();
    if n != b.unicode_len() {
        return false;
    }
    let mut i: usize = 0;
    while i < n
        invariant
            n == a@.len(),
            n == b@.len(),
            i <= n,
            a@.take(i as int) == b@.take(i as int),
        decreases n - i,
    {
        if a.get_char(i) != b.get_char(i) {
            return false;
        }
        assert(a@.take(i + 1) == a@.take(i as int).push(a@[i as int]));
        assert(b@.take(i + 1) == b@.take(i as int).push(b@[i as int]));
        i = i + 1;
    }
    assert(a@.take(n as int) == a@);
    assert(b@.take(n as int) == b@);
    true
}

/// Looks `word` up among the keywords.
pub fn lookup(word: &str) -> (found: Option<TokenValue>)
    ensures
        match found {
            Some(value) => keyword(word@) == Some(value@),
            None => keyword(word@) is None,
        },
{
    if same_text(word, "struct") {
        Some(TokenValue::Struct)
    } else if same_text(word, "enum") {
        Some(TokenValue::Enum)
    } else if same_text(word, "trait") {
        Some(TokenValue::Trait)
    } else if same_text(word, "impl") {
        Some(TokenValue::Impl)
    } else if same_text(word, "fn") {
        Some(TokenValue::Fn)
    } else if same_text(word, "let") {
        Some(TokenValue::Let)
    } else if same_text(word, "mut") {
        Some(TokenValue::Mut)
    } else if same_text(word, "if") {
        Some(TokenValue::If)
    } else if same_text(word, "else") {
        Some(TokenValue::Else)
    } else if same_text(word, "while") {
        Some(TokenValue::While)
    } else if same_text(word, "for") {
        Some(TokenValue::For)
    } else if same_text(word, "in") {
        Some(TokenValue::In)
    } else if same_text(word, "return") {
        Some(TokenValue::Return)
    } else if same_text(word, "yield") {
        Some(TokenValue::Yield)
    } else if same_text(word, "break") {
        Some(TokenValue::Break)
    } else if same_text(word, "true") {
        Some(TokenValue::True)
    } else if same_text(word, "false") {
        Some(TokenValue::False)
    } else if same_text(word, "null") {
        Some(TokenValue::Null)
    } else {
        None
    }
}

} // verus!
