//! The shunting yard as a state machine on sequences of tokens: what each
//! token does to the operator stack and to the output, and the postfix
//! sequence that a whole input stands for.

use vstd::prelude::*;
use crate::error::ParseError;
use crate::token::{Assoc, Kind, TokenView};

verus! {

/// The place of a kind in the precedence table, below all of it for a kind
/// that has none.
pub open spec fn rank(kind: Kind) -> int {
    match kind.precedence() {
        Some(p) => p as int,
        None => -1,
    }
}

/// Whether the operator `top` binds its operands before the operator
/// `incoming` that follows it: it has the higher precedence, or the same and
/// `incoming` groups to the left.
pub open spec fn binds_first(top: Kind, incoming: Kind) -> bool {
    rank(top) > rank(incoming) || (rank(top) == rank(incoming) && incoming.assoc() == Some(
        Assoc::Left,
    ))
}

/// Whether `top`, on top of the stack, leaves for the output when `incoming`
/// arrives. Only an operator leaves: for an operator that it binds before,
/// and for every comma and right parenthesis.
pub open spec fn yields_to(top: Kind, incoming: Kind) -> bool {
    top.is_op() && (incoming.is_op() ==> binds_first(top, incoming))
}

/// How many entries at the top of `stack` leave when `incoming` arrives: the
/// length of the longest stretch from the top in which each entry yields.
pub open spec fn yielding(stack: Seq<TokenView>, incoming: Kind) -> nat
    decreases stack.len(),
{
    if stack.len() > 0 && yields_to(stack[0].value, incoming) {
        1 + yielding(stack.skip(1), incoming)
    } else {
        0
    }
}

/// Whether `kind` names a function: it is among `functions` and not among
/// `bindings`.
pub open spec fn is_function(kind: Kind, functions: Seq<Seq<char>>, bindings: Seq<Seq<char>>) -> bool {
    kind.is_named_in(functions) && !kind.is_named_in(bindings)
}

/// Whether `kind` is an operand: a literal, or an identifier that names no
/// function.
pub open spec fn is_operand(kind: Kind, functions: Seq<Seq<char>>, bindings: Seq<Seq<char>>) -> bool {
    kind.is_literal() || (kind is Identifier && !is_function(kind, functions, bindings))
}

/// Whether an expression can hold a token of `kind`.
pub open spec fn is_handled(kind: Kind) -> bool {
    ||| kind.is_literal()
    ||| kind is Identifier
    ||| kind.is_op()
    ||| kind is Comma
    ||| kind is LeftParen
    ||| kind is RightParen
}

/// The operator stack, top first, and the output so far.
#[verifier::ext_equal]
pub struct Yard {
    pub stack: Seq<TokenView>,
    pub output: Seq<TokenView>,
}

impl Yard {
    pub open spec fn start() -> Yard {
        Yard { stack: Seq::empty(), output: Seq::empty() }
    }

    /// `token` appended to the output.
    pub open spec fn emit(self, token: TokenView) -> Yard {
        Yard { stack: self.stack, output: self.output.push(token) }
    }

    /// `token` put on top of the stack.
    pub open spec fn push(self, token: TokenView) -> Yard {
        Yard { stack: seq![token] + self.stack, output: self.output }
    }

    /// The top `n` entries of the stack moved to the output, topmost first.
    pub open spec fn release(self, n: int) -> Yard {
        Yard { stack: self.stack.skip(n), output: self.output + self.stack.take(n) }
    }

    /// The top of the stack discarded.
    pub open spec fn discard(self) -> Yard {
        Yard { stack: self.stack.skip(1), output: self.output }
    }

    /// The state after a right parenthesis, once the operators above the
    /// nearest left parenthesis have left: that parenthesis is discarded,
    /// and a function name under it goes to the output.
    pub open spec fn close(self, functions: Seq<Seq<char>>) -> Result<Yard, ParseError> {
        if self.stack.len() == 0 || !(self.stack[0].value is LeftParen) {
            Err(ParseError::MismatchedParentheses)
        } else {
            let opened = self.discard();
            if opened.stack.len() > 0 && opened.stack[0].value.is_named_in(functions) {
                Ok(opened.release(1))
            } else {
                Ok(opened)
            }
        }
    }

    /// The state after `token`, or the error that `token` meets.
    pub open spec fn step(
        self,
        token: TokenView,
        functions: Seq<Seq<char>>,
        bindings: Seq<Seq<char>>,
    ) -> Result<Yard, ParseError> {
        let kind = token.value;
        let flushed = self.release(yielding(self.stack, kind) as int);
        if is_operand(kind, functions, bindings) {
            Ok(self.emit(token))
        } else if is_function(kind, functions, bindings) {
            Ok(self.push(token))
        } else if kind.is_op() {
            Ok(flushed.push(token))
        } else if kind is Comma {
            Ok(flushed)
        } else if kind is LeftParen {
            Ok(self.push(token))
        } else if kind is RightParen {
            flushed.close(functions)
        } else {
            Err(ParseError::UnhandledToken)
        }
    }

    /// The state after all of `tokens`, or the first error.
    pub open spec fn run(
        self,
        tokens: Seq<TokenView>,
        functions: Seq<Seq<char>>,
        bindings: Seq<Seq<char>>,
    ) -> Result<Yard, ParseError>
        decreases tokens.len(),
    {
        if tokens.len() == 0 {
            Ok(self)
        } else {
            match self.step(tokens[0], functions, bindings) {
                Ok(next) => next.run(tokens.skip(1), functions, bindings),
                Err(error) => Err(error),
            }
        }
    }

    /// Whether a left parenthesis waits on the stack.
    pub open spec fn has_open_paren(self) -> bool {
        exists|i: int| 0 <= i < self.stack.len() && (#[trigger] self.stack[i]).value is LeftParen
    }

    /// The output once the input has ended: what is left on the stack
    /// follows, topmost first, unless a left parenthesis is among it.
    pub open spec fn drain(self) -> Result<Seq<TokenView>, ParseError> {
        if self.has_open_paren() {
            Err(ParseError::MismatchedParentheses)
        } else {
            Ok(self.output + self.stack)
        }
    }
}

/// The postfix order of `tokens`, where the identifiers among `functions`
/// and not among `bindings` name functions; or the first error.
pub open spec fn postfix(
    tokens: Seq<TokenView>,
    functions: Seq<Seq<char>>,
    bindings: Seq<Seq<char>>,
) -> Result<Seq<TokenView>, ParseError> {
    match Yard::start().run(tokens, functions, bindings) {
        Ok(yard) => yard.drain(),
        Err(error) => Err(error),
    }
}

} // verus!
