//! The shunting-yard parser: reorders an infix token sequence into postfix
//! order with one stack of waiting operators and function names.

pub mod laws;
pub mod machine;

use vstd::prelude::*;
use std::collections::VecDeque;
use crate::error::ParseError;
use crate::parser::machine::{postfix, yielding, yields_to, Yard};
use crate::token::{
    lemma_token_views, names, token_views, Assoc, Token, TokenValue, TokenView,
};

verus! {

/// The input still to be read, the operator stack with its top in front, and
/// the output so far.
pub struct ShuntingYardParser {
    pub input_queue: VecDeque<Token>,
    pub operator_stack: VecDeque<Token>,
    pub output_queue: VecDeque<Token>,
}

/// The tokens of `tokens`, in order, as a queue.
fn queue_of(tokens: Vec<Token>) -> (queue: VecDeque<Token>)
    ensures
        queue@ == tokens@,
{
    let mut tokens = tokens;
    let mut queue: VecDeque<Token> = VecDeque::new();
    let ghost all = tokens@;
    while tokens.len() > 0
        invariant
            all == tokens@ + queue@,
        decreases tokens.len(),
    {
        match tokens.pop() {
            Some(token) => queue.push_front(token),
            None => {},
        }
    }
    queue
}

/// Whether the operator `top` leaves the stack when `incoming` arrives.
fn top_yields(top: &TokenValue, incoming: &TokenValue) -> (yields: bool)
    ensures
        yields == yields_to(top@, incoming@),
{
    if !top.is_op() {
        return false;
    }
    if !incoming.is_op() {
        return true;
    }
    match (top.precedence(), incoming.precedence()) {
        (Some(top_precedence), Some(precedence)) => {
            top_precedence > precedence || (top_precedence == precedence && matches!(
                incoming.assoc(),
                Some(Assoc::Left)
            ))
        },
        _ => false,
    }
}

impl ShuntingYardParser {
    /// The state of the yard.
    pub open spec fn yard(&self) -> Yard {
        Yard { stack: token_views(self.operator_stack@), output: token_views(self.output_queue@) }
    }

    /// Brings `input_queue` into postfix order. The identifiers among
    /// `known_functions` and not among `known_bindings` name functions.
    /// Returns the parser that holds the result in `output_queue`, or the
    /// first error.
    pub fn new(
        input_queue: Vec<Token>,
        known_functions: &Vec<String>,
        known_bindings: &Vec<String>,
    ) -> (res: Result<Self, ParseError>)
        ensures
            match res {
                Ok(parser) => {
                    &&& postfix(
                        token_views(input_queue@),
                        names(known_functions@),
                        names(known_bindings@),
                    ) == Ok::<Seq<TokenView>, ParseError>(token_views(parser.output_queue@))
                    &&& parser.input_queue@.len() == 0
                    &&& parser.operator_stack@.len() == 0
                },
                Err(error) => postfix(
                    token_views(input_queue@),
                    names(known_functions@),
                    names(known_bindings@),
                ) == Err::<Seq<TokenView>, ParseError>(error),
            },
    {
        let mut syp = Self {
            input_queue: queue_of(input_queue),
            operator_stack: VecDeque::new(),
            output_queue: VecDeque::new(),
        };
        assert(syp.yard() =~= Yard::start());
        match syp.parse(known_functions, known_bindings) {
            Ok(()) => Ok(syp),
            Err(error) => Err(error),
        }
    }

    /// Appends `token` to the output.
    fn emit(&mut self, token: Token)
        ensures
            final(self).input_queue == old(self).input_queue,
            final(self).yard() == old(self).yard().emit(token@),
    {
        proof {
            lemma_token_views(self.output_queue@, token, 0, 0);
        }
        self.output_queue.push_back(token);
    }

    /// Puts `token` on top of the stack.
    fn push(&mut self, token: Token)
        ensures
            final(self).input_queue == old(self).input_queue,
            final(self).yard() == old(self).yard().push(token@),
    {
        proof {
            lemma_token_views(self.operator_stack@, token, 0, 0);
        }
        self.operator_stack.push_front(token);
    }

    /// Moves the top of the stack to the output.
    fn release(&mut self)
        requires
            old(self).operator_stack@.len() > 0,
        ensures
            final(self).input_queue == old(self).input_queue,
            final(self).operator_stack@.len() == old(self).operator_stack@.len() - 1,
            final(self).yard() == old(self).yard().release(1),
    {
        let ghost stack = self.operator_stack@;
        match self.operator_stack.pop_front() {
            Some(top) => {
                proof {
                    lemma_token_views(stack, top, 1, stack.len() as int);
                    lemma_token_views(self.output_queue@, top, 0, 0);
                    assert(token_views(stack).take(1) =~= seq![top@]);
                    assert(token_views(self.output_queue@).push(top@) =~= token_views(
                        self.output_queue@,
                    ) + seq![top@]);
                }
                self.output_queue.push_back(top);
            },
            None => {},
        }
    }

    /// Drops the top of the stack.
    fn discard(&mut self)
        requires
            old(self).operator_stack@.len() > 0,
        ensures
            final(self).input_queue == old(self).input_queue,
            final(self).operator_stack@.len() == old(self).operator_stack@.len() - 1,
            final(self).yard() == old(self).yard().discard(),
    {
        let ghost stack = self.operator_stack@;
        self.operator_stack.pop_front();
        proof {
            lemma_token_views(stack, stack[0], 1, stack.len() as int);
        }
    }

    /// Moves the top of the stack to the output for as long as it yields to
    /// `incoming`.
    fn flush(&mut self, incoming: &TokenValue)
        ensures
            final(self).input_queue == old(self).input_queue,
            final(self).yard() == old(self).yard().release(
                yielding(old(self).yard().stack, incoming@) as int,
            ),
    {
        let ghost before = self.yard();
        let ghost mut moved: int = 0;
        assert(before.release(0) =~= before);
        assert(before.stack.skip(0) =~= before.stack);
        while self.operator_stack.len() > 0 && top_yields(&self.operator_stack[0].value, incoming)
            invariant
                self.input_queue == old(self).input_queue,
                before == old(self).yard(),
                0 <= moved <= before.stack.len(),
                self.yard() == before.release(moved),
                yielding(before.stack, incoming@) == moved + yielding(
                    before.stack.skip(moved),
                    incoming@,
                ),
            decreases self.operator_stack@.len(),
        {
            self.release();
            proof {
                assert(before.stack.skip(moved).skip(1) =~= before.stack.skip(moved + 1));
                assert(before.release(moved).release(1) =~= before.release(moved + 1));
                moved = moved + 1;
            }
        }
    }

    /// Handles a right parenthesis once the operators above the nearest left
    /// parenthesis have left.
    fn close(&mut self, known_functions: &Vec<String>) -> (res: Result<(), ParseError>)
        ensures
            final(self).input_queue == old(self).input_queue,
            match res {
                Ok(()) => old(self).yard().close(names(known_functions@)) == Ok::<
                    Yard,
                    ParseError,
                >(final(self).yard()),
                Err(error) => old(self).yard().close(names(known_functions@)) == Err::<
                    Yard,
                    ParseError,
                >(error),
            },
    {
        if self.operator_stack.len() == 0 {
            return Err(ParseError::MismatchedParentheses);
        }
        if !matches!(self.operator_stack[0].value, TokenValue::LeftParen) {
            return Err(ParseError::MismatchedParentheses);
        }
        self.discard();
        if self.operator_stack.len() > 0 && self.operator_stack[0].value.is_func(known_functions) {
            self.release();
        }
        Ok(())
    }

    /// Moves what is left on the stack to the output.
    fn drain(&mut self) -> (res: Result<(), ParseError>)
        ensures
            final(self).input_queue == old(self).input_queue,
            match res {
                Ok(()) => {
                    &&& old(self).yard().drain() == Ok::<Seq<TokenView>, ParseError>(
                        final(self).yard().output,
                    )
                    &&& final(self).operator_stack@.len() == 0
                },
                Err(error) => old(self).yard().drain() == Err::<Seq<TokenView>, ParseError>(error),
            },
    {
        let ghost before = self.yard();
        let ghost mut moved: int = 0;
        assert(before.release(0) =~= before);
        while self.operator_stack.len() > 0
            invariant
                self.input_queue == old(self).input_queue,
                before == old(self).yard(),
                0 <= moved <= before.stack.len(),
                self.yard() == before.release(moved),
                self.operator_stack@.len() == before.stack.len() - moved,
                forall|i: int| 0 <= i < moved ==> !((#[trigger] before.stack[i]).value is LeftParen),
            decreases self.operator_stack@.len(),
        {
            assert(self.operator_stack@[0]@ == self.yard().stack[0]);
            assert(before.stack.skip(moved)[0] == before.stack[moved]);
            if matches!(self.operator_stack[0].value, TokenValue::LeftParen) {
                return Err(ParseError::MismatchedParentheses);
            }
            self.release();
            proof {
                assert(before.release(moved).release(1) =~= before.release(moved + 1));
                moved = moved + 1;
            }
        }
        assert(before.stack.take(moved) =~= before.stack);
        Ok(())
    }

    fn parse(&mut self, known_functions: &Vec<String>, known_bindings: &Vec<String>) -> (res:
        Result<(), ParseError>)
        requires
            old(self).yard() == Yard::start(),
        ensures
            match res {
                Ok(()) => {
                    &&& postfix(
                        token_views(old(self).input_queue@),
                        names(known_functions@),
                        names(known_bindings@),
                    ) == Ok::<Seq<TokenView>, ParseError>(token_views(final(self).output_queue@))
                    &&& final(self).input_queue@.len() == 0
                    &&& final(self).operator_stack@.len() == 0
                },
                Err(error) => postfix(
                    token_views(old(self).input_queue@),
                    names(known_functions@),
                    names(known_bindings@),
                ) == Err::<Seq<TokenView>, ParseError>(error),
            },
    {
        let ghost functions = names(known_functions@);
        let ghost bindings = names(known_bindings@);
        let ghost all = token_views(self.input_queue@);
        loop
            invariant
                functions == names(known_functions@),
                bindings == names(known_bindings@),
                all == token_views(old(self).input_queue@),
                Yard::start().run(all, functions, bindings) == self.yard().run(
                    token_views(self.input_queue@),
                    functions,
                    bindings,
                ),
            ensures
                self.input_queue@.len() == 0,
            decreases self.input_queue@.len(),
        {
            let ghost queue = self.input_queue@;
            let t = match self.input_queue.pop_front() {
                Some(t) => t,
                None => {
                    break;
                },
            };
            proof {
                lemma_token_views(queue, t, 1, queue.len() as int);
            }
            match &t.value {
                TokenValue::Integer(_) | TokenValue::Float(_) | TokenValue::String(_) => {
                    self.emit(t);
                },
                TokenValue::Identifier(_) => {
                    if t.value.is_binding(known_bindings) || !t.value.is_func(known_functions) {
                        self.emit(t);
                    } else {
                        self.push(t);
                    }
                },
                TokenValue::Comma => {
                    self.flush(&t.value);
                },
                TokenValue::LeftParen => {
                    self.push(t);
                },
                TokenValue::RightParen => {
                    self.flush(&t.value);
                    match self.close(known_functions) {
                        Ok(()) => {},
                        Err(error) => {
                            return Err(error);
                        },
                    }
                },
                _ => {
                    if t.value.is_op() {
                        self.flush(&t.value);
                        self.push(t);
                    } else {
                        return Err(ParseError::UnhandledToken);
                    }
                },
            }
        }
        self.drain()
    }
}

} // verus!
