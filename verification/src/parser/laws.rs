//! What holds of every token sequence: laws of the shunting yard.

use vstd::prelude::*;
use crate::error::ParseError;
use crate::parser::machine::{
    is_function, is_handled, is_operand, postfix, rank, yielding, yields_to, Yard,
};
use crate::token::{Assoc, Kind, TokenView};

verus! {

/// What a token adds to the number of open parentheses.
pub open spec fn opens(kind: Kind) -> int {
    if kind is LeftParen {
        1
    } else if kind is RightParen {
        -1
    } else {
        0
    }
}

/// The left parentheses of `tokens` less its right parentheses.
pub open spec fn depth(tokens: Seq<TokenView>) -> int
    decreases tokens.len(),
{
    if tokens.len() == 0 {
        0
    } else {
        opens(tokens[0].value) + depth(tokens.skip(1))
    }
}

/// Whether each right parenthesis of `tokens` closes a left parenthesis
/// before it, and each left parenthesis is closed.
pub open spec fn balanced(tokens: Seq<TokenView>) -> bool {
    &&& depth(tokens) == 0
    &&& forall|n: int| 0 <= n <= tokens.len() ==> depth(#[trigger] tokens.take(n)) >= 0
}

/// Whether every token of `tokens` is of a kind that an expression can
/// hold.
pub open spec fn all_handled(tokens: Seq<TokenView>) -> bool {
    forall|i: int| 0 <= i < tokens.len() ==> is_handled((#[trigger] tokens[i]).value)
}

/// The stretch that leaves the stack lies within it and holds operators
/// only, and what is under it does not yield.
pub proof fn lemma_yielding(stack: Seq<TokenView>, incoming: Kind)
    ensures
        yielding(stack, incoming) <= stack.len(),
        forall|i: int|
            0 <= i < yielding(stack, incoming) ==> yields_to(
                (#[trigger] stack[i]).value,
                incoming,
            ),
        yielding(stack, incoming) < stack.len() ==> !yields_to(
            stack[yielding(stack, incoming) as int].value,
            incoming,
        ),
    decreases stack.len(),
{
    if stack.len() > 0 && yields_to(stack[0].value, incoming) {
        let rest = stack.skip(1);
        lemma_yielding(rest, incoming);
        assert forall|i: int| 0 <= i < yielding(stack, incoming) implies yields_to(
            (#[trigger] stack[i]).value,
            incoming,
        ) by {
            if i > 0 {
                assert(stack[i] == rest[i - 1]);
            }
        }
        if yielding(stack, incoming) < stack.len() {
            assert(stack[yielding(stack, incoming) as int] == rest[yielding(rest, incoming) as int]);
        }
    }
}

/// Taking entries that are no left parentheses from the top leaves the depth
/// of the stack as it was.
proof fn lemma_depth_skip(stack: Seq<TokenView>, n: int)
    requires
        0 <= n <= stack.len(),
        forall|i: int| 0 <= i < n ==> opens((#[trigger] stack[i]).value) == 0,
    ensures
        depth(stack.skip(n)) == depth(stack),
    decreases n,
{
    if n == 0 {
        assert(stack.skip(0) == stack);
    } else {
        let rest = stack.skip(1);
        assert forall|i: int| 0 <= i < n - 1 implies opens((#[trigger] rest[i]).value) == 0 by {
            assert(rest[i] == stack[i + 1]);
        }
        lemma_depth_skip(rest, n - 1);
        assert(rest.skip(n - 1) == stack.skip(n));
        assert(opens(stack[0].value) == 0);
    }
}

/// The stack never holds a right parenthesis: its depth is the number of
/// left parentheses on it, and positive only where one waits.
proof fn lemma_open_paren(yard: Yard)
    requires
        forall|i: int| 0 <= i < yard.stack.len() ==> !((#[trigger] yard.stack[i]).value is RightParen),
    ensures
        depth(yard.stack) >= 0,
        depth(yard.stack) > 0 ==> yard.has_open_paren(),
    decreases yard.stack.len(),
{
    if yard.stack.len() > 0 {
        let rest = Yard { stack: yard.stack.skip(1), output: yard.output };
        assert forall|i: int| 0 <= i < rest.stack.len() implies !((
        #[trigger] rest.stack[i]).value is RightParen) by {
            assert(rest.stack[i] == yard.stack[i + 1]);
        }
        lemma_open_paren(rest);
        assert(!(yard.stack[0].value is RightParen));
        if yard.stack[0].value is LeftParen {
            assert(yard.has_open_paren());
        } else if depth(yard.stack) > 0 {
            let i = choose|i: int|
                0 <= i < rest.stack.len() && (#[trigger] rest.stack[i]).value is LeftParen;
            assert(yard.stack[i + 1].value is LeftParen);
        }
    }
}

/// Whether no right parenthesis is on the stack.
pub open spec fn no_right_paren(yard: Yard) -> bool {
    forall|i: int| 0 <= i < yard.stack.len() ==> !((#[trigger] yard.stack[i]).value is RightParen)
}

/// A token of a kind that an expression can hold changes the depth of the
/// stack by what it opens, or is a right parenthesis that meets no left
/// one; and no right parenthesis comes onto the stack.
proof fn lemma_step_depth(
    yard: Yard,
    token: TokenView,
    functions: Seq<Seq<char>>,
    bindings: Seq<Seq<char>>,
)
    requires
        is_handled(token.value),
        no_right_paren(yard),
    ensures
        match yard.step(token, functions, bindings) {
            Ok(next) => depth(next.stack) == depth(yard.stack) + opens(token.value)
                && no_right_paren(next),
            Err(error) => error == ParseError::MismatchedParentheses && token.value is RightParen,
        },
{
    let kind = token.value;
    let n = yielding(yard.stack, kind) as int;
    lemma_yielding(yard.stack, kind);
    let flushed = yard.release(n);
    assert forall|i: int| 0 <= i < n implies opens((#[trigger] yard.stack[i]).value) == 0 by {
        assert(yields_to(yard.stack[i].value, kind));
    }
    lemma_depth_skip(yard.stack, n);
    assert(no_right_paren(flushed));
    match yard.step(token, functions, bindings) {
        Ok(next) => {
            if next == yard.push(token) || next == flushed.push(token) {
                assert(next.stack.skip(1) == if next == yard.push(token) {
                    yard.stack
                } else {
                    flushed.stack
                });
                assert forall|i: int| 0 <= i < next.stack.len() implies !((
                #[trigger] next.stack[i]).value is RightParen) by {
                    if i > 0 {
                        assert(next.stack[i] == next.stack.skip(1)[i - 1]);
                    }
                }
            } else if kind is RightParen {
                let opened = flushed.discard();
                assert(no_right_paren(opened));
                if opened.stack.len() > 0 && opened.stack[0].value.is_named_in(functions) {
                    assert(opens(opened.stack[0].value) == 0);
                    lemma_depth_skip(opened.stack, 1);
                    assert(no_right_paren(next));
                }
            }
        },
        Err(error) => {},
    }
}

/// Over tokens of kinds that an expression can hold, the depth of the stack
/// follows the depth of the input, which never falls below zero on the way;
/// and the only error is a mismatched parenthesis.
proof fn lemma_run_depth(
    yard: Yard,
    tokens: Seq<TokenView>,
    functions: Seq<Seq<char>>,
    bindings: Seq<Seq<char>>,
)
    requires
        all_handled(tokens),
        no_right_paren(yard),
    ensures
        match yard.run(tokens, functions, bindings) {
            Ok(end) => {
                &&& depth(end.stack) == depth(yard.stack) + depth(tokens)
                &&& no_right_paren(end)
                &&& forall|n: int|
                    0 <= n <= tokens.len() ==> depth(yard.stack) + depth(#[trigger] tokens.take(n))
                        >= 0
            },
            Err(error) => error == ParseError::MismatchedParentheses,
        },
    decreases tokens.len(),
{
    lemma_open_paren(yard);
    if tokens.len() == 0 {
        assert forall|n: int| 0 <= n <= tokens.len() implies depth(yard.stack) + depth(
            #[trigger] tokens.take(n),
        ) >= 0 by {
            assert(tokens.take(n) == tokens);
        }
    } else {
        assert(is_handled(tokens[0].value));
        lemma_step_depth(yard, tokens[0], functions, bindings);
        match yard.step(tokens[0], functions, bindings) {
            Ok(next) => {
                let rest = tokens.skip(1);
                assert forall|i: int| 0 <= i < rest.len() implies is_handled(
                    (#[trigger] rest[i]).value,
                ) by {
                    assert(rest[i] == tokens[i + 1]);
                }
                lemma_run_depth(next, rest, functions, bindings);
                match next.run(rest, functions, bindings) {
                    Ok(end) => {
                        assert forall|n: int| 0 <= n <= tokens.len() implies depth(yard.stack)
                            + depth(#[trigger] tokens.take(n)) >= 0 by {
                            if n == 0 {
                                assert(tokens.take(0).len() == 0);
                            } else {
                                assert(tokens.take(n)[0] == tokens[0]);
                                assert(tokens.take(n).skip(1) == rest.take(n - 1));
                            }
                        }
                    },
                    Err(error) => {},
                }
            },
            Err(error) => {},
        }
    }
}

/// Tokens of kinds that an expression can hold meet no error but a
/// mismatched parenthesis.
pub proof fn lemma_no_internal_error(
    tokens: Seq<TokenView>,
    functions: Seq<Seq<char>>,
    bindings: Seq<Seq<char>>,
)
    requires
        all_handled(tokens),
    ensures
        postfix(tokens, functions, bindings) != Err::<Seq<TokenView>, ParseError>(
            ParseError::UnhandledToken,
        ),
{
    lemma_run_depth(Yard::start(), tokens, functions, bindings);
}

/// Mismatched parentheses are an error: where a right parenthesis has no
/// left parenthesis before it to close, or a left parenthesis is never
/// closed, tokens of kinds that an expression can hold are rejected as
/// mismatched.
pub proof fn lemma_unbalanced_is_mismatched(
    tokens: Seq<TokenView>,
    functions: Seq<Seq<char>>,
    bindings: Seq<Seq<char>>,
)
    requires
        all_handled(tokens),
        !balanced(tokens),
    ensures
        postfix(tokens, functions, bindings) == Err::<Seq<TokenView>, ParseError>(
            ParseError::MismatchedParentheses,
        ),
{
    let start = Yard::start();
    lemma_run_depth(start, tokens, functions, bindings);
    assert(depth(start.stack) == 0);
    match start.run(tokens, functions, bindings) {
        Ok(end) => {
            assert(tokens.take(tokens.len() as int) == tokens);
            assert(depth(tokens) > 0);
            lemma_open_paren(end);
        },
        Err(error) => {},
    }
}

/// Whether `kind` may wait on the stack: a left parenthesis, a function name
/// or an operator.
pub open spec fn waits(kind: Kind, functions: Seq<Seq<char>>, bindings: Seq<Seq<char>>) -> bool {
    kind is LeftParen || is_function(kind, functions, bindings) || kind.is_op()
}

/// Whether `kind` has a place in a postfix sequence: an operand, a function
/// name or an operator.
pub open spec fn is_postfix_kind(
    kind: Kind,
    functions: Seq<Seq<char>>,
    bindings: Seq<Seq<char>>,
) -> bool {
    is_operand(kind, functions, bindings) || is_function(kind, functions, bindings)
        || kind.is_op()
}

/// Whether the stack holds only what may wait on it, and the output only
/// what has a place in a postfix sequence.
pub open spec fn sorted(yard: Yard, functions: Seq<Seq<char>>, bindings: Seq<Seq<char>>) -> bool {
    &&& forall|i: int|
        0 <= i < yard.stack.len() ==> waits((#[trigger] yard.stack[i]).value, functions, bindings)
    &&& forall|i: int|
        0 <= i < yard.output.len() ==> is_postfix_kind(
            (#[trigger] yard.output[i]).value,
            functions,
            bindings,
        )
}

/// No token brings onto the stack what may not wait there, nor to the output
/// what has no place there.
proof fn lemma_step_sorted(
    yard: Yard,
    token: TokenView,
    functions: Seq<Seq<char>>,
    bindings: Seq<Seq<char>>,
)
    requires
        sorted(yard, functions, bindings),
    ensures
        yard.step(token, functions, bindings) matches Ok(next) ==> sorted(
            next,
            functions,
            bindings,
        ),
{
    let kind = token.value;
    let n = yielding(yard.stack, kind) as int;
    lemma_yielding(yard.stack, kind);
    let flushed = yard.release(n);
    assert(sorted(flushed, functions, bindings)) by {
        assert forall|i: int| 0 <= i < flushed.output.len() implies is_postfix_kind(
            (#[trigger] flushed.output[i]).value,
            functions,
            bindings,
        ) by {
            if i >= yard.output.len() {
                assert(yields_to(yard.stack[i - yard.output.len()].value, kind));
            }
        }
    }
    match yard.step(token, functions, bindings) {
        Ok(next) => {
            if kind is RightParen {
                let opened = flushed.discard();
                assert(sorted(opened, functions, bindings));
                if opened.stack.len() > 0 && opened.stack[0].value.is_named_in(functions) {
                    assert(waits(opened.stack[0].value, functions, bindings));
                    assert(sorted(opened.release(1), functions, bindings));
                }
            } else if next == yard.push(token) {
                assert forall|i: int| 0 <= i < next.stack.len() implies waits(
                    (#[trigger] next.stack[i]).value,
                    functions,
                    bindings,
                ) by {
                    if i > 0 {
                        assert(next.stack[i] == yard.stack[i - 1]);
                    }
                }
            } else if next == flushed.push(token) {
                assert forall|i: int| 0 <= i < next.stack.len() implies waits(
                    (#[trigger] next.stack[i]).value,
                    functions,
                    bindings,
                ) by {
                    if i > 0 {
                        assert(next.stack[i] == flushed.stack[i - 1]);
                    }
                }
            }
        },
        Err(error) => {},
    }
}

/// What holds of the stack and the output before a run holds after it.
proof fn lemma_run_sorted(
    yard: Yard,
    tokens: Seq<TokenView>,
    functions: Seq<Seq<char>>,
    bindings: Seq<Seq<char>>,
)
    requires
        sorted(yard, functions, bindings),
    ensures
        yard.run(tokens, functions, bindings) matches Ok(end) ==> sorted(end, functions, bindings),
    decreases tokens.len(),
{
    if tokens.len() > 0 {
        lemma_step_sorted(yard, tokens[0], functions, bindings);
        match yard.step(tokens[0], functions, bindings) {
            Ok(next) => {
                lemma_run_sorted(next, tokens.skip(1), functions, bindings);
            },
            Err(error) => {},
        }
    }
}

/// After any input the stack holds only left parentheses, function names and
/// operators.
pub proof fn lemma_stack_holds_what_waits(
    tokens: Seq<TokenView>,
    functions: Seq<Seq<char>>,
    bindings: Seq<Seq<char>>,
)
    ensures
        Yard::start().run(tokens, functions, bindings) matches Ok(yard) ==> forall|i: int|
            0 <= i < yard.stack.len() ==> waits(
                (#[trigger] yard.stack[i]).value,
                functions,
                bindings,
            ),
{
    lemma_run_sorted(Yard::start(), tokens, functions, bindings);
}

/// A postfix sequence holds operands, function names and operators, and so
/// no parenthesis and no comma.
pub proof fn lemma_postfix_holds_no_punctuation(
    tokens: Seq<TokenView>,
    functions: Seq<Seq<char>>,
    bindings: Seq<Seq<char>>,
)
    ensures
        postfix(tokens, functions, bindings) matches Ok(output) ==> forall|i: int|
            0 <= i < output.len() ==> {
                &&& is_postfix_kind((#[trigger] output[i]).value, functions, bindings)
                &&& !(output[i].value is LeftParen)
                &&& !(output[i].value is RightParen)
                &&& !(output[i].value is Comma)
            },
{
    lemma_run_sorted(Yard::start(), tokens, functions, bindings);
    match Yard::start().run(tokens, functions, bindings) {
        Ok(yard) => {
            if !yard.has_open_paren() {
                let output = yard.output + yard.stack;
                assert forall|i: int| 0 <= i < output.len() implies {
                    &&& is_postfix_kind((#[trigger] output[i]).value, functions, bindings)
                    &&& !(output[i].value is LeftParen)
                    &&& !(output[i].value is RightParen)
                    &&& !(output[i].value is Comma)
                } by {
                    if i >= yard.output.len() {
                        let entry = yard.stack[i - yard.output.len()];
                        assert(waits(entry.value, functions, bindings));
                        assert(!(entry.value is LeftParen));
                    } else {
                        assert(is_postfix_kind(yard.output[i].value, functions, bindings));
                    }
                }
            }
        },
        Err(error) => {},
    }
}

/// The infix chain of `operands` with `operators` between them: the first
/// operand, the first operator, the second operand, and so on to the last
/// operand.
pub open spec fn infix(operands: Seq<TokenView>, operators: Seq<TokenView>) -> Seq<TokenView>
    decreases operators.len(),
{
    if operators.len() == 0 {
        seq![operands[0]]
    } else {
        seq![operands[0], operators[0]] + infix(operands.skip(1), operators.skip(1))
    }
}

/// Each operand followed by the operator of the same place.
pub open spec fn pairs(operands: Seq<TokenView>, operators: Seq<TokenView>) -> Seq<TokenView>
    decreases operators.len(),
{
    if operators.len() == 0 {
        Seq::empty()
    } else {
        seq![operands[0], operators[0]] + pairs(operands.skip(1), operators.skip(1))
    }
}

/// Whether `operands` and `operators` make a chain of one precedence: one
/// operand more than operators, the former all operands, the latter all
/// operators of precedence `level` that group as `assoc` says.
pub open spec fn is_chain(
    operands: Seq<TokenView>,
    operators: Seq<TokenView>,
    level: int,
    assoc: Assoc,
    functions: Seq<Seq<char>>,
    bindings: Seq<Seq<char>>,
) -> bool {
    &&& operands.len() == operators.len() + 1
    &&& forall|i: int|
        0 <= i < operands.len() ==> is_operand((#[trigger] operands[i]).value, functions, bindings)
    &&& forall|i: int|
        0 <= i < operators.len() ==> {
            &&& (#[trigger] operators[i]).value.is_op()
            &&& rank(operators[i].value) == level
            &&& operators[i].value.assoc() == Some(assoc)
        }
}

/// The rest of a chain is a chain.
proof fn lemma_chain_rest(
    operands: Seq<TokenView>,
    operators: Seq<TokenView>,
    level: int,
    assoc: Assoc,
    functions: Seq<Seq<char>>,
    bindings: Seq<Seq<char>>,
)
    requires
        is_chain(operands, operators, level, assoc, functions, bindings),
        operators.len() > 0,
    ensures
        is_chain(operands.skip(1), operators.skip(1), level, assoc, functions, bindings),
        infix(operands, operators).skip(1).skip(1) == infix(operands.skip(1), operators.skip(1)),
        infix(operands, operators)[0] == operands[0],
        infix(operands, operators).skip(1)[0] == operators[0],
        is_operand(operands[0].value, functions, bindings),
        operators[0].value.is_op(),
        rank(operators[0].value) == level,
        operators[0].value.assoc() == Some(assoc),
{
    let rest_operands = operands.skip(1);
    let rest_operators = operators.skip(1);
    assert forall|i: int| 0 <= i < rest_operands.len() implies is_operand(
        (#[trigger] rest_operands[i]).value,
        functions,
        bindings,
    ) by {
        assert(rest_operands[i] == operands[i + 1]);
    }
    assert forall|i: int| 0 <= i < rest_operators.len() implies {
        &&& (#[trigger] rest_operators[i]).value.is_op()
        &&& rank(rest_operators[i].value) == level
        &&& rest_operators[i].value.assoc() == Some(assoc)
    } by {
        assert(rest_operators[i] == operators[i + 1]);
    }
    assert(infix(operands, operators).skip(1).skip(1) =~= infix(rest_operands, rest_operators));
    assert(is_operand(operands[0].value, functions, bindings));
    assert(operators[0].value.is_op());
}

/// A chain of operators that group to the right, met under a stack whose top
/// does not bind before them: the operands go to the output in order, and
/// the operators stay on the stack, the last on top.
proof fn lemma_right_run(
    yard: Yard,
    operands: Seq<TokenView>,
    operators: Seq<TokenView>,
    level: int,
    functions: Seq<Seq<char>>,
    bindings: Seq<Seq<char>>,
)
    requires
        is_chain(operands, operators, level, Assoc::Right, functions, bindings),
        yard.stack.len() > 0 && yard.stack[0].value.is_op() ==> rank(yard.stack[0].value)
            <= level,
    ensures
        yard.run(infix(operands, operators), functions, bindings) == Ok::<Yard, ParseError>(
            Yard { stack: operators.reverse() + yard.stack, output: yard.output + operands },
        ),
    decreases operators.len(),
{
    let tokens = infix(operands, operators);
    let fed = yard.emit(operands[0]);
    assert(is_operand(operands[0].value, functions, bindings));
    assert(yard.step(tokens[0], functions, bindings) == Ok::<Yard, ParseError>(fed));
    if operators.len() == 0 {
        assert(tokens.skip(1).len() == 0);
        assert(fed.run(tokens.skip(1), functions, bindings) == Ok::<Yard, ParseError>(fed));
        assert(fed =~= Yard {
            stack: operators.reverse() + yard.stack,
            output: yard.output + operands,
        });
    } else {
        lemma_chain_rest(operands, operators, level, Assoc::Right, functions, bindings);
        let operator = operators[0];
        assert(yielding(fed.stack, operator.value) == 0);
        assert(fed.release(0) =~= fed);
        let pushed = fed.push(operator);
        assert(fed.step(operator, functions, bindings) == Ok::<Yard, ParseError>(pushed));
        let rest_operands = operands.skip(1);
        let rest_operators = operators.skip(1);
        lemma_right_run(pushed, rest_operands, rest_operators, level, functions, bindings);
        assert(tokens.skip(1).len() > 0);
        assert(fed.run(tokens.skip(1), functions, bindings) == pushed.run(
            tokens.skip(1).skip(1),
            functions,
            bindings,
        ));
        assert(rest_operators.reverse() + pushed.stack =~= operators.reverse() + yard.stack);
        assert(pushed.output + rest_operands =~= yard.output + operands);
    }
}

/// The top of the stack after a chain of operators that group to the left,
/// where `pending` was on top before it.
pub open spec fn last_of(pending: TokenView, operators: Seq<TokenView>) -> TokenView {
    if operators.len() == 0 {
        pending
    } else {
        operators.last()
    }
}

/// What a chain of operators that group to the left sends to the output,
/// where the operator `pending` waits on the stack: each operand, followed by
/// the operator before it.
pub open spec fn follows(
    pending: TokenView,
    operands: Seq<TokenView>,
    operators: Seq<TokenView>,
) -> Seq<TokenView>
    decreases operators.len(),
{
    if operators.len() == 0 {
        seq![operands[0]]
    } else {
        seq![operands[0], pending] + follows(operators[0], operands.skip(1), operators.skip(1))
    }
}

/// With the last operator at its end, what follows a waiting operator is
/// each operand with the operator before it.
proof fn lemma_follows_is_pairs(
    pending: TokenView,
    operands: Seq<TokenView>,
    operators: Seq<TokenView>,
)
    requires
        operands.len() == operators.len() + 1,
    ensures
        follows(pending, operands, operators) + seq![last_of(pending, operators)] == pairs(
            operands,
            seq![pending] + operators,
        ),
    decreases operators.len(),
{
    let all = seq![pending] + operators;
    assert(all.skip(1) =~= operators);
    if operators.len() == 0 {
        assert(pairs(operands.skip(1), operators) =~= Seq::<TokenView>::empty());
        assert(follows(pending, operands, operators) + seq![pending] =~= seq![
            operands[0],
            pending,
        ]);
        assert(pairs(operands, all) =~= seq![operands[0], pending]);
    } else {
        lemma_follows_is_pairs(operators[0], operands.skip(1), operators.skip(1));
        assert(seq![operators[0]] + operators.skip(1) =~= operators);
        assert(last_of(operators[0], operators.skip(1)) == last_of(pending, operators));
        assert(follows(pending, operands, operators) + seq![last_of(pending, operators)] =~= seq![
            operands[0],
            pending,
        ] + (follows(operators[0], operands.skip(1), operators.skip(1)) + seq![
            last_of(pending, operators),
        ]));
    }
}

/// A chain of operators that group to the left, met while an operator of
/// their precedence waits on top of a stack that holds under it nothing that
/// binds before them: each operator leaves when the next arrives, and the
/// last one waits on top.
proof fn lemma_left_run(
    yard: Yard,
    pending: TokenView,
    operands: Seq<TokenView>,
    operators: Seq<TokenView>,
    level: int,
    functions: Seq<Seq<char>>,
    bindings: Seq<Seq<char>>,
)
    requires
        is_chain(operands, operators, level, Assoc::Left, functions, bindings),
        yard.stack.len() > 0,
        yard.stack[0] == pending,
        pending.value.is_op(),
        rank(pending.value) == level,
        yard.stack.len() > 1 && yard.stack[1].value.is_op() ==> rank(yard.stack[1].value)
            < level,
    ensures
        yard.run(infix(operands, operators), functions, bindings) == Ok::<Yard, ParseError>(
            Yard {
                stack: seq![last_of(pending, operators)] + yard.stack.skip(1),
                output: yard.output + follows(pending, operands, operators),
            },
        ),
    decreases operators.len(),
{
    let tokens = infix(operands, operators);
    let base = yard.stack.skip(1);
    let fed = yard.emit(operands[0]);
    assert(is_operand(operands[0].value, functions, bindings));
    assert(yard.step(tokens[0], functions, bindings) == Ok::<Yard, ParseError>(fed));
    if operators.len() == 0 {
        assert(tokens.skip(1).len() == 0);
        assert(fed.run(tokens.skip(1), functions, bindings) == Ok::<Yard, ParseError>(fed));
        assert(fed =~= Yard {
            stack: seq![last_of(pending, operators)] + base,
            output: yard.output + follows(pending, operands, operators),
        });
    } else {
        lemma_chain_rest(operands, operators, level, Assoc::Left, functions, bindings);
        let operator = operators[0];
        assert(yields_to(pending.value, operator.value));
        assert(yielding(base, operator.value) == 0) by {
            if base.len() > 0 {
                assert(base[0] == yard.stack[1]);
            }
        }
        assert(yielding(fed.stack, operator.value) == 1);
        let pushed = fed.release(1).push(operator);
        assert(fed.step(operator, functions, bindings) == Ok::<Yard, ParseError>(pushed));
        let rest_operands = operands.skip(1);
        let rest_operators = operators.skip(1);
        assert(pushed.stack.skip(1) =~= base);
        if pushed.stack.len() > 1 {
            assert(pushed.stack[1] == yard.stack[1]);
        }
        lemma_left_run(pushed, operator, rest_operands, rest_operators, level, functions, bindings);
        assert(tokens.skip(1).len() > 0);
        assert(fed.run(tokens.skip(1), functions, bindings) == pushed.run(
            tokens.skip(1).skip(1),
            functions,
            bindings,
        ));
        assert(last_of(operator, rest_operators) == last_of(pending, operators));
        assert(pushed.output + follows(operator, rest_operands, rest_operators) =~= yard.output
            + follows(pending, operands, operators));
    }
}

/// Operators of one precedence that group to the right leave the stack in
/// reverse: the postfix order of a chain of them is all operands in order,
/// then the operators from the last to the first.
pub proof fn lemma_right_chain(
    operands: Seq<TokenView>,
    operators: Seq<TokenView>,
    level: int,
    functions: Seq<Seq<char>>,
    bindings: Seq<Seq<char>>,
)
    requires
        is_chain(operands, operators, level, Assoc::Right, functions, bindings),
    ensures
        postfix(infix(operands, operators), functions, bindings) == Ok::<
            Seq<TokenView>,
            ParseError,
        >(operands + operators.reverse()),
{
    let start = Yard::start();
    lemma_right_run(start, operands, operators, level, functions, bindings);
    let end = Yard { stack: operators.reverse() + start.stack, output: start.output + operands };
    assert(!end.has_open_paren()) by {
        assert forall|i: int| 0 <= i < end.stack.len() implies !((
        #[trigger] end.stack[i]).value is LeftParen) by {
            assert(end.stack[i] == operators[operators.len() - 1 - i]);
            assert(operators[operators.len() - 1 - i].value.is_op());
        }
    }
    assert(end.output + end.stack =~= operands + operators.reverse());
}

/// Operators of one precedence that group to the left leave the stack in
/// order: the postfix order of a chain of them is the first operand, then
/// each further operand followed by the operator before it.
pub proof fn lemma_left_chain(
    operands: Seq<TokenView>,
    operators: Seq<TokenView>,
    level: int,
    functions: Seq<Seq<char>>,
    bindings: Seq<Seq<char>>,
)
    requires
        is_chain(operands, operators, level, Assoc::Left, functions, bindings),
    ensures
        postfix(infix(operands, operators), functions, bindings) == Ok::<
            Seq<TokenView>,
            ParseError,
        >(seq![operands[0]] + pairs(operands.skip(1), operators)),
{
    let start = Yard::start();
    let tokens = infix(operands, operators);
    let fed = start.emit(operands[0]);
    assert(is_operand(operands[0].value, functions, bindings));
    assert(start.step(tokens[0], functions, bindings) == Ok::<Yard, ParseError>(fed));
    if operators.len() == 0 {
        assert(tokens.skip(1).len() == 0);
        assert(fed.run(tokens.skip(1), functions, bindings) == Ok::<Yard, ParseError>(fed));
        assert(!fed.has_open_paren());
        assert(fed.output + fed.stack =~= seq![operands[0]] + pairs(operands.skip(1), operators));
    } else {
        lemma_chain_rest(operands, operators, level, Assoc::Left, functions, bindings);
        let operator = operators[0];
        assert(yielding(fed.stack, operator.value) == 0);
        assert(fed.release(0) =~= fed);
        let pushed = fed.push(operator);
        assert(fed.step(operator, functions, bindings) == Ok::<Yard, ParseError>(pushed));
        let rest_operands = operands.skip(1);
        let rest_operators = operators.skip(1);
        lemma_left_run(pushed, operator, rest_operands, rest_operators, level, functions, bindings);
        assert(tokens.skip(1).len() > 0);
        assert(fed.run(tokens.skip(1), functions, bindings) == pushed.run(
            tokens.skip(1).skip(1),
            functions,
            bindings,
        ));
        let end = Yard {
            stack: seq![last_of(operator, rest_operators)] + pushed.stack.skip(1),
            output: pushed.output + follows(operator, rest_operands, rest_operators),
        };
        assert(end.stack =~= seq![last_of(operator, rest_operators)]);
        assert(last_of(operator, rest_operators) == operators.last());
        assert(!end.has_open_paren());
        lemma_follows_is_pairs(operator, rest_operands, rest_operators);
        assert(seq![operator] + rest_operators =~= operators);
        assert(end.output + end.stack =~= seq![operands[0]] + (follows(
            operator,
            rest_operands,
            rest_operators,
        ) + seq![last_of(operator, rest_operators)]));
    }
}

} // verus!
