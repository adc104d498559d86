//! The infix-to-postfix converter: operator precedence with a stack of
//! waiting operators and an output queue.
//!
//! [`postfix_of`] defines the postfix form of every token sequence, and
//! [`Calculator::post_fix`] computes it.

use crate::token::{balanced, count_close, count_open, operands, unclosed, Bracket, Token};
use crate::Calculator;
use vstd::prelude::*;

verus! {

/// The state of a conversion: the operators and open brackets that wait on
/// the stack (its top is the last element), and the output so far.
pub struct Yard<N> {
    pub stack: Seq<Token<N>>,
    pub output: Seq<Token<N>>,
}

/// The state with the given stack and output.
pub open spec fn yard<N>(stack: Seq<Token<N>>, output: Seq<Token<N>>) -> Yard<N> {
    Yard { stack, output }
}

/// Whether `token` is an operator of rank `rank` or above.
pub open spec fn outranks<N>(token: Token<N>, rank: nat) -> bool {
    token matches Token::Op(op) && op.rank() >= rank
}

/// Moves operators from the top of the stack to the output for as long as the
/// top is an operator of rank `rank` or above. An open bracket stops it.
pub open spec fn pop_operators<N>(yard: Yard<N>, rank: nat) -> Yard<N>
    decreases yard.stack.len(),
{
    if yard.stack.len() > 0 && outranks(yard.stack.last(), rank) {
        pop_operators(
            Yard { stack: yard.stack.drop_last(), output: yard.output.push(yard.stack.last()) },
            rank,
        )
    } else {
        yard
    }
}

/// Moves tokens from the top of the stack to the output until an open bracket
/// is on top, and drops that bracket. Where the stack holds no open bracket,
/// all of it goes to the output.
pub open spec fn close_bracket<N>(yard: Yard<N>) -> Yard<N>
    decreases yard.stack.len(),
{
    if yard.stack.len() == 0 {
        yard
    } else if yard.stack.last().is_open() {
        Yard { stack: yard.stack.drop_last(), output: yard.output }
    } else {
        close_bracket(
            Yard { stack: yard.stack.drop_last(), output: yard.output.push(yard.stack.last()) },
        )
    }
}

/// The state after one more token:
/// - a number goes to the output;
/// - an operator first sends the waiting operators of its rank or above to
///   the output (equal rank yields: operators associate to the left), then
///   waits on the stack;
/// - an open bracket waits on the stack;
/// - a close bracket sends what waits above the nearest open bracket to the
///   output and drops that bracket.
pub open spec fn step<N>(yard: Yard<N>, token: Token<N>) -> Yard<N> {
    match token {
        Token::Number(_) => Yard { stack: yard.stack, output: yard.output.push(token) },
        Token::Op(op) => {
            let popped = pop_operators(yard, op.rank());
            Yard { stack: popped.stack.push(token), output: popped.output }
        },
        Token::Bracket(Bracket::Open) => Yard {
            stack: yard.stack.push(token),
            output: yard.output,
        },
        Token::Bracket(Bracket::Close) => close_bracket(yard),
    }
}

/// The state after all of `tokens`, taken from left to right, starting in
/// `yard`.
pub open spec fn run<N>(tokens: Seq<Token<N>>, yard: Yard<N>) -> Yard<N>
    decreases tokens.len(),
{
    if tokens.len() == 0 {
        yard
    } else {
        step(run(tokens.drop_last(), yard), tokens.last())
    }
}

/// The state in which a conversion starts: nothing waits, nothing is out.
pub open spec fn start<N>() -> Yard<N> {
    Yard { stack: Seq::empty(), output: Seq::empty() }
}

/// What a state hands out when the input ends: the output, then what still
/// waits on the stack from its top down.
pub open spec fn finish<N>(yard: Yard<N>) -> Seq<Token<N>> {
    yard.output + yard.stack.reverse()
}

/// The postfix form of `tokens`.
pub open spec fn postfix_of<N>(tokens: Seq<Token<N>>) -> Seq<Token<N>> {
    finish(run(tokens, start()))
}

/// Handing out a state with a token on top of its stack is handing out the
/// state that has sent this token to the output.
pub proof fn lemma_finish_pop<N>(yard: Yard<N>)
    requires
        yard.stack.len() > 0,
    ensures
        finish(yard) == finish(
            Yard { stack: yard.stack.drop_last(), output: yard.output.push(yard.stack.last()) },
        ),
{
    let stack = yard.stack;
    assert(stack.reverse() == seq![stack.last()] + stack.drop_last().reverse());
    assert(yard.output + (seq![stack.last()] + stack.drop_last().reverse()) == yard.output.push(
        stack.last(),
    ) + stack.drop_last().reverse());
}

/// What waits on the stack of a conversion: operators and open brackets.
pub open spec fn waiting<N>(stack: Seq<Token<N>>) -> bool {
    forall|i: int| 0 <= i < stack.len() ==> (#[trigger] stack[i] is Op || stack[i].is_open())
}

/// No token of `tokens` is a bracket.
pub open spec fn bracket_free<N>(tokens: Seq<Token<N>>) -> bool {
    forall|i: int| 0 <= i < tokens.len() ==> !(#[trigger] tokens[i]).is_bracket()
}

/// What holds of the state `yard` that `tokens` lead to: operators and open
/// brackets wait, one open bracket for each that `tokens` leave open; the
/// output is free of brackets and holds the operands of `tokens`; and no token
/// is lost but the closing brackets and the opening ones that they close.
pub open spec fn reached<N>(yard: Yard<N>, tokens: Seq<Token<N>>) -> bool {
    &&& waiting(yard.stack)
    &&& bracket_free(yard.output)
    &&& count_open(yard.stack) == unclosed(tokens)
    &&& operands(yard.stack) == Seq::<N>::empty()
    &&& operands(yard.output) == operands(tokens)
    &&& yard.stack.len() + yard.output.len() + count_open(tokens) + count_close(tokens)
        == tokens.len() + unclosed(tokens)
}

/// Sending waiting operators to the output keeps what [`reached`] says of a
/// state.
proof fn lemma_pop_operators_keeps<N>(yard: Yard<N>, rank: nat)
    requires
        waiting(yard.stack),
        bracket_free(yard.output),
        operands(yard.stack) == Seq::<N>::empty(),
    ensures
        waiting(pop_operators(yard, rank).stack),
        bracket_free(pop_operators(yard, rank).output),
        operands(pop_operators(yard, rank).stack) == Seq::<N>::empty(),
        operands(pop_operators(yard, rank).output) == operands(yard.output),
        count_open(pop_operators(yard, rank).stack) == count_open(yard.stack),
        pop_operators(yard, rank).stack.len() + pop_operators(yard, rank).output.len()
            == yard.stack.len() + yard.output.len(),
    decreases yard.stack.len(),
{
    if yard.stack.len() > 0 && outranks(yard.stack.last(), rank) {
        let top = yard.stack.last();
        let next = Yard { stack: yard.stack.drop_last(), output: yard.output.push(top) };
        assert(next.output.drop_last() == yard.output);
        lemma_pop_operators_keeps(next, rank);
    }
}

/// Closing a bracket keeps what [`reached`] says of a state, with one open
/// bracket less on the stack where there was one.
proof fn lemma_close_bracket_keeps<N>(yard: Yard<N>)
    requires
        waiting(yard.stack),
        bracket_free(yard.output),
        operands(yard.stack) == Seq::<N>::empty(),
    ensures
        waiting(close_bracket(yard).stack),
        bracket_free(close_bracket(yard).output),
        operands(close_bracket(yard).stack) == Seq::<N>::empty(),
        operands(close_bracket(yard).output) == operands(yard.output),
        count_open(yard.stack) > 0 ==> count_open(close_bracket(yard).stack) + 1 == count_open(
            yard.stack,
        ) && close_bracket(yard).stack.len() + close_bracket(yard).output.len() + 1
            == yard.stack.len() + yard.output.len(),
        count_open(yard.stack) == 0 ==> count_open(close_bracket(yard).stack) == 0
            && close_bracket(yard).stack.len() + close_bracket(yard).output.len()
            == yard.stack.len() + yard.output.len(),
    decreases yard.stack.len(),
{
    if yard.stack.len() > 0 && !yard.stack.last().is_open() {
        let top = yard.stack.last();
        let next = Yard { stack: yard.stack.drop_last(), output: yard.output.push(top) };
        assert(next.output.drop_last() == yard.output);
        lemma_close_bracket_keeps(next);
    }
}

/// Every state of a conversion is [`reached`] by the tokens that led to it.
pub proof fn lemma_run_reaches<N>(tokens: Seq<Token<N>>)
    ensures
        reached(run(tokens, start()), tokens),
    decreases tokens.len(),
{
    if tokens.len() > 0 {
        let before = run(tokens.drop_last(), start());
        lemma_run_reaches(tokens.drop_last());
        match tokens.last() {
            Token::Number(_) => {
                assert(before.output.push(tokens.last()).drop_last() == before.output);
            },
            Token::Op(op) => {
                lemma_pop_operators_keeps(before, op.rank());
                let popped = pop_operators(before, op.rank());
                assert(popped.stack.push(tokens.last()).drop_last() == popped.stack);
            },
            Token::Bracket(Bracket::Open) => {
                assert(before.stack.push(tokens.last()).drop_last() == before.stack);
            },
            Token::Bracket(Bracket::Close) => {
                lemma_close_bracket_keeps(before);
            },
        }
    }
}

/// Operands of a sequence in two parts are those of the first part, then
/// those of the second.
pub proof fn lemma_operands_add<N>(a: Seq<Token<N>>, b: Seq<Token<N>>)
    ensures
        operands(a + b) == operands(a) + operands(b),
    decreases b.len(),
{
    if b.len() == 0 {
        assert(a + b == a);
    } else {
        assert((a + b).drop_last() == a + b.drop_last());
        lemma_operands_add(a, b.drop_last());
    }
}

/// A sequence without numbers has no operands.
proof fn lemma_operands_none<N>(tokens: Seq<Token<N>>)
    requires
        forall|i: int| 0 <= i < tokens.len() ==> !(#[trigger] tokens[i] is Number),
    ensures
        operands(tokens) == Seq::<N>::empty(),
    decreases tokens.len(),
{
    if tokens.len() > 0 {
        lemma_operands_none(tokens.drop_last());
    }
}

/// Where no open bracket waits on a stack, only operators do.
proof fn lemma_waiting_operators<N>(stack: Seq<Token<N>>)
    requires
        waiting(stack),
        count_open(stack) == 0,
    ensures
        forall|i: int| 0 <= i < stack.len() ==> #[trigger] stack[i] is Op,
    decreases stack.len(),
{
    if stack.len() > 0 {
        lemma_waiting_operators(stack.drop_last());
        assert forall|i: int| 0 <= i < stack.len() implies #[trigger] stack[i] is Op by {
            if i < stack.len() - 1 {
                assert(stack[i] == stack.drop_last()[i]);
            }
        }
    }
}

/// The postfix form keeps every number and operator, drops every closing
/// bracket and every opening bracket that is closed, and so has the length of
/// the input less its brackets, plus the brackets that were left open.
pub proof fn lemma_postfix_length<N>(tokens: Seq<Token<N>>)
    ensures
        postfix_of(tokens).len() + count_open(tokens) + count_close(tokens) == tokens.len()
            + unclosed(tokens),
{
    lemma_run_reaches(tokens);
}

/// Where every opening bracket is closed, the postfix form holds no bracket,
/// and its length is that of the input less the number of its opening and
/// closing brackets.
pub proof fn lemma_postfix_drops_brackets<N>(tokens: Seq<Token<N>>)
    requires
        unclosed(tokens) == 0,
    ensures
        bracket_free(postfix_of(tokens)),
        postfix_of(tokens).len() == tokens.len() - count_open(tokens) - count_close(tokens),
{
    lemma_run_reaches(tokens);
    let end = run(tokens, start());
    lemma_waiting_operators(end.stack);
    assert forall|i: int| 0 <= i < postfix_of(tokens).len() implies !(#[trigger] postfix_of(
        tokens,
    )[i]).is_bracket() by {
        if i >= end.output.len() {
            let j = i - end.output.len();
            assert(postfix_of(tokens)[i] == end.stack.reverse()[j]);
            assert(end.stack.reverse()[j] == end.stack[end.stack.len() - 1 - j]);
        } else {
            assert(postfix_of(tokens)[i] == end.output[i]);
        }
    }
}

/// The postfix form holds the operands of the input in their order:
/// conversion moves operators and brackets only.
pub proof fn lemma_postfix_keeps_operands<N>(tokens: Seq<Token<N>>)
    ensures
        operands(postfix_of(tokens)) == operands(tokens),
{
    lemma_run_reaches(tokens);
    let end = run(tokens, start());
    assert forall|i: int| 0 <= i < end.stack.reverse().len() implies !(
    #[trigger] end.stack.reverse()[i] is Number) by {
        assert(end.stack.reverse()[i] == end.stack[end.stack.len() - 1 - i]);
    }
    lemma_operands_none(end.stack.reverse());
    lemma_operands_add(end.output, end.stack.reverse());
}

/// As long as no closing bracket lacks an opening one, the brackets left
/// open are the opening ones less the closing ones.
proof fn lemma_unclosed_counts<N>(tokens: Seq<Token<N>>)
    requires
        forall|k: int|
            0 <= k <= tokens.len() ==> count_close(#[trigger] tokens.take(k)) <= count_open(
                tokens.take(k),
            ),
    ensures
        unclosed(tokens) + count_close(tokens) == count_open(tokens),
    decreases tokens.len(),
{
    if tokens.len() > 0 {
        let front = tokens.drop_last();
        assert forall|k: int| 0 <= k <= front.len() implies count_close(#[trigger] front.take(k))
            <= count_open(front.take(k)) by {
            assert(front.take(k) == tokens.take(k));
        }
        lemma_unclosed_counts(front);
        assert(tokens.take(tokens.len() as int) == tokens);
    }
}

/// Balanced brackets leave no bracket open.
pub proof fn lemma_balanced_closes_all<N>(tokens: Seq<Token<N>>)
    requires
        balanced(tokens),
    ensures
        unclosed(tokens) == 0,
{
    lemma_unclosed_counts(tokens);
}

impl Calculator {
    /// Converts the infix sequence `tokens` to postfix order.
    ///
    /// The result is [`postfix_of`] of the input: numbers keep their order,
    /// every operator follows its operands, and the brackets of a sequence
    /// whose brackets match are gone.
    pub fn post_fix<N>(tokens: Vec<Token<N>>) -> (queue: Vec<Token<N>>)
        ensures
            queue@ == postfix_of(tokens@),
            operands(queue@) == operands(tokens@),
            unclosed(tokens@) == 0 ==> bracket_free(queue@) && queue.len() == tokens.len()
                - count_open(tokens@) - count_close(tokens@),
    {
        let ghost all = tokens@;
        let ghost mut pos: int = 0;
        let mut queue: Vec<Token<N>> = Vec::new();
        let mut stack: Vec<Token<N>> = Vec::new();
        for token in it: tokens
            invariant
                it.seq() == all,
                pos == it.index(),
                0 <= pos <= all.len(),
                yard(stack@, queue@) == run(all.take(pos), start()),
        {
            assert(all.take(pos + 1).drop_last() == all.take(pos));
            assert(all.take(pos + 1).last() == token);
            let ghost before = yard(stack@, queue@);
            match token {
                Token::Number(_) => {
                    queue.push(token);
                },
                Token::Op(op) => {
                    let rank = op.precedence();
                    loop
                        invariant
                            rank == op.rank(),
                            pop_operators(yard(stack@, queue@), rank as nat)
                                == pop_operators(before, rank as nat),
                        ensures
                            yard(stack@, queue@) == pop_operators(
                                before,
                                rank as nat,
                            ),
                        decreases stack.len(),
                    {
                        if stack.len() == 0 {
                            break ;
                        }
                        let pops = match &stack[stack.len() - 1] {
                            Token::Op(top) => top.precedence() >= rank,
                            _ => false,
                        };
                        if !pops {
                            break ;
                        }
                        let top = stack.pop().unwrap();
                        queue.push(top);
                    }
                    stack.push(token);
                },
                Token::Bracket(Bracket::Open) => {
                    stack.push(token);
                },
                Token::Bracket(Bracket::Close) => {
                    loop
                        invariant_except_break
                            close_bracket(yard(stack@, queue@)) == close_bracket(
                                before,
                            ),
                        ensures
                            yard(stack@, queue@) == close_bracket(before),
                        decreases stack.len(),
                    {
                        match stack.pop() {
                            None => {
                                break ;
                            },
                            Some(top) => {
                                let open = match &top {
                                    Token::Bracket(Bracket::Open) => true,
                                    _ => false,
                                };
                                if open {
                                    break ;
                                }
                                queue.push(top);
                            },
                        }
                    }
                },
            }
            proof {
                pos = pos + 1;
            }
        }
        assert(all.take(pos) == all);
        let ghost end = yard(stack@, queue@);
        while stack.len() > 0
            invariant
                finish(yard(stack@, queue@)) == finish(end),
            decreases stack.len(),
        {
            proof {
                lemma_finish_pop(yard(stack@, queue@));
            }
            let top = stack.pop().unwrap();
            queue.push(top);
        }
        assert(stack@.reverse() == Seq::<Token<N>>::empty());
        assert(queue@ + Seq::<Token<N>>::empty() == queue@);
        proof {
            lemma_postfix_keeps_operands(all);
            if unclosed(all) == 0 {
                lemma_postfix_drops_brackets(all);
            }
        }
        queue
    }
}

} // verus!
