//! The grammar of infix sequences, with brackets, and the law that
//! conversion to postfix preserves the expression that a sequence spells.
//!
//! ```text
//! sum     ::= product | sum ('+' | '-') product
//! product ::= operand | product ('*' | '/') operand
//! operand ::= number  | '(' sum ')'
//! ```
//!
//! [`is_sum`] says which expression a token sequence spells under this
//! grammar, and [`lemma_postfix_of_sum`] shows that its postfix form is the
//! postfix form of that expression.

use crate::converter::{
    close_bracket, finish, outranks, pop_operators, postfix_of, run, start, step, yard, Yard,
};
use crate::expr::{flatten, lemma_postfix_expr_of_flatten, postfix_expr, Expr};
use crate::token::Token;
use vstd::prelude::*;

verus! {

/// The operator of `expr`, of rank `rank`, stands at `at` in `tokens`, with
/// something on either side.
pub open spec fn splits<N>(tokens: Seq<Token<N>>, at: int, expr: Expr<N>, rank: nat) -> bool {
    &&& 0 < at < tokens.len() - 1
    &&& expr is Bin
    &&& tokens[at] == Token::<N>::Op(expr->Bin_0)
    &&& expr->Bin_0.rank() == rank
}

/// `tokens` spell `expr` as an operand: a number, or a sum in brackets.
pub open spec fn is_operand<N>(tokens: Seq<Token<N>>, expr: Expr<N>) -> bool
    decreases tokens.len(), 0nat,
{
    ||| tokens.len() == 1 && tokens[0] is Number && expr == Expr::Num(tokens[0]->Number_0)
    ||| tokens.len() >= 2 && tokens.first().is_open() && tokens.last().is_close() && is_sum(
        tokens.subrange(1, tokens.len() - 1),
        expr,
    )
}

/// `tokens` spell `expr` as a product: an operand, or a product, `*` or `/`,
/// and an operand.
pub open spec fn is_product<N>(tokens: Seq<Token<N>>, expr: Expr<N>) -> bool
    decreases tokens.len(), 1nat,
{
    ||| is_operand(tokens, expr)
    ||| exists|at: int| #[trigger]
        splits(tokens, at, expr, 2) && is_product(tokens.take(at), *expr->Bin_1) && is_operand(
            tokens.skip(at + 1),
            *expr->Bin_2,
        )
}

/// `tokens` spell `expr` as a sum: a product, or a sum, `+` or `-`, and a
/// product.
pub open spec fn is_sum<N>(tokens: Seq<Token<N>>, expr: Expr<N>) -> bool
    decreases tokens.len(), 2nat,
{
    ||| is_product(tokens, expr)
    ||| exists|at: int| #[trigger]
        splits(tokens, at, expr, 1) && is_sum(tokens.take(at), *expr->Bin_1) && is_product(
            tokens.skip(at + 1),
            *expr->Bin_2,
        )
}

/// Converting a sequence in two parts is converting the second part from the
/// state that the first part led to.
pub proof fn lemma_run_add<N>(a: Seq<Token<N>>, b: Seq<Token<N>>, from: Yard<N>)
    ensures
        run(a + b, from) == run(b, run(a, from)),
    decreases b.len(),
{
    if b.len() == 0 {
        assert(a + b == a);
    } else {
        assert((a + b).drop_last() == a + b.drop_last());
        lemma_run_add(a, b.drop_last(), from);
    }
}

/// Converting a single token is one step.
pub proof fn lemma_run_one<N>(token: Token<N>, from: Yard<N>)
    ensures
        run(seq![token], from) == step(from, token),
{
    assert(seq![token].drop_last() == Seq::<Token<N>>::empty());
    assert(run(seq![token].drop_last(), from) == from);
}

/// Converting a sequence with a token in its middle is converting what is
/// before it, then the token, then what is behind it.
pub proof fn lemma_run_around<N>(tokens: Seq<Token<N>>, at: int, from: Yard<N>)
    requires
        0 <= at < tokens.len(),
    ensures
        run(tokens, from) == run(
            tokens.skip(at + 1),
            step(run(tokens.take(at), from), tokens[at]),
        ),
{
    let left = tokens.take(at);
    let right = tokens.skip(at + 1);
    assert(tokens == (left + seq![tokens[at]]) + right);
    lemma_run_add(left + seq![tokens[at]], right, from);
    lemma_run_add(left, seq![tokens[at]], from);
    lemma_run_one(tokens[at], run(left, from));
}

/// Where operators of rank `rank` or above are all that waits above the
/// first `base` entries of the stack, and the entry below them is none of
/// these, an operator of rank `rank` sends exactly these to the output, the
/// topmost first.
pub proof fn lemma_pop_operators_above<N>(from: Yard<N>, base: int, rank: nat)
    requires
        0 <= base <= from.stack.len(),
        forall|i: int| base <= i < from.stack.len() ==> outranks(#[trigger] from.stack[i], rank),
        base == 0 || !outranks(from.stack[base - 1], rank),
    ensures
        pop_operators(from, rank) == yard(
            from.stack.take(base),
            from.output + from.stack.skip(base).reverse(),
        ),
    decreases from.stack.len() - base,
{
    if from.stack.len() > base {
        let top = from.stack.last();
        let next = Yard { stack: from.stack.drop_last(), output: from.output.push(top) };
        lemma_pop_operators_above(next, base, rank);
        assert(next.stack.take(base) == from.stack.take(base));
        assert(from.stack.skip(base).reverse() == seq![top] + next.stack.skip(base).reverse());
        assert(next.output + next.stack.skip(base).reverse() == from.output + from.stack.skip(
            base,
        ).reverse());
    } else {
        assert(from.stack.take(base) == from.stack);
        assert(from.stack.skip(base).reverse() == Seq::<Token<N>>::empty());
        assert(from.output + Seq::<Token<N>>::empty() == from.output);
    }
}

/// Where operators are all that waits above an open bracket at `base - 1`, a
/// close bracket sends exactly these to the output, the topmost first, and
/// drops the open bracket.
pub proof fn lemma_close_bracket_above<N>(from: Yard<N>, base: int)
    requires
        1 <= base <= from.stack.len(),
        from.stack[base - 1].is_open(),
        forall|i: int| base <= i < from.stack.len() ==> outranks(#[trigger] from.stack[i], 1),
    ensures
        close_bracket(from) == yard(
            from.stack.take(base - 1),
            from.output + from.stack.skip(base).reverse(),
        ),
    decreases from.stack.len() - base,
{
    if from.stack.len() > base {
        let top = from.stack.last();
        assert(outranks(from.stack[from.stack.len() - 1], 1));
        let next = Yard { stack: from.stack.drop_last(), output: from.output.push(top) };
        assert(next.stack[base - 1] == from.stack[base - 1]);
        lemma_close_bracket_above(next, base);
        assert(next.stack.take(base - 1) == from.stack.take(base - 1));
        assert(from.stack.skip(base).reverse() == seq![top] + next.stack.skip(base).reverse());
        assert(next.output + next.stack.skip(base).reverse() == from.output + from.stack.skip(
            base,
        ).reverse());
    } else {
        assert(from.stack.drop_last() == from.stack.take(base - 1));
        assert(from.stack.skip(base).reverse() == Seq::<Token<N>>::empty());
        assert(from.output + Seq::<Token<N>>::empty() == from.output);
    }
}

/// The state `end` adds to the state `from` the postfix form of `expr`, of
/// which operators of rank `rank` or above may still wait on the stack, above
/// what waited in `from`.
pub open spec fn extends<N>(end: Yard<N>, from: Yard<N>, rank: nat, expr: Expr<N>) -> bool {
    let base = from.stack.len() as int;
    &&& end.stack.len() >= base
    &&& end.stack.take(base) == from.stack
    &&& forall|i: int| base <= i < end.stack.len() ==> outranks(#[trigger] end.stack[i], rank)
    &&& end.output + end.stack.skip(base).reverse() == from.output + flatten(expr)
}

/// A state that has taken in an operand extends the state before it.
proof fn lemma_extends_operand<N>(from: Yard<N>, rank: nat, expr: Expr<N>)
    ensures
        extends(yard(from.stack, from.output + flatten(expr)), from, rank, expr),
{
    let base = from.stack.len() as int;
    assert(from.stack.take(base) == from.stack);
    assert(from.stack.skip(base).reverse() == Seq::<Token<N>>::empty());
    assert((from.output + flatten(expr)) + Seq::<Token<N>>::empty() == from.output + flatten(
        expr,
    ));
}

/// Where `middle` extends `from` by the left operand of `expr`, and `end`
/// extends by the right operand the state in which the operator of `expr`
/// has taken the place of what waited in `middle`, `end` extends `from` by
/// `expr`.
proof fn lemma_extends_binary<N>(
    from: Yard<N>,
    pushed: Yard<N>,
    end: Yard<N>,
    expr: Expr<N>,
    rank: nat,
    above: nat,
)
    requires
        expr is Bin,
        expr->Bin_0.rank() == rank,
        rank <= above,
        pushed == yard(
            from.stack.push(Token::Op(expr->Bin_0)),
            from.output + flatten(*expr->Bin_1),
        ),
        extends(end, pushed, above, *expr->Bin_2),
    ensures
        extends(end, from, rank, expr),
{
    let base = from.stack.len() as int;
    let operator = Token::<N>::Op(expr->Bin_0);
    assert(end.stack.take(base) == from.stack) by {
        assert(end.stack.take(base) == end.stack.take(base + 1).take(base));
    }
    assert(end.stack[base] == operator) by {
        assert(end.stack[base] == end.stack.take(base + 1)[base]);
    }
    assert(end.stack.skip(base).reverse() == end.stack.skip(base + 1).reverse().push(operator));
    assert(end.output + end.stack.skip(base).reverse() == (end.output + end.stack.skip(
        base + 1,
    ).reverse()).push(operator));
    assert((pushed.output + flatten(*expr->Bin_2)).push(operator) == from.output + flatten(expr));
}

/// Converting an operand adds its postfix form to the output and leaves the
/// stack as it was.
proof fn lemma_run_operand<N>(tokens: Seq<Token<N>>, expr: Expr<N>, from: Yard<N>)
    requires
        is_operand(tokens, expr),
    ensures
        run(tokens, from) == yard(from.stack, from.output + flatten(expr)),
    decreases tokens.len(), 0nat,
{
    if tokens.len() == 1 && tokens[0] is Number && expr == Expr::Num(tokens[0]->Number_0) {
        assert(tokens == seq![tokens[0]]);
        lemma_run_one(tokens[0], from);
        assert(from.output.push(tokens[0]) == from.output + flatten(expr));
    } else {
        let last = tokens.len() - 1;
        let inner = tokens.subrange(1, last);
        let opened = yard(from.stack.push(tokens[0]), from.output);
        let base = opened.stack.len() as int;
        lemma_run_around(tokens, last, from);
        assert(tokens.skip(last + 1) == Seq::<Token<N>>::empty());
        lemma_run_around(tokens.take(last), 0, from);
        assert(tokens.take(last).take(0) == Seq::<Token<N>>::empty());
        assert(tokens.take(last).skip(1) == inner);
        assert(tokens.take(last)[0] == tokens[0]);
        assert(run(tokens.take(last), from) == run(inner, opened));
        lemma_run_sum(inner, expr, opened);
        let closing = run(inner, opened);
        assert(closing.stack[base - 1] == tokens[0]) by {
            assert(closing.stack[base - 1] == closing.stack.take(base)[base - 1]);
        }
        lemma_close_bracket_above(closing, base);
        assert(closing.stack.take(base - 1) == from.stack) by {
            assert(closing.stack.take(base - 1) == closing.stack.take(base).take(base - 1));
        }
    }
}

/// Converting a product from a state in which no `*` or `/` is on top of the
/// stack adds the postfix form of the product.
proof fn lemma_run_product<N>(tokens: Seq<Token<N>>, expr: Expr<N>, from: Yard<N>)
    requires
        is_product(tokens, expr),
        from.stack.len() == 0 || !outranks(from.stack.last(), 2),
    ensures
        extends(run(tokens, from), from, 2, expr),
    decreases tokens.len(), 1nat,
{
    if is_operand(tokens, expr) {
        lemma_run_operand(tokens, expr, from);
        lemma_extends_operand(from, 2, expr);
    } else {
        let at = choose|at: int| #[trigger]
            splits(tokens, at, expr, 2) && is_product(tokens.take(at), *expr->Bin_1) && is_operand(
                tokens.skip(at + 1),
                *expr->Bin_2,
            );
        let base = from.stack.len() as int;
        lemma_run_product(tokens.take(at), *expr->Bin_1, from);
        let middle = run(tokens.take(at), from);
        lemma_pop_operators_above(middle, base, 2);
        let pushed = step(middle, tokens[at]);
        lemma_run_around(tokens, at, from);
        lemma_run_operand(tokens.skip(at + 1), *expr->Bin_2, pushed);
        lemma_extends_operand(pushed, 2, *expr->Bin_2);
        lemma_extends_binary(from, pushed, run(tokens, from), expr, 2, 2);
    }
}

/// Converting a sum from a state in which no operator is on top of the stack
/// adds the postfix form of the sum.
proof fn lemma_run_sum<N>(tokens: Seq<Token<N>>, expr: Expr<N>, from: Yard<N>)
    requires
        is_sum(tokens, expr),
        from.stack.len() == 0 || !outranks(from.stack.last(), 1),
    ensures
        extends(run(tokens, from), from, 1, expr),
    decreases tokens.len(), 2nat,
{
    let base = from.stack.len() as int;
    if is_product(tokens, expr) {
        lemma_run_product(tokens, expr, from);
        let end = run(tokens, from);
        assert forall|i: int| base <= i < end.stack.len() implies outranks(
            #[trigger] end.stack[i],
            1,
        ) by {
            assert(outranks(end.stack[i], 2));
        }
    } else {
        let at = choose|at: int| #[trigger]
            splits(tokens, at, expr, 1) && is_sum(tokens.take(at), *expr->Bin_1) && is_product(
                tokens.skip(at + 1),
                *expr->Bin_2,
            );
        lemma_run_sum(tokens.take(at), *expr->Bin_1, from);
        let middle = run(tokens.take(at), from);
        lemma_pop_operators_above(middle, base, 1);
        let pushed = step(middle, tokens[at]);
        lemma_run_around(tokens, at, from);
        lemma_run_product(tokens.skip(at + 1), *expr->Bin_2, pushed);
        lemma_extends_binary(from, pushed, run(tokens, from), expr, 1, 2);
    }
}

/// Where an infix sequence spells an expression under the grammar, brackets
/// included, its postfix form is the postfix form of that expression, and so
/// denotes it: evaluating the postfix form computes what the infix sequence
/// means.
pub proof fn lemma_postfix_of_sum<N>(tokens: Seq<Token<N>>, expr: Expr<N>)
    requires
        is_sum(tokens, expr),
    ensures
        postfix_of(tokens) == flatten(expr),
        postfix_expr(postfix_of(tokens)) == Some(expr),
{
    lemma_run_sum(tokens, expr, start());
    let end = run(tokens, start::<N>());
    assert(end.stack.skip(0) == end.stack);
    assert(Seq::<Token<N>>::empty() + flatten(expr) == flatten(expr));
    assert(finish(end) == flatten(expr));
    lemma_postfix_expr_of_flatten(expr);
}

/// An infix sequence spells one expression at most.
pub proof fn lemma_sum_is_unique<N>(tokens: Seq<Token<N>>, one: Expr<N>, other: Expr<N>)
    requires
        is_sum(tokens, one),
        is_sum(tokens, other),
    ensures
        one == other,
{
    lemma_postfix_of_sum(tokens, one);
    lemma_postfix_of_sum(tokens, other);
}

} // verus!
