//! Expression trees: what a sequence of tokens means.
//!
//! A postfix sequence is read with a stack of trees ([`postfix_expr`]). The
//! value of a tree under a caller-supplied arithmetic is described by
//! [`yields`].

use crate::token::{Operator, Token};
use vstd::prelude::*;

verus! {

/// An arithmetic expression: an operand, or an operator applied to a left
/// and a right expression.
pub enum Expr<N> {
    Num(N),
    Bin(Operator, Box<Expr<N>>, Box<Expr<N>>),
}

/// `value` is a result of computing `expr` where every operator is applied by
/// `apply` to the results of its left and right operand, in this order.
pub open spec fn yields<N, F: Fn(Operator, N, N) -> N>(expr: Expr<N>, apply: F, value: N) -> bool
    decreases expr,
{
    match expr {
        Expr::Num(n) => value == n,
        Expr::Bin(op, left, right) => exists|l: N, r: N|
            yields(*left, apply, l) && yields(*right, apply, r) && #[trigger] apply.ensures(
                (op, l, r),
                value,
            ),
    }
}

/// The operand stack after one more token of a postfix sequence: a number is
/// pushed, an operator replaces the two topmost trees (the upper one is its
/// right operand) by their combination and fails where fewer than two are
/// there, a bracket changes nothing.
pub open spec fn shift<N>(stack: Seq<Expr<N>>, token: Token<N>) -> Option<Seq<Expr<N>>> {
    match token {
        Token::Number(n) => Some(stack.push(Expr::Num(n))),
        Token::Op(op) => if stack.len() >= 2 {
            Some(
                stack.take(stack.len() - 2).push(
                    Expr::Bin(
                        op,
                        Box::new(stack[stack.len() - 2]),
                        Box::new(stack[stack.len() - 1]),
                    ),
                ),
            )
        } else {
            None
        },
        Token::Bracket(_) => Some(stack),
    }
}

/// The operand stack after reading all of `tokens` from left to right,
/// starting with `stack`; `None` if some operator found fewer than two
/// operands.
pub open spec fn reduce<N>(tokens: Seq<Token<N>>, stack: Seq<Expr<N>>) -> Option<Seq<Expr<N>>>
    decreases tokens.len(),
{
    if tokens.len() == 0 {
        Some(stack)
    } else {
        match reduce(tokens.drop_last(), stack) {
            Some(before) => shift(before, tokens.last()),
            None => None,
        }
    }
}

/// The expression that a postfix sequence denotes: the single tree that is
/// left on the operand stack. There is none if an operator lacks operands, if
/// nothing is left, or if more than one tree is left.
pub open spec fn postfix_expr<N>(tokens: Seq<Token<N>>) -> Option<Expr<N>> {
    match reduce(tokens, Seq::empty()) {
        Some(stack) => if stack.len() == 1 {
            Some(stack[0])
        } else {
            None
        },
        None => None,
    }
}

/// The postfix form of an expression: its left operand, its right operand,
/// then its operator.
pub open spec fn flatten<N>(expr: Expr<N>) -> Seq<Token<N>>
    decreases expr,
{
    match expr {
        Expr::Num(n) => seq![Token::Number(n)],
        Expr::Bin(op, left, right) => (flatten(*left) + flatten(*right)).push(Token::Op(op)),
    }
}

/// Reading a sequence in two parts is reading the second part on the stack
/// that the first part left.
pub proof fn lemma_reduce_add<N>(a: Seq<Token<N>>, b: Seq<Token<N>>, stack: Seq<Expr<N>>)
    ensures
        reduce(a + b, stack) == match reduce(a, stack) {
            Some(between) => reduce(b, between),
            None => None,
        },
    decreases b.len(),
{
    if b.len() == 0 {
        assert(a + b == a);
    } else {
        assert((a + b).drop_last() == a + b.drop_last());
        lemma_reduce_add(a, b.drop_last(), stack);
    }
}

/// Reading the postfix form of an expression puts this expression on the
/// stack.
pub proof fn lemma_reduce_flatten<N>(expr: Expr<N>, stack: Seq<Expr<N>>)
    ensures
        reduce(flatten(expr), stack) == Some(stack.push(expr)),
    decreases expr,
{
    match expr {
        Expr::Num(n) => {
            assert(flatten(expr).drop_last() == Seq::<Token<N>>::empty());
            assert(reduce(flatten(expr).drop_last(), stack) == Some(stack));
        },
        Expr::Bin(op, left, right) => {
            let operands = flatten(*left) + flatten(*right);
            assert(flatten(expr).drop_last() == operands);
            lemma_reduce_add(flatten(*left), flatten(*right), stack);
            lemma_reduce_flatten(*left, stack);
            lemma_reduce_flatten(*right, stack.push(*left));
            let before = stack.push(*left).push(*right);
            assert(reduce(operands, stack) == Some(before));
            assert(before.take(before.len() - 2) == stack);
        },
    }
}

/// A postfix sequence denotes the expression whose postfix form it is: every
/// expression is read back from its postfix form.
pub proof fn lemma_postfix_expr_of_flatten<N>(expr: Expr<N>)
    ensures
        postfix_expr(flatten(expr)) == Some(expr),
{
    lemma_reduce_flatten(expr, Seq::empty());
}

/// Once an operator lacks operands, reading further tokens does not help.
pub proof fn lemma_reduce_fails_for_good<N>(tokens: Seq<Token<N>>, stack: Seq<Expr<N>>, k: int)
    requires
        0 <= k <= tokens.len(),
        reduce(tokens.take(k), stack) is None,
    ensures
        reduce(tokens, stack) is None,
    decreases tokens.len(),
{
    if k < tokens.len() {
        assert(tokens.drop_last().take(k) == tokens.take(k));
        lemma_reduce_fails_for_good(tokens.drop_last(), stack, k);
    } else {
        assert(tokens.take(k) == tokens);
    }
}

} // verus!
