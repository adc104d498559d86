//! The meaning of an infix sequence without brackets, and the law that
//! conversion to postfix preserves it.
//!
//! [`infix_expr`] reads a sequence `n op n op .. n` the usual way: `*` and `/`
//! bind tighter than `+` and `-`, and operators of one rank associate to the
//! left. [`lemma_postfix_respects_precedence`] shows that the postfix form of
//! such a sequence denotes that same expression.

use crate::converter::postfix_of;
use crate::expr::{flatten, postfix_expr, Expr};
use crate::grammar::{is_operand, is_product, is_sum, lemma_postfix_of_sum, splits};
use crate::token::Token;
use vstd::prelude::*;

verus! {

/// An infix sequence without brackets: operands and operators in turn,
/// beginning and ending with an operand.
pub open spec fn is_infix<N>(tokens: Seq<Token<N>>) -> bool {
    &&& tokens.len() % 2 == 1
    &&& forall|i: int|
        0 <= i < tokens.len() ==> if i % 2 == 0 {
            #[trigger] tokens[i] is Number
        } else {
            tokens[i] is Op
        }
}

/// Whether `token` is an operator of rank `rank`.
pub open spec fn has_rank<N>(token: Token<N>, rank: nat) -> bool {
    token matches Token::Op(op) && op.rank() == rank
}

/// The position of the last operator of rank `rank` in `tokens`, or `-1` if
/// there is none.
pub open spec fn last_operator<N>(tokens: Seq<Token<N>>, rank: nat) -> int
    decreases tokens.len(),
{
    if tokens.len() == 0 {
        -1
    } else if has_rank(tokens.last(), rank) {
        tokens.len() - 1
    } else {
        last_operator(tokens.drop_last(), rank)
    }
}

/// The expression of a single operand.
pub open spec fn operand_expr<N>(tokens: Seq<Token<N>>) -> Expr<N> {
    Expr::Num(tokens[0]->Number_0)
}

/// The expression of a sequence of operands joined by `*` and `/`: the last
/// operator applies to all that is on its left and to the operand on its
/// right.
pub open spec fn product_expr<N>(tokens: Seq<Token<N>>) -> Expr<N>
    decreases tokens.len(),
{
    let at = last_operator(tokens, 2);
    if 0 <= at < tokens.len() {
        Expr::Bin(
            tokens[at]->Op_0,
            Box::new(product_expr(tokens.take(at))),
            Box::new(operand_expr(tokens.skip(at + 1))),
        )
    } else {
        operand_expr(tokens)
    }
}

/// The expression of an infix sequence without brackets: the last `+` or `-`
/// applies to all that is on its left and to the product on its right; a
/// sequence without `+` and `-` is a product.
pub open spec fn infix_expr<N>(tokens: Seq<Token<N>>) -> Expr<N>
    decreases tokens.len(),
{
    let at = last_operator(tokens, 1);
    if 0 <= at < tokens.len() {
        Expr::Bin(
            tokens[at]->Op_0,
            Box::new(infix_expr(tokens.take(at))),
            Box::new(product_expr(tokens.skip(at + 1))),
        )
    } else {
        product_expr(tokens)
    }
}

/// [`last_operator`] finds an operator of the rank, and none of the rank
/// follows it; where it finds none, there is none.
pub proof fn lemma_last_operator<N>(tokens: Seq<Token<N>>, rank: nat)
    ensures
        -1 <= last_operator(tokens, rank) < tokens.len(),
        last_operator(tokens, rank) >= 0 ==> has_rank(tokens[last_operator(tokens, rank)], rank),
        forall|i: int|
            last_operator(tokens, rank) < i < tokens.len() ==> !has_rank(#[trigger] tokens[i], rank),
    decreases tokens.len(),
{
    if tokens.len() > 0 && !has_rank(tokens.last(), rank) {
        lemma_last_operator(tokens.drop_last(), rank);
        assert forall|i: int| last_operator(tokens, rank) < i < tokens.len() implies !has_rank(
            #[trigger] tokens[i],
            rank,
        ) by {
            if i < tokens.len() - 1 {
                assert(tokens[i] == tokens.drop_last()[i]);
            }
        }
    }
}

/// A sequence that holds no operator of the rank has no last one.
pub proof fn lemma_no_operator<N>(tokens: Seq<Token<N>>, rank: nat)
    requires
        forall|i: int| 0 <= i < tokens.len() ==> !has_rank(#[trigger] tokens[i], rank),
    ensures
        last_operator(tokens, rank) == -1,
    decreases tokens.len(),
{
    if tokens.len() > 0 {
        lemma_no_operator(tokens.drop_last(), rank);
    }
}

/// The parts of an infix sequence before and behind one of its operators are
/// infix sequences.
proof fn lemma_infix_split<N>(tokens: Seq<Token<N>>, at: int)
    requires
        is_infix(tokens),
        0 <= at < tokens.len(),
        tokens[at] is Op,
    ensures
        is_infix(tokens.take(at)),
        is_infix(tokens.skip(at + 1)),
        tokens == tokens.take(at).push(tokens[at]) + tokens.skip(at + 1),
{
    assert(at % 2 == 1) by {
        if at % 2 == 0 {
            assert(tokens[at] is Number);
        }
    }
    let left = tokens.take(at);
    let right = tokens.skip(at + 1);
    assert forall|i: int| 0 <= i < left.len() implies if i % 2 == 0 {
        #[trigger] left[i] is Number
    } else {
        left[i] is Op
    } by {
        assert(left[i] == tokens[i]);
    }
    assert forall|i: int| 0 <= i < right.len() implies if i % 2 == 0 {
        #[trigger] right[i] is Number
    } else {
        right[i] is Op
    } by {
        assert(right[i] == tokens[i + at + 1]);
    }
}

/// A sequence of operands joined by `*` and `/` spells its
/// [`product_expr`] as a product of the grammar.
proof fn lemma_product_spelled<N>(tokens: Seq<Token<N>>)
    requires
        is_infix(tokens),
        forall|i: int| 0 <= i < tokens.len() ==> !has_rank(#[trigger] tokens[i], 1),
    ensures
        is_product(tokens, product_expr(tokens)),
    decreases tokens.len(),
{
    let at = last_operator(tokens, 2);
    lemma_last_operator(tokens, 2);
    if at >= 0 {
        let left = tokens.take(at);
        let right = tokens.skip(at + 1);
        lemma_infix_split(tokens, at);
        // No operator is left behind the last one, so one operand is.
        assert(right.len() == 1) by {
            if right.len() > 1 {
                assert(right[1] is Op);
                assert(right[1] == tokens[at + 2]);
                assert(has_rank(tokens[at + 2], 1) || has_rank(tokens[at + 2], 2));
            }
        }
        assert(right[0] is Number);
        assert(is_operand(right, operand_expr(right)));
        assert forall|i: int| 0 <= i < left.len() implies !has_rank(#[trigger] left[i], 1) by {
            assert(left[i] == tokens[i]);
        }
        lemma_product_spelled(left);
        assert(splits(tokens, at, product_expr(tokens), 2));
    } else {
        assert(tokens.len() == 1) by {
            if tokens.len() > 1 {
                assert(tokens[1] is Op);
                assert(has_rank(tokens[1], 1) || has_rank(tokens[1], 2));
            }
        }
        assert(tokens[0] is Number);
        assert(is_operand(tokens, operand_expr(tokens)));
    }
}

/// An infix sequence without brackets spells its [`infix_expr`] as a sum of
/// the grammar.
pub proof fn lemma_infix_spelled<N>(tokens: Seq<Token<N>>)
    requires
        is_infix(tokens),
    ensures
        is_sum(tokens, infix_expr(tokens)),
    decreases tokens.len(),
{
    let at = last_operator(tokens, 1);
    lemma_last_operator(tokens, 1);
    if at >= 0 {
        let right = tokens.skip(at + 1);
        lemma_infix_split(tokens, at);
        assert forall|i: int| 0 <= i < right.len() implies !has_rank(#[trigger] right[i], 1) by {
            assert(right[i] == tokens[i + at + 1]);
        }
        lemma_infix_spelled(tokens.take(at));
        lemma_product_spelled(right);
        assert(splits(tokens, at, infix_expr(tokens), 1));
    } else {
        assert forall|i: int| 0 <= i < tokens.len() implies !has_rank(#[trigger] tokens[i], 1) by {}
        lemma_product_spelled(tokens);
    }
}

/// For an infix sequence without brackets, the postfix form is the postfix
/// form of the expression that the sequence has under the usual rules (`*`
/// and `/` before `+` and `-`, equal ranks from left to right), and so it
/// denotes that expression: evaluating the postfix form computes what the
/// infix sequence means.
pub proof fn lemma_postfix_respects_precedence<N>(tokens: Seq<Token<N>>)
    requires
        is_infix(tokens),
    ensures
        postfix_of(tokens) == flatten(infix_expr(tokens)),
        postfix_expr(postfix_of(tokens)) == Some(infix_expr(tokens)),
{
    lemma_infix_spelled(tokens);
    lemma_postfix_of_sum(tokens, infix_expr(tokens));
}

} // verus!
