//! The evaluator: from a postfix sequence to its value.

use crate::expr::{lemma_reduce_fails_for_good, postfix_expr, reduce, shift, yields, Expr};
use crate::token::{Operator, Token};
use crate::Calculator;
use vstd::prelude::*;

verus! {

impl Calculator {
    /// Computes the value of the postfix sequence `post` with an operand
    /// stack, applying every operator with `apply` to its left and right
    /// operand.
    ///
    /// There is a result exactly if the sequence denotes an expression
    /// ([`postfix_expr`]): no operator lacks an operand and exactly one value
    /// is left at the end. The result is then a value of that expression under
    /// `apply`. Brackets are skipped.
    pub fn evaluate<N, F: Fn(Operator, N, N) -> N>(post: Vec<Token<N>>, apply: F) -> (result:
        Option<N>)
        requires
            forall|op: Operator, left: N, right: N| #[trigger] apply.requires((op, left, right)),
        ensures
            match postfix_expr(post@) {
                Some(expr) => result matches Some(value) && yields(expr, apply, value),
                None => result is None,
            },
    {
        let ghost all = post@;
        let ghost mut trees: Seq<Expr<N>> = Seq::empty();
        let ghost mut pos: int = 0;
        let mut stack: Vec<N> = Vec::new();
        for token in it: post
            invariant
                it.seq() == all,
                pos == it.index(),
                0 <= pos <= all.len(),
                reduce(all.take(pos), Seq::empty()) == Some(trees),
                stack.len() == trees.len(),
                forall|k: int| 0 <= k < trees.len() ==> yields(trees[k], apply, #[trigger] stack[k]),
                forall|op: Operator, left: N, right: N| #[trigger] apply.requires((op, left, right)),
        {
            assert(all.take(pos + 1).drop_last() == all.take(pos));
            assert(all.take(pos + 1).last() == token);
            assert(reduce(all.take(pos + 1), Seq::empty()) == shift(trees, token));
            match token {
                Token::Number(n) => {
                    stack.push(n);
                    proof {
                        trees = trees.push(Expr::Num(n));
                    }
                },
                Token::Op(op) => {
                    if stack.len() < 2 {
                        proof {
                            lemma_reduce_fails_for_good(all, Seq::empty(), pos + 1);
                        }
                        return None;
                    }
                    let right = stack.pop().unwrap();
                    let left = stack.pop().unwrap();
                    let value = apply(op, left, right);
                    stack.push(value);
                    proof {
                        let n = trees.len();
                        let combined = Expr::Bin(op, Box::new(trees[n - 2]), Box::new(trees[n - 1]));
                        assert(yields(trees[n - 2], apply, left));
                        assert(yields(trees[n - 1], apply, right));
                        assert(apply.ensures((op, left, right), value));
                        assert(yields(combined, apply, value));
                        trees = trees.take(n - 2).push(combined);
                    }
                },
                Token::Bracket(_) => {},
            }
            proof {
                pos = pos + 1;
            }
        }
        assert(all.take(pos) == all);
        if stack.len() != 1 {
            return None;
        }
        stack.pop()
    }
}

} // verus!
