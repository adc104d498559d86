//! The three stages together: what the lexer hands to the converter, and the
//! smallest inputs.

use crate::converter::{
    bracket_free, finish, lemma_balanced_closes_all, lemma_postfix_drops_brackets, postfix_of,
    start,
};
use crate::expr::{postfix_expr, Expr};
use crate::infix::{is_infix, lemma_no_operator, lemma_postfix_respects_precedence};
use crate::lexer::{lex, Lexeme};
use crate::token::{count_close, count_open, Error, Token};
use crate::well_formed::{lemma_lexes_only_well_formed, lemma_well_formed_lexes};
use vstd::prelude::*;

verus! {

/// The tokens of a text that lexes convert to a postfix form without
/// brackets, which is as much shorter than the tokens as they hold brackets.
pub proof fn lemma_lexed_postfix(text: Seq<char>)
    requires
        lex(text) is Ok,
    ensures
        bracket_free(postfix_of(lex(text)->Ok_0)),
        postfix_of(lex(text)->Ok_0).len() == lex(text)->Ok_0.len() - count_open(lex(text)->Ok_0)
            - count_close(lex(text)->Ok_0),
{
    lemma_lexes_only_well_formed(text);
    lemma_well_formed_lexes(text);
    lemma_balanced_closes_all(lex(text)->Ok_0);
    lemma_postfix_drops_brackets(lex(text)->Ok_0);
}

/// A single number is its own postfix form and denotes the expression that
/// is this number, so its value is the number itself.
pub proof fn lemma_single_number<N>(n: N)
    ensures
        postfix_of(seq![Token::Number(n)]) == seq![Token::Number(n)],
        postfix_expr(seq![Token::Number(n)]) == Some(Expr::Num(n)),
{
    let tokens = seq![Token::Number(n)];
    assert(is_infix(tokens));
    lemma_no_operator(tokens, 1);
    lemma_no_operator(tokens, 2);
    lemma_postfix_respects_precedence(tokens);
}

/// The empty text has no tokens, the empty sequence has an empty postfix
/// form, and the empty postfix sequence denotes no expression.
pub proof fn lemma_nothing<N>()
    ensures
        lex(Seq::empty()) == Ok::<Seq<Lexeme>, Error>(Seq::empty()),
        postfix_of(Seq::<Token<N>>::empty()) == Seq::<Token<N>>::empty(),
        postfix_expr(Seq::<Token<N>>::empty()) is None,
{
    assert(start::<N>().stack.reverse() == Seq::<Token<N>>::empty());
    assert(finish(start::<N>()) == Seq::<Token<N>>::empty());
}

} // verus!
