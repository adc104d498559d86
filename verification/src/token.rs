//! The token model shared by the three stages of the calculator.

use vstd::prelude::*;

verus! {

/// One of the four binary arithmetic operators.
#[derive(Debug, Clone, Copy, PartialEq, Eq, Structural)]
pub enum Operator {
    Add,
    Sub,
    Mul,
    Div,
}

impl Operator {
    /// The precedence rank of an operator: `+` and `-` bind loosest,
    /// `*` and `/` bind tighter. Operators of equal rank associate to the left.
    pub open spec fn rank(self) -> nat {
        match self {
            Operator::Add | Operator::Sub => 1,
            Operator::Mul | Operator::Div => 2,
        }
    }

    /// The precedence rank as a machine integer.
    pub fn precedence(self) -> (r: u8)
        ensures
            r == self.rank(),
    {
        match self {
            Operator::Add | Operator::Sub => 1,
            Operator::Mul | Operator::Div => 2,
        }
    }
}

/// An opening or a closing parenthesis.
#[derive(Debug, Clone, Copy, PartialEq, Eq, Structural)]
pub enum Bracket {
    Open,
    Close,
}

/// A lexical unit of an arithmetic expression.
///
/// The payload `N` of a number is chosen by the caller: the lexer describes
/// its output with numerals (`Seq<char>`), and hands every numeral to a
/// caller-supplied conversion to obtain the operand that is stored in the token.
#[derive(Debug, PartialEq)]
pub enum Token<N> {
    Number(N),
    Op(Operator),
    Bracket(Bracket),
}

impl<N> Token<N> {
    /// Whether the token is an opening or closing parenthesis.
    pub open spec fn is_bracket(self) -> bool {
        self is Bracket
    }

    /// Whether the token is an opening parenthesis.
    pub open spec fn is_open(self) -> bool {
        self == Token::<N>::Bracket(Bracket::Open)
    }

    /// Whether the token is a closing parenthesis.
    pub open spec fn is_close(self) -> bool {
        self == Token::<N>::Bracket(Bracket::Close)
    }
}

/// The number of opening parentheses in `tokens`.
pub open spec fn count_open<N>(tokens: Seq<Token<N>>) -> nat
    decreases tokens.len(),
{
    if tokens.len() == 0 {
        0
    } else {
        count_open(tokens.drop_last()) + if tokens.last().is_open() {
            1nat
        } else {
            0nat
        }
    }
}

/// The number of closing parentheses in `tokens`.
pub open spec fn count_close<N>(tokens: Seq<Token<N>>) -> nat
    decreases tokens.len(),
{
    if tokens.len() == 0 {
        0
    } else {
        count_close(tokens.drop_last()) + if tokens.last().is_close() {
            1nat
        } else {
            0nat
        }
    }
}

/// Brackets are balanced where opening and closing ones are equal in number
/// and no closing one comes before the opening one that it closes.
pub open spec fn balanced<N>(tokens: Seq<Token<N>>) -> bool {
    &&& count_open(tokens) == count_close(tokens)
    &&& forall|k: int|
        0 <= k <= tokens.len() ==> count_close(#[trigger] tokens.take(k)) <= count_open(
            tokens.take(k),
        )
}

/// The number of opening parentheses that are still open at the end of
/// `tokens`. A closing parenthesis closes the nearest open one before it, and
/// nothing where none is open.
pub open spec fn unclosed<N>(tokens: Seq<Token<N>>) -> nat
    decreases tokens.len(),
{
    if tokens.len() == 0 {
        0
    } else {
        let before = unclosed(tokens.drop_last());
        if tokens.last().is_open() {
            before + 1
        } else if tokens.last().is_close() && before > 0 {
            (before - 1) as nat
        } else {
            before
        }
    }
}

/// The operands of `tokens`: what its numbers hold, in their order.
pub open spec fn operands<N>(tokens: Seq<Token<N>>) -> Seq<N>
    decreases tokens.len(),
{
    if tokens.len() == 0 {
        Seq::empty()
    } else {
        match tokens.last() {
            Token::Number(n) => operands(tokens.drop_last()).push(n),
            _ => operands(tokens.drop_last()),
        }
    }
}

/// The ways in which lexing a text can fail.
#[derive(Debug, Clone, Copy, PartialEq, Eq, Structural)]
pub enum Error {
    /// A character that is neither part of a numeral, nor an operator, a
    /// parenthesis or blank space.
    BadToken(char),
    /// A `)` without an earlier unclosed `(`, or a `(` that is never closed.
    MismatchedParen,
    /// A run of digits and decimal points that is not a numeral.
    InvalidNumber,
}

} // verus!
