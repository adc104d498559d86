//! The lexer: from a text to its sequence of tokens.
//!
//! The text is scanned from left to right. A maximal run of digits and decimal
//! points is one numeral; `+ - * /` are operators; `(` and `)` are brackets;
//! blanks separate tokens and are otherwise ignored. [`lex`] defines the outcome
//! for every text, and [`Calculator::parse`] computes it.

use crate::token::{balanced, Bracket, Error, Operator, Token};
use crate::well_formed::{
    lemma_lexes_only_well_formed, lemma_represents_balanced, lemma_well_formed_lexes, well_formed,
};
use crate::Calculator;
use vstd::prelude::*;

verus! {

/// A token as the lexer describes it: a number is the numeral it was written as.
pub type Lexeme = Token<Seq<char>>;

/// The decimal digits `0` to `9`.
pub open spec fn is_digit(c: char) -> bool {
    '0' <= c && c <= '9'
}

/// The characters a numeral is made of: digits and the decimal point.
pub open spec fn is_numeral_char(c: char) -> bool {
    is_digit(c) || c == '.'
}

/// The characters that separate tokens: space, newline and tab.
pub open spec fn is_blank(c: char) -> bool {
    c == ' ' || c == '\n' || c == '\t'
}

/// The token that a single operator or bracket character stands for.
pub open spec fn symbol(c: char) -> Option<Lexeme> {
    if c == '+' {
        Some(Token::Op(Operator::Add))
    } else if c == '-' {
        Some(Token::Op(Operator::Sub))
    } else if c == '*' {
        Some(Token::Op(Operator::Mul))
    } else if c == '/' {
        Some(Token::Op(Operator::Div))
    } else if c == '(' {
        Some(Token::Bracket(Bracket::Open))
    } else if c == ')' {
        Some(Token::Bracket(Bracket::Close))
    } else {
        None
    }
}

/// The characters that may occur in a text without making it a
/// [`Error::BadToken`].
pub open spec fn is_known(c: char) -> bool {
    is_numeral_char(c) || is_blank(c) || symbol(c) is Some
}

/// A numeral is a non-empty run of digits and decimal points with at least one
/// digit and at most one decimal point: `12`, `1.5`, `.5` and `5.` are
/// numerals, `.` and `1.2.3` are not.
pub open spec fn valid_numeral(s: Seq<char>) -> bool {
    &&& forall|i: int| 0 <= i < s.len() ==> is_numeral_char(#[trigger] s[i])
    &&& exists|i: int| 0 <= i < s.len() && is_digit(#[trigger] s[i])
    &&& forall|i: int, j: int| 0 <= i < j < s.len() ==> !(#[trigger] s[i] == '.' && #[trigger] s[j] == '.')
}

/// The position just behind the run of numeral characters that starts at `i`
/// (`i` itself if no such character stands there).
pub open spec fn run_end(text: Seq<char>, i: int) -> int
    decreases text.len() - i,
{
    if 0 <= i < text.len() && is_numeral_char(text[i]) {
        run_end(text, i + 1)
    } else {
        i
    }
}

/// Puts the tokens `done` in front of the outcome `rest` of lexing what follows
/// them; a failure of the rest is the failure of the whole.
pub open spec fn prepend(done: Seq<Lexeme>, rest: Result<Seq<Lexeme>, Error>) -> Result<
    Seq<Lexeme>,
    Error,
> {
    match rest {
        Ok(tokens) => Ok(done + tokens),
        Err(e) => Err(e),
    }
}

/// The outcome of lexing `text` from position `i` on, where `depth` brackets
/// are open and `i` does not stand inside a numeral.
///
/// The first failure met from left to right decides: a run that is no numeral
/// fails where it ends, a `)` fails where no bracket is open, an unknown
/// character fails where it stands, and brackets left open fail at the end.
pub open spec fn lex_from(text: Seq<char>, i: int, depth: nat) -> Result<Seq<Lexeme>, Error>
    decreases text.len() - i,
{
    if i < 0 || i >= text.len() {
        if depth == 0 {
            Ok(Seq::empty())
        } else {
            Err(Error::MismatchedParen)
        }
    } else if is_numeral_char(text[i]) {
        let end = run_end(text, i + 1);
        let numeral = text.subrange(i, end);
        if valid_numeral(numeral) {
            proof {
                lemma_run_end_bounds(text, i + 1);
            }
            prepend(seq![Token::Number(numeral)], lex_from(text, end, depth))
        } else {
            Err(Error::InvalidNumber)
        }
    } else if is_blank(text[i]) {
        lex_from(text, i + 1, depth)
    } else if text[i] == '(' {
        prepend(seq![Token::Bracket(Bracket::Open)], lex_from(text, i + 1, depth + 1))
    } else if text[i] == ')' {
        if depth == 0 {
            Err(Error::MismatchedParen)
        } else {
            prepend(
                seq![Token::Bracket(Bracket::Close)],
                lex_from(text, i + 1, (depth - 1) as nat),
            )
        }
    } else {
        match symbol(text[i]) {
            Some(token) => prepend(seq![token], lex_from(text, i + 1, depth)),
            None => Err(Error::BadToken(text[i])),
        }
    }
}

/// The outcome of lexing a whole text: its tokens, or the first failure.
pub open spec fn lex(text: Seq<char>) -> Result<Seq<Lexeme>, Error> {
    lex_from(text, 0, 0)
}

/// `value` is a result of the conversion `number` for a string that spells
/// `numeral`.
pub open spec fn converts<N, F: Fn(String) -> N>(number: F, numeral: Seq<char>, value: N) -> bool {
    exists|s: String| s@ == numeral && #[trigger] number.ensures((s,), value)
}

/// `token` is what the conversion `number` made of `lexeme`: operators and
/// brackets are kept, and a number holds a value that `number` returned for a
/// string spelling the numeral.
pub open spec fn stands_for<N, F: Fn(String) -> N>(number: F, token: Token<N>, lexeme: Lexeme) -> bool {
    match lexeme {
        Token::Number(numeral) => token is Number && converts(number, numeral, token->Number_0),
        Token::Op(op) => token == Token::<N>::Op(op),
        Token::Bracket(b) => token == Token::<N>::Bracket(b),
    }
}

/// `tokens` are the `lexemes`, one for one, with every numeral converted by
/// `number`.
pub open spec fn represents<N, F: Fn(String) -> N>(
    number: F,
    tokens: Seq<Token<N>>,
    lexemes: Seq<Lexeme>,
) -> bool {
    &&& tokens.len() == lexemes.len()
    &&& forall|i: int|
        0 <= i < lexemes.len() ==> stands_for(number, #[trigger] tokens[i], lexemes[i])
}

/// The run that starts at `i` ends at or behind `i`, and inside the text.
pub proof fn lemma_run_end_bounds(text: Seq<char>, i: int)
    requires
        0 <= i <= text.len(),
    ensures
        i <= run_end(text, i) <= text.len(),
        forall|k: int| i <= k < run_end(text, i) ==> is_numeral_char(#[trigger] text[k]),
        run_end(text, i) == text.len() || !is_numeral_char(text[run_end(text, i)]),
    decreases text.len() - i,
{
    if i < text.len() && is_numeral_char(text[i]) {
        lemma_run_end_bounds(text, i + 1);
    }
}

/// A run of numeral characters that stops at `end` ends there.
pub proof fn lemma_run_end(text: Seq<char>, start: int, end: int)
    requires
        0 <= start <= end <= text.len(),
        forall|k: int| start <= k < end ==> is_numeral_char(#[trigger] text[k]),
        end == text.len() || !is_numeral_char(text[end]),
    ensures
        run_end(text, start) == end,
    decreases end - start,
{
    if start < end {
        lemma_run_end(text, start + 1, end);
    }
}

/// Appends `c` to `s`.
///
/// Trusted: `String::push` appends the given character to the end of the
/// string and leaves the characters before it as they were.
#[verifier::external_body]
fn push_char(s: &mut String, c: char)
    ensures
        final(s)@ == old(s)@.push(c),
{
    s.push(c)
}

/// Whether `c` is a digit or a decimal point.
fn numeral_char(c: char) -> (b: bool)
    ensures
        b == is_numeral_char(c),
{
    (c >= '0' && c <= '9') || c == '.'
}

/// Whether the characters in `run` spell a numeral.
fn spells_numeral(run: &Vec<char>) -> (b: bool)
    requires
        forall|k: int| 0 <= k < run.len() ==> is_numeral_char(#[trigger] run[k]),
    ensures
        b == valid_numeral(run@),
{
    let mut digits = false;
    let mut points: u8 = 0;
    let mut i: usize = 0;
    while i < run.len()
        invariant
            i <= run.len(),
            forall|k: int| 0 <= k < run.len() ==> is_numeral_char(#[trigger] run[k]),
            digits <==> exists|k: int| 0 <= k < i && is_digit(#[trigger] run[k]),
            points <= 2,
            points == 0 <==> forall|k: int| 0 <= k < i ==> #[trigger] run[k] != '.',
            points == 2 <==> exists|k: int, l: int|
                0 <= k < l < i && #[trigger] run[k] == '.' && #[trigger] run[l] == '.',
        decreases run.len() - i,
    {
        if run[i] == '.' {
            if points < 2 {
                points = points + 1;
            }
        } else {
            digits = true;
        }
        i = i + 1;
    }
    digits && points < 2
}

/// The characters of `run` as a string.
fn spell(run: &Vec<char>) -> (s: String)
    ensures
        s@ == run@,
{
    let mut s = String::new();
    let mut i: usize = 0;
    while i < run.len()
        invariant
            i <= run.len(),
            s@ == run@.take(i as int),
        decreases run.len() - i,
    {
        push_char(&mut s, run[i]);
        i = i + 1;
    }
    s
}

/// The operator that `c` stands for, if it stands for one.
fn operator_of(c: char) -> (op: Option<Operator>)
    ensures
        match op {
            Some(op) => symbol(c) == Some(Token::<Seq<char>>::Op(op)),
            None => c != '+' && c != '-' && c != '*' && c != '/',
        },
{
    if c == '+' {
        Some(Operator::Add)
    } else if c == '-' {
        Some(Operator::Sub)
    } else if c == '*' {
        Some(Operator::Mul)
    } else if c == '/' {
        Some(Operator::Div)
    } else {
        None
    }
}

/// Ends the run of digits and decimal points that was gathered in `run`: if
/// it is a numeral, its value under `number` becomes the next token and the
/// run is emptied; if not, nothing changes and the answer is `false`.
fn end_run<N, F: Fn(String) -> N>(
    run: &mut Vec<char>,
    tokens: &mut Vec<Token<N>>,
    number: &F,
    Ghost(done): Ghost<Seq<Lexeme>>,
) -> (numeral: bool)
    requires
        forall|k: int| 0 <= k < old(run).len() ==> is_numeral_char(#[trigger] old(run)[k]),
        represents(*number, old(tokens)@, done),
        forall|s: String| valid_numeral(s@) ==> #[trigger] number.requires((s,)),
    ensures
        numeral == valid_numeral(old(run)@),
        numeral ==> final(run)@ == Seq::<char>::empty() && represents(
            *number,
            final(tokens)@,
            done.push(Token::Number(old(run)@)),
        ),
        !numeral ==> *final(run) == *old(run) && *final(tokens) == *old(tokens),
{
    if !spells_numeral(run) {
        return false;
    }
    let spelled = spell(run);
    let ghost text = spelled;
    let value = number(spelled);
    proof {
        assert(text@ == run@ && number.ensures((text,), value));
        assert(converts(*number, run@, value));
        lemma_represents_push(*number, tokens@, done, Token::Number(value), Token::Number(run@));
    }
    tokens.push(Token::Number(value));
    run.clear();
    true
}

impl Calculator {
    /// Lexes `expr` into tokens, converting every numeral with `number`.
    ///
    /// The outcome is [`lex`] of the text: on success the tokens are its
    /// lexemes with `number` applied to each numeral, and on failure the error
    /// is the first one met from left to right. `number` is only called on
    /// strings that satisfy [`valid_numeral`].
    pub fn parse<N, F: Fn(String) -> N>(expr: &str, number: F) -> (result: Result<
        Vec<Token<N>>,
        Error,
    >)
        requires
            forall|s: String| valid_numeral(s@) ==> #[trigger] number.requires((s,)),
        ensures
            match result {
                Ok(tokens) => lex(expr@) matches Ok(lexemes) && represents(
                    number,
                    tokens@,
                    lexemes,
                ),
                Err(e) => lex(expr@) == Err::<Seq<Lexeme>, Error>(e),
            },
            result is Ok <==> well_formed(expr@),
            result matches Ok(tokens) ==> balanced(tokens@),
    {
        let ghost text = expr@;
        proof {
            if well_formed(text) {
                lemma_well_formed_lexes(text);
            }
            if lex(text) is Ok {
                lemma_lexes_only_well_formed(text);
            }
        }
        let ghost mut done: Seq<Lexeme> = Seq::empty();
        let ghost mut pos: int = 0;
        let mut tokens: Vec<Token<N>> = Vec::new();
        let mut open: Vec<Bracket> = Vec::new();
        let mut run: Vec<char> = Vec::new();
        for c in it: expr.chars()
            invariant
                text == expr@,
                well_formed(text) <==> lex(text) is Ok,
                it.seq() == text,
                pos == it.index(),
                run.len() <= pos <= text.len(),
                run@ == text.subrange(pos - run.len(), pos),
                forall|k: int| 0 <= k < run.len() ==> is_numeral_char(#[trigger] run[k]),
                represents(number, tokens@, done),
                lex(text) == prepend(done, lex_from(text, pos - run.len(), open.len() as nat)),
                forall|s: String| valid_numeral(s@) ==> #[trigger] number.requires((s,)),
        {
            assert(c == text[pos]);
            if numeral_char(c) {
                run.push(c);
                assert(run@ == text.subrange(pos + 1 - run.len(), pos + 1));
            } else {
                if run.len() > 0 {
                    proof {
                        lemma_lex_run(text, pos - run.len(), pos, run@, open.len() as nat);
                        lemma_prepend_push(
                            done,
                            Token::Number(run@),
                            lex_from(text, pos, open.len() as nat),
                        );
                    }
                    let ghost numeral = run@;
                    if !end_run(&mut run, &mut tokens, &number, Ghost(done)) {
                        return Err(Error::InvalidNumber);
                    }
                    proof {
                        done = done.push(Token::Number(numeral));
                    }
                }
                assert(run@ == text.subrange(pos + 1, pos + 1));
                let ghost depth = open.len() as nat;
                let ghost rest = lex_from(text, pos + 1, depth);
                if let Some(op) = operator_of(c) {
                    proof {
                        lemma_represents_push(number, tokens@, done, Token::Op(op), Token::Op(op));
                        lemma_prepend_push(done, Token::Op(op), rest);
                        done = done.push(Token::Op(op));
                    }
                    tokens.push(Token::Op(op));
                } else if c == '(' {
                    proof {
                        let bracket: Lexeme = Token::Bracket(Bracket::Open);
                        lemma_represents_push(
                            number,
                            tokens@,
                            done,
                            Token::Bracket(Bracket::Open),
                            bracket,
                        );
                        lemma_prepend_push(done, bracket, lex_from(text, pos + 1, depth + 1));
                        done = done.push(bracket);
                    }
                    tokens.push(Token::Bracket(Bracket::Open));
                    open.push(Bracket::Open);
                } else if c == ')' {
                    if open.pop().is_none() {
                        return Err(Error::MismatchedParen);
                    }
                    proof {
                        let bracket: Lexeme = Token::Bracket(Bracket::Close);
                        lemma_represents_push(
                            number,
                            tokens@,
                            done,
                            Token::Bracket(Bracket::Close),
                            bracket,
                        );
                        lemma_prepend_push(
                            done,
                            bracket,
                            lex_from(text, pos + 1, (depth - 1) as nat),
                        );
                        done = done.push(bracket);
                    }
                    tokens.push(Token::Bracket(Bracket::Close));
                } else if c == ' ' || c == '\n' || c == '\t' {
                } else {
                    assert(lex_from(text, pos, depth) == Err::<Seq<Lexeme>, Error>(
                        Error::BadToken(c),
                    ));
                    return Err(Error::BadToken(c));
                }
            }
            proof {
                pos = pos + 1;
            }
        }
        if run.len() > 0 {
            proof {
                lemma_lex_run(text, pos - run.len(), pos, run@, open.len() as nat);
                lemma_prepend_push(done, Token::Number(run@), lex_from(text, pos, open.len() as nat));
            }
            let ghost numeral = run@;
            if !end_run(&mut run, &mut tokens, &number, Ghost(done)) {
                return Err(Error::InvalidNumber);
            }
            proof {
                done = done.push(Token::Number(numeral));
            }
        }
        if open.len() > 0 {
            return Err(Error::MismatchedParen);
        }
        assert(done + Seq::<Lexeme>::empty() == done);
        proof {
            lemma_represents_balanced(number, tokens@, done);
        }
        Ok(tokens)
    }
}

/// Where a run of digits and decimal points stands from `start` to `end`,
/// lexing from `start` turns it into one number and goes on behind it, or
/// fails if it is no numeral.
proof fn lemma_lex_run(text: Seq<char>, start: int, end: int, run: Seq<char>, depth: nat)
    requires
        0 <= start < end <= text.len(),
        run == text.subrange(start, end),
        forall|k: int| 0 <= k < run.len() ==> is_numeral_char(#[trigger] run[k]),
        end == text.len() || !is_numeral_char(text[end]),
    ensures
        lex_from(text, start, depth) == if valid_numeral(run) {
            prepend(seq![Token::Number(run)], lex_from(text, end, depth))
        } else {
            Err(Error::InvalidNumber)
        },
{
    assert forall|k: int| start <= k < end implies is_numeral_char(#[trigger] text[k]) by {
        assert(text[k] == run[k - start]);
    }
    lemma_run_end(text, start + 1, end);
}

/// Tokens that represent lexemes still do when one more of each is added.
proof fn lemma_represents_push<N, F: Fn(String) -> N>(
    number: F,
    tokens: Seq<Token<N>>,
    lexemes: Seq<Lexeme>,
    token: Token<N>,
    lexeme: Lexeme,
)
    requires
        represents(number, tokens, lexemes),
        stands_for(number, token, lexeme),
    ensures
        represents(number, tokens.push(token), lexemes.push(lexeme)),
{
    assert forall|i: int| 0 <= i < lexemes.push(lexeme).len() implies stands_for(
        number,
        #[trigger] tokens.push(token)[i],
        lexemes.push(lexeme)[i],
    ) by {
        if i < lexemes.len() {
            assert(tokens.push(token)[i] == tokens[i]);
        }
    }
}

/// Putting `done` and then `token` in front of an outcome is putting
/// `done` with `token` at its end in front of it.
proof fn lemma_prepend_push(done: Seq<Lexeme>, token: Lexeme, rest: Result<Seq<Lexeme>, Error>)
    ensures
        prepend(done.push(token), rest) == prepend(done, prepend(seq![token], rest)),
{
    match rest {
        Ok(tokens) => {
            assert(done.push(token) + tokens == done + (seq![token] + tokens));
        },
        Err(_) => {},
    }
}

} // verus!
