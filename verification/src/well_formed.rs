//! Which texts lex: those made of known characters, with balanced brackets
//! and with numerals that are well written. Their tokens have balanced
//! brackets too.

use crate::lexer::{
    is_blank, is_known, is_numeral_char, lemma_run_end_bounds, lex, lex_from, represents, run_end,
    stands_for, symbol, valid_numeral, Lexeme,
};
use crate::token::{balanced, count_close, count_open, Bracket, Token};
use vstd::prelude::*;

verus! {

/// The number of `(` less the number of `)` among the first `i` characters
/// of `text`.
pub open spec fn depth_at(text: Seq<char>, i: int) -> int
    decreases i,
{
    if i <= 0 {
        0
    } else {
        depth_at(text, i - 1) + if text[i - 1] == '(' {
            1int
        } else if text[i - 1] == ')' {
            -1int
        } else {
            0int
        }
    }
}

/// The brackets of a text are balanced where every `)` closes an earlier `(`
/// and no `(` is left open.
pub open spec fn brackets_balanced(text: Seq<char>) -> bool {
    &&& forall|i: int| 0 <= i <= text.len() ==> #[trigger] depth_at(text, i) >= 0
    &&& depth_at(text, text.len() as int) == 0
}

/// A run of digits and decimal points begins at `i`.
pub open spec fn run_starts_at(text: Seq<char>, i: int) -> bool {
    &&& 0 <= i < text.len()
    &&& is_numeral_char(text[i])
    &&& (i == 0 || !is_numeral_char(text[i - 1]))
}

/// Every run of digits and decimal points in `text` is a numeral.
pub open spec fn numerals_valid(text: Seq<char>) -> bool {
    forall|i: int| #[trigger]
        run_starts_at(text, i) ==> valid_numeral(text.subrange(i, run_end(text, i)))
}

/// A text is well formed where it holds only digits, decimal points,
/// `+ - * / ( )` and blanks, its brackets are balanced, and every run of
/// digits and decimal points is a numeral.
pub open spec fn well_formed(text: Seq<char>) -> bool {
    &&& forall|i: int| 0 <= i < text.len() ==> is_known(#[trigger] text[i])
    &&& brackets_balanced(text)
    &&& numerals_valid(text)
}

/// Brackets of a sequence in two parts are those of the first part and those
/// of the second.
pub proof fn lemma_count_add<N>(a: Seq<Token<N>>, b: Seq<Token<N>>)
    ensures
        count_open(a + b) == count_open(a) + count_open(b),
        count_close(a + b) == count_close(a) + count_close(b),
    decreases b.len(),
{
    if b.len() == 0 {
        assert(a + b == a);
    } else {
        assert((a + b).drop_last() == a + b.drop_last());
        lemma_count_add(a, b.drop_last());
    }
}

/// The brackets of a single token.
proof fn lemma_count_one<N>(token: Token<N>)
    ensures
        count_open(seq![token]) == if token.is_open() {
            1nat
        } else {
            0nat
        },
        count_close(seq![token]) == if token.is_close() {
            1nat
        } else {
            0nat
        },
{
    assert(seq![token].drop_last() == Seq::<Token<N>>::empty());
    assert(count_open(seq![token].drop_last()) == 0);
    assert(count_close(seq![token].drop_last()) == 0);
}

/// Digits and decimal points leave the depth of the brackets as it is.
proof fn lemma_depth_over_run(text: Seq<char>, from: int, to: int)
    requires
        0 <= from <= to <= text.len(),
        forall|k: int| from <= k < to ==> is_numeral_char(#[trigger] text[k]),
    ensures
        depth_at(text, to) == depth_at(text, from),
    decreases to - from,
{
    if from < to {
        assert(is_numeral_char(text[to - 1]));
        lemma_depth_over_run(text, from, to - 1);
    }
}

/// Tokens `tokens` that are lexed where `depth` brackets are open close
/// exactly these, and never more than are open.
pub open spec fn closes<N>(tokens: Seq<Token<N>>, depth: nat) -> bool {
    &&& count_close(tokens) == count_open(tokens) + depth
    &&& forall|k: int|
        0 <= k <= tokens.len() ==> count_close(#[trigger] tokens.take(k)) <= count_open(
            tokens.take(k),
        ) + depth
}

/// Where `rest` closes the brackets that are open behind `token`, `token` and
/// then `rest` close those that are open before it.
proof fn lemma_closes_prepend(token: Lexeme, rest: Seq<Lexeme>, depth: nat, behind: nat)
    requires
        closes(rest, behind),
        token.is_open() ==> behind == depth + 1,
        token.is_close() ==> behind == depth - 1,
        !token.is_open() && !token.is_close() ==> behind == depth,
    ensures
        closes(seq![token] + rest, depth),
{
    let all = seq![token] + rest;
    lemma_count_add(seq![token], rest);
    lemma_count_one(token);
    assert forall|k: int| 0 <= k <= all.len() implies count_close(#[trigger] all.take(k))
        <= count_open(all.take(k)) + depth by {
        if k == 0 {
            assert(all.take(0) == Seq::<Lexeme>::empty());
        } else {
            assert(all.take(k) == seq![token] + rest.take(k - 1));
            lemma_count_add(seq![token], rest.take(k - 1));
        }
    }
}

/// From a position between tokens where `depth` brackets are open, a text
/// whose remaining characters are known, whose brackets stay balanced and
/// whose remaining runs are numerals lexes, and its tokens close the open
/// brackets.
proof fn lemma_lex_from_well_formed(text: Seq<char>, i: int, depth: nat)
    requires
        well_formed(text),
        0 <= i <= text.len(),
        i == 0 || i == text.len() || !is_numeral_char(text[i - 1]) || !is_numeral_char(text[i]),
        depth == depth_at(text, i),
    ensures
        lex_from(text, i, depth) is Ok,
        closes(lex_from(text, i, depth)->Ok_0, depth),
    decreases text.len() - i,
{
    if i >= text.len() {
        let none = Seq::<Lexeme>::empty();
        assert forall|k: int| 0 <= k <= none.len() implies count_close(#[trigger] none.take(k))
            <= count_open(none.take(k)) + depth by {
            assert(none.take(k) == none);
        }
    } else {
        assert(is_known(text[i]));
        assert(depth_at(text, i + 1) >= 0);
        if is_numeral_char(text[i]) {
            let end = run_end(text, i + 1);
            lemma_run_end_bounds(text, i + 1);
            assert(run_starts_at(text, i));
            assert(run_end(text, i) == end);
            assert forall|k: int| i <= k < end implies is_numeral_char(#[trigger] text[k]) by {}
            lemma_depth_over_run(text, i, end);
            lemma_lex_from_well_formed(text, end, depth);
            let rest = lex_from(text, end, depth)->Ok_0;
            lemma_closes_prepend(Token::Number(text.subrange(i, end)), rest, depth, depth);
        } else if is_blank(text[i]) {
            lemma_lex_from_well_formed(text, i + 1, depth);
        } else if text[i] == '(' {
            lemma_lex_from_well_formed(text, i + 1, depth + 1);
            let rest = lex_from(text, i + 1, depth + 1)->Ok_0;
            lemma_closes_prepend(Token::Bracket(Bracket::Open), rest, depth, depth + 1);
        } else if text[i] == ')' {
            lemma_lex_from_well_formed(text, i + 1, (depth - 1) as nat);
            let rest = lex_from(text, i + 1, (depth - 1) as nat)->Ok_0;
            lemma_closes_prepend(Token::Bracket(Bracket::Close), rest, depth, (depth - 1) as nat);
        } else {
            lemma_lex_from_well_formed(text, i + 1, depth);
            let rest = lex_from(text, i + 1, depth)->Ok_0;
            let token = symbol(text[i])->Some_0;
            lemma_closes_prepend(token, rest, depth, depth);
        }
    }
}

/// What a text that lexes from position `i` on, where `depth` brackets are
/// open, shows from there on: known characters, no `)` too many and no `(`
/// left open, and numerals.
pub open spec fn well_formed_from(text: Seq<char>, i: int, depth: nat) -> bool {
    &&& forall|k: int| i <= k < text.len() ==> is_known(#[trigger] text[k])
    &&& forall|k: int|
        i <= k <= text.len() ==> depth + #[trigger] depth_at(text, k) - depth_at(text, i) >= 0
    &&& depth + depth_at(text, text.len() as int) - depth_at(text, i) == 0
    &&& forall|k: int|
        i <= k && #[trigger] run_starts_at(text, k) ==> valid_numeral(
            text.subrange(k, run_end(text, k)),
        )
}

/// A text that lexes from a position between tokens is well formed from
/// there on.
proof fn lemma_lex_from_ok(text: Seq<char>, i: int, depth: nat)
    requires
        0 <= i <= text.len(),
        i == 0 || i == text.len() || !is_numeral_char(text[i - 1]) || !is_numeral_char(text[i]),
        lex_from(text, i, depth) is Ok,
    ensures
        well_formed_from(text, i, depth),
    decreases text.len() - i,
{
    if i < text.len() {
        if is_numeral_char(text[i]) {
            let end = run_end(text, i + 1);
            lemma_run_end_bounds(text, i + 1);
            assert(run_end(text, i) == end);
            lemma_lex_from_ok(text, end, depth);
            assert forall|k: int| i <= k <= end implies depth_at(text, k) == depth_at(
                text,
                i,
            ) by {
                lemma_depth_over_run(text, i, k);
            }
            assert forall|k: int| i <= k && #[trigger] run_starts_at(text, k) implies valid_numeral(
                text.subrange(k, run_end(text, k)),
            ) by {
                if i < k < end {
                    assert(is_numeral_char(text[k - 1]));
                }
            }
        } else if is_blank(text[i]) {
            lemma_lex_from_ok(text, i + 1, depth);
        } else if text[i] == '(' {
            lemma_lex_from_ok(text, i + 1, depth + 1);
        } else if text[i] == ')' {
            lemma_lex_from_ok(text, i + 1, (depth - 1) as nat);
        } else {
            lemma_lex_from_ok(text, i + 1, depth);
        }
    }
}

/// Only a well-formed text lexes: a text with a character that is not known,
/// with a `)` too many or a `(` left open, or with a run of digits and decimal
/// points that is no numeral, fails.
pub proof fn lemma_lexes_only_well_formed(text: Seq<char>)
    requires
        lex(text) is Ok,
    ensures
        well_formed(text),
{
    lemma_lex_from_ok(text, 0, 0);
    assert forall|i: int| #[trigger] run_starts_at(text, i) implies valid_numeral(
        text.subrange(i, run_end(text, i)),
    ) by {}
}

/// Tokens have the brackets of the lexemes that they represent.
proof fn lemma_represents_counts<N, F: Fn(String) -> N>(
    number: F,
    tokens: Seq<Token<N>>,
    lexemes: Seq<Lexeme>,
)
    requires
        represents(number, tokens, lexemes),
    ensures
        count_open(tokens) == count_open(lexemes),
        count_close(tokens) == count_close(lexemes),
    decreases tokens.len(),
{
    if tokens.len() > 0 {
        assert(represents(number, tokens.drop_last(), lexemes.drop_last())) by {
            assert forall|i: int| 0 <= i < lexemes.drop_last().len() implies stands_for(
                number,
                #[trigger] tokens.drop_last()[i],
                lexemes.drop_last()[i],
            ) by {
                assert(tokens.drop_last()[i] == tokens[i]);
            }
        }
        lemma_represents_counts(number, tokens.drop_last(), lexemes.drop_last());
        assert(stands_for(number, tokens[tokens.len() - 1], lexemes.last()));
    }
}

/// Tokens that represent lexemes with balanced brackets have balanced
/// brackets.
pub proof fn lemma_represents_balanced<N, F: Fn(String) -> N>(
    number: F,
    tokens: Seq<Token<N>>,
    lexemes: Seq<Lexeme>,
)
    requires
        represents(number, tokens, lexemes),
        balanced(lexemes),
    ensures
        balanced(tokens),
{
    lemma_represents_counts(number, tokens, lexemes);
    assert forall|k: int| 0 <= k <= tokens.len() implies count_close(#[trigger] tokens.take(k))
        <= count_open(tokens.take(k)) by {
        assert(represents(number, tokens.take(k), lexemes.take(k))) by {
            assert forall|i: int| 0 <= i < lexemes.take(k).len() implies stands_for(
                number,
                #[trigger] tokens.take(k)[i],
                lexemes.take(k)[i],
            ) by {
                assert(tokens.take(k)[i] == tokens[i]);
            }
        }
        lemma_represents_counts(number, tokens.take(k), lexemes.take(k));
    }
}

/// A well-formed text lexes, and the brackets of its tokens are balanced: as
/// many open as close, and none closes before it is opened.
pub proof fn lemma_well_formed_lexes(text: Seq<char>)
    requires
        well_formed(text),
    ensures
        lex(text) is Ok,
        balanced(lex(text)->Ok_0),
        count_open(lex(text)->Ok_0) == count_close(lex(text)->Ok_0),
{
    lemma_lex_from_well_formed(text, 0, 0);
}

} // verus!
