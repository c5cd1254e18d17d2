//! Proved laws of the tokenizer.
//!
//! Each proof function here states, over the tokenizer's own specification
//! functions, a property that holds of whole families of sources: sources of
//! bare symbols and spaces, digit runs, balanced parenthesis nests, and
//! re-tokenization of identical text.

use crate::lex::{
    alpha_run_end, digit_run_end, is_alpha_char, is_digit_char, is_space_char, lemma_alpha_run_end,
    lemma_digit_run_end, lemma_next_token_advances, lemma_skip_ws, next_token_spec, skip_ws,
    symbol_kind, tokens_from, Kind, LexError, Token,
};
use vstd::prelude::*;

verus! {

/// The number of non-space characters at or after position `i`.
pub open spec fn non_space_count(src: Seq<char>, i: int) -> nat
    decreases src.len() - i,
{
    if 0 <= i < src.len() {
        (if is_space_char(src[i]) {
            0nat
        } else {
            1nat
        }) + non_space_count(src, i + 1)
    } else {
        0
    }
}

/// The token sequence a source of only spaces and one-character symbols
/// lexes to: one token of length one per non-space character, at that
/// character's own offset.
pub open spec fn symbol_tokens(src: Seq<char>, i: int) -> Seq<Token>
    decreases src.len() - i,
{
    if 0 <= i < src.len() {
        if is_space_char(src[i]) {
            symbol_tokens(src, i + 1)
        } else {
            seq![
                Token { kind: symbol_kind(src[i])->Some_0, start: i as usize, length: 1 },
            ] + symbol_tokens(src, i + 1)
        }
    } else {
        Seq::<Token>::empty()
    }
}

/// For a source consisting solely of spaces and one-character
/// operator/punctuation symbols, tokenization succeeds with exactly one
/// token per non-space character — each of length one, of that character's
/// kind, at that character's own offset.
pub proof fn lemma_symbols_tokenize_singly(src: Seq<char>, i: nat)
    requires
        i <= src.len(),
        src.len() <= usize::MAX,
        forall|k: int|
            0 <= k < src.len() ==> is_space_char(#[trigger] src[k]) || symbol_kind(src[k]) is Some,
    ensures
        tokens_from(src, i) == Ok::<Seq<Token>, LexError>(symbol_tokens(src, i as int)),
        symbol_tokens(src, i as int).len() == non_space_count(src, i as int),
        forall|k: int|
            0 <= k < symbol_tokens(src, i as int).len() ==> (#[trigger] symbol_tokens(
                src,
                i as int,
            )[k]).length == 1,
    decreases src.len() - i,
{
    lemma_skip_ws(src, i as int);
    if i == src.len() {
        assert(skip_ws(src, i as int) == i);
    } else if is_space_char(src[i as int]) {
        lemma_symbols_tokenize_singly(src, i + 1);
        assert(skip_ws(src, i as int) == skip_ws(src, i as int + 1));
        assert(next_token_spec(src, i) == next_token_spec(src, (i + 1) as nat));
        assert(tokens_from(src, i) == tokens_from(src, (i + 1) as nat));
    } else {
        let c = src[i as int];
        assert(symbol_kind(c) is Some);
        assert(skip_ws(src, i as int) == i);
        let t = Token { kind: symbol_kind(c)->Some_0, start: i as usize, length: 1 };
        assert(next_token_spec(src, i) == (Ok::<Option<Token>, LexError>(Some(t)), (i + 1) as nat));
        lemma_symbols_tokenize_singly(src, i + 1);
        let rest = symbol_tokens(src, i as int + 1);
        assert(tokens_from(src, i) == Ok::<Seq<Token>, LexError>(seq![t] + rest));
        assert(symbol_tokens(src, i as int) == seq![t] + rest);
        assert(symbol_tokens(src, i as int).len() == 1 + rest.len());
        assert forall|k: int| 0 <= k < symbol_tokens(src, i as int).len() implies (
        #[trigger] symbol_tokens(src, i as int)[k]).length == 1 by {
            if k == 0 {
                assert(symbol_tokens(src, i as int)[0] == t);
            } else {
                assert(symbol_tokens(src, i as int)[k] == rest[k - 1]);
            }
        }
    }
}

/// The digit run beginning at `s` and extending for exactly `n` characters
/// ends at `s + n`.
pub proof fn lemma_digit_run_end_exact(src: Seq<char>, s: int, n: nat)
    requires
        0 <= s,
        s + n <= src.len(),
        forall|k: int| s <= k < s + n ==> is_digit_char(#[trigger] src[k]),
        s + n == src.len() || !is_digit_char(src[s + n]),
    ensures
        digit_run_end(src, s) == s + n,
    decreases n,
{
    if n > 0 {
        lemma_digit_run_end_exact(src, s + 1, (n - 1) as nat);
    }
}

/// A run of `n` consecutive decimal digits, delimited on the right by the
/// end of the source or a non-digit, lexes as exactly one `Num` token of
/// length `n` at the run's own offset — whatever whitespace precedes it.
pub proof fn lemma_digit_run_one_num_token(src: Seq<char>, i: nat, n: nat)
    requires
        i <= src.len(),
        src.len() <= usize::MAX,
        n >= 1,
        ({
            let s = skip_ws(src, i as int);
            &&& s + n <= src.len()
            &&& (forall|k: int| s <= k < s + n ==> is_digit_char(#[trigger] src[k]))
            &&& (s + n == src.len() || !is_digit_char(src[s + n]))
        }),
    ensures
        ({
            let s = skip_ws(src, i as int);
            next_token_spec(src, i) == (
                Ok::<Option<Token>, LexError>(
                    Some(Token { kind: Kind::Num, start: s as usize, length: n as usize }),
                ),
                (s + n) as nat,
            )
        }),
{
    lemma_skip_ws(src, i as int);
    let s = skip_ws(src, i as int);
    assert(is_digit_char(src[s]));
    assert(symbol_kind(src[s]) is None);
    lemma_digit_run_end_exact(src, s, n);
}

/// The tokens of a balanced parenthesis nest: `k` opens then `k` closes,
/// each of length one at its own offset.
pub open spec fn paren_nest_tokens(k: nat) -> Seq<Token> {
    Seq::<Token>::new(
        2 * k,
        |i: int|
            Token {
                kind: if i < k {
                    Kind::LParen
                } else {
                    Kind::RParen
                },
                start: i as usize,
                length: 1,
            },
    )
}

/// A balanced nest of parentheses — `k` opening parentheses followed by `k`
/// closing ones, with no operators — lexes to only `LParen`/`RParen` tokens
/// in strict open-then-close order matching the nesting depth.
pub proof fn lemma_balanced_parens(src: Seq<char>, k: nat)
    requires
        src.len() == 2 * k,
        2 * k <= usize::MAX,
        forall|i: int| 0 <= i < k ==> src[i] == '(',
        forall|i: int| k <= i < 2 * k ==> src[i] == ')',
    ensures
        tokens_from(src, 0) == Ok::<Seq<Token>, LexError>(paren_nest_tokens(k)),
{
    lemma_symbols_tokenize_singly(src, 0);
    lemma_symbol_tokens_dense(src, 0);
    assert(symbol_tokens(src, 0) =~= paren_nest_tokens(k));
}

/// In a source without spaces, the symbol tokens from `i` are one per
/// character, in order.
proof fn lemma_symbol_tokens_dense(src: Seq<char>, i: int)
    requires
        0 <= i <= src.len(),
        forall|k: int| 0 <= k < src.len() ==> !is_space_char(#[trigger] src[k]),
    ensures
        symbol_tokens(src, i).len() == src.len() - i,
        forall|j: int|
            0 <= j < src.len() - i ==> (#[trigger] symbol_tokens(src, i)[j]) == (Token {
                kind: symbol_kind(src[i + j])->Some_0,
                start: (i + j) as usize,
                length: 1,
            }),
    decreases src.len() - i,
{
    if i < src.len() {
        lemma_symbol_tokens_dense(src, i + 1);
        let t = Token { kind: symbol_kind(src[i])->Some_0, start: i as usize, length: 1 };
        let rest = symbol_tokens(src, i + 1);
        assert forall|j: int| 0 <= j < src.len() - i implies (#[trigger] symbol_tokens(src, i)[j])
            == (Token {
            kind: symbol_kind(src[i + j])->Some_0,
            start: (i + j) as usize,
            length: 1,
        }) by {
            if j == 0 {
                assert(symbol_tokens(src, i)[0] == t);
            } else {
                assert(symbol_tokens(src, i)[j] == rest[j - 1]);
            }
        }
    }
}

/// A sequence of `k` plain spaces.
pub open spec fn spaces(k: nat) -> Seq<char> {
    Seq::<char>::new(k, |i: int| ' ')
}

/// The token, with its offset moved right by `k`.
pub open spec fn shift_token(t: Token, k: nat) -> Token {
    Token { kind: t.kind, start: (t.start + k) as usize, length: t.length }
}

/// A tokenization outcome with every recorded offset moved right by `k`.
pub open spec fn shift_outcome(r: Result<Seq<Token>, LexError>, k: nat) -> Result<
    Seq<Token>,
    LexError,
> {
    match r {
        Ok(ts) => Ok(ts.map_values(|t: Token| shift_token(t, k))),
        Err(e) => Err(LexError { ch: e.ch, offset: (e.offset + k) as usize }),
    }
}

/// Whitespace skipping passes through a stretch of spaces unchanged.
proof fn lemma_skip_ws_through_spaces(src: Seq<char>, i: int, j: int)
    requires
        0 <= i <= j <= src.len(),
        forall|m: int| i <= m < j ==> is_space_char(#[trigger] src[m]),
    ensures
        skip_ws(src, i) == skip_ws(src, j),
    decreases j - i,
{
    if i < j {
        lemma_skip_ws_through_spaces(src, i + 1, j);
    }
}

/// Two cursor positions with the same whitespace-skipped position tokenize
/// the rest of the source identically.
proof fn lemma_tokens_from_same_skip(src: Seq<char>, i: nat, j: nat)
    requires
        i <= src.len(),
        j <= src.len(),
        skip_ws(src, i as int) == skip_ws(src, j as int),
    ensures
        tokens_from(src, i) == tokens_from(src, j),
{
    assert(next_token_spec(src, i) == next_token_spec(src, j));
}

/// Skipping spaces in a source with `k` spaces prepended lands `k` to the
/// right of where it lands in the bare source.
proof fn lemma_skip_ws_shift(src: Seq<char>, k: nat, i: int)
    requires
        0 <= i <= src.len(),
    ensures
        skip_ws(spaces(k) + src, k + i) == k + skip_ws(src, i),
    decreases src.len() - i,
{
    let padded = spaces(k) + src;
    if i < src.len() {
        assert(padded[k + i] == src[i]);
        if is_space_char(src[i]) {
            lemma_skip_ws_shift(src, k, i + 1);
        }
    }
}

/// A digit run in a source with `k` spaces prepended ends `k` to the right
/// of where it ends in the bare source.
proof fn lemma_digit_run_shift(src: Seq<char>, k: nat, i: int)
    requires
        0 <= i <= src.len(),
    ensures
        digit_run_end(spaces(k) + src, k + i) == k + digit_run_end(src, i),
    decreases src.len() - i,
{
    let padded = spaces(k) + src;
    if i < src.len() {
        assert(padded[k + i] == src[i]);
        if is_digit_char(src[i]) {
            lemma_digit_run_shift(src, k, i + 1);
        }
    }
}

/// A letter run in a source with `k` spaces prepended ends `k` to the right
/// of where it ends in the bare source.
proof fn lemma_alpha_run_shift(src: Seq<char>, k: nat, i: int)
    requires
        0 <= i <= src.len(),
    ensures
        alpha_run_end(spaces(k) + src, k + i) == k + alpha_run_end(src, i),
    decreases src.len() - i,
{
    let padded = spaces(k) + src;
    if i < src.len() {
        assert(padded[k + i] == src[i]);
        if is_alpha_char(src[i]) {
            lemma_alpha_run_shift(src, k, i + 1);
        }
    }
}

/// Tokenizing a source with `k` spaces prepended, from `k` past any cursor,
/// yields the bare source's outcome with every offset moved right by `k`.
proof fn lemma_tokens_from_shift(src: Seq<char>, k: nat, i: nat)
    requires
        i <= src.len(),
        k + src.len() <= usize::MAX,
    ensures
        tokens_from(spaces(k) + src, (k + i) as nat) == shift_outcome(tokens_from(src, i), k),
    decreases src.len() - i,
{
    let padded = spaces(k) + src;
    lemma_skip_ws(src, i as int);
    lemma_skip_ws_shift(src, k, i as int);
    let s = skip_ws(src, i as int);
    assert(skip_ws(padded, k + i as int) == k + s);
    if s >= src.len() {
        assert(tokens_from(src, i) == Ok::<Seq<Token>, LexError>(Seq::<Token>::empty()));
        assert(tokens_from(padded, (k + i) as nat) == Ok::<Seq<Token>, LexError>(
            Seq::<Token>::empty(),
        ));
        assert(Seq::<Token>::empty().map_values(|t: Token| shift_token(t, k)) =~= Seq::<
            Token,
        >::empty());
    } else {
        assert(padded[k + s] == src[s]);
        let c = src[s];
        lemma_digit_run_shift(src, k, s);
        lemma_alpha_run_shift(src, k, s);
        lemma_digit_run_end(src, s);
        lemma_alpha_run_end(src, s);
        let (step, j) = next_token_spec(src, i);
        let (step_p, j_p) = next_token_spec(padded, (k + i) as nat);
        if step is Err {
            assert(step_p == Err::<Option<Token>, LexError>(
                LexError { ch: c, offset: (k + s) as usize },
            ));
        } else {
            let t = step->Ok_0->Some_0;
            assert(j_p == k + j);
            assert(step_p->Ok_0->Some_0 == shift_token(t, k));
            lemma_tokens_from_shift(src, k, j);
            match tokens_from(src, j) {
                Ok(rest) => {
                    assert((seq![t] + rest).map_values(|x: Token| shift_token(x, k)) =~= seq![
                        shift_token(t, k),
                    ] + rest.map_values(|x: Token| shift_token(x, k)));
                },
                Err(_) => {},
            }
        }
    }
}

/// Leading whitespace is transparent to offsets: prepending `k` spaces to
/// any source leaves the token sequence unchanged except that every offset
/// moves right by exactly `k` — as if offsets were recomputed against the
/// padded string.
pub proof fn lemma_leading_spaces_shift_offsets(src: Seq<char>, k: nat)
    requires
        k + src.len() <= usize::MAX,
    ensures
        tokens_from(spaces(k) + src, 0) == shift_outcome(tokens_from(src, 0), k),
{
    let padded = spaces(k) + src;
    assert(forall|m: int| 0 <= m < k ==> is_space_char(#[trigger] padded[m]));
    lemma_skip_ws_through_spaces(padded, 0, k as int);
    lemma_tokens_from_same_skip(padded, 0, k);
    lemma_tokens_from_shift(src, k, 0);
}

/// Skipping spaces ignores appended trailing spaces, except that a cursor
/// that would reach the old end now reaches the new end.
proof fn lemma_skip_ws_ext(src: Seq<char>, k: nat, i: int)
    requires
        0 <= i <= src.len(),
    ensures
        skip_ws(src, i) < src.len() ==> skip_ws(src + spaces(k), i) == skip_ws(src, i),
        skip_ws(src, i) == src.len() ==> skip_ws(src + spaces(k), i) == src.len() + k,
    decreases src.len() - i,
{
    let ext = src + spaces(k);
    if i < src.len() {
        assert(ext[i] == src[i]);
        if is_space_char(src[i]) {
            lemma_skip_ws_ext(src, k, i + 1);
        }
    } else {
        assert(forall|m: int| src.len() <= m < ext.len() ==> is_space_char(#[trigger] ext[m]));
        lemma_skip_ws_through_spaces(ext, i, ext.len() as int);
    }
}

/// A digit run within the source is unaffected by appended trailing spaces.
proof fn lemma_digit_run_ext(src: Seq<char>, k: nat, i: int)
    requires
        0 <= i <= src.len(),
    ensures
        digit_run_end(src + spaces(k), i) == digit_run_end(src, i),
    decreases src.len() - i,
{
    let ext = src + spaces(k);
    if i < src.len() {
        assert(ext[i] == src[i]);
        if is_digit_char(src[i]) {
            lemma_digit_run_ext(src, k, i + 1);
        }
    } else {
        if i < ext.len() {
            assert(ext[i] == ' ');
            assert(!is_digit_char(ext[i]));
        }
    }
}

/// A letter run within the source is unaffected by appended trailing spaces.
proof fn lemma_alpha_run_ext(src: Seq<char>, k: nat, i: int)
    requires
        0 <= i <= src.len(),
    ensures
        alpha_run_end(src + spaces(k), i) == alpha_run_end(src, i),
    decreases src.len() - i,
{
    let ext = src + spaces(k);
    if i < src.len() {
        assert(ext[i] == src[i]);
        if is_alpha_char(src[i]) {
            lemma_alpha_run_ext(src, k, i + 1);
        }
    } else {
        if i < ext.len() {
            assert(ext[i] == ' ');
            assert(!is_alpha_char(ext[i]));
        }
    }
}

/// Tokenizing a source with `k` spaces appended yields exactly the bare
/// source's outcome, offsets included.
proof fn lemma_tokens_from_ext(src: Seq<char>, k: nat, i: nat)
    requires
        i <= src.len(),
    ensures
        tokens_from(src + spaces(k), i) == tokens_from(src, i),
    decreases src.len() - i,
{
    let ext = src + spaces(k);
    lemma_skip_ws(src, i as int);
    lemma_skip_ws_ext(src, k, i as int);
    let s = skip_ws(src, i as int);
    if s >= src.len() {
        assert(skip_ws(ext, i as int) == ext.len());
        assert(tokens_from(src, i) == Ok::<Seq<Token>, LexError>(Seq::<Token>::empty()));
        assert(tokens_from(ext, i) == Ok::<Seq<Token>, LexError>(Seq::<Token>::empty()));
    } else {
        assert(ext[s] == src[s]);
        lemma_digit_run_ext(src, k, s);
        lemma_alpha_run_ext(src, k, s);
        lemma_digit_run_end(src, s);
        lemma_alpha_run_end(src, s);
        let (step, j) = next_token_spec(src, i);
        assert(next_token_spec(ext, i) == (step, j));
        if step is Ok && step->Ok_0 is Some {
            lemma_next_token_advances(src, i);
            lemma_tokens_from_ext(src, k, j);
        }
    }
}

/// Trailing whitespace is transparent: appending `k` spaces to any source
/// leaves the tokenization outcome exactly unchanged.
pub proof fn lemma_trailing_spaces_ignored(src: Seq<char>, k: nat)
    ensures
        tokens_from(src + spaces(k), 0) == tokens_from(src, 0),
{
    lemma_tokens_from_ext(src, k, 0);
}

/// Re-tokenizing identical source text from a fresh cursor always yields an
/// identical result: tokenization is a pure function of the source text, with
/// no hidden state affecting it.
pub proof fn lemma_tokenization_deterministic(
    src: Seq<char>,
    r1: Result<Seq<Token>, LexError>,
    r2: Result<Seq<Token>, LexError>,
)
    requires
        r1 == tokens_from(src, 0),
        r2 == tokens_from(src, 0),
    ensures
        r1 == r2,
{
}

} // verus!
