//! Tokenizer for the arithmetic front end.
//!
//! The lexer scans a source string left to right and hands out one token per
//! call. A token is a span descriptor `{kind, start, length}` over the source;
//! it never owns text. Offsets and lengths are measured in characters, the
//! unit by which every consumer of a span re-slices the original source.
//! Plain spaces are skipped before each token; a character that is neither a
//! space, a digit, a basic Latin letter nor one of `+ - * / ( )` is reported
//! as a structured [`LexError`] rather than being accepted.

use vstd::prelude::*;
use vstd::string::StrSliceExecFns;

verus! {

/// The closed set of token classifications.
#[derive(Debug, PartialEq, Eq, Structural, Clone, Copy)]
pub enum Kind {
    Add,
    Sub,
    Mul,
    Div,
    Num,
    Ident,
    LParen,
    RParen,
}

/// The bracketed class name of a kind, as shown in diagnostic output:
/// operators and parentheses by name, `Num` and `Ident` as the generic
/// `[TOKEN]`.
pub open spec fn kind_label(k: Kind) -> Seq<char> {
    match k {
        Kind::Add => ("[ADD]")@,
        Kind::Sub => ("[SUB]")@,
        Kind::Mul => ("[MUL]")@,
        Kind::Div => ("[DIV]")@,
        Kind::LParen => ("[LPAREN]")@,
        Kind::RParen => ("[RPAREN]")@,
        _ => ("[TOKEN]")@,
    }
}

impl Kind {
    /// The bracketed class name of this kind, for diagnostic output.
    pub fn label(&self) -> (out: &'static str)
        ensures
            out@ == kind_label(*self),
    {
        match self {
            Kind::Add => "[ADD]",
            Kind::Sub => "[SUB]",
            Kind::Mul => "[MUL]",
            Kind::Div => "[DIV]",
            Kind::LParen => "[LPAREN]",
            Kind::RParen => "[RPAREN]",
            _ => "[TOKEN]",
        }
    }
}

/// A classified span over the source text: `[start, start + length)`.
///
/// Tokens are value types: two tokens are equal exactly when kind, start and
/// length all match. A token is constructed once by the lexer and never
/// mutated afterwards.
#[derive(Debug, PartialEq, Eq, Structural, Clone, Copy)]
pub struct Token {
    pub kind: Kind,
    pub start: usize,
    pub length: usize,
}

impl Token {
    /// Builds the span descriptor from its three fields.
    pub fn new(kind: Kind, start: usize, length: usize) -> (t: Token)
        ensures
            t == (Token { kind, start, length }),
    {
        Token { kind, start, length }
    }
}

/// The source text a token spans: `src[start .. start + length]`.
pub open spec fn token_text(src: Seq<char>, t: Token) -> Seq<char> {
    src.subrange(t.start as int, t.start + t.length)
}

/// The token's span lies within a source of length `n`.
pub open spec fn token_within(t: Token, n: int) -> bool {
    t.start + t.length <= n
}

/// Every token of the sequence spans within a source of length `n`.
pub open spec fn tokens_within(ts: Seq<Token>, n: int) -> bool {
    forall|i: int| 0 <= i < ts.len() ==> token_within(#[trigger] ts[i], n)
}

/// A character the lexer cannot classify, together with its offset.
#[derive(Debug, PartialEq, Eq, Structural, Clone, Copy)]
pub struct LexError {
    pub ch: char,
    pub offset: usize,
}

/// The one whitespace character the lexer skips.
pub open spec fn is_space_char(c: char) -> bool {
    c == ' '
}

/// Decimal digit, `'0'` through `'9'`.
pub open spec fn is_digit_char(c: char) -> bool {
    '0' as u32 <= c as u32 && c as u32 <= '9' as u32
}

/// Basic Latin letter, the alphabetic classification this lexer recognizes.
pub open spec fn is_alpha_char(c: char) -> bool {
    ('a' as u32 <= c as u32 && c as u32 <= 'z' as u32) || ('A' as u32 <= c as u32 && c as u32
        <= 'Z' as u32)
}

/// The kind of a one-character operator or parenthesis, if `c` is one.
pub open spec fn symbol_kind(c: char) -> Option<Kind> {
    if c == '+' {
        Some(Kind::Add)
    } else if c == '-' {
        Some(Kind::Sub)
    } else if c == '*' {
        Some(Kind::Mul)
    } else if c == '/' {
        Some(Kind::Div)
    } else if c == '(' {
        Some(Kind::LParen)
    } else if c == ')' {
        Some(Kind::RParen)
    } else {
        None
    }
}

/// First position at or after `i` that is not a plain space (or the end).
pub open spec fn skip_ws(src: Seq<char>, i: int) -> int
    decreases src.len() - i,
{
    if 0 <= i < src.len() && is_space_char(src[i]) {
        skip_ws(src, i + 1)
    } else {
        i
    }
}

/// First position at or after `i` that is not a decimal digit (or the end).
pub open spec fn digit_run_end(src: Seq<char>, i: int) -> int
    decreases src.len() - i,
{
    if 0 <= i < src.len() && is_digit_char(src[i]) {
        digit_run_end(src, i + 1)
    } else {
        i
    }
}

/// First position at or after `i` that is not alphabetic (or the end).
pub open spec fn alpha_run_end(src: Seq<char>, i: int) -> int
    decreases src.len() - i,
{
    if 0 <= i < src.len() && is_alpha_char(src[i]) {
        alpha_run_end(src, i + 1)
    } else {
        i
    }
}

/// One lexer step from cursor `i`: the outcome and the new cursor.
///
/// After skipping spaces the step either ends the sequence, yields a
/// one-character operator or parenthesis token, greedily extends a digit run
/// into a `Num` token or a letter run into an `Ident` token, or reports the
/// offending character.
pub open spec fn next_token_spec(src: Seq<char>, i: nat) -> (Result<Option<Token>, LexError>, nat) {
    let s = skip_ws(src, i as int);
    if s >= src.len() {
        (Ok(None), s as nat)
    } else {
        let c = src[s];
        if symbol_kind(c) is Some {
            (
                Ok(Some(Token { kind: symbol_kind(c)->Some_0, start: s as usize, length: 1 })),
                (s + 1) as nat,
            )
        } else if is_digit_char(c) {
            let e = digit_run_end(src, s);
            (
                Ok(Some(Token { kind: Kind::Num, start: s as usize, length: (e - s) as usize })),
                e as nat,
            )
        } else if is_alpha_char(c) {
            let e = alpha_run_end(src, s);
            (
                Ok(Some(Token { kind: Kind::Ident, start: s as usize, length: (e - s) as usize })),
                e as nat,
            )
        } else {
            (Err(LexError { ch: c, offset: s as usize }), s as nat)
        }
    }
}

/// Executable decimal-digit test.
pub fn digit_char(c: char) -> (b: bool)
    ensures
        b == is_digit_char(c),
{
    let u = c as u32;
    '0' as u32 <= u && u <= '9' as u32
}

/// Executable basic-Latin-letter test.
pub fn alpha_char(c: char) -> (b: bool)
    ensures
        b == is_alpha_char(c),
{
    let u = c as u32;
    ('a' as u32 <= u && u <= 'z' as u32) || ('A' as u32 <= u && u <= 'Z' as u32)
}

/// Position and character bounds for [`skip_ws`].
pub proof fn lemma_skip_ws(src: Seq<char>, i: int)
    requires
        0 <= i <= src.len(),
    ensures
        i <= skip_ws(src, i) <= src.len(),
        skip_ws(src, i) < src.len() ==> !is_space_char(src[skip_ws(src, i)]),
        forall|k: int| i <= k < skip_ws(src, i) ==> is_space_char(src[k]),
    decreases src.len() - i,
{
    if i < src.len() && is_space_char(src[i]) {
        lemma_skip_ws(src, i + 1);
    }
}

/// Position and character bounds for [`digit_run_end`].
pub proof fn lemma_digit_run_end(src: Seq<char>, i: int)
    requires
        0 <= i <= src.len(),
    ensures
        i <= digit_run_end(src, i) <= src.len(),
        digit_run_end(src, i) < src.len() ==> !is_digit_char(src[digit_run_end(src, i)]),
        forall|k: int| i <= k < digit_run_end(src, i) ==> is_digit_char(src[k]),
        i < src.len() && is_digit_char(src[i]) ==> digit_run_end(src, i) >= i + 1,
    decreases src.len() - i,
{
    if i < src.len() && is_digit_char(src[i]) {
        lemma_digit_run_end(src, i + 1);
    }
}

/// Position and character bounds for [`alpha_run_end`].
pub proof fn lemma_alpha_run_end(src: Seq<char>, i: int)
    requires
        0 <= i <= src.len(),
    ensures
        i <= alpha_run_end(src, i) <= src.len(),
        alpha_run_end(src, i) < src.len() ==> !is_alpha_char(src[alpha_run_end(src, i)]),
        forall|k: int| i <= k < alpha_run_end(src, i) ==> is_alpha_char(src[k]),
        i < src.len() && is_alpha_char(src[i]) ==> alpha_run_end(src, i) >= i + 1,
    decreases src.len() - i,
{
    if i < src.len() && is_alpha_char(src[i]) {
        lemma_alpha_run_end(src, i + 1);
    }
}

/// One lexer step advances the cursor past at least one character whenever it
/// yields a token, and never runs past the end.
pub proof fn lemma_next_token_advances(src: Seq<char>, i: nat)
    requires
        i <= src.len(),
    ensures
        ({
            let (r, j) = next_token_spec(src, i);
            &&& i <= j <= src.len()
            &&& (r is Ok && r->Ok_0 is Some ==> j >= i + 1)
        }),
{
    lemma_skip_ws(src, i as int);
    let s = skip_ws(src, i as int);
    if s < src.len() {
        lemma_digit_run_end(src, s);
        lemma_alpha_run_end(src, s);
    }
}

/// A token yielded by one lexer step spans `[start, start + length)` with the
/// new cursor at its end, entirely at or after the old cursor.
pub proof fn lemma_next_token_span(src: Seq<char>, i: nat)
    requires
        i <= src.len(),
        src.len() <= usize::MAX,
    ensures
        ({
            let (r, j) = next_token_spec(src, i);
            r is Ok && r->Ok_0 is Some ==> {
                let t = r->Ok_0->Some_0;
                &&& i <= t.start
                &&& t.start + t.length == j
                &&& t.length >= 1
            }
        }),
{
    lemma_skip_ws(src, i as int);
    let s = skip_ws(src, i as int);
    if s < src.len() {
        lemma_digit_run_end(src, s);
        lemma_alpha_run_end(src, s);
    }
}

/// The whole token sequence from cursor `i` to the end of the source, or the
/// first lexical error encountered.
pub open spec fn tokens_from(src: Seq<char>, i: nat) -> Result<Seq<Token>, LexError>
    decreases src.len() - i,
    when i <= src.len()
{
    let (step, j) = next_token_spec(src, i);
    match step {
        Ok(None) => Ok(Seq::<Token>::empty()),
        Ok(Some(t)) => {
            proof {
                lemma_next_token_advances(src, i);
            }
            match tokens_from(src, j) {
                Ok(rest) => Ok(seq![t] + rest),
                Err(e) => Err(e),
            }
        },
        Err(e) => Err(e),
    }
}

/// Every token the lexer produces spans within the source: offsets and
/// lengths are exact position arithmetic, and a span never runs past the end.
pub proof fn lemma_tokens_from_within(src: Seq<char>, i: nat)
    requires
        i <= src.len(),
        src.len() <= usize::MAX,
    ensures
        tokens_from(src, i) is Ok ==> tokens_within(tokens_from(src, i)->Ok_0, src.len() as int),
    decreases src.len() - i,
{
    let (step, j) = next_token_spec(src, i);
    lemma_next_token_advances(src, i);
    lemma_next_token_span(src, i);
    match step {
        Ok(None) => {},
        Ok(Some(t)) => {
            lemma_tokens_from_within(src, j);
            match tokens_from(src, j) {
                Ok(rest) => {
                    assert(tokens_from(src, i) == Ok::<Seq<Token>, LexError>(seq![t] + rest));
                    assert forall|k: int| 0 <= k < (seq![t] + rest).len() implies token_within(
                        #[trigger] (seq![t] + rest)[k],
                        src.len() as int,
                    ) by {
                        if k == 0 {
                            assert((seq![t] + rest)[0] == t);
                        } else {
                            assert((seq![t] + rest)[k] == rest[k - 1]);
                        }
                    }
                },
                Err(_) => {},
            }
        },
        Err(_) => {},
    }
}

/// A restartable cursor over a borrowed source string.
///
/// The lexer holds only the cursor `ix` (a character offset) and the source;
/// it is cheap to construct, and a fresh instance is the way to re-scan from
/// the start.
#[derive(Clone, Copy)]
pub struct Lexer<'src> {
    pub ix: usize,
    pub src: &'src str,
}

impl<'src> Lexer<'src> {
    /// The cursor stays within the source.
    pub open spec fn wf(self) -> bool {
        self.ix <= self.src@.len()
    }

    /// A fresh lexer with the cursor at the start of `src`.
    pub fn new(src: &'src str) -> (lx: Lexer<'src>)
        ensures
            lx.src@ == src@,
            lx.ix == 0,
            lx.wf(),
    {
        Lexer { ix: 0, src }
    }

    /// Advances the cursor past consecutive plain spaces.
    fn skip_whitespace(&mut self)
        requires
            old(self).wf(),
        ensures
            final(self).src == old(self).src,
            final(self).ix == skip_ws(old(self).src@, old(self).ix as int),
            final(self).wf(),
    {
        let n = self.src.unicode_len();
        proof {
            lemma_skip_ws(self.src@, self.ix as int);
        }
        while self.ix < n && self.src.get_char(self.ix) == ' '
            invariant
                self.src == old(self).src,
                n == self.src@.len(),
                self.ix <= n,
                skip_ws(self.src@, self.ix as int) == skip_ws(old(self).src@, old(self).ix as int),
            decreases n - self.ix,
        {
            self.ix = self.ix + 1;
        }
    }

    /// Produces the next token, `Ok(None)` at the end of the source, or the
    /// first unclassifiable character as a [`LexError`]. Exactly one step of
    /// [`next_token_spec`]: the result and the new cursor are a function of
    /// the source and the old cursor alone.
    pub fn next(&mut self) -> (r: Result<Option<Token>, LexError>)
        requires
            old(self).wf(),
        ensures
            final(self).src == old(self).src,
            final(self).wf(),
            ({
                let (r0, j) = next_token_spec(old(self).src@, old(self).ix as nat);
                r == r0 && final(self).ix == j
            }),
    {
        proof {
            lemma_next_token_advances(self.src@, self.ix as nat);
        }
        self.skip_whitespace();
        let n = self.src.unicode_len();
        if self.ix >= n {
            return Ok(None);
        }
        let start = self.ix;
        let c = self.src.get_char(start);
        if c == '+' {
            self.ix = start + 1;
            Ok(Some(Token::new(Kind::Add, start, 1)))
        } else if c == '-' {
            self.ix = start + 1;
            Ok(Some(Token::new(Kind::Sub, start, 1)))
        } else if c == '*' {
            self.ix = start + 1;
            Ok(Some(Token::new(Kind::Mul, start, 1)))
        } else if c == '/' {
            self.ix = start + 1;
            Ok(Some(Token::new(Kind::Div, start, 1)))
        } else if c == '(' {
            self.ix = start + 1;
            Ok(Some(Token::new(Kind::LParen, start, 1)))
        } else if c == ')' {
            self.ix = start + 1;
            Ok(Some(Token::new(Kind::RParen, start, 1)))
        } else if digit_char(c) {
            let end = self.scan_digits(n);
            Ok(Some(Token::new(Kind::Num, start, end - start)))
        } else if alpha_char(c) {
            let end = self.scan_alpha(n);
            Ok(Some(Token::new(Kind::Ident, start, end - start)))
        } else {
            Err(LexError { ch: c, offset: start })
        }
    }

    /// Advances the cursor to the end of the digit run beginning at it.
    fn scan_digits(&mut self, n: usize) -> (end: usize)
        requires
            old(self).wf(),
            n == old(self).src@.len(),
            old(self).ix < n,
            is_digit_char(old(self).src@[old(self).ix as int]),
        ensures
            final(self).src == old(self).src,
            final(self).ix == end,
            end == digit_run_end(old(self).src@, old(self).ix as int),
            end >= old(self).ix,
            final(self).wf(),
    {
        proof {
            lemma_digit_run_end(self.src@, self.ix as int);
        }
        while self.ix < n && digit_char(self.src.get_char(self.ix))
            invariant
                self.src == old(self).src,
                n == self.src@.len(),
                self.ix <= n,
                digit_run_end(self.src@, self.ix as int) == digit_run_end(
                    old(self).src@,
                    old(self).ix as int,
                ),
            decreases n - self.ix,
        {
            self.ix = self.ix + 1;
        }
        self.ix
    }

    /// Advances the cursor to the end of the letter run beginning at it.
    fn scan_alpha(&mut self, n: usize) -> (end: usize)
        requires
            old(self).wf(),
            n == old(self).src@.len(),
            old(self).ix < n,
            is_alpha_char(old(self).src@[old(self).ix as int]),
        ensures
            final(self).src == old(self).src,
            final(self).ix == end,
            end == alpha_run_end(old(self).src@, old(self).ix as int),
            end >= old(self).ix,
            final(self).wf(),
    {
        proof {
            lemma_alpha_run_end(self.src@, self.ix as int);
        }
        while self.ix < n && alpha_char(self.src.get_char(self.ix))
            invariant
                self.src == old(self).src,
                n == self.src@.len(),
                self.ix <= n,
                alpha_run_end(self.src@, self.ix as int) == alpha_run_end(
                    old(self).src@,
                    old(self).ix as int,
                ),
            decreases n - self.ix,
        {
            self.ix = self.ix + 1;
        }
        self.ix
    }

    /// Scans the rest of the source into a vector of tokens, or reports the
    /// first lexical error. Consumes the cursor's remaining input.
    pub fn tokenize(&mut self) -> (r: Result<Vec<Token>, LexError>)
        requires
            old(self).wf(),
        ensures
            final(self).src == old(self).src,
            ({
                match tokens_from(old(self).src@, old(self).ix as nat) {
                    Ok(ts) => r is Ok && r->Ok_0@ == ts,
                    Err(e) => r == Err::<Vec<Token>, LexError>(e),
                }
            }),
            r is Ok ==> tokens_within(r->Ok_0@, old(self).src@.len() as int),
    {
        let ghost src = self.src@;
        let ghost i0 = self.ix as nat;
        let _src_len = self.src.unicode_len();
        proof {
            lemma_tokens_from_within(src, i0);
        }
        let mut acc: Vec<Token> = Vec::new();
        proof {
            match tokens_from(src, i0) {
                Ok(rest) => {
                    assert(Seq::<Token>::empty() + rest =~= rest);
                },
                Err(_) => {},
            }
        }
        loop
            invariant
                self.wf(),
                self.src == old(self).src,
                self.src@ == src,
                src == old(self).src@,
                i0 == old(self).ix as nat,
                i0 <= src.len(),
                tokens_from(src, i0) is Ok ==> tokens_within(
                    tokens_from(src, i0)->Ok_0,
                    src.len() as int,
                ),
                ({
                    match tokens_from(src, self.ix as nat) {
                        Ok(rest) => tokens_from(src, i0) == Ok::<Seq<Token>, LexError>(
                            acc@ + rest,
                        ),
                        Err(e) => tokens_from(src, i0) == Err::<Seq<Token>, LexError>(e),
                    }
                }),
            decreases src.len() - self.ix,
        {
            let ghost i = self.ix as nat;
            proof {
                lemma_next_token_advances(src, i);
            }
            match self.next() {
                Ok(None) => {
                    proof {
                        assert(tokens_from(src, i) == Ok::<Seq<Token>, LexError>(
                            Seq::<Token>::empty(),
                        ));
                        assert(acc@ + Seq::<Token>::empty() =~= acc@);
                        assert(tokens_from(src, i0) == Ok::<Seq<Token>, LexError>(acc@));
                    }
                    return Ok(acc);
                },
                Ok(Some(t)) => {
                    proof {
                        let (step, j) = next_token_spec(src, i);
                        match tokens_from(src, j) {
                            Ok(rest) => {
                                assert(tokens_from(src, i) == Ok::<Seq<Token>, LexError>(
                                    seq![t] + rest,
                                ));
                                assert(acc@.push(t) + rest =~= acc@ + (seq![t] + rest));
                            },
                            Err(_) => {},
                        }
                    }
                    acc.push(t);
                },
                Err(e) => {
                    proof {
                        assert(tokens_from(src, i) == Err::<Seq<Token>, LexError>(e));
                        assert(tokens_from(src, i0) == Err::<Seq<Token>, LexError>(e));
                    }
                    return Err(e);
                },
            }
        }
    }
}

/// A token paired with the source it spans, for recovering the literal text.
///
/// A token never owns text; a consumer re-slices the original source with the
/// token's span. This pairing does exactly that.
#[derive(Debug)]
pub struct DisplayToken<'src, 'tok> {
    pub src: &'src str,
    pub token: &'tok Token,
}

impl<'src, 'tok> DisplayToken<'src, 'tok> {
    /// Pairs a token with the source it was scanned from.
    pub fn new(src: &'src str, token: &'tok Token) -> (d: DisplayToken<'src, 'tok>)
        ensures
            d.src == src,
            d.token == token,
    {
        DisplayToken { src, token }
    }

    /// The text the token spans, sliced out of the source.
    pub fn render(&self) -> (out: String)
        requires
            self.token.start + self.token.length <= self.src@.len(),
        ensures
            out@ == token_text(self.src@, *self.token),
    {
        let _src_len = self.src.unicode_len();
        let text = self.src.substring_char(self.token.start, self.token.start + self.token.length);
        text.to_owned()
    }
}

} // verus!
