//! Parser for the arithmetic front end.
//!
//! A recursive-descent parser with precedence climbing consumes the token
//! sequence with one token of lookahead and stores every expression node in a
//! single append-only arena, the [`AstPool`], returning plain indices
//! ([`AstRef`]) instead of owning references. Children are always pushed
//! before the parent that references them, so every stored index points
//! strictly below its owner's slot. After a full parse the pool's last entry
//! is the root of the most recently completed top-level expression; earlier
//! top-level expressions remain in the pool as unreachable subtrees, which is
//! intentional arena behavior rather than a leak.
//!
//! Operators of equal precedence associate left to right: the operator loop
//! folds them in place and recurses only to absorb tighter-binding operators
//! on the right. Each parenthesized group requires and consumes its own
//! closing parenthesis; a group left unclosed is reported as a structured
//! [`ParseError`] rather than being silently tolerated.

use crate::lex::{token_text, token_within, tokens_within, Kind, Token};
use vstd::prelude::*;
use vstd::string::{StrSliceExecFns, StringExecFns};

verus! {

/// An opaque index into an [`AstPool`]. It is only meaningful relative to the
/// pool that produced it.
#[derive(Debug, PartialEq, Eq, Structural, Clone, Copy)]
pub struct AstRef(pub usize);

/// An expression node: a leaf holding a literal or identifier token, or a
/// binary operation holding the indices of its operand subtrees together with
/// the operator's token.
#[derive(Debug, PartialEq, Eq, Structural, Clone, Copy)]
pub enum AstExpr {
    Literal(Token),
    BinOp(AstRef, Token, AstRef),
}

/// A structural fault of the token sequence the parser cannot build a tree
/// from.
#[derive(Debug, PartialEq, Eq, Structural, Clone, Copy)]
pub enum ParseError {
    /// An opening parenthesis (the carried token) whose group is not followed
    /// by its matching closing parenthesis.
    UnclosedGroup(Token),
}

/// Binding strength of the binary operators, ordered
/// `LOWEST < ADDSUB < MULDIV`. Used only for comparison.
#[allow(non_camel_case_types)]
#[derive(Debug, PartialEq, Eq, Structural, PartialOrd, Ord, Clone, Copy)]
pub enum Precedence {
    LOWEST,
    ADDSUB,
    MULDIV,
}

/// Numeric rank realizing the order `LOWEST < ADDSUB < MULDIV`.
pub open spec fn prec_rank(p: Precedence) -> int {
    match p {
        Precedence::LOWEST => 0,
        Precedence::ADDSUB => 1,
        Precedence::MULDIV => 2,
    }
}

/// The precedence class of an operator kind, `None` for non-operators.
pub open spec fn op_precedence(k: Kind) -> Option<Precedence> {
    match k {
        Kind::Add | Kind::Sub => Some(Precedence::ADDSUB),
        Kind::Mul | Kind::Div => Some(Precedence::MULDIV),
        _ => None,
    }
}

/// Whether `k` is one of the four binary operator kinds.
pub open spec fn is_op_kind(k: Kind) -> bool {
    op_precedence(k) is Some
}

/// The precedence class of a token, `None` when it is not an operator.
pub fn get_precedence(token: &Token) -> (r: Option<Precedence>)
    ensures
        r == op_precedence(token.kind),
{
    match token.kind {
        Kind::Add | Kind::Sub => Some(Precedence::ADDSUB),
        Kind::Mul | Kind::Div => Some(Precedence::MULDIV),
        _ => None,
    }
}

/// Whether the token is one of the four binary operators.
pub fn is_operator(token: &Token) -> (r: bool)
    ensures
        r == is_op_kind(token.kind),
{
    match token.kind {
        Kind::Add | Kind::Sub | Kind::Mul | Kind::Div => true,
        _ => false,
    }
}

/// Executable precedence rank, for comparisons.
fn rank(p: Precedence) -> (r: u8)
    ensures
        r as int == prec_rank(p),
{
    match p {
        Precedence::LOWEST => 0,
        Precedence::ADDSUB => 1,
        Precedence::MULDIV => 2,
    }
}

/// A node references only slots strictly below `n`.
pub open spec fn expr_wf(e: AstExpr, n: int) -> bool {
    match e {
        AstExpr::Literal(_) => true,
        AstExpr::BinOp(l, _, r) => l.0 < n && r.0 < n,
    }
}

/// Every node in the pool references only slots strictly below its own, so
/// every stored index is valid and the reference graph is acyclic.
pub open spec fn pool_wf(pool: Seq<AstExpr>) -> bool {
    forall|i: int| 0 <= i < pool.len() ==> expr_wf(#[trigger] pool[i], i)
}

/// The token carried directly by the node spans within a source of length `n`.
pub open spec fn expr_within(e: AstExpr, n: int) -> bool {
    match e {
        AstExpr::Literal(t) => token_within(t, n),
        AstExpr::BinOp(_, op, _) => token_within(op, n),
    }
}

/// Every token carried by a pool node spans within a source of length `n`.
pub open spec fn pool_within(pool: Seq<AstExpr>, n: int) -> bool {
    forall|i: int| 0 <= i < pool.len() ==> expr_within(#[trigger] pool[i], n)
}

/// The cursor position the parser continues from, bounded so that it is
/// evidently past `pos` and within the token sequence. For every position the
/// parser actually produces the bounds never bind (see
/// [`lemma_parse_expr_props`]), so this is the inner parse's own end position.
pub open spec fn advance_bound(pos: nat, j: nat, len: nat) -> nat {
    if j <= pos {
        if pos + 1 <= len {
            (pos + 1) as nat
        } else {
            len
        }
    } else if j > len {
        len
    } else {
        j
    }
}

/// The operator-extension loop of the parser, from lookahead position `pos`
/// with current left-hand side `lhs`: a non-operator (a closing parenthesis
/// included) stops the loop without being consumed; an operator whose
/// precedence does not exceed `prec` is left for an outer frame; otherwise
/// the left-hand side is pushed, the right-hand side is parsed at the
/// operator's own precedence — absorbing only tighter-binding operators, so
/// equal precedence folds left to right in this loop — and pushed, and the
/// loop continues with the new `BinOp` node as left-hand side. Yields the
/// resulting expression (`Ok(None)` when the right-hand side parse ran out of
/// tokens, an error when a group in it was left unclosed), the new position,
/// and the grown pool.
pub open spec fn parse_loop_spec(
    toks: Seq<Token>,
    pos: nat,
    prec: Precedence,
    lhs: AstExpr,
    pool: Seq<AstExpr>,
) -> (Result<Option<AstExpr>, ParseError>, nat, Seq<AstExpr>)
    decreases toks.len() - pos,
{
    if pos >= toks.len() {
        (Ok(Some(lhs)), pos, pool)
    } else {
        let t = toks[pos as int];
        if !is_op_kind(t.kind) {
            (Ok(Some(lhs)), pos, pool)
        } else {
            let oprec = op_precedence(t.kind)->Some_0;
            if prec_rank(oprec) <= prec_rank(prec) {
                (Ok(Some(lhs)), pos, pool)
            } else {
                let lhs_ix = pool.len();
                let inner = parse_expr_spec(toks, (pos + 1) as nat, oprec, pool.push(lhs));
                match inner.0 {
                    Err(e) => (Err(e), inner.1, inner.2),
                    Ok(None) => (Ok(None), inner.1, inner.2),
                    Ok(Some(rhs)) => {
                        let rhs_ix = inner.2.len();
                        let node = AstExpr::BinOp(
                            AstRef(lhs_ix as usize),
                            t,
                            AstRef(rhs_ix as usize),
                        );
                        parse_loop_spec(
                            toks,
                            advance_bound(pos, inner.1, toks.len()),
                            prec,
                            node,
                            inner.2.push(rhs),
                        )
                    },
                }
            }
        }
    }
}

/// One expression parse from `pos` at minimum precedence `prec`: with no
/// token left there is no result (`Ok(None)`, the top-level loop's
/// termination signal); a leading `LParen` parses a fresh group at the lowest
/// precedence, requires and consumes its matching `RParen` — reporting the
/// group's opening token as unclosed when the close is missing — and feeds
/// the group into the operator loop; any other head token becomes a literal
/// leaf and enters the operator loop directly. Yields the expression, the new
/// position, and the grown pool; the caller is responsible for pushing the
/// returned expression.
pub open spec fn parse_expr_spec(
    toks: Seq<Token>,
    pos: nat,
    prec: Precedence,
    pool: Seq<AstExpr>,
) -> (Result<Option<AstExpr>, ParseError>, nat, Seq<AstExpr>)
    decreases toks.len() - pos,
{
    if pos >= toks.len() {
        (Ok(None), pos, pool)
    } else {
        let t = toks[pos as int];
        if t.kind == Kind::LParen {
            let inner = parse_expr_spec(toks, (pos + 1) as nat, Precedence::LOWEST, pool);
            match inner.0 {
                Err(e) => (Err(e), inner.1, inner.2),
                Ok(None) => (Err(ParseError::UnclosedGroup(t)), inner.1, inner.2),
                Ok(Some(group)) => {
                    if inner.1 < toks.len() && toks[inner.1 as int].kind == Kind::RParen {
                        parse_loop_spec(
                            toks,
                            advance_bound(pos, (inner.1 + 1) as nat, toks.len()),
                            prec,
                            group,
                            inner.2,
                        )
                    } else {
                        (Err(ParseError::UnclosedGroup(t)), inner.1, inner.2)
                    }
                },
            }
        } else {
            parse_loop_spec(toks, (pos + 1) as nat, prec, AstExpr::Literal(t), pool)
        }
    }
}

/// Pushing a node that references only existing slots preserves pool
/// well-formedness.
pub proof fn lemma_pool_push_wf(pool: Seq<AstExpr>, e: AstExpr)
    requires
        pool_wf(pool),
        expr_wf(e, pool.len() as int),
    ensures
        pool_wf(pool.push(e)),
{
    assert forall|i: int| 0 <= i < pool.push(e).len() implies expr_wf(
        #[trigger] pool.push(e)[i],
        i,
    ) by {
        if i < pool.len() {
            assert(pool.push(e)[i] == pool[i]);
        } else {
            assert(pool.push(e)[i] == e);
        }
    }
}

/// Pushing a node whose token spans within the source preserves the pool's
/// span bound.
pub proof fn lemma_pool_push_within(pool: Seq<AstExpr>, e: AstExpr, n: int)
    requires
        pool_within(pool, n),
        expr_within(e, n),
    ensures
        pool_within(pool.push(e), n),
{
    assert forall|i: int| 0 <= i < pool.push(e).len() implies expr_within(
        #[trigger] pool.push(e)[i],
        n,
    ) by {
        if i < pool.len() {
            assert(pool.push(e)[i] == pool[i]);
        } else {
            assert(pool.push(e)[i] == e);
        }
    }
}

/// Bounds and invariants of one expression parse: the cursor never moves
/// backwards or past the end and advances when an expression is produced; the
/// old pool stays as a prefix; well-formedness and span bounds are preserved,
/// and the produced expression is well formed against the grown pool.
pub proof fn lemma_parse_expr_props(
    toks: Seq<Token>,
    pos: nat,
    prec: Precedence,
    pool: Seq<AstExpr>,
    bound: int,
)
    requires
        pos <= toks.len(),
    ensures
        ({
            let (r, j, pool2) = parse_expr_spec(toks, pos, prec, pool);
            &&& pos <= j <= toks.len()
            &&& (r is Ok && r->Ok_0 is Some ==> j >= pos + 1)
            &&& pool2.len() >= pool.len()
            &&& pool2.subrange(0, pool.len() as int) == pool
            &&& (pool_wf(pool) ==> pool_wf(pool2))
            &&& (pool_wf(pool) && r is Ok && r->Ok_0 is Some ==> expr_wf(
                r->Ok_0->Some_0,
                pool2.len() as int,
            ))
            &&& (tokens_within(toks, bound) && pool_within(pool, bound) ==> pool_within(
                pool2,
                bound,
            ) && (r is Ok && r->Ok_0 is Some ==> expr_within(r->Ok_0->Some_0, bound)))
        }),
    decreases toks.len() - pos, 1int,
{
    if pos >= toks.len() {
        assert(parse_expr_spec(toks, pos, prec, pool).2.subrange(0, pool.len() as int) =~= pool);
    } else {
        let t = toks[pos as int];
        if t.kind == Kind::LParen {
            lemma_parse_expr_props(toks, (pos + 1) as nat, Precedence::LOWEST, pool, bound);
            let inner = parse_expr_spec(toks, (pos + 1) as nat, Precedence::LOWEST, pool);
            match inner.0 {
                Err(_) => {},
                Ok(None) => {},
                Ok(Some(group)) => {
                    if inner.1 < toks.len() && toks[inner.1 as int].kind == Kind::RParen {
                        let j2 = advance_bound(pos, (inner.1 + 1) as nat, toks.len());
                        assert(j2 == inner.1 + 1);
                        if pool_wf(pool) {
                            lemma_parse_loop_props_wf(toks, j2, prec, group, inner.2, bound);
                        }
                        lemma_parse_loop_props_plain(toks, j2, prec, group, inner.2, bound);
                        chain_prefix(pool, inner.2, parse_loop_spec(toks, j2, prec, group, inner.2).2);
                    }
                },
            }
        } else {
            assert(tokens_within(toks, bound) ==> token_within(t, bound));
            if pool_wf(pool) {
                lemma_parse_loop_props_wf(
                    toks,
                    (pos + 1) as nat,
                    prec,
                    AstExpr::Literal(t),
                    pool,
                    bound,
                );
            }
            lemma_parse_loop_props_plain(
                toks,
                (pos + 1) as nat,
                prec,
                AstExpr::Literal(t),
                pool,
                bound,
            );
        }
    }
}

/// A prefix of a prefix is a prefix.
proof fn chain_prefix(a: Seq<AstExpr>, b: Seq<AstExpr>, c: Seq<AstExpr>)
    requires
        a.len() <= b.len() <= c.len(),
        b.subrange(0, a.len() as int) == a,
        c.subrange(0, b.len() as int) == b,
    ensures
        c.subrange(0, a.len() as int) == a,
{
    assert(c.subrange(0, a.len() as int) =~= c.subrange(0, b.len() as int).subrange(
        0,
        a.len() as int,
    ));
}

/// Bounds of the operator-extension loop: cursor and pool-prefix claims,
/// holding for any left-hand side.
pub proof fn lemma_parse_loop_props_plain(
    toks: Seq<Token>,
    pos: nat,
    prec: Precedence,
    lhs: AstExpr,
    pool: Seq<AstExpr>,
    bound: int,
)
    requires
        pos <= toks.len(),
    ensures
        ({
            let (r, j, pool2) = parse_loop_spec(toks, pos, prec, lhs, pool);
            &&& pos <= j <= toks.len()
            &&& pool2.len() >= pool.len()
            &&& pool2.subrange(0, pool.len() as int) == pool
            &&& (tokens_within(toks, bound) && pool_within(pool, bound) && expr_within(lhs, bound)
                ==> pool_within(pool2, bound) && (r is Ok && r->Ok_0 is Some ==> expr_within(
                r->Ok_0->Some_0,
                bound,
            )))
        }),
    decreases toks.len() - pos, 0int,
{
    if pos >= toks.len() {
        assert(parse_loop_spec(toks, pos, prec, lhs, pool).2.subrange(0, pool.len() as int)
            =~= pool);
        return ;
    }
    let t = toks[pos as int];
    if !is_op_kind(t.kind) || prec_rank(op_precedence(t.kind)->Some_0) <= prec_rank(prec) {
        assert(parse_loop_spec(toks, pos, prec, lhs, pool).2.subrange(0, pool.len() as int)
            =~= pool);
        return ;
    }
    let oprec = op_precedence(t.kind)->Some_0;
    let lhs_ix = pool.len();
    let pool1 = pool.push(lhs);
    lemma_parse_expr_props(toks, (pos + 1) as nat, oprec, pool1, bound);
    let (r1, j1, pool2) = parse_expr_spec(toks, (pos + 1) as nat, oprec, pool1);
    assert(pool1.subrange(0, pool.len() as int) =~= pool);
    chain_prefix(pool, pool1, pool2);
    match r1 {
        Err(_) => {},
        Ok(None) => {},
        Ok(Some(rhs)) => {
            let rhs_ix = pool2.len();
            let node = AstExpr::BinOp(AstRef(lhs_ix as usize), t, AstRef(rhs_ix as usize));
            let pool3 = pool2.push(rhs);
            let j2 = advance_bound(pos, j1, toks.len());
            assert(j2 == j1);
            lemma_parse_loop_props_plain(toks, j2, prec, node, pool3, bound);
            assert(pool3.subrange(0, pool2.len() as int) =~= pool2);
            chain_prefix(pool, pool2, pool3);
            chain_prefix(pool, pool3, parse_loop_spec(toks, j2, prec, node, pool3).2);
            if tokens_within(toks, bound) && pool_within(pool, bound) && expr_within(lhs, bound) {
                lemma_pool_push_within(pool, lhs, bound);
                lemma_pool_push_within(pool2, rhs, bound);
                assert(token_within(t, bound));
            }
        },
    }
}

/// Well-formedness of the operator-extension loop: under a well-formed pool
/// and a left-hand side referencing only existing slots, the grown pool and
/// the produced expression are well formed.
pub proof fn lemma_parse_loop_props_wf(
    toks: Seq<Token>,
    pos: nat,
    prec: Precedence,
    lhs: AstExpr,
    pool: Seq<AstExpr>,
    bound: int,
)
    requires
        pos <= toks.len(),
        pool_wf(pool),
        expr_wf(lhs, pool.len() as int),
    ensures
        ({
            let (r, j, pool2) = parse_loop_spec(toks, pos, prec, lhs, pool);
            &&& pool_wf(pool2)
            &&& (r is Ok && r->Ok_0 is Some ==> expr_wf(r->Ok_0->Some_0, pool2.len() as int))
        }),
    decreases toks.len() - pos, 0int,
{
    if pos >= toks.len() {
        return ;
    }
    let t = toks[pos as int];
    if !is_op_kind(t.kind) || prec_rank(op_precedence(t.kind)->Some_0) <= prec_rank(prec) {
        return ;
    }
    let oprec = op_precedence(t.kind)->Some_0;
    let lhs_ix = pool.len();
    let pool1 = pool.push(lhs);
    lemma_pool_push_wf(pool, lhs);
    lemma_parse_expr_props(toks, (pos + 1) as nat, oprec, pool1, bound);
    let (r1, j1, pool2) = parse_expr_spec(toks, (pos + 1) as nat, oprec, pool1);
    match r1 {
        Err(_) => {},
        Ok(None) => {},
        Ok(Some(rhs)) => {
            let rhs_ix = pool2.len();
            let node = AstExpr::BinOp(AstRef(lhs_ix as usize), t, AstRef(rhs_ix as usize));
            let pool3 = pool2.push(rhs);
            lemma_pool_push_wf(pool2, rhs);
            let j2 = advance_bound(pos, j1, toks.len());
            assert(j2 == j1);
            assert(expr_wf(node, pool3.len() as int));
            lemma_parse_loop_props_wf(toks, j2, prec, node, pool3, bound);
        },
    }
}

/// The arena of expression nodes: an append-only ordered sequence, indexed
/// from zero, that owns every node of the expressions parsed into it.
#[derive(Debug)]
pub struct AstPool(Vec<AstExpr>);

impl View for AstPool {
    type V = Seq<AstExpr>;

    closed spec fn view(&self) -> Seq<AstExpr> {
        self.0@
    }
}

impl AstPool {
    /// An empty arena.
    pub fn new() -> (p: AstPool)
        ensures
            p@ == Seq::<AstExpr>::empty(),
    {
        AstPool(Vec::new())
    }

    /// The number of nodes stored so far.
    pub fn len(&self) -> (n: usize)
        ensures
            n == self@.len(),
    {
        self.0.len()
    }

    /// Appends a node; existing entries are never rewritten.
    pub fn push(&mut self, e: AstExpr)
        ensures
            final(self)@ == old(self)@.push(e),
    {
        self.0.push(e);
    }
}

/// The pool produced by repeatedly parsing top-level expressions from `pos`
/// and pushing each root, until no leading token remains — or the first
/// structural fault encountered.
pub open spec fn parse_ast_loop(toks: Seq<Token>, pos: nat, pool: Seq<AstExpr>) -> Result<
    Seq<AstExpr>,
    ParseError,
>
    decreases toks.len() - pos,
{
    let (r, j, pool2) = parse_expr_spec(toks, pos, Precedence::LOWEST, pool);
    match r {
        Err(e) => Err(e),
        Ok(None) => Ok(pool2),
        Ok(Some(e)) => parse_ast_loop(toks, advance_bound(pos, j, toks.len()), pool2.push(e)),
    }
}

/// The full parse of a token sequence into an arena: each top-level
/// expression is parsed at the lowest precedence and its root pushed, so the
/// pool's last entry is the root of the last top-level expression.
pub open spec fn parse_ast_spec(toks: Seq<Token>) -> Result<Seq<AstExpr>, ParseError> {
    parse_ast_loop(toks, 0, Seq::<AstExpr>::empty())
}

/// The top-level parse preserves pool well-formedness and span bounds.
pub proof fn lemma_parse_ast_loop_props(
    toks: Seq<Token>,
    pos: nat,
    pool: Seq<AstExpr>,
    bound: int,
)
    requires
        pos <= toks.len(),
    ensures
        ({
            match parse_ast_loop(toks, pos, pool) {
                Ok(pool2) => {
                    &&& (pool_wf(pool) ==> pool_wf(pool2))
                    &&& (tokens_within(toks, bound) && pool_within(pool, bound) ==> pool_within(
                        pool2,
                        bound,
                    ))
                },
                Err(_) => true,
            }
        }),
    decreases toks.len() - pos,
{
    lemma_parse_expr_props(toks, pos, Precedence::LOWEST, pool, bound);
    let (r, j, pool2) = parse_expr_spec(toks, pos, Precedence::LOWEST, pool);
    match r {
        Err(_) => {},
        Ok(None) => {},
        Ok(Some(e)) => {
            let j2 = advance_bound(pos, j, toks.len());
            assert(j2 == j);
            if pool_wf(pool) {
                lemma_pool_push_wf(pool2, e);
            }
            if tokens_within(toks, bound) && pool_within(pool, bound) {
                lemma_pool_push_within(pool2, e, bound);
            }
            lemma_parse_ast_loop_props(toks, j2, pool2.push(e), bound);
        },
    }
}

/// One expression parse from `pos` at minimum precedence `precedence`,
/// appending every subtree node to `pool`. Returns the parsed expression
/// (`Ok(None)` when the tokens ran out first, an error for an unclosed
/// group) and the new cursor position, exactly as given by
/// [`parse_expr_spec`]; the caller pushes the returned expression itself.
pub fn parse_expr(
    tokens: &Vec<Token>,
    pos: usize,
    pool: &mut AstPool,
    precedence: Precedence,
) -> (r: (Result<Option<AstExpr>, ParseError>, usize))
    ensures
        ({
            let (r0, j, pool2) = parse_expr_spec(tokens@, pos as nat, precedence, old(pool)@);
            &&& r.0 == r0
            &&& r.1 as nat == j
            &&& final(pool)@ == pool2
        }),
    decreases tokens@.len() - pos,
{
    if pos >= tokens.len() {
        return (Ok(None), pos);
    }
    let t = tokens[pos];
    if t.kind == Kind::LParen {
        let ghost pool0 = pool@;
        let (inner, j) = parse_expr(tokens, pos + 1, pool, Precedence::LOWEST);
        proof {
            lemma_parse_expr_props(tokens@, (pos + 1) as nat, Precedence::LOWEST, pool0, 0);
        }
        match inner {
            Err(e) => (Err(e), j),
            Ok(None) => (Err(ParseError::UnclosedGroup(t)), j),
            Ok(Some(group)) => {
                if j < tokens.len() && tokens[j].kind == Kind::RParen {
                    proof {
                        assert(advance_bound(pos as nat, (j + 1) as nat, tokens@.len()) == j
                            + 1);
                    }
                    parse_ops(tokens, j + 1, precedence, group, pool)
                } else {
                    (Err(ParseError::UnclosedGroup(t)), j)
                }
            },
        }
    } else {
        parse_ops(tokens, pos + 1, precedence, AstExpr::Literal(t), pool)
    }
}

/// The operator-extension loop: folds operators of precedence strictly above
/// `prec` into `lhs` left to right, realizing [`parse_loop_spec`].
fn parse_ops(
    tokens: &Vec<Token>,
    pos: usize,
    prec: Precedence,
    lhs: AstExpr,
    pool: &mut AstPool,
) -> (r: (Result<Option<AstExpr>, ParseError>, usize))
    ensures
        ({
            let (r0, j, pool2) = parse_loop_spec(tokens@, pos as nat, prec, lhs, old(pool)@);
            &&& r.0 == r0
            &&& r.1 as nat == j
            &&& final(pool)@ == pool2
        }),
    decreases tokens@.len() - pos,
{
    if pos >= tokens.len() {
        return (Ok(Some(lhs)), pos);
    }
    let t = tokens[pos];
    if !is_operator(&t) {
        return (Ok(Some(lhs)), pos);
    }
    let oprec = get_precedence(&t).unwrap();
    if rank(oprec) <= rank(prec) {
        return (Ok(Some(lhs)), pos);
    }
    let lhs_ix = pool.len();
    pool.push(lhs);
    let ghost pool1 = pool@;
    let (rhs_res, j) = parse_expr(tokens, pos + 1, pool, oprec);
    proof {
        lemma_parse_expr_props(tokens@, (pos + 1) as nat, oprec, pool1, 0);
    }
    match rhs_res {
        Err(e) => (Err(e), j),
        Ok(None) => (Ok(None), j),
        Ok(Some(rhs)) => {
            let rhs_ix = pool.len();
            pool.push(rhs);
            let node = AstExpr::BinOp(AstRef(lhs_ix), t, AstRef(rhs_ix));
            proof {
                assert(advance_bound(pos as nat, j as nat, tokens@.len()) == j as nat);
            }
            parse_ops(tokens, j, prec, node, pool)
        },
    }
}

/// Parses the whole token sequence: one top-level expression after another,
/// each at the lowest precedence floor, pushing every root into a fresh
/// arena. On success the returned pool is exactly [`parse_ast_spec`] of the
/// tokens; it is well formed, and its nodes' tokens span within any bound the
/// input tokens span within. The first unclosed group is reported instead.
pub fn parse_ast(tokens: Vec<Token>) -> (r: Result<AstPool, ParseError>)
    ensures
        ({
            match (r, parse_ast_spec(tokens@)) {
                (Ok(pool), Ok(spec_pool)) => pool@ == spec_pool && pool_wf(pool@) && (forall|
                    n: int,
                |
                    tokens_within(tokens@, n) ==> #[trigger] pool_within(pool@, n)),
                (Err(e), Err(e0)) => e == e0,
                _ => false,
            }
        }),
{
    let mut pool = AstPool::new();
    match parse_ast_from(&tokens, 0, &mut pool) {
        Ok(()) => {
            proof {
                assert forall|n: int| tokens_within(tokens@, n) implies #[trigger] pool_within(
                    pool@,
                    n,
                ) by {
                    lemma_parse_ast_loop_props(tokens@, 0, Seq::<AstExpr>::empty(), n);
                }
                lemma_parse_ast_loop_props(tokens@, 0, Seq::<AstExpr>::empty(), 0);
            }
            Ok(pool)
        },
        Err(e) => Err(e),
    }
}

/// Parses top-level expressions from `pos` on, pushing each root, until the
/// tokens are exhausted or a structural fault is found.
fn parse_ast_from(tokens: &Vec<Token>, pos: usize, pool: &mut AstPool) -> (r: Result<
    (),
    ParseError,
>)
    ensures
        ({
            match parse_ast_loop(tokens@, pos as nat, old(pool)@) {
                Ok(pool2) => r is Ok && final(pool)@ == pool2,
                Err(e) => r == Err::<(), ParseError>(e),
            }
        }),
    decreases tokens@.len() - pos,
{
    let ghost pool0 = pool@;
    let (r, j) = parse_expr(tokens, pos, pool, Precedence::LOWEST);
    match r {
        Err(e) => Err(e),
        Ok(None) => Ok(()),
        Ok(Some(e)) => {
            proof {
                lemma_parse_expr_props(tokens@, pos as nat, Precedence::LOWEST, pool0, 0);
                assert(advance_bound(pos as nat, j as nat, tokens@.len()) == j as nat);
            }
            pool.push(e);
            parse_ast_from(tokens, j, pool)
        },
    }
}

/// The fully parenthesized prefix rendering of the node at `ix`: a literal
/// renders as its source text, a binary node as
/// `( <operator> <left> <right> )`.
pub open spec fn render_expr(pool: Seq<AstExpr>, ix: int, src: Seq<char>) -> Seq<char>
    decreases ix,
{
    if 0 <= ix < pool.len() {
        match pool[ix] {
            AstExpr::Literal(t) => token_text(src, t),
            AstExpr::BinOp(l, op, r) => {
                if l.0 < ix && r.0 < ix {
                    ("( ")@ + token_text(src, op) + (" ")@ + render_expr(pool, l.0 as int, src) + (
                    " ")@ + render_expr(pool, r.0 as int, src) + (" )")@
                } else {
                    Seq::<char>::empty()
                }
            },
        }
    } else {
        Seq::<char>::empty()
    }
}

impl AstPool {
    /// Renders the root — the pool's last entry — as a fully parenthesized
    /// prefix expression over the original source text. The pool must be
    /// non-empty and well formed, with every stored span inside the source.
    pub fn display_ast(&self, src: &str) -> (out: String)
        requires
            self@.len() > 0,
            pool_wf(self@),
            pool_within(self@, src@.len() as int),
        ensures
            out@ == render_expr(self@, self@.len() - 1, src@),
    {
        let n = self.0.len();
        self.display_expr(n - 1, src)
    }

    /// Renders the node at index `ix` recursively.
    fn display_expr(&self, ix: usize, src: &str) -> (out: String)
        requires
            ix < self@.len(),
            pool_wf(self@),
            pool_within(self@, src@.len() as int),
        ensures
            out@ == render_expr(self@, ix as int, src@),
        decreases ix,
    {
        let _src_len = src.unicode_len();
        proof {
            assert(expr_wf(self@[ix as int], ix as int));
            assert(expr_within(self@[ix as int], src@.len() as int));
        }
        let node = self.0[ix];
        match node {
            AstExpr::Literal(t) => {
                let text = src.substring_char(t.start, t.start + t.length);
                String::from_str(text)
            },
            AstExpr::BinOp(l, op, r) => {
                let mut out = String::from_str("( ");
                let op_text = src.substring_char(op.start, op.start + op.length);
                out.append(op_text);
                out.append(" ");
                let left = self.display_expr(l.0, src);
                out.append(left.as_str());
                out.append(" ");
                let right = self.display_expr(r.0, src);
                out.append(right.as_str());
                out.append(" )");
                out
            },
        }
    }
}

} // verus!
