//! How operators bind, and what stands for nothing.

use vstd::prelude::*;
use crate::laws::printing::{
    closer, expr_tokens, lemma_postfix, lemma_postfix_ends, op_token, tokens_stand, writable,
};
use crate::parser::ast::{ExprV, ItemV, Op, StmtV};
use crate::parser::grammar::{
    additive, additive_rest, bitwise, bitwise_rest, expr, item, macro_stmt, multiplicative,
    multiplicative_rest, postfix, skip_balanced, stmt, tok_at,
};
use crate::parser::lexer::{Spanned, Tok};

verus! {

/// How tightly an operator binds.
pub open spec fn level(op: Op) -> int {
    match op {
        Op::Add => 0,
        Op::Sub => 0,
        Op::Mul => 1,
        Op::Div => 1,
        Op::BitAnd => 2,
    }
}

/// Whether, of the operators from `i` up to `j`, that at `k` is the last one that binds most loosely.
pub open spec fn is_last_loosest(ops: Seq<Op>, i: int, j: int, k: int) -> bool {
    &&& i <= k < j
    &&& forall|m: int| i <= m < k ==> level(#[trigger] ops[m]) >= level(ops[k])
    &&& forall|m: int| k < m < j ==> level(#[trigger] ops[m]) > level(ops[k])
}

/// Whether an expression is what the operands from `i` through `j` are with the operators between
/// them: the last of those that bind most loosely is applied to what is on its left and to what is
/// on its right.
pub open spec fn groups(xs: Seq<ExprV>, ops: Seq<Op>, i: int, j: int, e: ExprV) -> bool
    decreases j - i,
{
    if i >= j {
        e == xs[i]
    } else {
        match e {
            ExprV::BinOp { op, lhs, rhs } => exists|k: int|
                i <= k < j && #[trigger] is_last_loosest(ops, i, j, k) && op == ops[k] && groups(
                    xs,
                    ops,
                    i,
                    k,
                    *lhs,
                ) && groups(xs, ops, k + 1, j, *rhs),
            _ => false,
        }
    }
}

/// Where operand `i` starts, where the operands stand from `p` on with one token between each two.
pub open spec fn spot(xs: Seq<ExprV>, p: int, i: int) -> int
    decreases i,
{
    if i <= 0 {
        p
    } else {
        spot(xs, p, i - 1) + expr_tokens(xs[i - 1]).len() + 1
    }
}

/// Where operand `i` ends.
pub open spec fn spot_end(xs: Seq<ExprV>, p: int, i: int) -> int {
    spot(xs, p, i) + expr_tokens(xs[i]).len()
}

/// Whether operands stand from `p` on with operators between them, and behind them something that
/// ends an expression.
pub open spec fn chain_at(ts: Seq<Spanned>, p: int, xs: Seq<ExprV>, ops: Seq<Op>) -> bool {
    &&& xs.len() == ops.len() + 1
    &&& forall|i: int|
        0 <= i < xs.len() ==> writable(#[trigger] xs[i]) && tokens_stand(
            ts,
            spot(xs, p, i),
            expr_tokens(xs[i]),
        )
    &&& forall|i: int|
        0 <= i < ops.len() ==> tok_at(ts, spot_end(xs, p, i)) == op_token(#[trigger] ops[i])
    &&& closer(tok_at(ts, spot_end(xs, p, ops.len() as int)))
}

proof fn lemma_operand(ts: Seq<Spanned>, p: int, xs: Seq<ExprV>, ops: Seq<Op>, i: int)
    requires
        chain_at(ts, p, xs, ops),
        0 <= i <= ops.len(),
    ensures
        postfix(ts, spot(xs, p, i)) == Ok::<(ExprV, int), Seq<char>>((xs[i], spot_end(xs, p, i))),
        spot(xs, p, i) < spot_end(xs, p, i) < ts.len(),
        i < ops.len() ==> spot(xs, p, i + 1) == spot_end(xs, p, i) + 1 && tok_at(
            ts,
            spot_end(xs, p, i),
        ) == op_token(ops[i]),
        i == ops.len() ==> closer(tok_at(ts, spot_end(xs, p, i))),
{
    assert(writable(xs[i]));
    if i < ops.len() {
        assert(tok_at(ts, spot_end(xs, p, i)) == op_token(ops[i]));
    }
    lemma_postfix(ts, spot(xs, p, i), xs[i]);
    lemma_postfix_ends(ts, xs[i], spot_end(xs, p, i));
}

/// Whether the token behind operand `j` is no operator that binds at least as tightly as a level.
spec fn run_ends(ops: Seq<Op>, j: int, tight: int) -> bool {
    j == ops.len() || level(ops[j]) < tight
}

proof fn lemma_order(ts: Seq<Spanned>, p: int, xs: Seq<ExprV>, ops: Seq<Op>, i: int, j: int)
    requires
        chain_at(ts, p, xs, ops),
        0 <= i < j <= ops.len(),
    ensures
        spot_end(xs, p, i) < spot(xs, p, j),
    decreases j - i,
{
    lemma_operand(ts, p, xs, ops, j - 1);
    if i < j - 1 {
        lemma_order(ts, p, xs, ops, i, j - 1);
    }
}

proof fn lemma_conjunction(
    ts: Seq<Spanned>,
    p: int,
    xs: Seq<ExprV>,
    ops: Seq<Op>,
    i: int,
    j: int,
) -> (e: ExprV)
    requires
        chain_at(ts, p, xs, ops),
        0 <= i <= j <= ops.len(),
        forall|m: int| i <= m < j ==> level(#[trigger] ops[m]) >= 2,
    ensures
        groups(xs, ops, i, j, e),
        bitwise(ts, spot(xs, p, i)) == bitwise_rest(ts, e, spot_end(xs, p, j)),
    decreases j - i,
{
    lemma_operand(ts, p, xs, ops, j);
    if i == j {
        reveal(bitwise);
        reveal(bitwise_rest);
        reveal(postfix);
        xs[i]
    } else {
        let l = lemma_conjunction(ts, p, xs, ops, i, j - 1);
        lemma_operand(ts, p, xs, ops, j - 1);
        assert(level(ops[j - 1]) >= 2);
        let e = ExprV::BinOp { op: ops[j - 1], lhs: Box::new(l), rhs: Box::new(xs[j]) };
        assert(is_last_loosest(ops, i, j, j - 1)) by {
            assert forall|m: int| i <= m < j - 1 implies level(#[trigger] ops[m]) >= level(
                ops[j - 1],
            ) by {
                assert(level(ops[m]) >= 2);
            }
        }
        assert(groups(xs, ops, j, j, xs[j]));
        reveal(bitwise_rest);
        reveal(postfix);
        e
    }
}

proof fn lemma_conjunction_ends(
    ts: Seq<Spanned>,
    p: int,
    xs: Seq<ExprV>,
    ops: Seq<Op>,
    i: int,
    j: int,
) -> (e: ExprV)
    requires
        chain_at(ts, p, xs, ops),
        0 <= i <= j <= ops.len(),
        forall|m: int| i <= m < j ==> level(#[trigger] ops[m]) >= 2,
        run_ends(ops, j, 2),
    ensures
        groups(xs, ops, i, j, e),
        bitwise(ts, spot(xs, p, i)) == Ok::<(ExprV, int), Seq<char>>((e, spot_end(xs, p, j))),
{
    let e = lemma_conjunction(ts, p, xs, ops, i, j);
    lemma_operand(ts, p, xs, ops, j);
    reveal(bitwise_rest);
    e
}

/// The last of the operators from `i` up to `j` that binds no tighter than a level, or `i - 1`.
spec fn last_loose(ops: Seq<Op>, i: int, j: int, tight: int) -> int
    decreases j - i,
{
    if j <= i {
        i - 1
    } else if level(ops[j - 1]) <= tight {
        j - 1
    } else {
        last_loose(ops, i, j - 1, tight)
    }
}

proof fn lemma_last_loose(ops: Seq<Op>, i: int, j: int, tight: int)
    requires
        i <= j,
    ensures
        i - 1 <= last_loose(ops, i, j, tight) < j,
        last_loose(ops, i, j, tight) >= i ==> level(ops[last_loose(ops, i, j, tight)]) <= tight,
        forall|m: int| last_loose(ops, i, j, tight) < m < j ==> level(#[trigger] ops[m]) > tight,
    decreases j - i,
{
    if j > i && level(ops[j - 1]) > tight {
        lemma_last_loose(ops, i, j - 1, tight);
    }
}

proof fn lemma_product(
    ts: Seq<Spanned>,
    p: int,
    xs: Seq<ExprV>,
    ops: Seq<Op>,
    i: int,
    j: int,
) -> (e: ExprV)
    requires
        chain_at(ts, p, xs, ops),
        0 <= i <= j <= ops.len(),
        forall|m: int| i <= m < j ==> level(#[trigger] ops[m]) >= 1,
        run_ends(ops, j, 2),
    ensures
        groups(xs, ops, i, j, e),
        multiplicative(ts, spot(xs, p, i)) == multiplicative_rest(ts, e, spot_end(xs, p, j)),
    decreases j - i,
{
    let k = last_loose(ops, i, j, 1);
    lemma_last_loose(ops, i, j, 1);
    lemma_operand(ts, p, xs, ops, j);
    if k < i {
        let e = lemma_conjunction_ends(ts, p, xs, ops, i, j);
        if i < j {
            lemma_order(ts, p, xs, ops, i, j);
        }
        lemma_operand(ts, p, xs, ops, i);
        reveal(multiplicative);
        reveal(multiplicative_rest);
        reveal(bitwise);
        e
    } else {
        let l = lemma_product(ts, p, xs, ops, i, k);
        let r = lemma_conjunction_ends(ts, p, xs, ops, k + 1, j);
        lemma_operand(ts, p, xs, ops, k);
        if k + 1 < j {
            lemma_order(ts, p, xs, ops, k + 1, j);
        }
        assert(level(ops[k]) == 1);
        let e = ExprV::BinOp { op: ops[k], lhs: Box::new(l), rhs: Box::new(r) };
        assert(is_last_loosest(ops, i, j, k));
        reveal(multiplicative_rest);
        reveal(bitwise);
        e
    }
}

proof fn lemma_product_ends(
    ts: Seq<Spanned>,
    p: int,
    xs: Seq<ExprV>,
    ops: Seq<Op>,
    i: int,
    j: int,
) -> (e: ExprV)
    requires
        chain_at(ts, p, xs, ops),
        0 <= i <= j <= ops.len(),
        forall|m: int| i <= m < j ==> level(#[trigger] ops[m]) >= 1,
        run_ends(ops, j, 1),
    ensures
        groups(xs, ops, i, j, e),
        multiplicative(ts, spot(xs, p, i)) == Ok::<(ExprV, int), Seq<char>>(
            (e, spot_end(xs, p, j)),
        ),
{
    let e = lemma_product(ts, p, xs, ops, i, j);
    lemma_operand(ts, p, xs, ops, j);
    reveal(multiplicative_rest);
    e
}

proof fn lemma_sum(
    ts: Seq<Spanned>,
    p: int,
    xs: Seq<ExprV>,
    ops: Seq<Op>,
    i: int,
    j: int,
) -> (e: ExprV)
    requires
        chain_at(ts, p, xs, ops),
        0 <= i <= j <= ops.len(),
        run_ends(ops, j, 1),
    ensures
        groups(xs, ops, i, j, e),
        additive(ts, spot(xs, p, i)) == additive_rest(ts, e, spot_end(xs, p, j)),
    decreases j - i,
{
    let k = last_loose(ops, i, j, 0);
    lemma_last_loose(ops, i, j, 0);
    lemma_operand(ts, p, xs, ops, j);
    if k < i {
        let e = lemma_product_ends(ts, p, xs, ops, i, j);
        if i < j {
            lemma_order(ts, p, xs, ops, i, j);
        }
        lemma_operand(ts, p, xs, ops, i);
        reveal(additive);
        reveal(additive_rest);
        reveal(multiplicative);
        e
    } else {
        let l = lemma_sum(ts, p, xs, ops, i, k);
        let r = lemma_product_ends(ts, p, xs, ops, k + 1, j);
        lemma_operand(ts, p, xs, ops, k);
        if k + 1 < j {
            lemma_order(ts, p, xs, ops, k + 1, j);
        }
        assert(level(ops[k]) == 0);
        let e = ExprV::BinOp { op: ops[k], lhs: Box::new(l), rhs: Box::new(r) };
        assert(is_last_loosest(ops, i, j, k));
        reveal(additive_rest);
        reveal(multiplicative);
        e
    }
}

/// Operands with operators between them, however many, are read as one expression: operators of
/// one level apply from the left, `&` binds tighter than `*` and `/`, and these tighter than `+`
/// and `-`.
pub proof fn lemma_operators_bind(ts: Seq<Spanned>, p: int, xs: Seq<ExprV>, ops: Seq<Op>)
    requires
        chain_at(ts, p, xs, ops),
    ensures
        expr(ts, p) matches Ok((e, q)) && groups(xs, ops, 0, ops.len() as int, e) && q == spot_end(
            xs,
            p,
            ops.len() as int,
        ),
{
    let n = ops.len() as int;
    let e = lemma_sum(ts, p, xs, ops, 0, n);
    lemma_operand(ts, p, xs, ops, n);
    reveal(expr);
    reveal(additive);
    reveal(additive_rest);
}

// ---------------------------------------------------------------------------
// Skipped phrases
// ---------------------------------------------------------------------------

/// How often a token stands from `p` up to `q`.
pub open spec fn times_between(ts: Seq<Spanned>, t: Tok, p: int, q: int) -> int
    decreases q - p,
{
    if q <= p {
        0
    } else {
        times_between(ts, t, p, q - 1) + if tok_at(ts, q - 1) == t {
            1int
        } else {
            0int
        }
    }
}

proof fn lemma_times_first(ts: Seq<Spanned>, t: Tok, p: int, q: int)
    requires
        p < q,
    ensures
        times_between(ts, t, p, q) == times_between(ts, t, p + 1, q) + (if tok_at(ts, p) == t {
            1int
        } else {
            0int
        }),
    decreases q - p,
{
    if p + 1 < q {
        lemma_times_first(ts, t, p, q - 1);
    } else {
        assert(times_between(ts, t, p, p) == 0);
    }
}

/// What is skipped up to the closing of open brackets is the shortest stretch of tokens in which so
/// many more of them close than open, and it holds no end of the text. Nothing is found only where
/// the text ends before.
pub proof fn lemma_skipped(ts: Seq<Spanned>, p: int, open: Tok, close: Tok, depth: nat)
    requires
        open != close,
        open != Tok::Eof,
        close != Tok::Eof,
    ensures
        skip_balanced(ts, p, open, close, depth) matches Ok(q) ==> {
            &&& p <= q
            &&& depth + times_between(ts, open, p, q) == times_between(ts, close, p, q)
            &&& forall|m: int|
                p <= m < q ==> depth + #[trigger] times_between(ts, open, p, m) > times_between(
                    ts,
                    close,
                    p,
                    m,
                )
        },
        skip_balanced(ts, p, open, close, depth) matches Err(z) ==> {
            &&& p <= z
            &&& tok_at(ts, z) == Tok::Eof
            &&& forall|m: int|
                p <= m <= z ==> depth + #[trigger] times_between(ts, open, p, m) > times_between(
                    ts,
                    close,
                    p,
                    m,
                )
        },
    decreases ts.len() - p,
{
    reveal(skip_balanced);
    if depth == 0 || tok_at(ts, p) == Tok::Eof {
        assert(times_between(ts, open, p, p) == 0 && times_between(ts, close, p, p) == 0);
    } else {
        let t = tok_at(ts, p);
        let d: nat = if t == open {
            depth + 1
        } else if t == close {
            (depth - 1) as nat
        } else {
            depth
        };
        lemma_skipped(ts, p + 1, open, close, d);
        assert forall|m: int| p < m implies depth + times_between(ts, open, p, m) - times_between(
            ts,
            close,
            p,
            m,
        ) == d + #[trigger] times_between(ts, open, p + 1, m) - times_between(ts, close, p + 1, m)
            by {
            lemma_times_first(ts, open, p, m);
            lemma_times_first(ts, close, p, m);
        }
        let r = skip_balanced(ts, p, open, close, depth);
        let end = match r {
            Ok(q) => q,
            Err(z) => z,
        };
        assert forall|m: int| p <= m < end implies depth + #[trigger] times_between(ts, open, p, m)
            > times_between(ts, close, p, m) by {
            if m > p {
                assert(d + times_between(ts, open, p + 1, m) > times_between(ts, close, p + 1, m));
            }
        }
        assert(d + times_between(ts, open, p + 1, end) - times_between(ts, close, p + 1, end)
            == depth + times_between(ts, open, p, end) - times_between(ts, close, p, end));
    }
}

/// An attribute, a test and a macro stand for nothing, whatever stands in them.
pub proof fn lemma_nothing_is_meant(ts: Seq<Spanned>, p: int)
    ensures
        tok_at(ts, p) == Tok::Hash || tok_at(ts, p) == Tok::Test ==> (item(ts, p) matches Ok((i, _))
            ==> i is None),
        tok_at(ts, p) == Tok::Hash && tok_at(ts, p + 1) == Tok::LBracket && tok_at(ts, p + 2)
            is Ident && tok_at(ts, p + 3) == Tok::RBracket ==> item(ts, p) == Ok::<
            (Option<ItemV>, int),
            Seq<char>,
        >((None, p + 4)),
        tok_at(ts, p) == Tok::Test && tok_at(ts, p + 1) is Ident && tok_at(ts, p + 2) == Tok::LBrace
            ==> (skip_balanced(ts, p + 3, Tok::LBrace, Tok::RBrace, 1) matches Ok(q) ==> item(ts, p)
            == Ok::<(Option<ItemV>, int), Seq<char>>((None, q))),
        tok_at(ts, p) is Ident && tok_at(ts, p + 1) == Tok::Bang && tok_at(ts, p + 2) == Tok::LParen
            ==> (skip_balanced(ts, p + 3, Tok::LParen, Tok::RParen, 1) matches Ok(q) ==> (tok_at(
            ts,
            q,
        ) == Tok::Semicolon ==> stmt(ts, p) == Ok::<(Option<StmtV>, int), Seq<char>>(
            (None, q + 1),
        ))),
{
    reveal(item);
    reveal(stmt);
    reveal(macro_stmt);
}

/// An external function is read with its name and the type of its result, whatever parameters stand
/// between its brackets.
pub proof fn lemma_external_function(ts: Seq<Spanned>, p: int, name: Seq<char>, kind: Seq<char>)
    requires
        tok_at(ts, p) == Tok::Extern,
        tok_at(ts, p + 1) == Tok::Ident(name),
        tok_at(ts, p + 2) == Tok::LParen,
    ensures
        skip_balanced(ts, p + 3, Tok::LParen, Tok::RParen, 1) matches Ok(q) ==> (tok_at(ts, q)
            == Tok::Colon && tok_at(ts, q + 1) == Tok::Ident(kind) && tok_at(ts, q + 2)
            == Tok::Semicolon ==> item(ts, p) == Ok::<(Option<ItemV>, int), Seq<char>>(
            (Some(ItemV::Extern { name, return_type: kind }), q + 3),
        )),
{
    reveal(item);
}

} // verus!
