//! How a mux is written.

use vstd::prelude::*;
use crate::laws::places::{alike, lemma_block, lemma_block_list, lemma_expr, lemma_expr_list};
use crate::parser::ast::{ExprV, StmtV};
use crate::parser::grammar::{
    additive, bitwise, block, block_list, block_list_rest, expected, expr, expr_list,
    expr_list_rest, multiplicative, mux_arrow, mux_stmt, postfix, primary, stmt_list, tok_at,
};
use crate::parser::lexer::{Spanned, Tok};
use crate::text::digits;

verus! {

/// Whether guards in brackets, an arrow and blocks in parentheses stand at `p`, up to `end`.
pub open spec fn mux_parts(
    ts: Seq<Spanned>,
    p: int,
    guards: Seq<ExprV>,
    branches: Seq<Seq<StmtV>>,
    end: int,
) -> bool {
    &&& tok_at(ts, p) == Tok::LBracket
    &&& expr_list(ts, p + 1, Tok::RBracket) matches Ok((g, q)) && {
        &&& g == guards
        &&& mux_arrow(ts, q) matches Ok(r) && {
            &&& block_list(ts, r) matches Ok((b, s)) && {
                &&& b == branches
                &&& tok_at(ts, s) == Tok::RParen
                &&& end == s + 1
            }
        }
    }
}

/// What guards, an arrow and blocks make: without a semicolon behind them nothing, and with one a
/// mux of them where there are as many blocks as guards, and else the message that names both
/// numbers and the line of the token behind the semicolon.
pub proof fn lemma_as_many_blocks_as_guards(
    ts: Seq<Spanned>,
    p: int,
    guards: Seq<ExprV>,
    branches: Seq<Seq<StmtV>>,
    end: int,
)
    requires
        0 <= p,
        mux_parts(ts, p, guards, branches, end),
    ensures
        tok_at(ts, end) != Tok::Semicolon ==> mux_stmt(ts, p) == Err::<(StmtV, int), Seq<char>>(
            expected(ts, end, Tok::Semicolon)->Err_0,
        ),
        tok_at(ts, end) == Tok::Semicolon && guards.len() != branches.len() ==> mux_stmt(ts, p)
            == Err::<(StmtV, int), Seq<char>>(
            "mux: "@ + digits(guards.len()) + " guards but "@ + digits(branches.len())
                + " branches at line "@ + digits(ts[end + 1].line),
        ),
        tok_at(ts, end) == Tok::Semicolon && guards.len() == branches.len() ==> mux_stmt(ts, p)
            == Ok::<(StmtV, int), Seq<char>>((StmtV::Mux { guards, branches }, end + 1)),
{
    reveal(mux_stmt);
    reveal(block_list);
    let n = ts.len() as int;
    assert(alike(ts, ts, 0, p + 1, n));
    lemma_expr_list(ts, ts, 0, p + 1, n, Tok::RBracket);
}

/// A mux comes of nothing else: what is read as one has guards, an arrow, as many blocks as
/// guards, and a semicolon.
pub proof fn lemma_mux_has_its_parts(ts: Seq<Spanned>, p: int)
    requires
        0 <= p,
    ensures
        mux_stmt(ts, p) matches Ok((s, end)) ==> {
            &&& s is Mux
            &&& s->guards.len() == s->branches.len()
            &&& mux_parts(ts, p, s->guards, s->branches, end - 1)
            &&& tok_at(ts, end - 1) == Tok::Semicolon
        },
{
    reveal(mux_stmt);
    reveal(block_list);
}

/// Where part `i` of a list starts that stands at `p`, by the places where its parts end.
pub open spec fn starts(p: int, ends: Seq<int>, i: int) -> int {
    if i == 0 {
        p
    } else {
        ends[i - 1] + 1
    }
}

/// Where a list ends that stands at `p`, by the places where its parts end.
pub open spec fn ends_at(p: int, ends: Seq<int>) -> int {
    if ends.len() == 0 {
        p
    } else {
        ends.last()
    }
}

/// Whether commas stand between the parts of a list, and `close` behind the last.
pub open spec fn parted(ts: Seq<Spanned>, p: int, ends: Seq<int>, close: Tok) -> bool {
    &&& forall|i: int| 0 <= i < ends.len() - 1 ==> tok_at(ts, #[trigger] ends[i]) == Tok::Comma
    &&& tok_at(ts, ends_at(p, ends)) == close
}

/// Whether guards stand from `p` on, one behind the other, up to `]`.
pub open spec fn guards_stand(
    ts: Seq<Spanned>,
    p: int,
    guards: Seq<ExprV>,
    ends: Seq<int>,
) -> bool {
    &&& ends.len() == guards.len()
    &&& parted(ts, p, ends, Tok::RBracket)
    &&& forall|i: int|
        0 <= i < guards.len() ==> expr(ts, starts(p, ends, i)) == Ok::<(ExprV, int), Seq<char>>(
            (#[trigger] guards[i], ends[i]),
        )
}

/// Whether blocks stand from `p` on, one behind the other, up to `)`.
pub open spec fn blocks_stand(
    ts: Seq<Spanned>,
    p: int,
    branches: Seq<Seq<StmtV>>,
    ends: Seq<int>,
) -> bool {
    &&& ends.len() == branches.len()
    &&& parted(ts, p, ends, Tok::RParen)
    &&& forall|i: int|
        0 <= i < branches.len() ==> block(ts, starts(p, ends, i)) == Ok::<
            (Seq<StmtV>, int),
            Seq<char>,
        >((#[trigger] branches[i], ends[i]))
}

proof fn lemma_expr_is_ahead(ts: Seq<Spanned>, p: int)
    requires
        0 <= p,
    ensures
        expr(ts, p) matches Ok((_, q)) ==> p < q && tok_at(ts, p) != Tok::RBracket,
{
    let n = ts.len() as int;
    assert(alike(ts, ts, 0, p, n));
    lemma_expr(ts, ts, 0, p, n);
    if tok_at(ts, p) == Tok::RBracket {
        assert(primary(ts, p) is Err) by {
            reveal(primary);
        }
        assert(postfix(ts, p) is Err) by {
            reveal(postfix);
            reveal(primary);
        }
        assert(bitwise(ts, p) is Err) by {
            reveal(bitwise);
            reveal(postfix);
        }
        assert(multiplicative(ts, p) is Err) by {
            reveal(multiplicative);
            reveal(bitwise);
        }
        assert(additive(ts, p) is Err) by {
            reveal(additive);
            reveal(multiplicative);
        }
        reveal(expr);
        reveal(additive);
    }
}

proof fn lemma_guards_rest(
    ts: Seq<Spanned>,
    p: int,
    guards: Seq<ExprV>,
    ends: Seq<int>,
    i: int,
)
    requires
        0 < i <= guards.len(),
        0 <= ends[i - 1],
        guards_stand(ts, p, guards, ends),
    ensures
        expr_list_rest(ts, guards.take(i), ends[i - 1]) == Ok::<(Seq<ExprV>, int), Seq<char>>(
            (guards, ends.last()),
        ),
    decreases guards.len() - i,
{
    reveal(expr_list_rest);
    reveal(expr);
    if i == guards.len() {
        assert(guards.take(i) =~= guards);
    } else {
        let q = ends[i - 1];
        assert(expr(ts, starts(p, ends, i)) == Ok::<(ExprV, int), Seq<char>>((guards[i], ends[i])));
        assert(tok_at(ts, ends[i]) != Tok::Eof);
        lemma_expr_is_ahead(ts, q + 1);
        lemma_guards_rest(ts, p, guards, ends, i + 1);
        assert(guards.take(i).push(guards[i]) =~= guards.take(i + 1));
    }
}

proof fn lemma_guards(ts: Seq<Spanned>, p: int, guards: Seq<ExprV>, ends: Seq<int>)
    requires
        0 <= p,
        guards_stand(ts, p, guards, ends),
    ensures
        expr_list(ts, p, Tok::RBracket) == Ok::<(Seq<ExprV>, int), Seq<char>>(
            (guards, ends_at(p, ends)),
        ),
{
    reveal(expr_list);
    reveal(expr);
    reveal(expr_list_rest);
    if guards.len() > 0 {
        assert(expr(ts, starts(p, ends, 0)) == Ok::<(ExprV, int), Seq<char>>((guards[0], ends[0])));
        assert(tok_at(ts, ends[0]) != Tok::Eof);
        lemma_expr_is_ahead(ts, p);
        lemma_guards_rest(ts, p, guards, ends, 1);
        assert(guards.take(1) =~= seq![guards[0]]);
    } else {
        assert(guards =~= Seq::empty());
    }
}

proof fn lemma_block_is_ahead(ts: Seq<Spanned>, p: int)
    requires
        0 <= p,
    ensures
        block(ts, p) matches Ok((_, q)) ==> p < q && tok_at(ts, p) == Tok::LBrace,
{
    let n = ts.len() as int;
    assert(alike(ts, ts, 0, p, n));
    lemma_block(ts, ts, 0, p, n);
    reveal(block);
    reveal(stmt_list);
}

proof fn lemma_blocks_rest(
    ts: Seq<Spanned>,
    p: int,
    branches: Seq<Seq<StmtV>>,
    ends: Seq<int>,
    i: int,
)
    requires
        0 < i <= branches.len(),
        0 <= ends[i - 1],
        blocks_stand(ts, p, branches, ends),
    ensures
        block_list_rest(ts, branches.take(i), ends[i - 1]) == Ok::<
            (Seq<Seq<StmtV>>, int),
            Seq<char>,
        >((branches, ends.last())),
    decreases branches.len() - i,
{
    reveal(block_list_rest);
    reveal(block);
    if i == branches.len() {
        assert(branches.take(i) =~= branches);
    } else {
        let q = ends[i - 1];
        assert(block(ts, starts(p, ends, i)) == Ok::<(Seq<StmtV>, int), Seq<char>>(
            (branches[i], ends[i]),
        ));
        assert(tok_at(ts, ends[i]) != Tok::Eof);
        lemma_block_is_ahead(ts, q + 1);
        lemma_blocks_rest(ts, p, branches, ends, i + 1);
        assert(branches.take(i).push(branches[i]) =~= branches.take(i + 1));
    }
}

proof fn lemma_blocks(ts: Seq<Spanned>, p: int, branches: Seq<Seq<StmtV>>, ends: Seq<int>)
    requires
        0 <= p,
        blocks_stand(ts, p, branches, ends),
    ensures
        block_list(ts, p) == Ok::<(Seq<Seq<StmtV>>, int), Seq<char>>(
            (branches, ends_at(p, ends)),
        ),
{
    reveal(block_list);
    reveal(block);
    reveal(block_list_rest);
    if branches.len() > 0 {
        assert(block(ts, starts(p, ends, 0)) == Ok::<(Seq<StmtV>, int), Seq<char>>(
            (branches[0], ends[0]),
        ));
        assert(tok_at(ts, ends[0]) != Tok::Eof);
        lemma_block_is_ahead(ts, p);
        lemma_blocks_rest(ts, p, branches, ends, 1);
        assert(branches.take(1) =~= seq![branches[0]]);
    } else {
        assert(branches =~= Seq::empty());
    }
}

/// The guards and the blocks of a mux are those of its text, in their order.
pub proof fn lemma_mux_in_order(
    ts: Seq<Spanned>,
    p: int,
    guards: Seq<ExprV>,
    guard_ends: Seq<int>,
    branches: Seq<Seq<StmtV>>,
    block_ends: Seq<int>,
)
    requires
        0 <= p,
        tok_at(ts, p) == Tok::LBracket,
        guards_stand(ts, p + 1, guards, guard_ends),
        mux_arrow(ts, ends_at(p + 1, guard_ends)) is Ok,
        blocks_stand(
            ts,
            mux_arrow(ts, ends_at(p + 1, guard_ends))->Ok_0,
            branches,
            block_ends,
        ),
    ensures
        ({
            let q = mux_arrow(ts, ends_at(p + 1, guard_ends))->Ok_0;
            mux_parts(ts, p, guards, branches, ends_at(q, block_ends) + 1)
        }),
{
    lemma_guards(ts, p + 1, guards, guard_ends);
    let n = ts.len() as int;
    assert(alike(ts, ts, 0, p + 1, n));
    lemma_expr_list(ts, ts, 0, p + 1, n, Tok::RBracket);
    lemma_blocks(ts, mux_arrow(ts, ends_at(p + 1, guard_ends))->Ok_0, branches, block_ends);
}

/// Whether `us` is `ts` with a `!` at `c`.
pub open spec fn with_bang(ts: Seq<Spanned>, us: Seq<Spanned>, c: int) -> bool {
    &&& 0 <= c <= ts.len()
    &&& us.len() == ts.len() + 1
    &&& us[c].tok == Tok::Bang
    &&& forall|j: int| 0 <= j < c ==> us[j].tok == (#[trigger] ts[j]).tok
    &&& forall|j: int| c <= j < ts.len() ==> us[j + 1].tok == (#[trigger] ts[j]).tok
}

/// The arrow with `!` is the same as the arrow without: where `!` is put behind the arrow of a mux,
/// the same guards and blocks stand there.
pub proof fn lemma_bang_keeps_parts(
    ts: Seq<Spanned>,
    us: Seq<Spanned>,
    p: int,
    q: int,
    guards: Seq<ExprV>,
    branches: Seq<Seq<StmtV>>,
    end: int,
)
    requires
        0 <= p,
        with_bang(ts, us, q + 3),
        expr_list(ts, p + 1, Tok::RBracket) == Ok::<(Seq<ExprV>, int), Seq<char>>((guards, q)),
        tok_at(ts, q + 3) != Tok::Bang,
    ensures
        mux_parts(ts, p, guards, branches, end) <==> mux_parts(us, p, guards, branches, end + 1),
{
    reveal(block_list);
    let c = q + 3;
    let n = ts.len() as int;
    assert(alike(ts, us, 0, p + 1, c));
    lemma_expr_list(ts, us, 0, p + 1, c, Tok::RBracket);
    if tok_at(ts, c) == Tok::LParen {
        assert(ts[c].tok == us[c + 1].tok);
        assert(alike(ts, us, 1, c + 1, n));
        lemma_block_list(ts, us, 1, c + 1, n);
        assert(alike(us, ts, -1, c + 2, n + 1)) by {
            assert forall|j: int| c + 2 <= j < n + 1 implies ts[j - 1].tok == (
            #[trigger] us[j]).tok by {
                assert(us[(j - 1) + 1].tok == ts[j - 1].tok);
            }
        }
        lemma_block_list(us, ts, -1, c + 2, n + 1);
    } else if c < n {
        assert(ts[c].tok == us[c + 1].tok);
    }
}

/// Where `!` is put behind the arrow of a mux, what is read is the same mux.
pub proof fn lemma_bang_in_arrow(
    ts: Seq<Spanned>,
    us: Seq<Spanned>,
    p: int,
    q: int,
    guards: Seq<ExprV>,
)
    requires
        0 <= p,
        with_bang(ts, us, q + 3),
        expr_list(ts, p + 1, Tok::RBracket) == Ok::<(Seq<ExprV>, int), Seq<char>>((guards, q)),
        tok_at(ts, q + 3) != Tok::Bang,
    ensures
        mux_stmt(ts, p) matches Ok((s, end)) ==> mux_stmt(us, p) == Ok::<(StmtV, int), Seq<char>>(
            (s, end + 1),
        ),
        mux_stmt(us, p) matches Ok((s, end)) ==> mux_stmt(ts, p) == Ok::<(StmtV, int), Seq<char>>(
            (s, end - 1),
        ),
{
    reveal(mux_stmt);
    reveal(block_list);
    let c = q + 3;
    let n = ts.len() as int;
    assert(alike(ts, us, 0, p + 1, c));
    lemma_expr_list(ts, us, 0, p + 1, c, Tok::RBracket);
    if tok_at(ts, c) == Tok::LParen {
        assert(ts[c].tok == us[c + 1].tok);
        assert(alike(ts, us, 1, c + 1, n));
        lemma_block_list(ts, us, 1, c + 1, n);
        assert(alike(us, ts, -1, c + 2, n + 1)) by {
            assert forall|j: int| c + 2 <= j < n + 1 implies ts[j - 1].tok == (
            #[trigger] us[j]).tok by {
                assert(us[(j - 1) + 1].tok == ts[j - 1].tok);
            }
        }
        lemma_block_list(us, ts, -1, c + 2, n + 1);
    } else if c < n {
        assert(ts[c].tok == us[c + 1].tok);
    }
}

} // verus!
