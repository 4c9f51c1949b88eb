//! Statements, components and items that are written in tokens are read as the same ones.

use vstd::prelude::*;
use crate::laws::printing::{
    all_writable, expr_tokens, is_name, lemma_tokens_split, lemma_whole, lemma_whole_list,
    list_tokens, op_token, tokens_stand, type_args_tokens, writable,
};
use crate::parser::ast::{ComponentV, ExprV, ItemV, StmtV};
use crate::parser::grammar::{
    binding, block, block_list, block_list_rest, component, item, items_from, items_of, mux_arrow,
    mux_stmt, param, param_list, params, plain_stmt, skip_balanced, stmt, stmt_list, tok_at,
    type_params,
};
use crate::parser::lexer::{Spanned, Tok};

verus! {

/// Whether a statement can be written: its names are names, its expressions can be written, and it
/// has as many guards as branches.
pub open spec fn stmt_writable(s: StmtV) -> bool
    decreases s, 0nat,
{
    match s {
        StmtV::Binding { name, value, .. } => is_name(name) && writable(value),
        StmtV::Constraint { lhs, rhs } => writable(lhs) && writable(rhs),
        StmtV::ExprStmt(e) => writable(e),
        StmtV::Mux { guards, branches } => {
            &&& all_writable(guards)
            &&& guards.len() == branches.len()
            &&& forall|i: int| 0 <= i < branches.len() ==> block_writable(#[trigger] branches[i])
        },
    }
}

/// Whether the statements of a block can be written.
pub open spec fn block_writable(b: Seq<StmtV>) -> bool
    decreases b, 1nat,
{
    forall|i: int| 0 <= i < b.len() ==> stmt_writable(#[trigger] b[i])
}

/// The tokens of a statement.
pub open spec fn stmt_tokens(s: StmtV) -> Seq<Tok>
    decreases s, 0nat,
{
    match s {
        StmtV::Binding { is_public, name, value } => (if is_public {
            seq![Tok::Public]
        } else {
            Seq::empty()
        }) + (seq![Tok::Ident(name), Tok::ColonEq] + expr_tokens(value) + seq![Tok::Semicolon]),
        StmtV::Constraint { lhs, rhs } => expr_tokens(lhs) + (seq![Tok::Eq] + expr_tokens(rhs)
            + seq![Tok::Semicolon]),
        StmtV::ExprStmt(e) => expr_tokens(e) + seq![Tok::Semicolon],
        StmtV::Mux { guards, branches } => seq![Tok::LBracket] + list_tokens(guards, guards.len())
            + seq![Tok::RBracket, Tok::Minus, Tok::RAngle, Tok::LParen] + blocks_tokens(
            branches,
            branches.len(),
        ) + seq![Tok::RParen, Tok::Semicolon],
    }
}

/// The tokens of the first `n` statements of a block.
pub open spec fn stmts_tokens(b: Seq<StmtV>, n: nat) -> Seq<Tok>
    decreases b, n,
{
    if n == 0 || n > b.len() {
        Seq::empty()
    } else {
        stmts_tokens(b, (n - 1) as nat) + stmt_tokens(b[n - 1])
    }
}

/// The tokens of a block.
pub open spec fn block_tokens(b: Seq<StmtV>) -> Seq<Tok>
    decreases b, b.len() + 1,
{
    seq![Tok::LBrace] + stmts_tokens(b, b.len()) + seq![Tok::RBrace]
}

/// The tokens of the first `n` of some blocks.
pub open spec fn blocks_tokens(bs: Seq<Seq<StmtV>>, n: nat) -> Seq<Tok>
    decreases bs, n,
{
    if n == 0 || n > bs.len() {
        Seq::empty()
    } else if n == 1 {
        block_tokens(bs[0])
    } else {
        blocks_tokens(bs, (n - 1) as nat) + seq![Tok::Comma] + block_tokens(bs[n - 1])
    }
}

/// Whether no token is one by which a binding or a macro is told from an expression.
pub open spec fn no_marks(v: Seq<Tok>) -> bool {
    forall|j: int| 0 <= j < v.len() ==> (#[trigger] v[j]) != Tok::Bang && v[j] != Tok::ColonEq
}

proof fn lemma_no_marks_add(a: Seq<Tok>, b: Seq<Tok>)
    requires
        no_marks(a),
        no_marks(b),
    ensures
        no_marks(a + b),
{
}

proof fn lemma_expr_no_marks(e: ExprV)
    ensures
        no_marks(expr_tokens(e)),
        expr_tokens(e).len() > 0,
        expr_tokens(e)[0] is Ident || expr_tokens(e)[0] is IntLit || expr_tokens(e)[0]
            == Tok::LParen || expr_tokens(e)[0] == Tok::For,
    decreases e, 0nat,
{
    match e {
        ExprV::IntLit(_) => {},
        ExprV::Ident(_) => {},
        ExprV::Field { object, field } => {
            lemma_expr_no_marks(*object);
            let b = seq![Tok::Dot, Tok::Ident(field)];
            assert(no_marks(b));
            lemma_no_marks_add(expr_tokens(*object), b);
        },
        ExprV::BinOp { op, lhs, rhs } => {
            lemma_expr_no_marks(*lhs);
            lemma_expr_no_marks(*rhs);
            let a = seq![Tok::LParen];
            let b = seq![op_token(op)];
            let c = seq![Tok::RParen];
            lemma_no_marks_add(a, expr_tokens(*lhs));
            lemma_no_marks_add(a + expr_tokens(*lhs), b);
            lemma_no_marks_add(a + expr_tokens(*lhs) + b, expr_tokens(*rhs));
            lemma_no_marks_add(a + expr_tokens(*lhs) + b + expr_tokens(*rhs), c);
        },
        ExprV::Call { name, type_args, args } => {
            let a = seq![Tok::Ident(name)];
            let b = type_args_tokens(type_args);
            let c = seq![Tok::LParen];
            let d = list_tokens(args, args.len());
            let f = seq![Tok::RParen];
            lemma_list_no_marks(args, args.len());
            assert(no_marks(a) && no_marks(b) && no_marks(c) && no_marks(f));
            lemma_no_marks_add(a, b);
            lemma_no_marks_add(a + b, c);
            lemma_no_marks_add(a + b + c, d);
            lemma_no_marks_add(a + b + c + d, f);
        },
        ExprV::Index { object, index } => {
            lemma_expr_no_marks(*object);
            lemma_expr_no_marks(*index);
            let a = seq![Tok::LBracket];
            let b = seq![Tok::RBracket];
            lemma_no_marks_add(expr_tokens(*object), a);
            lemma_no_marks_add(expr_tokens(*object) + a, expr_tokens(*index));
            lemma_no_marks_add(expr_tokens(*object) + a + expr_tokens(*index), b);
        },
        ExprV::For { var, start, end, body } => {
            lemma_expr_no_marks(*body);
            let a = seq![
                Tok::For,
                Tok::Ident(var),
                Tok::Colon,
                Tok::IntLit(start),
                Tok::DotDot,
                Tok::IntLit(end),
                Tok::LBrace,
            ];
            assert(no_marks(a));
            lemma_no_marks_add(a, expr_tokens(*body));
            lemma_no_marks_add(a + expr_tokens(*body), seq![Tok::RBrace]);
        },
    }
}

proof fn lemma_list_no_marks(es: Seq<ExprV>, n: nat)
    ensures
        no_marks(list_tokens(es, n)),
    decreases es, n,
{
    if n == 0 || n > es.len() {
    } else {
        lemma_expr_no_marks(es[n - 1]);
        if n > 1 {
            let k = (n - 1) as nat;
            lemma_list_no_marks(es, k);
            let c = seq![Tok::Comma];
            lemma_no_marks_add(list_tokens(es, k), c);
            lemma_no_marks_add(list_tokens(es, k) + c, expr_tokens(es[n - 1]));
        }
    }
}

proof fn lemma_binding_read(ts: Seq<Spanned>, p: int, s: StmtV)
    requires
        s is Binding,
        stmt_writable(s),
        tokens_stand(ts, p, stmt_tokens(s)),
    ensures
        stmt(ts, p) == Ok::<(Option<StmtV>, int), Seq<char>>(
            (Some(s), p + stmt_tokens(s).len()),
        ),
{
    match s {
        StmtV::Binding { is_public, name, value } => {
            let a = if is_public {
                seq![Tok::Public]
            } else {
                Seq::empty()
            };
            let b = seq![Tok::Ident(name), Tok::ColonEq];
            let c = expr_tokens(value);
            let d = seq![Tok::Semicolon];
            lemma_tokens_split(ts, p, a, b + c + d);
            let q = p + a.len();
            lemma_tokens_split(ts, q, b + c, d);
            lemma_tokens_split(ts, q, b, c);
            if is_public {
                assert(ts[p + 0].tok == a[0]);
            }
            assert(ts[q + 0].tok == b[0] && ts[q + 1].tok == b[1]);
            lemma_whole(ts, q + 2, value);
            reveal(stmt);
            reveal(binding);
        },
        _ => {},
    }
}

proof fn lemma_plain_read(ts: Seq<Spanned>, p: int, s: StmtV)
    requires
        s is Constraint || s is ExprStmt,
        stmt_writable(s),
        tokens_stand(ts, p, stmt_tokens(s)),
    ensures
        stmt(ts, p) == Ok::<(Option<StmtV>, int), Seq<char>>(
            (Some(s), p + stmt_tokens(s).len()),
        ),
{
    let e = match s {
        StmtV::Constraint { lhs, .. } => lhs,
        StmtV::ExprStmt(e) => e,
        _ => arbitrary(),
    };
    let rest = match s {
        StmtV::Constraint { rhs, .. } => seq![Tok::Eq] + expr_tokens(rhs) + seq![Tok::Semicolon],
        _ => seq![Tok::Semicolon],
    };
    let a = expr_tokens(e);
    lemma_expr_no_marks(e);
    lemma_tokens_split(ts, p, a, rest);
    assert(ts[p + 0].tok == a[0]);
    if a.len() > 1 {
        assert(ts[p + 1].tok == a[1]);
    } else {
        assert(tok_at(ts, p + 1) == rest[0]);
    }
    lemma_whole(ts, p, e);
    let q = p + a.len();
    if s is Constraint {
        let r = s->rhs;
        lemma_tokens_split(ts, q, seq![Tok::Eq] + expr_tokens(r), seq![Tok::Semicolon]);
        lemma_tokens_split(ts, q, seq![Tok::Eq], expr_tokens(r));
        lemma_whole(ts, q + 1, r);
    }
    reveal(stmt);
    reveal(plain_stmt);
}

proof fn lemma_stmt_starts(s: StmtV)
    ensures
        stmt_tokens(s).len() > 0,
        stmt_tokens(s)[0] != Tok::RBrace,
{
    match s {
        StmtV::Constraint { lhs, .. } => {
            lemma_expr_no_marks(lhs);
        },
        StmtV::ExprStmt(e) => {
            lemma_expr_no_marks(e);
        },
        _ => {},
    }
}

/// A statement that is written is read as the same statement.
pub proof fn lemma_stmt(ts: Seq<Spanned>, p: int, s: StmtV)
    requires
        stmt_writable(s),
        tokens_stand(ts, p, stmt_tokens(s)),
    ensures
        stmt(ts, p) == Ok::<(Option<StmtV>, int), Seq<char>>(
            (Some(s), p + stmt_tokens(s).len()),
        ),
    decreases s, 0nat,
{
    match s {
        StmtV::Binding { .. } => {
            lemma_binding_read(ts, p, s);
        },
        StmtV::Mux { guards, branches } => {
            let a = seq![Tok::LBracket];
            let b = list_tokens(guards, guards.len());
            let c = seq![Tok::RBracket, Tok::Minus, Tok::RAngle, Tok::LParen];
            let d = blocks_tokens(branches, branches.len());
            let f = seq![Tok::RParen, Tok::Semicolon];
            lemma_tokens_split(ts, p, a + b + c + d, f);
            lemma_tokens_split(ts, p, a + b + c, d);
            lemma_tokens_split(ts, p, a + b, c);
            lemma_tokens_split(ts, p, a, b);
            assert(ts[p + 0].tok == a[0]);
            let p1 = p + 1;
            let p2 = p1 + b.len();
            let p3 = p2 + 4;
            let p4 = p3 + d.len();
            lemma_whole_list(ts, p1, guards, Tok::RBracket);
            assert(ts[p2 + 0].tok == c[0] && ts[p2 + 1].tok == c[1] && ts[p2 + 2].tok == c[2]
                && ts[p2 + 3].tok == c[3]);
            assert(ts[p4 + 0].tok == f[0] && ts[p4 + 1].tok == f[1]);
            lemma_block_list(ts, p3, branches);
            reveal(stmt);
            reveal(mux_stmt);
            reveal(block_list);
        },
        _ => {
            lemma_plain_read(ts, p, s);
        },
    }
}

proof fn lemma_stmts(ts: Seq<Spanned>, p: int, b: Seq<StmtV>, n: nat)
    requires
        block_writable(b),
        n <= b.len(),
        tokens_stand(ts, p, stmts_tokens(b, n)),
    ensures
        stmt_list(ts, Seq::empty(), p) == stmt_list(
            ts,
            b.take(n as int),
            p + stmts_tokens(b, n).len(),
        ),
    decreases b, n,
{
    if n == 0 {
        assert(b.take(0) =~= Seq::empty());
    } else {
        let k = (n - 1) as nat;
        let before = stmts_tokens(b, k);
        let last = stmt_tokens(b[n - 1]);
        lemma_tokens_split(ts, p, before, last);
        lemma_stmts(ts, p, b, k);
        assert(stmt_writable(b[n - 1]));
        lemma_stmt(ts, p + before.len(), b[n - 1]);
        lemma_stmt_starts(b[n - 1]);
        assert(b.take(n as int) =~= b.take(k as int).push(b[n - 1]));
        reveal(stmt_list);
        reveal(stmt);
    }
}

/// A block that is written is read as the same block.
pub proof fn lemma_block(ts: Seq<Spanned>, p: int, b: Seq<StmtV>)
    requires
        block_writable(b),
        tokens_stand(ts, p, block_tokens(b)),
    ensures
        block(ts, p) == Ok::<(Seq<StmtV>, int), Seq<char>>((b, p + block_tokens(b).len())),
    decreases b, b.len() + 1,
{
    let v = stmts_tokens(b, b.len());
    lemma_tokens_split(ts, p, seq![Tok::LBrace] + v, seq![Tok::RBrace]);
    lemma_tokens_split(ts, p, seq![Tok::LBrace], v);
    assert(ts[p + 0].tok == seq![Tok::LBrace][0]);
    lemma_stmts(ts, p + 1, b, b.len());
    assert(b.take(b.len() as int) =~= b);
    reveal(block);
    reveal(stmt_list);
}

proof fn lemma_blocks(ts: Seq<Spanned>, p: int, bs: Seq<Seq<StmtV>>, n: nat)
    requires
        forall|i: int| 0 <= i < bs.len() ==> block_writable(#[trigger] bs[i]),
        0 < n <= bs.len(),
        tokens_stand(ts, p, blocks_tokens(bs, n)),
    ensures
        block_list(ts, p) == block_list_rest(
            ts,
            bs.take(n as int),
            p + blocks_tokens(bs, n).len(),
        ),
    decreases bs, n,
{
    assert(block_writable(bs[n - 1]));
    if n == 1 {
        lemma_block(ts, p, bs[0]);
        assert(ts[p + 0].tok == block_tokens(bs[0])[0]);
        assert(bs.take(1) =~= seq![bs[0]]);
        reveal(block_list);
        reveal(block_list_rest);
        reveal(block);
    } else {
        let k = (n - 1) as nat;
        let a = blocks_tokens(bs, k);
        let c = seq![Tok::Comma];
        let d = block_tokens(bs[n - 1]);
        lemma_tokens_split(ts, p, a + c, d);
        lemma_tokens_split(ts, p, a, c);
        lemma_blocks(ts, p, bs, k);
        lemma_block(ts, p + a.len() + 1, bs[n - 1]);
        assert(bs.take(n as int) =~= bs.take(k as int).push(bs[n - 1]));
        reveal(block_list_rest);
        reveal(block);
    }
}

/// Blocks that are written in a list are read as the same blocks.
pub proof fn lemma_block_list(ts: Seq<Spanned>, p: int, bs: Seq<Seq<StmtV>>)
    requires
        forall|i: int| 0 <= i < bs.len() ==> block_writable(#[trigger] bs[i]),
        tokens_stand(ts, p, blocks_tokens(bs, bs.len())),
        tok_at(ts, p + blocks_tokens(bs, bs.len()).len()) == Tok::RParen,
    ensures
        block_list(ts, p) == Ok::<(Seq<Seq<StmtV>>, int), Seq<char>>(
            (bs, p + blocks_tokens(bs, bs.len()).len()),
        ),
    decreases bs, bs.len() + 1,
{
    if bs.len() == 0 {
        assert(bs =~= Seq::empty());
        reveal(block_list);
    } else {
        lemma_blocks(ts, p, bs, bs.len());
        assert(bs.take(bs.len() as int) =~= bs);
        reveal(block_list_rest);
    }
}

/// An expression at the end of a block is a statement without a semicolon behind it.
pub proof fn lemma_last_expression(ts: Seq<Spanned>, p: int, e: ExprV)
    requires
        writable(e),
        tokens_stand(ts, p, expr_tokens(e)),
        tok_at(ts, p + expr_tokens(e).len()) == Tok::RBrace,
    ensures
        stmt(ts, p) == Ok::<(Option<StmtV>, int), Seq<char>>(
            (Some(StmtV::ExprStmt(e)), p + expr_tokens(e).len()),
        ),
{
    let a = expr_tokens(e);
    lemma_expr_no_marks(e);
    assert(ts[p + 0].tok == a[0]);
    if a.len() > 1 {
        assert(ts[p + 1].tok == a[1]);
    }
    lemma_whole(ts, p, e);
    reveal(stmt);
    reveal(plain_stmt);
}

/// The arrow of a mux may have a mark, which makes no difference but for its place.
pub proof fn lemma_arrows(ts: Seq<Spanned>, p: int)
    requires
        tok_at(ts, p) == Tok::RBracket,
        tok_at(ts, p + 1) == Tok::Minus,
        tok_at(ts, p + 2) == Tok::RAngle,
    ensures
        tok_at(ts, p + 3) == Tok::LParen ==> mux_arrow(ts, p) == Ok::<int, Seq<char>>(p + 4),
        tok_at(ts, p + 3) == Tok::Bang && tok_at(ts, p + 4) == Tok::LParen ==> mux_arrow(ts, p)
            == Ok::<int, Seq<char>>(p + 5),
        mux_arrow(ts, p) is Ok ==> tok_at(ts, p + 3) == Tok::LParen || (tok_at(ts, p + 3)
            == Tok::Bang && tok_at(ts, p + 4) == Tok::LParen),
{
}

/// A mux with more or fewer guards than branches is refused.
pub proof fn lemma_as_many_guards(ts: Seq<Spanned>, p: int)
    ensures
        stmt(ts, p) matches Ok((Some(StmtV::Mux { guards, branches }), _)) ==> guards.len()
            == branches.len(),
{
    reveal(stmt);
    reveal(mux_stmt);
    reveal(binding);
    reveal(plain_stmt);
}

/// A comma behind a parameter belongs to it, also behind the last one.
pub proof fn lemma_parameter(ts: Seq<Spanned>, p: int, name: Seq<char>, kind: Seq<char>)
    requires
        tok_at(ts, p) == Tok::Ident(name),
        tok_at(ts, p + 1) == Tok::Colon,
        tok_at(ts, p + 2) == Tok::Ident(kind),
    ensures
        param(ts, p) == Ok::<((Seq<char>, Seq<char>), int), Seq<char>>(
            (
                (name, kind),
                if tok_at(ts, p + 3) == Tok::Comma {
                    p + 4
                } else {
                    p + 3
                },
            ),
        ),
{
}

// ---------------------------------------------------------------------------
// Components and items
// ---------------------------------------------------------------------------

/// The tokens of the first `n` of some parameters; a comma stands behind each but the last of all.
pub open spec fn params_tokens(ps: Seq<(Seq<char>, Seq<char>)>, n: nat) -> Seq<Tok>
    decreases n,
{
    if n == 0 || n > ps.len() {
        Seq::empty()
    } else {
        params_tokens(ps, (n - 1) as nat) + (seq![
            Tok::Ident(ps[n - 1].0),
            Tok::Colon,
            Tok::Ident(ps[n - 1].1),
        ] + (if n < ps.len() {
            seq![Tok::Comma]
        } else {
            Seq::empty()
        }))
    }
}

proof fn lemma_params_from(
    ts: Seq<Spanned>,
    p: int,
    ps: Seq<(Seq<char>, Seq<char>)>,
    n: nat,
    close: Tok,
)
    requires
        n <= ps.len(),
        close == Tok::RParen || close == Tok::RAngle,
        tokens_stand(ts, p, params_tokens(ps, n)),
        n == ps.len() ==> tok_at(ts, p + params_tokens(ps, n).len()) == close,
    ensures
        param_list(ts, Seq::empty(), p, close) == param_list(
            ts,
            ps.take(n as int),
            p + params_tokens(ps, n).len(),
            close,
        ),
    decreases n,
{
    if n == 0 {
        assert(ps.take(0) =~= Seq::empty());
    } else {
        let k = (n - 1) as nat;
        let before = params_tokens(ps, k);
        let one = seq![Tok::Ident(ps[n - 1].0), Tok::Colon, Tok::Ident(ps[n - 1].1)];
        let comma = if n < ps.len() {
            seq![Tok::Comma]
        } else {
            Seq::empty()
        };
        lemma_tokens_split(ts, p, before, one + comma);
        lemma_params_from(ts, p, ps, k, close);
        let q = p + before.len();
        lemma_tokens_split(ts, q, one, comma);
        assert(ts[q + 0].tok == one[0] && ts[q + 1].tok == one[1] && ts[q + 2].tok == one[2]);
        assert(ps.take(n as int) =~= ps.take(k as int).push(ps[n - 1]));
        reveal(param_list);
    }
}

proof fn lemma_param_list(
    ts: Seq<Spanned>,
    p: int,
    ps: Seq<(Seq<char>, Seq<char>)>,
    close: Tok,
)
    requires
        close == Tok::RParen || close == Tok::RAngle,
        tokens_stand(ts, p, params_tokens(ps, ps.len())),
        tok_at(ts, p + params_tokens(ps, ps.len()).len()) == close,
    ensures
        param_list(ts, Seq::empty(), p, close) == Ok::<
            (Seq<(Seq<char>, Seq<char>)>, int),
            Seq<char>,
        >((ps, p + params_tokens(ps, ps.len()).len())),
{
    lemma_params_from(ts, p, ps, ps.len(), close);
    assert(ps.take(ps.len() as int) =~= ps);
    reveal(param_list);
}

/// The tokens of the type parameters of a component.
pub open spec fn type_params_tokens(ps: Seq<(Seq<char>, Seq<char>)>) -> Seq<Tok> {
    if ps.len() == 0 {
        Seq::empty()
    } else {
        seq![Tok::LAngle] + params_tokens(ps, ps.len()) + seq![Tok::RAngle]
    }
}

/// The tokens of a component.
pub open spec fn component_tokens(c: ComponentV) -> Seq<Tok> {
    seq![Tok::Component, Tok::Ident(c.name)] + type_params_tokens(c.type_params) + seq![Tok::LParen]
        + params_tokens(c.params, c.params.len()) + seq![Tok::RParen] + block_tokens(c.body)
}

/// A component that is written is read as the same component, and its line is that of its first
/// token.
pub proof fn lemma_component(ts: Seq<Spanned>, p: int, c: ComponentV)
    requires
        block_writable(c.body),
        tokens_stand(ts, p, component_tokens(c)),
        c.source_line == ts[p].line,
    ensures
        component(ts, p) == Ok::<(ComponentV, int), Seq<char>>((c, p + component_tokens(c).len())),
{
    let t0 = seq![Tok::Component, Tok::Ident(c.name)];
    let t1 = type_params_tokens(c.type_params);
    let t2 = seq![Tok::LParen];
    let t3 = params_tokens(c.params, c.params.len());
    let t4 = seq![Tok::RParen];
    let t5 = block_tokens(c.body);
    lemma_tokens_split(ts, p, t0 + t1 + t2 + t3 + t4, t5);
    lemma_tokens_split(ts, p, t0 + t1 + t2 + t3, t4);
    lemma_tokens_split(ts, p, t0 + t1 + t2, t3);
    lemma_tokens_split(ts, p, t0 + t1, t2);
    lemma_tokens_split(ts, p, t0, t1);
    assert(ts[p + 0].tok == t0[0] && ts[p + 1].tok == t0[1]);
    let p1 = p + 2;
    let p2 = p1 + t1.len();
    let p3 = p2 + 1;
    let p4 = p3 + t3.len();
    lemma_param_list(ts, p3, c.params, Tok::RParen);
    assert(params(ts, p2) == Ok::<(Seq<(Seq<char>, Seq<char>)>, int), Seq<char>>(
        (c.params, p4 + 1),
    ));
    assert(type_params(ts, p1) == Ok::<(Seq<(Seq<char>, Seq<char>)>, int), Seq<char>>(
        (c.type_params, p2),
    )) by {
        if c.type_params.len() > 0 {
            let a = seq![Tok::LAngle];
            let b = params_tokens(c.type_params, c.type_params.len());
            lemma_tokens_split(ts, p1, a + b, seq![Tok::RAngle]);
            lemma_tokens_split(ts, p1, a, b);
            assert(ts[p1 + 0].tok == a[0]);
            lemma_param_list(ts, p1 + 1, c.type_params, Tok::RAngle);
        } else {
            assert(c.type_params =~= Seq::empty());
        }
    }
    lemma_block(ts, p4 + 1, c.body);
    reveal(component);
}

/// Whether an item can be written.
pub open spec fn item_writable(it: ItemV) -> bool {
    it matches ItemV::Component(c) ==> block_writable(c.body)
}

/// The tokens of an item.
pub open spec fn item_tokens(it: ItemV) -> Seq<Tok> {
    match it {
        ItemV::Import(name) => seq![Tok::Import, Tok::Ident(name), Tok::Semicolon],
        ItemV::Component(c) => component_tokens(c),
        ItemV::Extern { name, return_type } => seq![
            Tok::Extern,
            Tok::Ident(name),
            Tok::LParen,
            Tok::RParen,
            Tok::Colon,
            Tok::Ident(return_type),
            Tok::Semicolon,
        ],
    }
}

/// An item that is written is read as the same item.
pub proof fn lemma_item_read(ts: Seq<Spanned>, p: int, it: ItemV)
    requires
        item_writable(it),
        tokens_stand(ts, p, item_tokens(it)),
        it matches ItemV::Component(c) ==> c.source_line == ts[p].line,
    ensures
        item(ts, p) == Ok::<(Option<ItemV>, int), Seq<char>>((Some(it), p + item_tokens(it).len())),
        tok_at(ts, p) != Tok::Eof,
        item_tokens(it).len() > 0,
{
    let v = item_tokens(it);
    reveal(item);
    match it {
        ItemV::Import(_) => {
            assert(ts[p + 0].tok == v[0] && ts[p + 1].tok == v[1] && ts[p + 2].tok == v[2]);
        },
        ItemV::Component(c) => {
            assert(v[0] == Tok::Component);
            assert(ts[p + 0].tok == v[0]);
            lemma_component(ts, p, c);
        },
        ItemV::Extern { .. } => {
            assert(ts[p + 0].tok == v[0] && ts[p + 1].tok == v[1] && ts[p + 2].tok == v[2]
                && ts[p + 3].tok == v[3] && ts[p + 4].tok == v[4] && ts[p + 5].tok == v[5]
                && ts[p + 6].tok == v[6]);
            assert(skip_balanced(ts, p + 3, Tok::LParen, Tok::RParen, 1) == Ok::<int, int>(p + 4))
                by {
                reveal_with_fuel(skip_balanced, 3);
            }
        },
    }
}

/// The tokens of the first `n` of some items.
pub open spec fn items_tokens(its: Seq<ItemV>, n: nat) -> Seq<Tok>
    decreases n,
{
    if n == 0 || n > its.len() {
        Seq::empty()
    } else {
        items_tokens(its, (n - 1) as nat) + item_tokens(its[n - 1])
    }
}

/// Whether each component stands on its line.
pub open spec fn on_their_lines(ts: Seq<Spanned>, its: Seq<ItemV>) -> bool {
    forall|i: int|
        0 <= i < its.len() ==> ((#[trigger] its[i]) matches ItemV::Component(c) ==> c.source_line
            == ts[items_tokens(its, i as nat).len() as int].line)
}

proof fn lemma_items_from(ts: Seq<Spanned>, its: Seq<ItemV>, n: nat)
    requires
        n <= its.len(),
        forall|i: int| 0 <= i < its.len() ==> item_writable(#[trigger] its[i]),
        on_their_lines(ts, its),
        tokens_stand(ts, 0, items_tokens(its, n)),
    ensures
        items_from(ts, Seq::empty(), 0) == items_from(
            ts,
            its.take(n as int),
            items_tokens(its, n).len() as int,
        ),
    decreases n,
{
    if n == 0 {
        assert(its.take(0) =~= Seq::empty());
    } else {
        let k = (n - 1) as nat;
        let before = items_tokens(its, k);
        let it = its[n - 1];
        lemma_tokens_split(ts, 0, before, item_tokens(it));
        lemma_items_from(ts, its, k);
        assert(item_writable(it));
        lemma_item_read(ts, before.len() as int, it);
        assert(its.take(n as int) =~= its.take(k as int).push(it));
        reveal(items_from);
    }
}

/// Items that are written one behind the other are read as the same items, in the same order.
pub proof fn lemma_items_are_read(ts: Seq<Spanned>, its: Seq<ItemV>)
    requires
        forall|i: int| 0 <= i < its.len() ==> item_writable(#[trigger] its[i]),
        on_their_lines(ts, its),
        tokens_stand(ts, 0, items_tokens(its, its.len())),
        tok_at(ts, items_tokens(its, its.len()).len() as int) == Tok::Eof,
    ensures
        items_of(ts) == Ok::<Seq<ItemV>, Seq<char>>(its),
{
    lemma_items_from(ts, its, its.len());
    assert(its.take(its.len() as int) =~= its);
    reveal(items_from);
}

} // verus!
