//! A phrase means the same wherever it stands: the grammar looks at the tokens of a phrase and at
//! most at one token behind it.

use vstd::prelude::*;
use crate::parser::ast::{ComponentV, ExprV, ItemV, Op, StmtV};
use crate::parser::grammar::{
    additive, additive_rest, add_op, arguments, binary, binding, bitwise, bitwise_rest, block,
    block_list, block_list_rest, component, expr, expr_list, expr_list_rest, external, for_head,
    identifier, item, macro_stmt, mul_op, multiplicative, multiplicative_rest, mux_arrow, mux_stmt,
    param, param_list, params, plain_stmt, postfix, postfix_rest, primary, skip_balanced, stmt,
    stmt_list, test_block, tok_at, type_arg, type_params, Parsed,
};
use crate::parser::lexer::{Spanned, Tok};

verus! {

/// Whether the tokens of `us` from `p + d` on are those of `ts` from `p` up to `e`.
pub open spec fn alike(ts: Seq<Spanned>, us: Seq<Spanned>, d: int, p: int, e: int) -> bool {
    &&& 0 <= p
    &&& 0 <= p + d
    &&& e <= ts.len()
    &&& e + d <= us.len()
    &&& forall|j: int| p <= j < e ==> us[j + d].tok == (#[trigger] ts[j]).tok
}

/// Whether a phrase at `p`, where there is one, does not end before `p`, and stands elsewhere too
/// where it ends at `last` at the latest.
pub open spec fn moved<T>(a: Parsed<T>, b: Parsed<T>, d: int, p: int, last: int) -> bool {
    a matches Ok((x, q)) ==> p <= q && (q <= last ==> b == Ok::<(T, int), Seq<char>>((x, q + d)))
}

/// The same of a position.
pub open spec fn moved_to(
    a: Result<int, Seq<char>>,
    b: Result<int, Seq<char>>,
    d: int,
    p: int,
    last: int,
) -> bool {
    a matches Ok(q) ==> p <= q && (q <= last ==> b == Ok::<int, Seq<char>>(q + d))
}

/// The same, of a phrase that is not empty.
pub open spec fn moved_on<T>(a: Parsed<T>, b: Parsed<T>, d: int, p: int, last: int) -> bool {
    &&& moved(a, b, d, p, last)
    &&& a matches Ok((_, q)) ==> p < q
}

proof fn lemma_for_head(
    ts: Seq<Spanned>,
    us: Seq<Spanned>,
    d: int,
    p: int,
    e: int,
)
    requires
        alike(ts, us, d, p, e),
    ensures
        moved_on(for_head(ts, p), for_head(us, p + d), d, p, e),
{
    reveal(for_head);
}

proof fn lemma_type_arg(
    ts: Seq<Spanned>,
    us: Seq<Spanned>,
    d: int,
    p: int,
    e: int,
)
    requires
        alike(ts, us, d, p, e),
    ensures
        moved_on(type_arg(ts, p), type_arg(us, p + d), d, p, e),
{
    reveal(type_arg);
}

#[verifier::spinoff_prover]
#[verifier::rlimit(80)]
proof fn lemma_arguments(
    ts: Seq<Spanned>,
    us: Seq<Spanned>,
    d: int,
    p: int,
    e: int,
)
    requires
        alike(ts, us, d, p, e),
    ensures
        moved_on(arguments(ts, p), arguments(us, p + d), d, p, e),
    decreases ts.len() - p, 12int,
{
    reveal(arguments);
    reveal(expr_list);
    lemma_expr_list(ts, us, d, p, e, Tok::RParen);
}

#[verifier::spinoff_prover]
#[verifier::rlimit(80)]
proof fn lemma_primary(
    ts: Seq<Spanned>,
    us: Seq<Spanned>,
    d: int,
    p: int,
    e: int,
)
    requires
        alike(ts, us, d, p, e),
    ensures
        moved_on(primary(ts, p), primary(us, p + d), d, p, e - 1),
    decreases ts.len() - p, 0int,
{
    reveal(primary);
    reveal(expr);
    reveal(arguments);
    match tok_at(ts, p) {
        Tok::LParen => {
            lemma_expr(ts, us, d, p + 1, e);
        },
        Tok::For => {
            lemma_for_head(ts, us, d, p, e);
            match for_head(ts, p) {
                Ok((_, q)) => {
                    if q <= ts.len() {
                        lemma_expr(ts, us, d, q, e);
                    }
                },
                Err(_) => {},
            }
        },
        Tok::Ident(name) => match tok_at(ts, p + 1) {
            Tok::LAngle => {
                lemma_type_arg(ts, us, d, p, e);
                match type_arg(ts, p) {
                    Ok((_, q)) => {
                        if q <= ts.len() {
                            lemma_arguments(ts, us, d, q, e);
                        }
                    },
                    Err(_) => {},
                }
            },
            Tok::LParen => {
                lemma_arguments(ts, us, d, p + 2, e);
            },
            _ => {},
        },
        _ => {},
    }
}

proof fn lemma_postfix(
    ts: Seq<Spanned>,
    us: Seq<Spanned>,
    d: int,
    p: int,
    e: int,
)
    requires
        alike(ts, us, d, p, e),
    ensures
        moved_on(postfix(ts, p), postfix(us, p + d), d, p, e - 1),
    decreases ts.len() - p, 2int,
{
    reveal(postfix);
    reveal(primary);
    reveal(postfix_rest);
    lemma_primary(ts, us, d, p, e);
    match primary(ts, p) {
        Ok((x, q)) => {
            if q <= ts.len() {
                lemma_postfix_rest(ts, us, d, q, e, x);
            }
        },
        Err(_) => {},
    }
}

proof fn lemma_postfix_rest(
    ts: Seq<Spanned>,
    us: Seq<Spanned>,
    d: int,
    p: int,
    e: int,
    x: ExprV,
)
    requires
        alike(ts, us, d, p, e),
    ensures
        moved(postfix_rest(ts, x, p), postfix_rest(us, x, p + d), d, p, e - 1),
    decreases ts.len() - p, 1int,
{
    reveal(postfix_rest);
    reveal(expr);
    match tok_at(ts, p) {
        Tok::Dot => match identifier(ts, p + 1) {
            Ok((f, q)) => {
                lemma_postfix_rest(
                    ts,
                    us,
                    d,
                    q,
                    e,
                    ExprV::Field { object: Box::new(x), field: f },
                );
            },
            Err(_) => {},
        },
        Tok::LBracket => {
            lemma_expr(ts, us, d, p + 1, e);
            match expr(ts, p + 1) {
                Ok((i, q)) => {
                    if q + 1 <= ts.len() {
                        lemma_postfix_rest(
                            ts,
                            us,
                            d,
                            q + 1,
                            e,
                            ExprV::Index { object: Box::new(x), index: Box::new(i) },
                        );
                    }
                },
                Err(_) => {},
            }
        },
        _ => {},
    }
}

proof fn lemma_bitwise(
    ts: Seq<Spanned>,
    us: Seq<Spanned>,
    d: int,
    p: int,
    e: int,
)
    requires
        alike(ts, us, d, p, e),
    ensures
        moved_on(bitwise(ts, p), bitwise(us, p + d), d, p, e - 1),
    decreases ts.len() - p, 4int,
{
    reveal(bitwise);
    reveal(postfix);
    reveal(bitwise_rest);
    lemma_postfix(ts, us, d, p, e);
    match postfix(ts, p) {
        Ok((x, q)) => {
            if q <= ts.len() {
                lemma_bitwise_rest(ts, us, d, q, e, x);
            }
        },
        Err(_) => {},
    }
}

proof fn lemma_bitwise_rest(
    ts: Seq<Spanned>,
    us: Seq<Spanned>,
    d: int,
    p: int,
    e: int,
    l: ExprV,
)
    requires
        alike(ts, us, d, p, e),
    ensures
        moved(bitwise_rest(ts, l, p), bitwise_rest(us, l, p + d), d, p, e - 1),
    decreases ts.len() - p, 3int,
{
    reveal(bitwise_rest);
    reveal(postfix);
    if tok_at(ts, p) == Tok::Ampersand {
        lemma_postfix(ts, us, d, p + 1, e);
        match postfix(ts, p + 1) {
            Ok((r, q)) => {
                if q <= ts.len() {
                    lemma_bitwise_rest(ts, us, d, q, e, binary(Op::BitAnd, l, r));
                }
            },
            Err(_) => {},
        }
    }
}

proof fn lemma_multiplicative(
    ts: Seq<Spanned>,
    us: Seq<Spanned>,
    d: int,
    p: int,
    e: int,
)
    requires
        alike(ts, us, d, p, e),
    ensures
        moved_on(multiplicative(ts, p), multiplicative(us, p + d), d, p, e - 1),
    decreases ts.len() - p, 6int,
{
    reveal(multiplicative);
    reveal(bitwise);
    reveal(multiplicative_rest);
    lemma_bitwise(ts, us, d, p, e);
    match bitwise(ts, p) {
        Ok((x, q)) => {
            if q <= ts.len() {
                lemma_multiplicative_rest(ts, us, d, q, e, x);
            }
        },
        Err(_) => {},
    }
}

proof fn lemma_multiplicative_rest(
    ts: Seq<Spanned>,
    us: Seq<Spanned>,
    d: int,
    p: int,
    e: int,
    l: ExprV,
)
    requires
        alike(ts, us, d, p, e),
    ensures
        moved(multiplicative_rest(ts, l, p), multiplicative_rest(us, l, p + d), d, p, e - 1),
    decreases ts.len() - p, 5int,
{
    reveal(multiplicative_rest);
    reveal(bitwise);
    if mul_op(tok_at(ts, p)) is Some {
        lemma_bitwise(ts, us, d, p + 1, e);
        match bitwise(ts, p + 1) {
            Ok((r, q)) => {
                if q <= ts.len() {
                    let x = binary(mul_op(tok_at(ts, p))->Some_0, l, r);
                    lemma_multiplicative_rest(ts, us, d, q, e, x);
                }
            },
            Err(_) => {},
        }
    }
}

proof fn lemma_additive(
    ts: Seq<Spanned>,
    us: Seq<Spanned>,
    d: int,
    p: int,
    e: int,
)
    requires
        alike(ts, us, d, p, e),
    ensures
        moved_on(additive(ts, p), additive(us, p + d), d, p, e - 1),
    decreases ts.len() - p, 8int,
{
    reveal(additive);
    reveal(multiplicative);
    reveal(additive_rest);
    lemma_multiplicative(ts, us, d, p, e);
    match multiplicative(ts, p) {
        Ok((x, q)) => {
            if q <= ts.len() {
                lemma_additive_rest(ts, us, d, q, e, x);
            }
        },
        Err(_) => {},
    }
}

proof fn lemma_additive_rest(
    ts: Seq<Spanned>,
    us: Seq<Spanned>,
    d: int,
    p: int,
    e: int,
    l: ExprV,
)
    requires
        alike(ts, us, d, p, e),
    ensures
        moved(additive_rest(ts, l, p), additive_rest(us, l, p + d), d, p, e - 1),
    decreases ts.len() - p, 7int,
{
    reveal(additive_rest);
    reveal(multiplicative);
    if add_op(tok_at(ts, p)) is Some {
        lemma_multiplicative(ts, us, d, p + 1, e);
        match multiplicative(ts, p + 1) {
            Ok((r, q)) => {
                if q <= ts.len() {
                    let x = binary(add_op(tok_at(ts, p))->Some_0, l, r);
                    lemma_additive_rest(ts, us, d, q, e, x);
                }
            },
            Err(_) => {},
        }
    }
}

/// An expression means the same wherever it stands.
pub proof fn lemma_expr(
    ts: Seq<Spanned>,
    us: Seq<Spanned>,
    d: int,
    p: int,
    e: int,
)
    requires
        alike(ts, us, d, p, e),
    ensures
        moved_on(expr(ts, p), expr(us, p + d), d, p, e - 1),
    decreases ts.len() - p, 9int,
{
    reveal(expr);
    reveal(additive);
    lemma_additive(ts, us, d, p, e);
}

/// A list of expressions means the same wherever it stands.
pub proof fn lemma_expr_list(
    ts: Seq<Spanned>,
    us: Seq<Spanned>,
    d: int,
    p: int,
    e: int,
    close: Tok,
)
    requires
        alike(ts, us, d, p, e),
    ensures
        moved(expr_list(ts, p, close), expr_list(us, p + d, close), d, p, e - 1),
    decreases ts.len() - p, 11int,
{
    reveal(expr_list);
    reveal(expr);
    reveal(expr_list_rest);
    if tok_at(ts, p) != close {
        lemma_expr(ts, us, d, p, e);
        match expr(ts, p) {
            Ok((x, q)) => {
                if q <= ts.len() {
                    lemma_expr_list_rest(ts, us, d, q, e, seq![x]);
                }
            },
            Err(_) => {},
        }
    }
}

proof fn lemma_expr_list_rest(
    ts: Seq<Spanned>,
    us: Seq<Spanned>,
    d: int,
    p: int,
    e: int,
    acc: Seq<ExprV>,
)
    requires
        alike(ts, us, d, p, e),
    ensures
        moved(expr_list_rest(ts, acc, p), expr_list_rest(us, acc, p + d), d, p, e - 1),
    decreases ts.len() - p, 10int,
{
    reveal(expr_list_rest);
    reveal(expr);
    if tok_at(ts, p) == Tok::Comma {
        lemma_expr(ts, us, d, p + 1, e);
        match expr(ts, p + 1) {
            Ok((x, q)) => {
                if q <= ts.len() {
                    lemma_expr_list_rest(ts, us, d, q, e, acc.push(x));
                }
            },
            Err(_) => {},
        }
    }
}

proof fn lemma_skip_balanced(
    ts: Seq<Spanned>,
    us: Seq<Spanned>,
    d: int,
    p: int,
    e: int,
    open: Tok,
    close: Tok,
    depth: nat,
)
    requires
        alike(ts, us, d, p, e),
    ensures
        skip_balanced(ts, p, open, close, depth) matches Ok(q) ==> {
            &&& p <= q
            &&& q <= e ==> skip_balanced(us, p + d, open, close, depth) == Ok::<int, int>(q + d)
            &&& depth > 0 ==> p < q && tok_at(ts, q - 1) != Tok::Eof
        },
    decreases ts.len() - p,
{
    reveal(skip_balanced);
    if depth > 0 && tok_at(ts, p) != Tok::Eof {
        let t = tok_at(ts, p);
        let n: nat = if t == open {
            depth + 1
        } else if t == close {
            (depth - 1) as nat
        } else {
            depth
        };
        lemma_skip_balanced(ts, us, d, p + 1, e, open, close, n);
    }
}

proof fn lemma_macro_stmt(
    ts: Seq<Spanned>,
    us: Seq<Spanned>,
    d: int,
    p: int,
    e: int,
    name: Seq<char>,
)
    requires
        alike(ts, us, d, p, e),
    ensures
        moved_to(macro_stmt(ts, p, name), macro_stmt(us, p + d, name), d, p + 1, e),
{
    reveal(macro_stmt);
    lemma_skip_balanced(ts, us, d, p + 3, e, Tok::LParen, Tok::RParen, 1);
}

proof fn lemma_binding(
    ts: Seq<Spanned>,
    us: Seq<Spanned>,
    d: int,
    p: int,
    e: int,
    is_public: bool,
    name: Seq<char>,
)
    requires
        alike(ts, us, d, p, e),
    ensures
        moved_on(binding(ts, p, is_public, name), binding(us, p + d, is_public, name), d, p, e),
{
    reveal(binding);
    lemma_expr(ts, us, d, p + 2, e);
}

proof fn lemma_plain_stmt(
    ts: Seq<Spanned>,
    us: Seq<Spanned>,
    d: int,
    p: int,
    e: int,
)
    requires
        alike(ts, us, d, p, e),
    ensures
        moved_on(plain_stmt(ts, p), plain_stmt(us, p + d), d, p, e - 1),
{
    reveal(plain_stmt);
    lemma_expr(ts, us, d, p, e);
    match expr(ts, p) {
        Ok((_, q)) => {
            lemma_expr(ts, us, d, q + 1, e);
        },
        Err(_) => {},
    }
}

proof fn lemma_stmt(
    ts: Seq<Spanned>,
    us: Seq<Spanned>,
    d: int,
    p: int,
    e: int,
)
    requires
        alike(ts, us, d, p, e),
    ensures
        moved_on(stmt(ts, p), stmt(us, p + d), d, p, e - 1),
    decreases ts.len() - p, 1int,
{
    reveal(stmt);
    reveal(mux_stmt);
    if tok_at(ts, p) == Tok::LBracket {
        lemma_mux_stmt(ts, us, d, p, e);
    } else {
        let is_public = tok_at(ts, p) == Tok::Public;
        let q = if is_public {
            p + 1
        } else {
            p
        };
        lemma_plain_stmt(ts, us, d, q, e);
        match tok_at(ts, q) {
            Tok::Ident(name) => {
                lemma_macro_stmt(ts, us, d, q, e, name);
                lemma_binding(ts, us, d, q, e, is_public, name);
            },
            _ => {},
        }
    }
}

#[verifier::spinoff_prover]
#[verifier::rlimit(80)]
proof fn lemma_mux_stmt(
    ts: Seq<Spanned>,
    us: Seq<Spanned>,
    d: int,
    p: int,
    e: int,
)
    requires
        alike(ts, us, d, p, e),
    ensures
        moved_on(mux_stmt(ts, p), mux_stmt(us, p + d), d, p, e),
    decreases ts.len() - p, 0int,
{
    reveal(mux_stmt);
    reveal(block_list);
    if tok_at(ts, p) == Tok::LBracket {
        lemma_expr_list(ts, us, d, p + 1, e, Tok::RBracket);
        match expr_list(ts, p + 1, Tok::RBracket) {
            Ok((_, q)) => match mux_arrow(ts, q) {
                Ok(r) => {
                    if r <= ts.len() {
                        lemma_block_list(ts, us, d, r, e);
                    }
                },
                Err(_) => {},
            },
            Err(_) => {},
        }
    }
}

/// A list of blocks means the same wherever it stands.
pub proof fn lemma_block_list(
    ts: Seq<Spanned>,
    us: Seq<Spanned>,
    d: int,
    p: int,
    e: int,
)
    requires
        alike(ts, us, d, p, e),
    ensures
        moved(block_list(ts, p), block_list(us, p + d), d, p, e - 1),
    decreases ts.len() - p, 5int,
{
    reveal(block_list);
    reveal(block);
    reveal(block_list_rest);
    if tok_at(ts, p) != Tok::RParen {
        lemma_block(ts, us, d, p, e);
        match block(ts, p) {
            Ok((b, q)) => {
                if q <= ts.len() {
                    lemma_block_list_rest(ts, us, d, q, e, seq![b]);
                }
            },
            Err(_) => {},
        }
    }
}

proof fn lemma_block_list_rest(
    ts: Seq<Spanned>,
    us: Seq<Spanned>,
    d: int,
    p: int,
    e: int,
    acc: Seq<Seq<StmtV>>,
)
    requires
        alike(ts, us, d, p, e),
    ensures
        moved(block_list_rest(ts, acc, p), block_list_rest(us, acc, p + d), d, p, e - 1),
    decreases ts.len() - p, 4int,
{
    reveal(block_list_rest);
    reveal(block);
    if tok_at(ts, p) == Tok::Comma {
        lemma_block(ts, us, d, p + 1, e);
        match block(ts, p + 1) {
            Ok((b, q)) => {
                if q <= ts.len() {
                    lemma_block_list_rest(ts, us, d, q, e, acc.push(b));
                }
            },
            Err(_) => {},
        }
    }
}

/// A block means the same wherever it stands.
pub proof fn lemma_block(
    ts: Seq<Spanned>,
    us: Seq<Spanned>,
    d: int,
    p: int,
    e: int,
)
    requires
        alike(ts, us, d, p, e),
    ensures
        moved_on(block(ts, p), block(us, p + d), d, p, e),
        block(ts, p) matches Ok((_, q)) ==> tok_at(ts, q - 1) == Tok::RBrace,
    decreases ts.len() - p, 3int,
{
    reveal(block);
    reveal(stmt_list);
    if tok_at(ts, p) == Tok::LBrace {
        lemma_stmt_list(ts, us, d, p + 1, e, Seq::empty());
    }
}

proof fn lemma_stmt_list(
    ts: Seq<Spanned>,
    us: Seq<Spanned>,
    d: int,
    p: int,
    e: int,
    acc: Seq<StmtV>,
)
    requires
        alike(ts, us, d, p, e),
    ensures
        moved(stmt_list(ts, acc, p), stmt_list(us, acc, p + d), d, p, e - 1),
    decreases ts.len() - p, 2int,
{
    reveal(stmt_list);
    reveal(stmt);
    if tok_at(ts, p) != Tok::RBrace {
        lemma_stmt(ts, us, d, p, e);
        match stmt(ts, p) {
            Ok((s, q)) => {
                if q <= ts.len() {
                    let more = match s {
                        Some(x) => acc.push(x),
                        None => acc,
                    };
                    lemma_stmt_list(ts, us, d, q, e, more);
                }
            },
            Err(_) => {},
        }
    }
}

proof fn lemma_param_list(
    ts: Seq<Spanned>,
    us: Seq<Spanned>,
    d: int,
    p: int,
    e: int,
    acc: Seq<(Seq<char>, Seq<char>)>,
    close: Tok,
)
    requires
        alike(ts, us, d, p, e),
    ensures
        moved(param_list(ts, acc, p, close), param_list(us, acc, p + d, close), d, p, e - 1),
    decreases ts.len() - p,
{
    reveal(param_list);
    if tok_at(ts, p) != close {
        match param(ts, p) {
            Ok((x, q)) => {
                if q <= ts.len() {
                    lemma_param_list(ts, us, d, q, e, acc.push(x), close);
                }
            },
            Err(_) => {},
        }
    }
}

proof fn lemma_type_params(
    ts: Seq<Spanned>,
    us: Seq<Spanned>,
    d: int,
    p: int,
    e: int,
)
    requires
        alike(ts, us, d, p, e),
    ensures
        moved(type_params(ts, p), type_params(us, p + d), d, p, e - 1),
{
    lemma_param_list(ts, us, d, p + 1, e, Seq::empty(), Tok::RAngle);
}

proof fn lemma_params(
    ts: Seq<Spanned>,
    us: Seq<Spanned>,
    d: int,
    p: int,
    e: int,
)
    requires
        alike(ts, us, d, p, e),
    ensures
        moved_on(params(ts, p), params(us, p + d), d, p, e),
{
    lemma_param_list(ts, us, d, p + 1, e, Seq::empty(), Tok::RParen);
}

/// A component with its line moved down.
pub open spec fn component_down(c: ComponentV, k: int) -> ComponentV {
    ComponentV { source_line: (c.source_line + k) as nat, ..c }
}

/// An item with its line moved down, where it has one.
pub open spec fn item_down(it: ItemV, k: int) -> ItemV {
    match it {
        ItemV::Component(c) => ItemV::Component(component_down(c, k)),
        _ => it,
    }
}

/// Whether tokens stand further down by `k` lines.
pub open spec fn lines_down(
    ts: Seq<Spanned>,
    us: Seq<Spanned>,
    d: int,
    p: int,
    e: int,
    k: int,
) -> bool {
    forall|j: int| p <= j < e ==> us[j + d].line == (#[trigger] ts[j]).line + k
}

proof fn lemma_component(
    ts: Seq<Spanned>,
    us: Seq<Spanned>,
    d: int,
    p: int,
    e: int,
    k: int,
)
    requires
        alike(ts, us, d, p, e),
        lines_down(ts, us, d, p, e, k),
    ensures
        component(ts, p) matches Ok((c, q)) ==> {
            &&& p < q
            &&& q <= e ==> component(us, p + d) == Ok::<(ComponentV, int), Seq<char>>(
                (component_down(c, k), q + d),
            )
            &&& tok_at(ts, q - 1) != Tok::Eof
        },
{
    reveal(component);
    match identifier(ts, p + 1) {
        Ok((_, b)) => {
            lemma_type_params(ts, us, d, b, e);
            match type_params(ts, b) {
                Ok((_, c)) => {
                    lemma_params(ts, us, d, c, e);
                    match params(ts, c) {
                        Ok((_, f)) => {
                            lemma_block(ts, us, d, f, e);
                        },
                        Err(_) => {},
                    }
                },
                Err(_) => {},
            }
        },
        Err(_) => {},
    }
}

proof fn lemma_external(
    ts: Seq<Spanned>,
    us: Seq<Spanned>,
    d: int,
    p: int,
    e: int,
)
    requires
        alike(ts, us, d, p, e),
    ensures
        moved_on(external(ts, p), external(us, p + d), d, p, e),
{
    lemma_skip_balanced(ts, us, d, p + 3, e, Tok::LParen, Tok::RParen, 1);
}

proof fn lemma_test_block(
    ts: Seq<Spanned>,
    us: Seq<Spanned>,
    d: int,
    p: int,
    e: int,
)
    requires
        alike(ts, us, d, p, e),
    ensures
        moved_to(test_block(ts, p), test_block(us, p + d), d, p + 1, e),
        test_block(ts, p) matches Ok(q) ==> tok_at(ts, q - 1) != Tok::Eof,
{
    lemma_skip_balanced(ts, us, d, p + 3, e, Tok::LBrace, Tok::RBrace, 1);
}

/// An item means the same wherever it stands, but for the line.
pub proof fn lemma_item(
    ts: Seq<Spanned>,
    us: Seq<Spanned>,
    d: int,
    p: int,
    e: int,
    k: int,
)
    requires
        alike(ts, us, d, p, e),
        lines_down(ts, us, d, p, e, k),
    ensures
        item(ts, p) matches Ok((x, q)) ==> p < q && (q <= e ==> item(us, p + d) == Ok::<
            (Option<ItemV>, int),
            Seq<char>,
        >(
            (
                match x {
                    Some(it) => Some(item_down(it, k)),
                    None => None,
                },
                q + d,
            ),
        )),
        item(ts, p) matches Ok((_, q)) ==> tok_at(ts, q - 1) != Tok::Eof,
{
    reveal(item);
    match tok_at(ts, p) {
        Tok::Test => {
            lemma_test_block(ts, us, d, p, e);
        },
        Tok::Extern => {
            lemma_external(ts, us, d, p, e);
        },
        Tok::Component => {
            lemma_component(ts, us, d, p, e, k);
        },
        _ => {},
    }
}

} // verus!
