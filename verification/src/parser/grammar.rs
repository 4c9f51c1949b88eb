//! What a sequence of tokens stands for: the grammar of components, as functions
//! from a position among the tokens to the phrase that starts there and the
//! position behind it, or to the message for the place where there is none.

use vstd::prelude::*;
use crate::parser::ast::{ComponentV, ExprV, ItemV, Op, StmtV};
use crate::parser::lexer::{Spanned, Tok};
use crate::text::digits;

verus! {

/// A phrase and the position behind it, or the message that there is none.
pub type Parsed<T> = Result<(T, int), Seq<char>>;

/// The token at `p`; behind the last one there is `Eof`.
pub open spec fn tok_at(ts: Seq<Spanned>, p: int) -> Tok {
    if 0 <= p < ts.len() {
        ts[p].tok
    } else {
        Tok::Eof
    }
}

/// The line of the token at `p`, in decimal.
pub open spec fn line_text(ts: Seq<Spanned>, p: int) -> Seq<char> {
    digits(ts[p].line)
}

/// How a token is named in messages.
pub open spec fn token_text(t: Tok) -> Seq<char> {
    match t {
        Tok::Component => "Component"@,
        Tok::Import => "Import"@,
        Tok::Public => "Public"@,
        Tok::For => "For"@,
        Tok::Test => "Test"@,
        Tok::Extern => "Extern"@,
        Tok::Ident(s) => "Ident(\""@ + s + "\")"@,
        Tok::IntLit(n) => "IntLit("@ + digits(n as nat) + ")"@,
        Tok::LParen => "LParen"@,
        Tok::RParen => "RParen"@,
        Tok::LBrace => "LBrace"@,
        Tok::RBrace => "RBrace"@,
        Tok::LBracket => "LBracket"@,
        Tok::RBracket => "RBracket"@,
        Tok::LAngle => "LAngle"@,
        Tok::RAngle => "RAngle"@,
        Tok::Colon => "Colon"@,
        Tok::ColonEq => "ColonEq"@,
        Tok::Semicolon => "Semicolon"@,
        Tok::Comma => "Comma"@,
        Tok::Dot => "Dot"@,
        Tok::DotDot => "DotDot"@,
        Tok::Eq => "Eq"@,
        Tok::Plus => "Plus"@,
        Tok::Minus => "Minus"@,
        Tok::Star => "Star"@,
        Tok::Slash => "Slash"@,
        Tok::Ampersand => "Ampersand"@,
        Tok::Hash => "Hash"@,
        Tok::Bang => "Bang"@,
        Tok::Eof => "Eof"@,
    }
}

/// Whether `q` lies behind `p` and not behind the tokens. Every phrase ends at such
/// a position; the functions below ask for it only so that they are well-founded.
pub open spec fn ahead(ts: Seq<Spanned>, p: int, q: int) -> bool {
    p < q <= ts.len()
}

/// What stands where a phrase does not end ahead of its start. No phrase is so.
pub open spec fn stuck<T>() -> Parsed<T> {
    Err(Seq::empty())
}

/// The token `t` itself.
pub open spec fn expected(ts: Seq<Spanned>, p: int, t: Tok) -> Parsed<()> {
    if tok_at(ts, p) == t {
        Ok(((), p + 1))
    } else {
        Err(
            "Expected "@ + token_text(t) + ", got "@ + token_text(tok_at(ts, p)) + " line "@
                + line_text(ts, p),
        )
    }
}

/// An identifier.
pub open spec fn identifier(ts: Seq<Spanned>, p: int) -> Parsed<Seq<char>> {
    match tok_at(ts, p) {
        Tok::Ident(s) => Ok((s, p + 1)),
        _ => Err("Expected ident line "@ + line_text(ts, p)),
    }
}

/// An integer literal.
pub open spec fn integer(ts: Seq<Spanned>, p: int) -> Parsed<u64> {
    match tok_at(ts, p) {
        Tok::IntLit(n) => Ok((n, p + 1)),
        _ => Err("Expected int line "@ + line_text(ts, p)),
    }
}

/// A position behind an expected token, or the message that another one is there.
pub open spec fn behind(ts: Seq<Spanned>, p: int, t: Tok) -> Result<int, Seq<char>> {
    match expected(ts, p, t) {
        Ok((_, q)) => Ok(q),
        Err(e) => Err(e),
    }
}

// ---------------------------------------------------------------------------
// Expressions
// ---------------------------------------------------------------------------

/// `for VAR : START .. END {`
#[verifier::opaque]
pub open spec fn for_head(ts: Seq<Spanned>, p: int) -> Parsed<(Seq<char>, u64, u64)> {
    match identifier(ts, p + 1) {
        Err(e) => Err(e),
        Ok((v, a)) => match behind(ts, a, Tok::Colon) {
            Err(e) => Err(e),
            Ok(b) => match integer(ts, b) {
                Err(e) => Err(e),
                Ok((s, c)) => match behind(ts, c, Tok::DotDot) {
                    Err(e) => Err(e),
                    Ok(d) => match integer(ts, d) {
                        Err(e) => Err(e),
                        Ok((n, f)) => match behind(ts, f, Tok::LBrace) {
                            Err(e) => Err(e),
                            Ok(g) => Ok(((v, s, n), g)),
                        },
                    },
                },
            },
        },
    }
}

/// `< N > (`, behind the name of a call at `p`.
#[verifier::opaque]
pub open spec fn type_arg(ts: Seq<Spanned>, p: int) -> Parsed<u64> {
    match integer(ts, p + 2) {
        Err(e) => Err(e),
        Ok((n, a)) => match behind(ts, a, Tok::RAngle) {
            Err(e) => Err(e),
            Ok(b) => match behind(ts, b, Tok::LParen) {
                Err(e) => Err(e),
                Ok(c) => Ok((n, c)),
            },
        },
    }
}

/// The arguments from `p` on and the parenthesis that closes them.
#[verifier::opaque]
pub open spec fn arguments(ts: Seq<Spanned>, p: int) -> Parsed<Seq<ExprV>>
    decreases ts.len() - p, 12int,
{
    match expr_list(ts, p, Tok::RParen) {
        Err(e) => Err(e),
        Ok((args, q)) => match behind(ts, q, Tok::RParen) {
            Err(e) => Err(e),
            Ok(r) => Ok((args, r)),
        },
    }
}

/// A literal, an expression in parentheses, a loop, a call or an identifier.
#[verifier::opaque]
pub open spec fn primary(ts: Seq<Spanned>, p: int) -> Parsed<ExprV>
    decreases ts.len() - p, 0int,
{
    match tok_at(ts, p) {
        Tok::IntLit(n) => Ok((ExprV::IntLit(n), p + 1)),
        Tok::LParen => match expr(ts, p + 1) {
            Err(e) => Err(e),
            Ok((x, q)) => match behind(ts, q, Tok::RParen) {
                Err(e) => Err(e),
                Ok(r) => Ok((x, r)),
            },
        },
        Tok::For => match for_head(ts, p) {
            Err(e) => Err(e),
            Ok(((var, start, end), q)) => if ahead(ts, p, q) {
                match expr(ts, q) {
                    Err(e) => Err(e),
                    Ok((body, r)) => match behind(ts, r, Tok::RBrace) {
                        Err(e) => Err(e),
                        Ok(u) => Ok((ExprV::For { var, start, end, body: Box::new(body) }, u)),
                    },
                }
            } else {
                stuck()
            },
        },
        Tok::Ident(name) => match tok_at(ts, p + 1) {
            Tok::LAngle => match type_arg(ts, p) {
                Err(e) => Err(e),
                Ok((n, q)) => if ahead(ts, p, q) {
                    match arguments(ts, q) {
                        Err(e) => Err(e),
                        Ok((args, r)) => Ok((ExprV::Call { name, type_args: seq![n], args }, r)),
                    }
                } else {
                    stuck()
                },
            },
            Tok::LParen => match arguments(ts, p + 2) {
                Err(e) => Err(e),
                Ok((args, r)) => Ok((ExprV::Call { name, type_args: Seq::empty(), args }, r)),
            },
            _ => Ok((ExprV::Ident(name), p + 1)),
        },
        t => Err("Unexpected "@ + token_text(t) + " in expr line "@ + line_text(ts, p)),
    }
}

/// A primary with the field accesses and indexings behind it.
#[verifier::opaque]
pub open spec fn postfix(ts: Seq<Spanned>, p: int) -> Parsed<ExprV>
    decreases ts.len() - p, 2int,
{
    match primary(ts, p) {
        Err(e) => Err(e),
        Ok((x, q)) => if ahead(ts, p, q) {
            postfix_rest(ts, x, q)
        } else {
            stuck()
        },
    }
}

/// `x` with the field accesses and indexings from `p` on.
#[verifier::opaque]
pub open spec fn postfix_rest(ts: Seq<Spanned>, x: ExprV, p: int) -> Parsed<ExprV>
    decreases ts.len() - p, 1int,
{
    match tok_at(ts, p) {
        Tok::Dot => match identifier(ts, p + 1) {
            Err(e) => Err(e),
            Ok((f, q)) => postfix_rest(ts, ExprV::Field { object: Box::new(x), field: f }, q),
        },
        Tok::LBracket => match expr(ts, p + 1) {
            Err(e) => Err(e),
            Ok((i, q)) => match behind(ts, q, Tok::RBracket) {
                Err(e) => Err(e),
                Ok(r) => if ahead(ts, p, r) {
                    postfix_rest(
                        ts,
                        ExprV::Index { object: Box::new(x), index: Box::new(i) },
                        r,
                    )
                } else {
                    stuck()
                },
            },
        },
        _ => Ok((x, p)),
    }
}

/// A binary operation.
pub open spec fn binary(op: Op, l: ExprV, r: ExprV) -> ExprV {
    ExprV::BinOp { op, lhs: Box::new(l), rhs: Box::new(r) }
}

/// Postfix expressions joined by `&`, from the left.
#[verifier::opaque]
pub open spec fn bitwise(ts: Seq<Spanned>, p: int) -> Parsed<ExprV>
    decreases ts.len() - p, 4int,
{
    match postfix(ts, p) {
        Err(e) => Err(e),
        Ok((x, q)) => if ahead(ts, p, q) {
            bitwise_rest(ts, x, q)
        } else {
            stuck()
        },
    }
}

/// `l` with the operations `&` from `p` on.
#[verifier::opaque]
pub open spec fn bitwise_rest(ts: Seq<Spanned>, l: ExprV, p: int) -> Parsed<ExprV>
    decreases ts.len() - p, 3int,
{
    match tok_at(ts, p) {
        Tok::Ampersand => match postfix(ts, p + 1) {
            Err(e) => Err(e),
            Ok((r, q)) => if ahead(ts, p, q) {
                bitwise_rest(ts, binary(Op::BitAnd, l, r), q)
            } else {
                stuck()
            },
        },
        _ => Ok((l, p)),
    }
}

/// The operator `*` or `/`.
pub open spec fn mul_op(t: Tok) -> Option<Op> {
    match t {
        Tok::Star => Some(Op::Mul),
        Tok::Slash => Some(Op::Div),
        _ => None,
    }
}

/// The operator `+` or `-`.
pub open spec fn add_op(t: Tok) -> Option<Op> {
    match t {
        Tok::Plus => Some(Op::Add),
        Tok::Minus => Some(Op::Sub),
        _ => None,
    }
}

/// Factors joined by `*` and `/`, from the left.
#[verifier::opaque]
pub open spec fn multiplicative(ts: Seq<Spanned>, p: int) -> Parsed<ExprV>
    decreases ts.len() - p, 6int,
{
    match bitwise(ts, p) {
        Err(e) => Err(e),
        Ok((x, q)) => if ahead(ts, p, q) {
            multiplicative_rest(ts, x, q)
        } else {
            stuck()
        },
    }
}

/// `l` with the operations `*` and `/` from `p` on.
#[verifier::opaque]
pub open spec fn multiplicative_rest(ts: Seq<Spanned>, l: ExprV, p: int) -> Parsed<ExprV>
    decreases ts.len() - p, 5int,
{
    match mul_op(tok_at(ts, p)) {
        Some(op) => match bitwise(ts, p + 1) {
            Err(e) => Err(e),
            Ok((r, q)) => if ahead(ts, p, q) {
                multiplicative_rest(ts, binary(op, l, r), q)
            } else {
                stuck()
            },
        },
        None => Ok((l, p)),
    }
}

/// Terms joined by `+` and `-`, from the left.
#[verifier::opaque]
pub open spec fn additive(ts: Seq<Spanned>, p: int) -> Parsed<ExprV>
    decreases ts.len() - p, 8int,
{
    match multiplicative(ts, p) {
        Err(e) => Err(e),
        Ok((x, q)) => if ahead(ts, p, q) {
            additive_rest(ts, x, q)
        } else {
            stuck()
        },
    }
}

/// `l` with the operations `+` and `-` from `p` on.
#[verifier::opaque]
pub open spec fn additive_rest(ts: Seq<Spanned>, l: ExprV, p: int) -> Parsed<ExprV>
    decreases ts.len() - p, 7int,
{
    match add_op(tok_at(ts, p)) {
        Some(op) => match multiplicative(ts, p + 1) {
            Err(e) => Err(e),
            Ok((r, q)) => if ahead(ts, p, q) {
                additive_rest(ts, binary(op, l, r), q)
            } else {
                stuck()
            },
        },
        None => Ok((l, p)),
    }
}

/// An expression.
#[verifier::opaque]
pub open spec fn expr(ts: Seq<Spanned>, p: int) -> Parsed<ExprV>
    decreases ts.len() - p, 9int,
{
    additive(ts, p)
}

/// Expressions with commas between them, up to a token `close`; none where `close`
/// stands at once.
#[verifier::opaque]
pub open spec fn expr_list(ts: Seq<Spanned>, p: int, close: Tok) -> Parsed<Seq<ExprV>>
    decreases ts.len() - p, 11int,
{
    if tok_at(ts, p) == close {
        Ok((Seq::empty(), p))
    } else {
        match expr(ts, p) {
            Err(e) => Err(e),
            Ok((x, q)) => if ahead(ts, p, q) {
                expr_list_rest(ts, seq![x], q)
            } else {
                stuck()
            },
        }
    }
}

/// `acc` and the expressions from `p` on, each behind a comma.
#[verifier::opaque]
pub open spec fn expr_list_rest(ts: Seq<Spanned>, acc: Seq<ExprV>, p: int) -> Parsed<Seq<ExprV>>
    decreases ts.len() - p, 10int,
{
    match tok_at(ts, p) {
        Tok::Comma => match expr(ts, p + 1) {
            Err(e) => Err(e),
            Ok((x, q)) => if ahead(ts, p, q) {
                expr_list_rest(ts, acc.push(x), q)
            } else {
                stuck()
            },
        },
        _ => Ok((acc, p)),
    }
}

// ---------------------------------------------------------------------------
// Statements
// ---------------------------------------------------------------------------

/// The position behind the bracket that closes the `depth` ones open at `p`, or,
/// where there is none, the position of the end.
#[verifier::opaque]
pub open spec fn skip_balanced(
    ts: Seq<Spanned>,
    p: int,
    open: Tok,
    close: Tok,
    depth: nat,
) -> Result<int, int>
    decreases ts.len() - p,
{
    if depth == 0 {
        Ok(p)
    } else {
        match tok_at(ts, p) {
            Tok::Eof => Err(p),
            t => skip_balanced(
                ts,
                p + 1,
                open,
                close,
                if t == open {
                    depth + 1
                } else if t == close {
                    (depth - 1) as nat
                } else {
                    depth
                },
            ),
        }
    }
}

/// `NAME ! ( ... ) ;` at `p`, which stands for nothing.
#[verifier::opaque]
pub open spec fn macro_stmt(ts: Seq<Spanned>, p: int, name: Seq<char>) -> Result<
    int,
    Seq<char>,
> {
    match behind(ts, p + 2, Tok::LParen) {
        Err(e) => Err(e),
        Ok(q) => match skip_balanced(ts, q, Tok::LParen, Tok::RParen, 1) {
            Err(z) => Err("EOF in macro '"@ + name + "' line "@ + line_text(ts, z)),
            Ok(r) => behind(ts, r, Tok::Semicolon),
        },
    }
}

/// `NAME := VALUE ;` at `p`.
#[verifier::opaque]
pub open spec fn binding(ts: Seq<Spanned>, p: int, is_public: bool, name: Seq<char>) -> Parsed<
    StmtV,
> {
    match expr(ts, p + 2) {
        Err(e) => Err(e),
        Ok((value, q)) => match behind(ts, q, Tok::Semicolon) {
            Err(e) => Err(e),
            Ok(r) => Ok((StmtV::Binding { is_public, name, value }, r)),
        },
    }
}

/// A constraint `L = R ;`, or an expression, which needs no semicolon before `}`.
#[verifier::opaque]
pub open spec fn plain_stmt(ts: Seq<Spanned>, p: int) -> Parsed<StmtV> {
    match expr(ts, p) {
        Err(e) => Err(e),
        Ok((x, q)) => match tok_at(ts, q) {
            Tok::Eq => match expr(ts, q + 1) {
                Err(e) => Err(e),
                Ok((y, r)) => match behind(ts, r, Tok::Semicolon) {
                    Err(e) => Err(e),
                    Ok(s) => Ok((StmtV::Constraint { lhs: x, rhs: y }, s)),
                },
            },
            Tok::Semicolon => Ok((StmtV::ExprStmt(x), q + 1)),
            Tok::RBrace => Ok((StmtV::ExprStmt(x), q)),
            _ => Err("Expected ; or = line "@ + line_text(ts, q)),
        },
    }
}

/// A statement that is there, where a phrase is one.
pub open spec fn present(r: Parsed<StmtV>) -> Parsed<Option<StmtV>> {
    match r {
        Err(e) => Err(e),
        Ok((s, q)) => Ok((Some(s), q)),
    }
}

/// The statement at `p`, where what stands there is one, and the position behind.
#[verifier::opaque]
pub open spec fn stmt(ts: Seq<Spanned>, p: int) -> Parsed<Option<StmtV>>
    decreases ts.len() - p, 1int,
{
    if tok_at(ts, p) == Tok::LBracket {
        present(mux_stmt(ts, p))
    } else {
        let is_public = tok_at(ts, p) == Tok::Public;
        let q = if is_public {
            p + 1
        } else {
            p
        };
        match (tok_at(ts, q), tok_at(ts, q + 1)) {
            (Tok::Ident(name), Tok::Bang) => if is_public {
                Err("'public' before macro line "@ + line_text(ts, q + 1))
            } else {
                match macro_stmt(ts, q, name) {
                    Err(e) => Err(e),
                    Ok(r) => Ok((None, r)),
                }
            },
            (Tok::Ident(name), Tok::ColonEq) => present(binding(ts, q, is_public, name)),
            _ => if is_public {
                Err("'public' needs binding line "@ + line_text(ts, q))
            } else {
                present(plain_stmt(ts, q))
            },
        }
    }
}

/// `-> (` or `->! (` at `p`.
pub open spec fn mux_arrow(ts: Seq<Spanned>, p: int) -> Result<int, Seq<char>> {
    match behind(ts, p, Tok::RBracket) {
        Err(e) => Err(e),
        Ok(a) => match behind(ts, a, Tok::Minus) {
            Err(e) => Err(e),
            Ok(b) => match behind(ts, b, Tok::RAngle) {
                Err(e) => Err(e),
                Ok(c) => behind(
                    ts,
                    if tok_at(ts, c) == Tok::Bang {
                        c + 1
                    } else {
                        c
                    },
                    Tok::LParen,
                ),
            },
        },
    }
}

/// `[G1, G2, ...] -> ({...}, {...}, ...);`, with as many guards as blocks.
#[verifier::opaque]
pub open spec fn mux_stmt(ts: Seq<Spanned>, p: int) -> Parsed<StmtV>
    decreases ts.len() - p, 0int,
{
    match behind(ts, p, Tok::LBracket) {
        Err(e) => Err(e),
        Ok(p1) => match expr_list(ts, p1, Tok::RBracket) {
            Err(e) => Err(e),
            Ok((guards, q)) => match mux_arrow(ts, q) {
                Err(e) => Err(e),
                Ok(r) => if ahead(ts, p, r) {
                    match block_list(ts, r) {
                        Err(e) => Err(e),
                        Ok((branches, s)) => match behind(ts, s, Tok::RParen) {
                            Err(e) => Err(e),
                            Ok(u) => match behind(ts, u, Tok::Semicolon) {
                                Err(e) => Err(e),
                                Ok(v) => if guards.len() != branches.len() {
                                    Err(
                                        "mux: "@ + digits(guards.len()) + " guards but "@ + digits(
                                            branches.len(),
                                        ) + " branches at line "@ + line_text(ts, v),
                                    )
                                } else {
                                    Ok((StmtV::Mux { guards, branches }, v))
                                },
                            },
                        },
                    }
                } else {
                    stuck()
                },
            },
        },
    }
}

/// Blocks with commas between them, up to `)`; none where `)` stands at once.
#[verifier::opaque]
pub open spec fn block_list(ts: Seq<Spanned>, p: int) -> Parsed<Seq<Seq<StmtV>>>
    decreases ts.len() - p, 5int,
{
    if tok_at(ts, p) == Tok::RParen {
        Ok((Seq::empty(), p))
    } else {
        match block(ts, p) {
            Err(e) => Err(e),
            Ok((b, q)) => if ahead(ts, p, q) {
                block_list_rest(ts, seq![b], q)
            } else {
                stuck()
            },
        }
    }
}

/// `acc` and the blocks from `p` on, each behind a comma.
#[verifier::opaque]
pub open spec fn block_list_rest(ts: Seq<Spanned>, acc: Seq<Seq<StmtV>>, p: int) -> Parsed<
    Seq<Seq<StmtV>>,
>
    decreases ts.len() - p, 4int,
{
    match tok_at(ts, p) {
        Tok::Comma => match block(ts, p + 1) {
            Err(e) => Err(e),
            Ok((b, q)) => if ahead(ts, p, q) {
                block_list_rest(ts, acc.push(b), q)
            } else {
                stuck()
            },
        },
        _ => Ok((acc, p)),
    }
}

/// `{ STMT STMT ... }`
#[verifier::opaque]
pub open spec fn block(ts: Seq<Spanned>, p: int) -> Parsed<Seq<StmtV>>
    decreases ts.len() - p, 3int,
{
    match behind(ts, p, Tok::LBrace) {
        Err(e) => Err(e),
        Ok(q) => match stmt_list(ts, Seq::empty(), q) {
            Err(e) => Err(e),
            Ok((b, r)) => match behind(ts, r, Tok::RBrace) {
                Err(e) => Err(e),
                Ok(s) => Ok((b, s)),
            },
        },
    }
}

/// `acc` and the statements from `p` on, up to `}`.
#[verifier::opaque]
pub open spec fn stmt_list(ts: Seq<Spanned>, acc: Seq<StmtV>, p: int) -> Parsed<Seq<StmtV>>
    decreases ts.len() - p, 2int,
{
    if tok_at(ts, p) == Tok::RBrace {
        Ok((acc, p))
    } else {
        match stmt(ts, p) {
            Err(e) => Err(e),
            Ok((s, q)) => if ahead(ts, p, q) {
                stmt_list(
                    ts,
                    match s {
                        Some(x) => acc.push(x),
                        None => acc,
                    },
                    q,
                )
            } else {
                stuck()
            },
        }
    }
}

// ---------------------------------------------------------------------------
// Items
// ---------------------------------------------------------------------------

/// `NAME : TYPE`, and a comma behind it where there is one.
pub open spec fn param(ts: Seq<Spanned>, p: int) -> Parsed<(Seq<char>, Seq<char>)> {
    match identifier(ts, p) {
        Err(e) => Err(e),
        Ok((n, a)) => match behind(ts, a, Tok::Colon) {
            Err(e) => Err(e),
            Ok(b) => match identifier(ts, b) {
                Err(e) => Err(e),
                Ok((t, c)) => Ok(
                    (
                        (n, t),
                        if tok_at(ts, c) == Tok::Comma {
                            c + 1
                        } else {
                            c
                        },
                    ),
                ),
            },
        },
    }
}

/// `acc` and the parameters from `p` on, up to a token `close`.
#[verifier::opaque]
pub open spec fn param_list(
    ts: Seq<Spanned>,
    acc: Seq<(Seq<char>, Seq<char>)>,
    p: int,
    close: Tok,
) -> Parsed<Seq<(Seq<char>, Seq<char>)>>
    decreases ts.len() - p,
{
    if tok_at(ts, p) == close {
        Ok((acc, p))
    } else {
        match param(ts, p) {
            Err(e) => Err(e),
            Ok((x, q)) => if ahead(ts, p, q) {
                param_list(ts, acc.push(x), q, close)
            } else {
                stuck()
            },
        }
    }
}

/// `< NAME : TYPE, ... >`, or nothing.
pub open spec fn type_params(ts: Seq<Spanned>, p: int) -> Parsed<Seq<(Seq<char>, Seq<char>)>> {
    if tok_at(ts, p) == Tok::LAngle {
        match param_list(ts, Seq::empty(), p + 1, Tok::RAngle) {
            Err(e) => Err(e),
            Ok((v, q)) => match behind(ts, q, Tok::RAngle) {
                Err(e) => Err(e),
                Ok(r) => Ok((v, r)),
            },
        }
    } else {
        Ok((Seq::empty(), p))
    }
}

/// `( NAME : TYPE, ... )`
pub open spec fn params(ts: Seq<Spanned>, p: int) -> Parsed<Seq<(Seq<char>, Seq<char>)>> {
    match behind(ts, p, Tok::LParen) {
        Err(e) => Err(e),
        Ok(a) => match param_list(ts, Seq::empty(), a, Tok::RParen) {
            Err(e) => Err(e),
            Ok((v, q)) => match behind(ts, q, Tok::RParen) {
                Err(e) => Err(e),
                Ok(r) => Ok((v, r)),
            },
        },
    }
}

/// `component NAME<...>(...) {...}`
#[verifier::opaque]
pub open spec fn component(ts: Seq<Spanned>, p: int) -> Parsed<ComponentV> {
    match behind(ts, p, Tok::Component) {
        Err(e) => Err(e),
        Ok(a) => match identifier(ts, a) {
            Err(e) => Err(e),
            Ok((name, b)) => match type_params(ts, b) {
                Err(e) => Err(e),
                Ok((tps, c)) => match params(ts, c) {
                    Err(e) => Err(e),
                    Ok((ps, d)) => match block(ts, d) {
                        Err(e) => Err(e),
                        Ok((body, q)) => Ok(
                            (
                                ComponentV {
                                    name,
                                    type_params: tps,
                                    params: ps,
                                    body,
                                    source_line: ts[p].line,
                                },
                                q,
                            ),
                        ),
                    },
                },
            },
        },
    }
}

/// `#[NAME]`, which stands for nothing.
pub open spec fn attribute(ts: Seq<Spanned>, p: int) -> Result<int, Seq<char>> {
    match behind(ts, p + 1, Tok::LBracket) {
        Err(e) => Err(e),
        Ok(a) => match identifier(ts, a) {
            Err(e) => Err(e),
            Ok((_, b)) => behind(ts, b, Tok::RBracket),
        },
    }
}

/// `test NAME {...}`, which stands for nothing.
pub open spec fn test_block(ts: Seq<Spanned>, p: int) -> Result<int, Seq<char>> {
    match identifier(ts, p + 1) {
        Err(e) => Err(e),
        Ok((_, a)) => match behind(ts, a, Tok::LBrace) {
            Err(e) => Err(e),
            Ok(b) => match skip_balanced(ts, b, Tok::LBrace, Tok::RBrace, 1) {
                Err(z) => Err("EOF in test block line "@ + line_text(ts, z)),
                Ok(q) => Ok(q),
            },
        },
    }
}

/// `import NAME;`
pub open spec fn import(ts: Seq<Spanned>, p: int) -> Parsed<ItemV> {
    match identifier(ts, p + 1) {
        Err(e) => Err(e),
        Ok((name, a)) => match behind(ts, a, Tok::Semicolon) {
            Err(e) => Err(e),
            Ok(q) => Ok((ItemV::Import(name), q)),
        },
    }
}

/// The type of the result of an external function, behind its parameters.
pub open spec fn extern_tail(ts: Seq<Spanned>, p: int, name: Seq<char>) -> Parsed<ItemV> {
    match behind(ts, p, Tok::Colon) {
        Err(e) => Err(e),
        Ok(a) => match identifier(ts, a) {
            Err(e) => Err(e),
            Ok((return_type, b)) => match behind(ts, b, Tok::Semicolon) {
                Err(e) => Err(e),
                Ok(q) => Ok((ItemV::Extern { name, return_type }, q)),
            },
        },
    }
}

/// `extern NAME(...) : TYPE;`
pub open spec fn external(ts: Seq<Spanned>, p: int) -> Parsed<ItemV> {
    match identifier(ts, p + 1) {
        Err(e) => Err(e),
        Ok((name, a)) => match behind(ts, a, Tok::LParen) {
            Err(e) => Err(e),
            Ok(b) => match skip_balanced(ts, b, Tok::LParen, Tok::RParen, 1) {
                Err(z) => Err("EOF in extern '"@ + name + "' line "@ + line_text(ts, z)),
                Ok(c) => extern_tail(ts, c, name),
            },
        },
    }
}

/// The item at `p`, where what stands there is one, and the position behind.
#[verifier::opaque]
pub open spec fn item(ts: Seq<Spanned>, p: int) -> Parsed<Option<ItemV>> {
    match tok_at(ts, p) {
        Tok::Hash => match attribute(ts, p) {
            Err(e) => Err(e),
            Ok(q) => Ok((None, q)),
        },
        Tok::Test => match test_block(ts, p) {
            Err(e) => Err(e),
            Ok(q) => Ok((None, q)),
        },
        Tok::Import => match import(ts, p) {
            Err(e) => Err(e),
            Ok((i, q)) => Ok((Some(i), q)),
        },
        Tok::Extern => match external(ts, p) {
            Err(e) => Err(e),
            Ok((i, q)) => Ok((Some(i), q)),
        },
        Tok::Component => match component(ts, p) {
            Err(e) => Err(e),
            Ok((c, q)) => Ok((Some(ItemV::Component(c)), q)),
        },
        t => Err("Unexpected "@ + token_text(t) + " line "@ + line_text(ts, p)),
    }
}

/// `acc` and the items from `p` on, up to the end.
#[verifier::opaque]
pub open spec fn items_from(ts: Seq<Spanned>, acc: Seq<ItemV>, p: int) -> Result<
    Seq<ItemV>,
    Seq<char>,
>
    decreases ts.len() - p,
{
    if tok_at(ts, p) == Tok::Eof {
        Ok(acc)
    } else {
        match item(ts, p) {
            Err(e) => Err(e),
            Ok((i, q)) => if ahead(ts, p, q) {
                items_from(
                    ts,
                    match i {
                        Some(x) => acc.push(x),
                        None => acc,
                    },
                    q,
                )
            } else {
                Err(Seq::empty())
            },
        }
    }
}

/// The items that a sequence of tokens stands for.
pub open spec fn items_of(ts: Seq<Spanned>) -> Result<Seq<ItemV>, Seq<char>> {
    items_from(ts, Seq::empty(), 0)
}

} // verus!
