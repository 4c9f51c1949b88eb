//! What is read can be written out again.

use vstd::prelude::*;
use crate::laws::printing::{all_writable, is_name, lemma_written_is_read, writable};
use crate::parser::ast::{expr_text, ExprV, Op};
use crate::parser::grammar::{
    add_op, additive, additive_rest, arguments, binary, bitwise, bitwise_rest, expr, expr_list,
    expr_list_rest, for_head, identifier, mul_op, multiplicative, multiplicative_rest, postfix,
    postfix_rest, primary, tok_at, type_arg, Parsed,
};
use crate::parser::lexer::{
    in_class, is_word, run_end, skip_blank, token_at, tokens_from, tokens_of, Class, Spanned, Tok,
};

verus! {

/// Whether every identifier among tokens is a name.
pub open spec fn named(ts: Seq<Spanned>) -> bool {
    forall|i: int|
        0 <= i < ts.len() ==> ((#[trigger] ts[i]).tok matches Tok::Ident(w) ==> is_name(w))
}

/// A run lies within the text and holds characters of its class only.
pub proof fn lemma_run_holds(s: Seq<char>, p: int, k: Class)
    requires
        0 <= p <= s.len(),
    ensures
        p <= run_end(s, p, k) <= s.len(),
        forall|i: int| p <= i < run_end(s, p, k) ==> in_class(k, #[trigger] s[i]),
    decreases s.len() - p,
{
    if p < s.len() && in_class(k, s[p]) {
        lemma_run_holds(s, p + 1, k);
    }
}

proof fn lemma_token_is_named(s: Seq<char>, p: int, line: nat)
    requires
        0 <= p < s.len(),
    ensures
        token_at(s, p, line) matches Ok((Tok::Ident(w), _)) ==> is_name(w),
{
    lemma_run_holds(s, p, Class::Word);
    let q = run_end(s, p, Class::Word);
    let w = s.subrange(p, q);
    match token_at(s, p, line) {
        Ok((Tok::Ident(x), _)) => {
            assert(x == w);
            assert(in_class(Class::Word, s[p]));
            lemma_run_holds(s, p + 1, Class::Word);
            assert(w[0] == s[p]);
            assert forall|i: int| 0 <= i < w.len() implies is_word(#[trigger] w[i]) by {
                assert(in_class(Class::Word, s[p + i]));
            }
        },
        _ => {},
    }
}

/// Every identifier among the tokens of a text is a name.
pub proof fn lemma_tokens_are_named(s: Seq<char>, p: int, line: nat)
    ensures
        tokens_from(s, p, line) matches Ok(ts) ==> named(ts),
    decreases s.len() - p,
{
    let (q, l) = skip_blank(s, p, line);
    if 0 <= p <= q < s.len() {
        lemma_token_is_named(s, q, l);
        match token_at(s, q, l) {
            Ok((t, r)) => {
                if q < r <= s.len() {
                    lemma_tokens_are_named(s, r, l);
                    match tokens_from(s, r, l) {
                        Ok(rest) => {
                            let ts = seq![Spanned { tok: t, line: l }] + rest;
                            assert forall|i: int| 0 <= i < ts.len() implies ((
                            #[trigger] ts[i]).tok matches Tok::Ident(w) ==> is_name(w)) by {
                                if i > 0 {
                                    assert(ts[i] == rest[i - 1]);
                                }
                            }
                        },
                        Err(_) => {},
                    }
                }
            },
            Err(_) => {},
        }
    }
}

/// Whether an expression that is read can be written.
spec fn reads(r: Parsed<ExprV>) -> bool {
    r matches Ok((x, _)) ==> writable(x)
}

/// Whether expressions that are read can be written.
spec fn reads_all(r: Parsed<Seq<ExprV>>) -> bool {
    r matches Ok((v, _)) ==> all_writable(v)
}

proof fn lemma_push_writable(v: Seq<ExprV>, x: ExprV)
    requires
        all_writable(v),
        writable(x),
    ensures
        all_writable(v.push(x)),
{
    assert forall|i: int| 0 <= i < v.push(x).len() implies writable(#[trigger] v.push(x)[i]) by {
        if i < v.len() {
            assert(writable(v[i]));
        }
    }
}

proof fn lemma_arguments(ts: Seq<Spanned>, p: int)
    requires
        named(ts),
    ensures
        reads_all(arguments(ts, p)),
    decreases ts.len() - p, 12int,
{
    reveal(arguments);
    reveal(expr_list);
    lemma_expr_list(ts, p, Tok::RParen);
}

#[verifier::spinoff_prover]
#[verifier::rlimit(40)]
proof fn lemma_primary(ts: Seq<Spanned>, p: int)
    requires
        named(ts),
    ensures
        reads(primary(ts, p)),
    decreases ts.len() - p, 0int,
{
    reveal(primary);
    reveal(expr);
    reveal(arguments);
    match tok_at(ts, p) {
        Tok::LParen => {
            lemma_expr(ts, p + 1);
        },
        Tok::For => {
            assert(for_head(ts, p) matches Ok((h, _)) ==> is_name(h.0)) by {
                reveal(for_head);
            }
            match for_head(ts, p) {
                Ok((_, q)) => {
                    if p < q <= ts.len() {
                        lemma_expr(ts, q);
                    }
                },
                Err(_) => {},
            }
        },
        Tok::Ident(name) => match tok_at(ts, p + 1) {
            Tok::LAngle => match type_arg(ts, p) {
                Ok((_, q)) => {
                    if p < q <= ts.len() {
                        lemma_arguments(ts, q);
                    }
                },
                Err(_) => {},
            },
            Tok::LParen => {
                lemma_arguments(ts, p + 2);
            },
            _ => {},
        },
        _ => {},
    }
}

proof fn lemma_postfix(ts: Seq<Spanned>, p: int)
    requires
        named(ts),
    ensures
        reads(postfix(ts, p)),
    decreases ts.len() - p, 2int,
{
    reveal(postfix);
    reveal(primary);
    reveal(postfix_rest);
    lemma_primary(ts, p);
    match primary(ts, p) {
        Ok((x, q)) => {
            if p < q <= ts.len() {
                lemma_postfix_rest(ts, q, x);
            }
        },
        Err(_) => {},
    }
}

proof fn lemma_postfix_rest(ts: Seq<Spanned>, p: int, x: ExprV)
    requires
        named(ts),
        writable(x),
    ensures
        reads(postfix_rest(ts, x, p)),
    decreases ts.len() - p, 1int,
{
    reveal(postfix_rest);
    reveal(expr);
    match tok_at(ts, p) {
        Tok::Dot => match identifier(ts, p + 1) {
            Ok((f, q)) => {
                lemma_postfix_rest(ts, q, ExprV::Field { object: Box::new(x), field: f });
            },
            Err(_) => {},
        },
        Tok::LBracket => {
            lemma_expr(ts, p + 1);
            match expr(ts, p + 1) {
                Ok((i, q)) => {
                    if p < q + 1 <= ts.len() {
                        let e = ExprV::Index { object: Box::new(x), index: Box::new(i) };
                        lemma_postfix_rest(ts, q + 1, e);
                    }
                },
                Err(_) => {},
            }
        },
        _ => {},
    }
}

proof fn lemma_bitwise(ts: Seq<Spanned>, p: int)
    requires
        named(ts),
    ensures
        reads(bitwise(ts, p)),
    decreases ts.len() - p, 4int,
{
    reveal(bitwise);
    reveal(postfix);
    reveal(bitwise_rest);
    lemma_postfix(ts, p);
    match postfix(ts, p) {
        Ok((x, q)) => {
            if p < q <= ts.len() {
                lemma_bitwise_rest(ts, q, x);
            }
        },
        Err(_) => {},
    }
}

proof fn lemma_bitwise_rest(ts: Seq<Spanned>, p: int, l: ExprV)
    requires
        named(ts),
        writable(l),
    ensures
        reads(bitwise_rest(ts, l, p)),
    decreases ts.len() - p, 3int,
{
    reveal(bitwise_rest);
    reveal(postfix);
    if tok_at(ts, p) == Tok::Ampersand {
        lemma_postfix(ts, p + 1);
        match postfix(ts, p + 1) {
            Ok((r, q)) => {
                if p < q <= ts.len() {
                    lemma_bitwise_rest(ts, q, binary(Op::BitAnd, l, r));
                }
            },
            Err(_) => {},
        }
    }
}

proof fn lemma_multiplicative(ts: Seq<Spanned>, p: int)
    requires
        named(ts),
    ensures
        reads(multiplicative(ts, p)),
    decreases ts.len() - p, 6int,
{
    reveal(multiplicative);
    reveal(bitwise);
    reveal(multiplicative_rest);
    lemma_bitwise(ts, p);
    match bitwise(ts, p) {
        Ok((x, q)) => {
            if p < q <= ts.len() {
                lemma_multiplicative_rest(ts, q, x);
            }
        },
        Err(_) => {},
    }
}

proof fn lemma_multiplicative_rest(ts: Seq<Spanned>, p: int, l: ExprV)
    requires
        named(ts),
        writable(l),
    ensures
        reads(multiplicative_rest(ts, l, p)),
    decreases ts.len() - p, 5int,
{
    reveal(multiplicative_rest);
    reveal(bitwise);
    if mul_op(tok_at(ts, p)) is Some {
        lemma_bitwise(ts, p + 1);
        match bitwise(ts, p + 1) {
            Ok((r, q)) => {
                if p < q <= ts.len() {
                    lemma_multiplicative_rest(ts, q, binary(mul_op(tok_at(ts, p))->Some_0, l, r));
                }
            },
            Err(_) => {},
        }
    }
}

proof fn lemma_additive(ts: Seq<Spanned>, p: int)
    requires
        named(ts),
    ensures
        reads(additive(ts, p)),
    decreases ts.len() - p, 8int,
{
    reveal(additive);
    reveal(multiplicative);
    reveal(additive_rest);
    lemma_multiplicative(ts, p);
    match multiplicative(ts, p) {
        Ok((x, q)) => {
            if p < q <= ts.len() {
                lemma_additive_rest(ts, q, x);
            }
        },
        Err(_) => {},
    }
}

proof fn lemma_additive_rest(ts: Seq<Spanned>, p: int, l: ExprV)
    requires
        named(ts),
        writable(l),
    ensures
        reads(additive_rest(ts, l, p)),
    decreases ts.len() - p, 7int,
{
    reveal(additive_rest);
    reveal(multiplicative);
    if add_op(tok_at(ts, p)) is Some {
        lemma_multiplicative(ts, p + 1);
        match multiplicative(ts, p + 1) {
            Ok((r, q)) => {
                if p < q <= ts.len() {
                    lemma_additive_rest(ts, q, binary(add_op(tok_at(ts, p))->Some_0, l, r));
                }
            },
            Err(_) => {},
        }
    }
}

/// An expression that is read can be written.
pub proof fn lemma_expr(ts: Seq<Spanned>, p: int)
    requires
        named(ts),
    ensures
        expr(ts, p) matches Ok((x, _)) ==> writable(x),
    decreases ts.len() - p, 9int,
{
    reveal(expr);
    reveal(additive);
    lemma_additive(ts, p);
}

/// Expressions that are read in a list can be written.
pub proof fn lemma_expr_list(ts: Seq<Spanned>, p: int, close: Tok)
    requires
        named(ts),
    ensures
        expr_list(ts, p, close) matches Ok((v, _)) ==> all_writable(v),
    decreases ts.len() - p, 11int,
{
    reveal(expr_list);
    reveal(expr);
    reveal(expr_list_rest);
    if tok_at(ts, p) != close {
        lemma_expr(ts, p);
        match expr(ts, p) {
            Ok((x, q)) => {
                if p < q <= ts.len() {
                    lemma_push_writable(Seq::empty(), x);
                    assert(seq![x] =~= Seq::empty().push(x));
                    lemma_expr_list_rest(ts, q, seq![x]);
                }
            },
            Err(_) => {},
        }
    }
}

proof fn lemma_expr_list_rest(ts: Seq<Spanned>, p: int, acc: Seq<ExprV>)
    requires
        named(ts),
        all_writable(acc),
    ensures
        reads_all(expr_list_rest(ts, acc, p)),
    decreases ts.len() - p, 10int,
{
    reveal(expr_list_rest);
    reveal(expr);
    if tok_at(ts, p) == Tok::Comma {
        lemma_expr(ts, p + 1);
        match expr(ts, p + 1) {
            Ok((x, q)) => {
                if p < q <= ts.len() {
                    lemma_push_writable(acc, x);
                    lemma_expr_list_rest(ts, q, acc.push(x));
                }
            },
            Err(_) => {},
        }
    }
}

/// An expression that stands in a text can be written out, and is then read as the same
/// expression, with nothing left of the text.
pub proof fn lemma_read_is_written_and_read(s: Seq<char>, p: int)
    requires
        tokens_of(s) is Ok,
        expr(tokens_of(s)->Ok_0, p) is Ok,
    ensures
        ({
            let e = (expr(tokens_of(s)->Ok_0, p)->Ok_0).0;
            &&& writable(e)
            &&& tokens_of(expr_text(e)) matches Ok(ts) && expr(ts, 0) == Ok::<
                (ExprV, int),
                Seq<char>,
            >((e, ts.len() - 1))
        }),
{
    lemma_tokens_are_named(s, 0, 1);
    lemma_expr(tokens_of(s)->Ok_0, p);
    lemma_written_is_read((expr(tokens_of(s)->Ok_0, p)->Ok_0).0);
}

} // verus!
