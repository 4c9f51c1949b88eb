//! What stands in a text can be written into a component of its own.

use vstd::prelude::*;
use crate::laws::printing::{
    all_writable, expr_tokens, lemma_expr_spelled, lemma_first_token, lemma_sign, lemma_space,
    lemma_spells_then, lemma_stands_split, lemma_tokens_split, lemma_whole, lemma_word, list_tokens,
    on_line, spells, stands, tokens_stand, type_args_tokens, word_ends, writable,
};
use crate::laws::reading::{lemma_expr, lemma_expr_list, lemma_tokens_are_named, named};
use crate::parser::ast::{expr_text, ComponentV, ExprV, ItemV, StmtV};
use crate::parser::grammar::{
    binding, block, block_list, block_list_rest, component, expr, expr_list, item, items_from,
    mux_arrow, mux_stmt, param_list, plain_stmt, stmt, stmt_list, tok_at,
};
use crate::parser::items_of_text;
use crate::parser::lexer::{tokens_from, tokens_of, word_token, Spanned, Tok};

verus! {

// ---------------------------------------------------------------------------
// What occurs in a text
// ---------------------------------------------------------------------------

/// Whether an expression is a part of another, or that one itself.
pub open spec fn occurs(x: ExprV, e: ExprV) -> bool
    decreases e,
{
    x == e || match e {
        ExprV::IntLit(_) => false,
        ExprV::Ident(_) => false,
        ExprV::Field { object, .. } => occurs(x, *object),
        ExprV::BinOp { lhs, rhs, .. } => occurs(x, *lhs) || occurs(x, *rhs),
        ExprV::Call { args, .. } => occurs_among(x, args),
        ExprV::Index { object, index } => occurs(x, *object) || occurs(x, *index),
        ExprV::For { body, .. } => occurs(x, *body),
    }
}

/// Whether an expression occurs in one of others.
pub open spec fn occurs_among(x: ExprV, es: Seq<ExprV>) -> bool
    decreases es,
{
    exists|i: int| 0 <= i < es.len() && occurs(x, #[trigger] es[i])
}

/// Whether an expression occurs in a statement.
pub open spec fn occurs_in_stmt(x: ExprV, s: StmtV) -> bool
    decreases s,
{
    match s {
        StmtV::Binding { value, .. } => occurs(x, value),
        StmtV::Constraint { lhs, rhs } => occurs(x, lhs) || occurs(x, rhs),
        StmtV::ExprStmt(e) => occurs(x, e),
        StmtV::Mux { guards, branches } => occurs_among(x, guards) || occurs_in_blocks(x, branches),
    }
}

/// Whether an expression occurs in a statement of a block.
pub open spec fn occurs_in_block(x: ExprV, b: Seq<StmtV>) -> bool
    decreases b,
{
    exists|i: int| 0 <= i < b.len() && occurs_in_stmt(x, #[trigger] b[i])
}

/// Whether an expression occurs in one of some blocks.
pub open spec fn occurs_in_blocks(x: ExprV, v: Seq<Seq<StmtV>>) -> bool
    decreases v,
{
    exists|i: int| 0 <= i < v.len() && occurs_in_block(x, #[trigger] v[i])
}

/// Whether an expression occurs in the body of a component among items.
pub open spec fn occurs_in_items(x: ExprV, items: Seq<ItemV>) -> bool {
    exists|i: int|
        0 <= i < items.len() && ((#[trigger] items[i]) matches ItemV::Component(c)
            && occurs_in_block(x, c.body))
}

/// Whether the expressions of a statement can be written.
spec fn writable_stmt(s: StmtV) -> bool
    decreases s,
{
    match s {
        StmtV::Binding { value, .. } => writable(value),
        StmtV::Constraint { lhs, rhs } => writable(lhs) && writable(rhs),
        StmtV::ExprStmt(e) => writable(e),
        StmtV::Mux { guards, branches } => all_writable(guards) && writable_blocks(branches),
    }
}

/// Whether the expressions of a block can be written.
spec fn writable_block(b: Seq<StmtV>) -> bool
    decreases b,
{
    forall|i: int| 0 <= i < b.len() ==> writable_stmt(#[trigger] b[i])
}

/// Whether the expressions of blocks can be written.
spec fn writable_blocks(v: Seq<Seq<StmtV>>) -> bool
    decreases v,
{
    forall|i: int| 0 <= i < v.len() ==> writable_block(#[trigger] v[i])
}

/// Whether the expressions of an item can be written.
spec fn writable_item(i: ItemV) -> bool {
    i matches ItemV::Component(c) ==> writable_block(c.body)
}

/// Whether the expressions of items can be written.
spec fn writable_items(v: Seq<ItemV>) -> bool {
    forall|i: int| 0 <= i < v.len() ==> writable_item(#[trigger] v[i])
}

/// A part of an expression that can be written can be written.
pub proof fn lemma_parts_are_writable(x: ExprV, e: ExprV)
    requires
        writable(e),
        occurs(x, e),
    ensures
        writable(x),
    decreases e,
{
    if x != e {
        match e {
            ExprV::Field { object, .. } => {
                lemma_parts_are_writable(x, *object);
            },
            ExprV::BinOp { lhs, rhs, .. } => {
                if occurs(x, *lhs) {
                    lemma_parts_are_writable(x, *lhs);
                } else {
                    lemma_parts_are_writable(x, *rhs);
                }
            },
            ExprV::Call { args, .. } => {
                lemma_among_writable(x, args);
            },
            ExprV::Index { object, index } => {
                if occurs(x, *object) {
                    lemma_parts_are_writable(x, *object);
                } else {
                    lemma_parts_are_writable(x, *index);
                }
            },
            ExprV::For { body, .. } => {
                lemma_parts_are_writable(x, *body);
            },
            _ => {},
        }
    }
}

proof fn lemma_among_writable(x: ExprV, es: Seq<ExprV>)
    requires
        all_writable(es),
        occurs_among(x, es),
    ensures
        writable(x),
    decreases es,
{
    let i = choose|i: int| 0 <= i < es.len() && occurs(x, #[trigger] es[i]);
    lemma_parts_are_writable(x, es[i]);
}

proof fn lemma_in_stmt_writable(x: ExprV, s: StmtV)
    requires
        writable_stmt(s),
        occurs_in_stmt(x, s),
    ensures
        writable(x),
    decreases s,
{
    match s {
        StmtV::Binding { value, .. } => {
            lemma_parts_are_writable(x, value);
        },
        StmtV::Constraint { lhs, rhs } => {
            if occurs(x, lhs) {
                lemma_parts_are_writable(x, lhs);
            } else {
                lemma_parts_are_writable(x, rhs);
            }
        },
        StmtV::ExprStmt(e) => {
            lemma_parts_are_writable(x, e);
        },
        StmtV::Mux { guards, branches } => {
            if occurs_among(x, guards) {
                lemma_among_writable(x, guards);
            } else {
                lemma_in_blocks_writable(x, branches);
            }
        },
    }
}

proof fn lemma_in_block_writable(x: ExprV, b: Seq<StmtV>)
    requires
        writable_block(b),
        occurs_in_block(x, b),
    ensures
        writable(x),
    decreases b,
{
    let i = choose|i: int| 0 <= i < b.len() && occurs_in_stmt(x, #[trigger] b[i]);
    lemma_in_stmt_writable(x, b[i]);
}

proof fn lemma_in_blocks_writable(x: ExprV, v: Seq<Seq<StmtV>>)
    requires
        writable_blocks(v),
        occurs_in_blocks(x, v),
    ensures
        writable(x),
    decreases v,
{
    let i = choose|i: int| 0 <= i < v.len() && occurs_in_block(x, #[trigger] v[i]);
    lemma_in_block_writable(x, v[i]);
}

// ---------------------------------------------------------------------------
// What is read can be written
// ---------------------------------------------------------------------------

proof fn lemma_binding(ts: Seq<Spanned>, p: int, is_public: bool, name: Seq<char>)
    requires
        named(ts),
    ensures
        binding(ts, p, is_public, name) matches Ok((s, _)) ==> writable_stmt(s),
{
    reveal(binding);
    lemma_expr(ts, p + 2);
}

proof fn lemma_plain_stmt(ts: Seq<Spanned>, p: int)
    requires
        named(ts),
    ensures
        plain_stmt(ts, p) matches Ok((s, _)) ==> writable_stmt(s),
{
    reveal(plain_stmt);
    lemma_expr(ts, p);
    match expr(ts, p) {
        Ok((_, q)) => {
            lemma_expr(ts, q + 1);
        },
        Err(_) => {},
    }
}

proof fn lemma_stmt(ts: Seq<Spanned>, p: int)
    requires
        named(ts),
    ensures
        stmt(ts, p) matches Ok((Some(s), _)) ==> writable_stmt(s),
    decreases ts.len() - p, 1int,
{
    reveal(stmt);
    reveal(mux_stmt);
    if tok_at(ts, p) == Tok::LBracket {
        lemma_mux_stmt(ts, p);
    } else {
        let is_public = tok_at(ts, p) == Tok::Public;
        let q = if is_public {
            p + 1
        } else {
            p
        };
        lemma_plain_stmt(ts, q);
        match tok_at(ts, q) {
            Tok::Ident(name) => {
                lemma_binding(ts, q, is_public, name);
            },
            _ => {},
        }
    }
}

proof fn lemma_mux_stmt(ts: Seq<Spanned>, p: int)
    requires
        named(ts),
    ensures
        mux_stmt(ts, p) matches Ok((s, _)) ==> writable_stmt(s),
    decreases ts.len() - p, 0int,
{
    reveal(mux_stmt);
    reveal(block_list);
    if tok_at(ts, p) == Tok::LBracket {
        lemma_expr_list(ts, p + 1, Tok::RBracket);
        match expr_list(ts, p + 1, Tok::RBracket) {
            Ok((_, q)) => match mux_arrow(ts, q) {
                Ok(r) => {
                    if p < r <= ts.len() {
                        lemma_block_list(ts, r);
                    }
                },
                Err(_) => {},
            },
            Err(_) => {},
        }
    }
}

proof fn lemma_block_list(ts: Seq<Spanned>, p: int)
    requires
        named(ts),
    ensures
        block_list(ts, p) matches Ok((v, _)) ==> writable_blocks(v),
    decreases ts.len() - p, 5int,
{
    reveal(block_list);
    reveal(block);
    reveal(block_list_rest);
    if tok_at(ts, p) != Tok::RParen {
        lemma_block(ts, p);
        match block(ts, p) {
            Ok((b, q)) => {
                if p < q <= ts.len() {
                    lemma_block_list_rest(ts, q, seq![b]);
                }
            },
            Err(_) => {},
        }
    }
}

proof fn lemma_block_list_rest(ts: Seq<Spanned>, p: int, acc: Seq<Seq<StmtV>>)
    requires
        named(ts),
        writable_blocks(acc),
    ensures
        block_list_rest(ts, acc, p) matches Ok((v, _)) ==> writable_blocks(v),
    decreases ts.len() - p, 4int,
{
    reveal(block_list_rest);
    reveal(block);
    if tok_at(ts, p) == Tok::Comma {
        lemma_block(ts, p + 1);
        match block(ts, p + 1) {
            Ok((b, q)) => {
                if p < q <= ts.len() {
                    lemma_block_list_rest(ts, q, acc.push(b));
                }
            },
            Err(_) => {},
        }
    }
}

proof fn lemma_block(ts: Seq<Spanned>, p: int)
    requires
        named(ts),
    ensures
        block(ts, p) matches Ok((b, _)) ==> writable_block(b),
    decreases ts.len() - p, 3int,
{
    reveal(block);
    reveal(stmt_list);
    if tok_at(ts, p) == Tok::LBrace {
        lemma_stmt_list(ts, p + 1, Seq::empty());
    }
}

proof fn lemma_stmt_list(ts: Seq<Spanned>, p: int, acc: Seq<StmtV>)
    requires
        named(ts),
        writable_block(acc),
    ensures
        stmt_list(ts, acc, p) matches Ok((b, _)) ==> writable_block(b),
    decreases ts.len() - p, 2int,
{
    reveal(stmt_list);
    reveal(stmt);
    if tok_at(ts, p) != Tok::RBrace {
        lemma_stmt(ts, p);
        match stmt(ts, p) {
            Ok((s, q)) => {
                if p < q <= ts.len() {
                    let more = match s {
                        Some(x) => acc.push(x),
                        None => acc,
                    };
                    lemma_stmt_list(ts, q, more);
                }
            },
            Err(_) => {},
        }
    }
}

proof fn lemma_item(ts: Seq<Spanned>, p: int)
    requires
        named(ts),
    ensures
        item(ts, p) matches Ok((Some(i), _)) ==> writable_item(i),
{
    reveal(item);
    reveal(component);
    assert forall|q: int| #[trigger] block(ts, q) matches Ok((b, _)) ==> writable_block(b) by {
        lemma_block(ts, q);
    }
}

proof fn lemma_items(ts: Seq<Spanned>, p: int, acc: Seq<ItemV>)
    requires
        named(ts),
        writable_items(acc),
    ensures
        items_from(ts, acc, p) matches Ok(v) ==> writable_items(v),
    decreases ts.len() - p,
{
    reveal(items_from);
    if tok_at(ts, p) != Tok::Eof {
        lemma_item(ts, p);
        match item(ts, p) {
            Ok((i, q)) => {
                if p < q <= ts.len() {
                    let more = match i {
                        Some(x) => acc.push(x),
                        None => acc,
                    };
                    lemma_items(ts, q, more);
                }
            },
            Err(_) => {},
        }
    }
}

/// Every expression that occurs in a text can be written.
pub proof fn lemma_occurring_is_writable(s: Seq<char>, e: ExprV)
    requires
        items_of_text(s) is Ok,
        occurs_in_items(e, items_of_text(s)->Ok_0),
    ensures
        writable(e),
{
    let items = items_of_text(s)->Ok_0;
    lemma_tokens_are_named(s, 0, 1);
    lemma_items(tokens_of(s)->Ok_0, 0, Seq::empty());
    let i = choose|i: int|
        0 <= i < items.len() && ((#[trigger] items[i]) matches ItemV::Component(c)
            && occurs_in_block(e, c.body));
    assert(writable_item(items[i]));
    lemma_in_block_writable(e, items[i]->Component_0.body);
}

// ---------------------------------------------------------------------------
// What is written into a component
// ---------------------------------------------------------------------------

/// The text of a component without parameters whose body is an expression.
pub open spec fn text_of_component(e: ExprV) -> Seq<char> {
    "component C() { "@ + expr_text(e) + " }"@
}

/// A component without parameters whose body is an expression.
pub open spec fn component_of(e: ExprV) -> ComponentV {
    ComponentV {
        name: "C"@,
        type_params: Seq::empty(),
        params: Seq::empty(),
        body: seq![StmtV::ExprStmt(e)],
        source_line: 1,
    }
}

/// The tokens before the body of that component.
spec fn head_tokens() -> Seq<Tok> {
    seq![Tok::Component, Tok::Ident("C"@), Tok::LParen, Tok::RParen, Tok::LBrace]
}

proof fn lemma_words()
    ensures
        word_token("component"@) == Tok::Component,
        word_token("C"@) == Tok::Ident("C"@),
        "component"@.len() == 9,
        "C"@.len() == 1,
{
    reveal_strlit("C");
    reveal_strlit("component");
    reveal_strlit("import");
    reveal_strlit("public");
    reveal_strlit("for");
    reveal_strlit("test");
    reveal_strlit("extern");
    assert("C"@.len() == 1 && "import"@.len() == 6 && "public"@.len() == 6 && "for"@.len() == 3
        && "test"@.len() == 4 && "extern"@.len() == 6);
}

proof fn lemma_head_spelled(s: Seq<char>)
    requires
        stands(s, 0, "component C() { "@),
    ensures
        "component C() { "@.len() == 16,
        spells(s, 0, 16, head_tokens(), 1),
{
    reveal_strlit("component C() { ");
    reveal_strlit("component");
    reveal_strlit("C");
    lemma_words();
    let h = "component C() { "@;
    let a = "component"@;
    let c = "C"@;
    assert forall|j: int| 0 <= j < 16 implies s[j] == h[j] by {
        assert(s[0 + j] == h[j]);
    }
    assert(stands(s, 0, a)) by {
        assert forall|j: int| 0 <= j < 9 implies s[0 + j] == #[trigger] a[j] by {
            assert(s[j] == h[j]);
        }
    }
    assert(stands(s, 10, c)) by {
        assert(s[10] == h[10]);
    }
    assert(h[9] == ' ' && h[11] == '(' && h[12] == ')' && h[13] == ' ' && h[14] == '{' && h[15]
        == ' ');
    lemma_word(s, 0, a, 1);
    lemma_space(s, 9, 1);
    lemma_word(s, 10, c, 1);
    lemma_sign(s, 11, 1);
    lemma_sign(s, 12, 1);
    lemma_space(s, 13, 1);
    lemma_sign(s, 14, 1);
    lemma_space(s, 15, 1);
    let none = Seq::<Tok>::empty();
    let t0 = seq![Tok::Component];
    let t1 = seq![Tok::Ident("C"@)];
    let t2 = seq![Tok::LParen];
    let t3 = seq![Tok::RParen];
    let t4 = seq![Tok::LBrace];
    lemma_spells_then(s, 0, 9, 10, t0, none, 1);
    lemma_spells_then(s, 0, 10, 11, t0 + none, t1, 1);
    lemma_spells_then(s, 0, 11, 12, t0 + none + t1, t2, 1);
    lemma_spells_then(s, 0, 12, 13, t0 + none + t1 + t2, t3, 1);
    lemma_spells_then(s, 0, 13, 14, t0 + none + t1 + t2 + t3, none, 1);
    lemma_spells_then(s, 0, 14, 15, t0 + none + t1 + t2 + t3 + none, t4, 1);
    lemma_spells_then(s, 0, 15, 16, t0 + none + t1 + t2 + t3 + none + t4, none, 1);
    assert(t0 + none + t1 + t2 + t3 + none + t4 + none =~= head_tokens());
}

/// The tokens of an expression start no other statement.
proof fn lemma_start(e: ExprV)
    ensures
        expr_tokens(e).len() > 0,
        expr_tokens(e)[0] != Tok::LBracket,
        expr_tokens(e)[0] != Tok::Public,
        expr_tokens(e)[0] is Ident && expr_tokens(e).len() > 1 ==> expr_tokens(e)[1] != Tok::Bang
            && expr_tokens(e)[1] != Tok::ColonEq,
    decreases e,
{
    match e {
        ExprV::Field { object, .. } => {
            lemma_start(*object);
        },
        ExprV::Index { object, .. } => {
            lemma_start(*object);
        },
        ExprV::Call { name, type_args, args } => {
            let v = seq![Tok::Ident(name)] + type_args_tokens(type_args) + seq![Tok::LParen];
            let w = v + list_tokens(args, args.len()) + seq![Tok::RParen];
            assert(w[0] == v[0] && w[1] == v[1]);
        },
        _ => {},
    }
}

proof fn lemma_body(ts: Seq<Spanned>, p: int, e: ExprV)
    requires
        writable(e),
        tokens_stand(ts, p, expr_tokens(e)),
        tok_at(ts, p + expr_tokens(e).len()) == Tok::RBrace,
    ensures
        stmt_list(ts, Seq::empty(), p) == Ok::<(Seq<StmtV>, int), Seq<char>>(
            (seq![StmtV::ExprStmt(e)], p + expr_tokens(e).len()),
        ),
{
    let v = expr_tokens(e);
    let q = p + v.len();
    lemma_start(e);
    lemma_first_token(e);
    lemma_whole(ts, p, e);
    assert(ts[p + 0].tok == v[0]);
    if v.len() > 1 {
        assert(ts[p + 1].tok == v[1]);
    }
    assert(plain_stmt(ts, p) == Ok::<(StmtV, int), Seq<char>>((StmtV::ExprStmt(e), q))) by {
        reveal(plain_stmt);
    }
    assert(stmt(ts, p) == Ok::<(Option<StmtV>, int), Seq<char>>(
        (Some(StmtV::ExprStmt(e)), q),
    )) by {
        reveal(stmt);
    }
    let b = seq![StmtV::ExprStmt(e)];
    assert(stmt_list(ts, b, q) == Ok::<(Seq<StmtV>, int), Seq<char>>((b, q))) by {
        reveal(stmt_list);
    }
    assert(Seq::empty().push(StmtV::ExprStmt(e)) =~= b);
    reveal(stmt_list);
    reveal(stmt);
}

/// An expression that is written into a component is read as the body of that component.
pub proof fn lemma_written_in_component(e: ExprV)
    requires
        writable(e),
    ensures
        items_of_text(text_of_component(e)) == Ok::<Seq<ItemV>, Seq<char>>(
            seq![ItemV::Component(component_of(e))],
        ),
{
    let s = text_of_component(e);
    let t = expr_text(e);
    assert(stands(s, 0, s));
    reveal_strlit(" }");
    lemma_stands_split(s, 0, "component C() { "@ + t, " }"@);
    lemma_stands_split(s, 0, "component C() { "@, t);
    lemma_head_spelled(s);
    let p = 16 + t.len() as int;
    assert(s[p + 0] == " }"@[0] && s[p + 1] == " }"@[1]);
    assert(word_ends(s, p));
    lemma_expr_spelled(s, 16, e, 1);
    lemma_space(s, p, 1);
    lemma_sign(s, p + 1, 1);
    let none = Seq::<Tok>::empty();
    let h = head_tokens();
    let v = expr_tokens(e);
    let r = seq![Tok::RBrace];
    lemma_spells_then(s, 0, 16, p, h, v, 1);
    lemma_spells_then(s, 0, p, p + 1, h + v, none, 1);
    lemma_spells_then(s, 0, p + 1, p + 2, h + v + none, r, 1);
    assert(h + v + none + r =~= h + v + r);
    let end = seq![Spanned { tok: Tok::Eof, line: 1 }];
    assert(tokens_from(s, s.len() as int, 1) == Ok::<Seq<Spanned>, Seq<char>>(end));
    let ts = on_line(h + v + r, 1) + end;
    assert(tokens_of(s) == Ok::<Seq<Spanned>, Seq<char>>(ts));
    assert(tokens_stand(ts, 0, h + v + r));
    lemma_tokens_split(ts, 0, h + v, r);
    lemma_tokens_split(ts, 0, h, v);
    assert(ts[0].tok == h[0]);
    assert(ts[1].tok == h[1]);
    assert(ts[2].tok == h[2]);
    assert(ts[3].tok == h[3]);
    assert(ts[4].tok == h[4]);
    lemma_body(ts, 5, e);
    let q = 5 + v.len() as int;
    assert(block(ts, 4) == Ok::<(Seq<StmtV>, int), Seq<char>>(
        (seq![StmtV::ExprStmt(e)], q + 1),
    )) by {
        reveal(block);
        reveal(stmt_list);
    }
    assert(component(ts, 0) == Ok::<(ComponentV, int), Seq<char>>((component_of(e), q + 1))) by {
        reveal(component);
        reveal(param_list);
    }
    assert(item(ts, 0) == Ok::<(Option<ItemV>, int), Seq<char>>(
        (Some(ItemV::Component(component_of(e))), q + 1),
    )) by {
        reveal(item);
    }
    let items = seq![ItemV::Component(component_of(e))];
    assert(Seq::empty().push(ItemV::Component(component_of(e))) =~= items);
    assert(tok_at(ts, q + 1) == Tok::Eof);
    assert(items_from(ts, items, q + 1) == Ok::<Seq<ItemV>, Seq<char>>(items)) by {
        reveal(items_from);
    }
    reveal(items_from);
}

/// Every expression that occurs in a text can be written into a component, and is then read as the
/// body of that component.
pub proof fn lemma_read_is_written_in_component(s: Seq<char>, e: ExprV)
    requires
        items_of_text(s) is Ok,
        occurs_in_items(e, items_of_text(s)->Ok_0),
    ensures
        items_of_text(text_of_component(e)) == Ok::<Seq<ItemV>, Seq<char>>(
            seq![ItemV::Component(component_of(e))],
        ),
{
    lemma_occurring_is_writable(s, e);
    lemma_written_in_component(e);
}

} // verus!
