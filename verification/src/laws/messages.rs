//! What messages tell.

use vstd::prelude::*;
use crate::ir::{ConstraintV, IrExprV, VarV};
use crate::ir::rules::{
    arg_values, body, call, expr, field_value, flat_args, flat_fields, ident_value, is_builtin,
    lowered, stmt, Env, Lowered, Run, State,
};
use crate::ir::value::{field_of, ValueV};
use crate::laws::numerals::lemma_decimal_texts_differ;
use crate::loader::parse_failure;
use crate::model::{declared, unknown_text, unknowns, Side};
use crate::parser::ast::{ExprV, Op, StmtV};
use crate::parser::grammar::{expected, identifier, integer, tok_at, token_text};
use crate::parser::lexer::{is_digit, is_word_start, token_at, Spanned, Tok};
use crate::smt::StepV;
use crate::text::{digits, finishes_with, occurs, stands_at};
use crate::verifier_bv::{bv_constraint, BvFormula};
use crate::verifier_int::{int_constraint, IntFormula};

verus! {

/// The first characters of the text that names a token, and how long it is where the token has no
/// contents.
pub open spec fn mark(t: Tok) -> (nat, char, char, char) {
    match t {
        Tok::Component => (9, 'C', 'o', 'm'),
        Tok::Import => (6, 'I', 'm', 'p'),
        Tok::Public => (6, 'P', 'u', 'b'),
        Tok::For => (3, 'F', 'o', 'r'),
        Tok::Test => (4, 'T', 'e', 's'),
        Tok::Extern => (6, 'E', 'x', 't'),
        Tok::LParen => (6, 'L', 'P', 'a'),
        Tok::RParen => (6, 'R', 'P', 'a'),
        Tok::LBrace => (6, 'L', 'B', 'r'),
        Tok::RBrace => (6, 'R', 'B', 'r'),
        Tok::LBracket => (8, 'L', 'B', 'r'),
        Tok::RBracket => (8, 'R', 'B', 'r'),
        Tok::LAngle => (6, 'L', 'A', 'n'),
        Tok::RAngle => (6, 'R', 'A', 'n'),
        Tok::Colon => (5, 'C', 'o', 'l'),
        Tok::ColonEq => (7, 'C', 'o', 'l'),
        Tok::Semicolon => (9, 'S', 'e', 'm'),
        Tok::Comma => (5, 'C', 'o', 'm'),
        Tok::Dot => (3, 'D', 'o', 't'),
        Tok::DotDot => (6, 'D', 'o', 't'),
        Tok::Eq => (2, 'E', 'q', 'q'),
        Tok::Plus => (4, 'P', 'l', 'u'),
        Tok::Minus => (5, 'M', 'i', 'n'),
        Tok::Star => (4, 'S', 't', 'a'),
        Tok::Slash => (5, 'S', 'l', 'a'),
        Tok::Ampersand => (9, 'A', 'm', 'p'),
        Tok::Hash => (4, 'H', 'a', 's'),
        Tok::Bang => (4, 'B', 'a', 'n'),
        Tok::Eof => (3, 'E', 'o', 'f'),
        Tok::Ident(_) => (0, 'I', 'd', 'e'),
        Tok::IntLit(_) => (0, 'I', 'n', 't'),
    }
}

/// Whether a token has contents.
pub open spec fn has_contents(t: Tok) -> bool {
    t is Ident || t is IntLit
}

/// A token is named by its kind.
pub proof fn lemma_mark(t: Tok)
    ensures
        token_text(t).len() >= 2,
        !has_contents(t) ==> token_text(t).len() == mark(t).0,
        token_text(t)[0] == mark(t).1,
        token_text(t)[1] == mark(t).2,
        token_text(t).len() > 2 ==> token_text(t)[2] == mark(t).3,
{
    reveal_strlit("Component");
    reveal_strlit("Import");
    reveal_strlit("Public");
    reveal_strlit("For");
    reveal_strlit("Test");
    reveal_strlit("Extern");
    reveal_strlit("LParen");
    reveal_strlit("RParen");
    reveal_strlit("LBrace");
    reveal_strlit("RBrace");
    reveal_strlit("LBracket");
    reveal_strlit("RBracket");
    reveal_strlit("LAngle");
    reveal_strlit("RAngle");
    reveal_strlit("Colon");
    reveal_strlit("ColonEq");
    reveal_strlit("Semicolon");
    reveal_strlit("Comma");
    reveal_strlit("Dot");
    reveal_strlit("DotDot");
    reveal_strlit("Eq");
    reveal_strlit("Plus");
    reveal_strlit("Minus");
    reveal_strlit("Star");
    reveal_strlit("Slash");
    reveal_strlit("Ampersand");
    reveal_strlit("Hash");
    reveal_strlit("Bang");
    reveal_strlit("Eof");
    reveal_strlit("Ident(\"");
    reveal_strlit("IntLit(");
}

proof fn lemma_contents(x: Seq<char>, n: u64)
    ensures
        token_text(Tok::Ident(x)).len() == x.len() + 9,
        token_text(Tok::Ident(x)).subrange(7, 7int + x.len()) == x,
        token_text(Tok::IntLit(n)).len() == digits(n as nat).len() + 8,
        token_text(Tok::IntLit(n)).subrange(7, 7int + digits(n as nat).len()) == digits(n as nat),
{
    reveal_strlit("Ident(\"");
    reveal_strlit("\")");
    reveal_strlit("IntLit(");
    reveal_strlit(")");
    assert(token_text(Tok::Ident(x)).subrange(7, 7int + x.len()) =~= x);
    let d = digits(n as nat);
    assert(token_text(Tok::IntLit(n)).subrange(7, 7int + d.len()) =~= d);
}

/// Different tokens are named differently.
pub proof fn lemma_names_of_tokens(a: Tok, b: Tok)
    ensures
        token_text(a) == token_text(b) <==> a == b,
{
    lemma_mark(a);
    lemma_mark(b);
    if token_text(a) == token_text(b) {
        let u = token_text(a);
        let w = token_text(b);
        assert(u.len() == w.len() && u[0] == w[0] && u[1] == w[1]);
        if u.len() > 2 {
            assert(u[2] == w[2]);
        }
        assert(mark(a).1 == mark(b).1 && mark(a).2 == mark(b).2);
        if a is Ident && b is Ident {
            lemma_contents(a->Ident_0, 0);
            lemma_contents(b->Ident_0, 0);
        } else if a is IntLit && b is IntLit {
            lemma_contents(Seq::empty(), a->IntLit_0);
            lemma_contents(Seq::empty(), b->IntLit_0);
            lemma_decimal_texts_differ(a->IntLit_0 as nat, b->IntLit_0 as nat);
        }
    }
}

/// Where another token stands than the one that is expected, the message names first the one that is
/// expected, then the one that stands there, and last the line.
pub proof fn lemma_expected(ts: Seq<Spanned>, p: int, t: Tok)
    ensures
        expected(ts, p, t) is Ok <==> tok_at(ts, p) == t,
        expected(ts, p, t) matches Ok((_, q)) ==> q == p + 1,
        expected(ts, p, t) matches Err(e) ==> {
            &&& stands_at(e, token_text(t) + ", got "@ + token_text(tok_at(ts, p)), 9)
            &&& finishes_with(e, " line "@ + digits(ts[p].line))
        },
{
    reveal_strlit("Expected ");
    if let Err(e) = expected(ts, p, t) {
        let a = token_text(t) + ", got "@ + token_text(tok_at(ts, p));
        assert(e.subrange(9, 9int + a.len()) =~= a);
        let b = " line "@ + digits(ts[p].line);
        assert(e.subrange(e.len() - b.len(), e.len() as int) =~= b);
    }
}

/// An identifier is read as its name, and an integer as its value; where another token stands, the
/// message tells the line.
pub proof fn lemma_words_and_numbers(ts: Seq<Spanned>, p: int)
    ensures
        tok_at(ts, p) matches Tok::Ident(x) ==> identifier(ts, p) == Ok::<
            (Seq<char>, int),
            Seq<char>,
        >((x, p + 1)),
        tok_at(ts, p) matches Tok::IntLit(n) ==> integer(ts, p) == Ok::<(u64, int), Seq<char>>(
            (n, p + 1),
        ),
        identifier(ts, p) matches Err(e) ==> !(tok_at(ts, p) is Ident) && finishes_with(
            e,
            " line "@ + digits(ts[p].line),
        ),
        integer(ts, p) matches Err(e) ==> !(tok_at(ts, p) is IntLit) && finishes_with(
            e,
            " line "@ + digits(ts[p].line),
        ),
{
    reveal_strlit("Expected ident line ");
    reveal_strlit("Expected int line ");
    reveal_strlit(" line ");
    let b = " line "@ + digits(ts[p].line);
    if let Err(e) = identifier(ts, p) {
        assert(e.subrange(e.len() - b.len(), e.len() as int) =~= b);
    }
    if let Err(e) = integer(ts, p) {
        assert(e.subrange(e.len() - b.len(), e.len() as int) =~= b);
    }
}

/// A character that starts no token is told in a message with the line on which it stands.
pub proof fn lemma_unexpected_character(s: Seq<char>, p: int, line: nat)
    requires
        0 <= p < s.len(),
    ensures
        token_at(s, p, line) matches Err(e) ==> is_digit(s[p]) || (!is_word_start(s[p])
            && stands_at(e, seq!['\'', s[p], '\''], 11) && finishes_with(
            e,
            " line "@ + digits(line),
        )),
{
    reveal_strlit("Unexpected '");
    reveal_strlit("' at line ");
    reveal_strlit(" line ");
    if let Err(e) = token_at(s, p, line) {
        if !is_digit(s[p]) {
            assert(e.subrange(11, 14) =~= seq!['\'', s[p], '\'']);
            let b = " line "@ + digits(line);
            assert(e.subrange(e.len() - b.len(), e.len() as int) =~= b);
        }
    }
}

/// A warning and an error tell the name or the file that they are about.
pub proof fn lemma_names_in_messages(x: Seq<char>, reason: Seq<char>)
    ensures
        occurs(unknown_text(x), "'"@ + x + "'"@),
        stands_at(parse_failure(x, reason), x + ": "@, "Ошибка парсинга "@.len() as int),
        finishes_with(parse_failure(x, reason), ": "@ + reason),
{
    reveal_strlit("  [warn] Variable '");
    reveal_strlit("' not found");
    reveal_strlit("'");
    let w = unknown_text(x);
    let t = "'"@ + x + "'"@;
    assert(w.subrange(18, 18int + t.len()) =~= t);
    assert(stands_at(w, t, 18));
    let e = parse_failure(x, reason);
    let a = "Ошибка парсинга "@.len() as int;
    let u = x + ": "@;
    assert(e.subrange(a, a + u.len()) =~= u);
    let v = ": "@ + reason;
    assert(e.subrange(e.len() - v.len(), e.len() as int) =~= v);
}

/// The names that are not known are those of the variables in an expression that are not declared,
/// in the order in which they stand there.
pub proof fn lemma_unknown_names(vs: Seq<VarV>, a: IrExprV, b: IrExprV, x: Seq<char>, n: i64)
    ensures
        unknowns(IrExprV::Const(n), vs).len() == 0,
        declared(vs, x) ==> unknowns(IrExprV::Var(x), vs).len() == 0,
        !declared(vs, x) ==> unknowns(IrExprV::Var(x), vs) == seq![x],
        unknowns(IrExprV::Add(Box::new(a), Box::new(b)), vs) == unknowns(a, vs) + unknowns(b, vs),
        unknowns(IrExprV::Sub(Box::new(a), Box::new(b)), vs) == unknowns(a, vs) + unknowns(b, vs),
        unknowns(IrExprV::Mul(Box::new(a), Box::new(b)), vs) == unknowns(a, vs) + unknowns(b, vs),
        unknowns(IrExprV::Div(Box::new(a), Box::new(b)), vs) == unknowns(a, vs) + unknowns(b, vs),
{
}

/// The same over words, where a call stops the plan too.
pub proof fn lemma_word_steps_of_constraint(c: ConstraintV, vs: Seq<VarV>, side: Side)
    ensures
        c matches ConstraintV::Eq { lhs, rhs, .. } ==> {
            let p = bv_constraint(c, vs, side);
            let names = unknowns(lhs, vs) + unknowns(rhs, vs);
            &&& p.stop is None
            &&& p.steps.len() == names.len() + 1
            &&& forall|i: int|
                0 <= i < names.len() ==> p.steps[i] == StepV::<BvFormula>::Warn(
                    unknown_text(#[trigger] names[i]),
                )
            &&& p.steps.last() is Assert
        },
        c matches ConstraintV::IsZero { result, .. } ==> (bv_constraint(c, vs, side).stop is None
            <==> declared(vs, result)),
        c is Call ==> bv_constraint(c, vs, side).stop is Some,
{
    if let ConstraintV::Eq { lhs, rhs, .. } = c {
        let p = bv_constraint(c, vs, side);
        let names = unknowns(lhs, vs) + unknowns(rhs, vs);
        assert forall|i: int| 0 <= i < names.len() implies p.steps[i] == StepV::<BvFormula>::Warn(
            unknown_text(#[trigger] names[i]),
        ) by {
            let a = unknowns(lhs, vs).len();
            if i < a {
                assert(names[i] == unknowns(lhs, vs)[i]);
            } else {
                assert(names[i] == unknowns(rhs, vs)[i - a]);
            }
        }
    }
}

/// An equation over the integers is asserted behind a warning for each name in it that is not known,
/// and a test or a call whose result is not known stops the plan.
pub proof fn lemma_steps_of_constraint(
    said: Seq<StepV<IntFormula>>,
    c: ConstraintV,
    vs: Seq<VarV>,
    side: Side,
)
    ensures
        c matches ConstraintV::Eq { lhs, rhs, .. } ==> {
            let p = int_constraint(said, c, vs, side);
            let names = unknowns(lhs, vs) + unknowns(rhs, vs);
            &&& p.stop is None
            &&& p.steps.len() == said.len() + names.len() + 1
            &&& p.steps.take(said.len() as int) == said
            &&& forall|i: int|
                0 <= i < names.len() ==> p.steps[said.len() + i] == StepV::<IntFormula>::Warn(
                    unknown_text(#[trigger] names[i]),
                )
            &&& p.steps.last() is Assert
        },
        c matches ConstraintV::IsZero { result, .. } ==> (int_constraint(said, c, vs, side).stop
            is None <==> declared(vs, result)) && (int_constraint(said, c, vs, side).stop matches Some(
            m,
        ) ==> occurs(m, "'"@ + result + "'"@)),
{
    reveal_strlit("IsZero var '");
    reveal_strlit("' not found");
    reveal_strlit("'");
    if let ConstraintV::IsZero { result, .. } = c {
        if let Some(m) = int_constraint(said, c, vs, side).stop {
            let t = "'"@ + result + "'"@;
            assert(m.subrange(11, 11int + t.len()) =~= t);
            assert(stands_at(m, t, 11));
        }
    }
    if let ConstraintV::Eq { lhs, rhs, .. } = c {
        let p = int_constraint(said, c, vs, side);
        let names = unknowns(lhs, vs) + unknowns(rhs, vs);
        assert(p.steps.take(said.len() as int) =~= said);
        assert forall|i: int| 0 <= i < names.len() implies p.steps[said.len() + i] == StepV::<
            IntFormula,
        >::Warn(unknown_text(#[trigger] names[i])) by {
            let a = unknowns(lhs, vs).len();
            if i < a {
                assert(names[i] == unknowns(lhs, vs)[i]);
            } else {
                assert(names[i] == unknowns(rhs, vs)[i - a]);
            }
        }
    }
}

// ---------------------------------------------------------------------------
// Lowering
// ---------------------------------------------------------------------------

/// A component that is not known is not lowered and not called, and the message names it.
pub proof fn lemma_unknown_component(
    env: Env,
    st: State,
    name: Seq<char>,
    args: Seq<ValueV>,
    type_args: Seq<u64>,
    prefix: Seq<char>,
    depth: nat,
)
    requires
        !env.components.dom().contains(name),
    ensures
        !is_builtin(name) && !env.externs.dom().contains(name) ==> (call(
            env,
            st,
            name,
            args,
            type_args,
            prefix,
            depth,
        ) matches Run::Fail(m) && finishes_with(m, ": "@ + name)),
        lowered(env, name, depth) matches Lowered::Fail(m) && occurs(m, "'"@ + name + "'"@),
{
    reveal(call);
    reveal_strlit("Unknown component: ");
    reveal_strlit(": ");
    let a = "Unknown component: "@ + name;
    let t = ": "@ + name;
    assert(a.subrange(a.len() - t.len(), a.len() as int) =~= t);
    reveal_strlit("Component '");
    reveal_strlit("' not found");
    reveal_strlit("'");
    let b = "Component '"@ + name + "' not found"@;
    let u = "'"@ + name + "'"@;
    assert(b.subrange(10, 10int + u.len()) =~= u);
    assert(stands_at(b, u, 10));
}

/// A field that a value does not have is named in a message, unless the value is that of a name: then
/// the name with the field behind it is looked up.
pub proof fn lemma_unknown_field(st: State, object: ExprV, v: ValueV, field: Seq<char>)
    requires
        field_of(v, field) is None,
    ensures
        !(object is Ident) ==> (field_value(st, object, v, field) matches Run::Fail(m) && occurs(
            m,
            "'"@ + field + "'"@,
        )),
        object matches ExprV::Ident(x) ==> field_value(st, object, v, field) == Run::Done(
            st,
            ident_value(st, x + "."@ + field),
        ),
{
    reveal_strlit("Cannot access field '");
    reveal_strlit("' on non-struct");
    reveal_strlit("'");
    let m = "Cannot access field '"@ + field + "' on non-struct"@;
    let t = "'"@ + field + "'"@;
    assert(m.subrange(20, 20int + t.len()) =~= t);
    assert(stands_at(m, t, 20));
}

/// An argument without a field that its type has is refused with the name of the field and the type,
/// and a call with too few arguments with the number of the first that is missing.
pub proof fn lemma_missing_arguments(
    env: Env,
    st: State,
    name: Seq<char>,
    params: Seq<(Seq<char>, Seq<char>)>,
    args: Seq<ValueV>,
    acc: Seq<IrExprV>,
    v: ValueV,
    ty: Seq<char>,
    pubs: Seq<(Seq<char>, ExprV)>,
    i: int,
)
    ensures
        0 <= i < pubs.len() && field_of(v, pubs[i].0) is None ==> (flat_fields(
            st,
            v,
            ty,
            pubs,
            i,
            acc,
        ) matches Run::Fail(m) && finishes_with(m, " "@ + pubs[i].0 + " on "@ + ty)),
        args.len() <= i < params.len() ==> (flat_args(
            env,
            st,
            name,
            params,
            args,
            i,
            acc,
        ) matches Run::Fail(m) && occurs(m, " "@ + name + ": param "@ + digits(i as nat) + " "@)),
{
    reveal_strlit("missing field ");
    reveal_strlit("abstract ");
    reveal_strlit(" out of args");
    reveal_strlit(" ");
    if 0 <= i < pubs.len() {
        let m = "missing field "@ + pubs[i].0 + " on "@ + ty;
        let t = " "@ + pubs[i].0 + " on "@ + ty;
        assert(m.subrange(m.len() - t.len(), m.len() as int) =~= t);
    }
    if args.len() <= i < params.len() {
        let m = "abstract "@ + name + ": param "@ + digits(i as nat) + " out of args"@;
        let t = " "@ + name + ": param "@ + digits(i as nat) + " "@;
        assert(m.subrange(8, 8int + t.len()) =~= t);
        assert(stands_at(m, t, 8));
    }
}

/// An expression fails as the first of its parts does that fails.
pub proof fn lemma_failed_operand(
    env: Env,
    st: State,
    op: Op,
    l: ExprV,
    r: ExprV,
    field: Seq<char>,
    prefix: Seq<char>,
    depth: nat,
    m: Seq<char>,
)
    ensures
        ({
            let fails = Run::<ValueV>::Fail(m);
            let both = ExprV::BinOp { op, lhs: Box::new(l), rhs: Box::new(r) };
            let at = ExprV::Index { object: Box::new(l), index: Box::new(r) };
            let of = ExprV::Field { object: Box::new(l), field };
            &&& expr(env, st, l, prefix, depth) == fails ==> expr(env, st, both, prefix, depth)
                == fails && expr(env, st, at, prefix, depth) == fails && expr(
                env,
                st,
                of,
                prefix,
                depth,
            ) == fails
            &&& expr(env, st, l, prefix, depth) matches Run::Done(s, v) ==> (expr(
                env,
                s,
                r,
                prefix,
                depth,
            ) == fails ==> expr(env, st, at, prefix, depth) == fails && (v is Expr ==> expr(
                env,
                st,
                both,
                prefix,
                depth,
            ) == fails))
        }),
{
    reveal(expr);
}

/// A call fails as the first of its arguments does that fails.
pub proof fn lemma_failed_argument(
    env: Env,
    st: State,
    args: Seq<ExprV>,
    i: int,
    acc: Seq<ValueV>,
    name: Seq<char>,
    type_args: Seq<u64>,
    prefix: Seq<char>,
    depth: nat,
    m: Seq<char>,
)
    requires
        0 <= i < args.len(),
    ensures
        expr(env, st, args[i], prefix, depth) == Run::<ValueV>::Fail(m) ==> arg_values(
            env,
            st,
            args,
            i,
            acc,
            prefix,
            depth,
        ) == Run::<Seq<ValueV>>::Fail(m),
        arg_values(env, st, args, 0, Seq::empty(), prefix, depth) == Run::<Seq<ValueV>>::Fail(m)
            ==> expr(env, st, (ExprV::Call { name, type_args, args }), prefix, depth) == Run::<
            ValueV,
        >::Fail(m),
{
    reveal(arg_values);
    reveal(expr);
}

/// An expression that fails as a statement fails the statement.
pub proof fn lemma_failed_expression(
    env: Env,
    st: State,
    e: ExprV,
    prefix: Seq<char>,
    depth: nat,
    m: Seq<char>,
)
    requires
        expr(env, st, e, prefix, depth) == Run::<ValueV>::Fail(m),
    ensures
        stmt(env, st, StmtV::ExprStmt(e), prefix, depth) == Run::<
            Option<ValueV>,
        >::Fail(m),
{
    let s = StmtV::ExprStmt(e);
    assert(stmt(env, st, s, prefix, depth) == Run::<Option<ValueV>>::Fail(m)) by {
        reveal(stmt);
        reveal(expr);
    }
}

/// A constraint fails as its left-hand side does.
pub proof fn lemma_failed_constraint(
    env: Env,
    st: State,
    e: ExprV,
    r: ExprV,
    prefix: Seq<char>,
    depth: nat,
    m: Seq<char>,
)
    requires
        expr(env, st, e, prefix, depth) == Run::<ValueV>::Fail(m),
    ensures
        stmt(env, st, (StmtV::Constraint { lhs: e, rhs: r }), prefix, depth) == Run::<
            Option<ValueV>,
        >::Fail(m),
{
    let s = (StmtV::Constraint { lhs: e, rhs: r });
    assert(stmt(env, st, s, prefix, depth) == Run::<Option<ValueV>>::Fail(m)) by {
        reveal(stmt);
        reveal(expr);
    }
}

/// A binding fails as its right-hand side does.
pub proof fn lemma_failed_binding(
    env: Env,
    st: State,
    e: ExprV,
    is_public: bool,
    name: Seq<char>,
    prefix: Seq<char>,
    depth: nat,
    m: Seq<char>,
)
    requires
        expr(env, st, e, prefix, depth) == Run::<ValueV>::Fail(m),
    ensures
        stmt(env, st, (StmtV::Binding { is_public, name, value: e }), prefix, depth) == Run::<
            Option<ValueV>,
        >::Fail(m),
{
    let s = (StmtV::Binding { is_public, name, value: e });
    assert(stmt(env, st, s, prefix, depth) == Run::<Option<ValueV>>::Fail(m)) by {
        reveal(stmt);
        reveal(expr);
    }
}

/// A block fails as the first of its statements does that fails.
pub proof fn lemma_failed_block(
    env: Env,
    st: State,
    stmts: Seq<StmtV>,
    i: int,
    last: Option<ValueV>,
    prefix: Seq<char>,
    depth: nat,
    m: Seq<char>,
)
    requires
        0 <= i < stmts.len(),
        stmt(env, st, stmts[i], prefix, depth) == Run::<Option<ValueV>>::Fail(m),
    ensures
        body(env, st, stmts, i, last, prefix, depth) == Run::<Option<ValueV>>::Fail(m),
{
    reveal(body);
    reveal(stmt);
}

} // verus!
