//! What lowering adds to an instruction inside of a branch and inside of a call.

use vstd::prelude::*;
use crate::ir::rules::{
    body, call, fresh_value, inner_prefix, is_builtin, next_name, tick, Env, Run, State,
};
use crate::ir::value::ValueV;
use crate::ir::{ConstraintV, IrExprV, VarV};
use crate::laws::determinism::{holds, value, Numbers};
use crate::laws::naming::lemma_fresh_names_differ;
use crate::laws::steps::{
    expands, goes, lemma_body, lemma_call, lemma_fresh_value, proper, starts, under, Course,
};
use crate::parser::ast::StmtV;

verus! {

/// Every equation that a block adds under a guard has both sides multiplied by it, or, inside of
/// a further branch, by a product that starts with it.
pub proof fn lemma_block_under_guard(
    env: Env,
    st: State,
    stmts: Seq<StmtV>,
    prefix: Seq<char>,
    depth: nat,
    i: int,
)
    requires
        st.guard is Some,
    ensures
        body(env, st, stmts, 0, None, prefix, depth) matches Run::Done(s, _) ==> (
        st.spec.constraints.len() <= i < s.spec.constraints.len() ==> under(
            s.spec.constraints[i],
            st.guard->Some_0,
        )),
{
    let c = Course { from: st.spec.constraints.len(), guard: st.guard, outputs: None, counter: 0 };
    assert(goes(env, c, st)) by {
        reveal(goes);
    }
    lemma_body(env, c, st, stmts, 0, None, prefix, depth);
    match body(env, st, stmts, 0, None, prefix, depth) {
        Run::Done(s, _) => {
            reveal(goes);
            if st.spec.constraints.len() <= i < s.spec.constraints.len() {
                assert(proper(env, c, i, s.spec.constraints[i]));
            }
        },
        _ => {},
    }
}

/// The same of a call that is made under a guard.
pub proof fn lemma_call_under_guard(
    env: Env,
    st: State,
    name: Seq<char>,
    args: Seq<ValueV>,
    type_args: Seq<u64>,
    prefix: Seq<char>,
    depth: nat,
    i: int,
)
    requires
        st.guard is Some,
    ensures
        call(env, st, name, args, type_args, prefix, depth) matches Run::Done(s, _) ==> (
        st.spec.constraints.len() <= i < s.spec.constraints.len() ==> under(
            s.spec.constraints[i],
            st.guard->Some_0,
        )),
{
    let c = Course { from: st.spec.constraints.len(), guard: st.guard, outputs: None, counter: 0 };
    assert(goes(env, c, st)) by {
        reveal(goes);
    }
    lemma_call(env, c, st, name, args, type_args, prefix, depth);
    match call(env, st, name, args, type_args, prefix, depth) {
        Run::Done(s, _) => {
            reveal(goes);
            if st.spec.constraints.len() <= i < s.spec.constraints.len() {
                assert(proper(env, c, i, s.spec.constraints[i]));
            }
        },
        _ => {},
    }
}

proof fn lemma_product_is_zero(
    k: Numbers,
    vs: Seq<VarV>,
    a: spec_fn(Seq<char>) -> int,
    h: IrExprV,
    g: IrExprV,
)
    requires
        starts(h, g),
        value(k, vs, a, g) == 0,
        k is Modulo ==> k->Modulo_0 > 0,
    ensures
        value(k, vs, a, h) == 0,
    decreases h,
{
    if h != g {
        let l = *h->Mul_0;
        let r = *h->Mul_1;
        lemma_product_is_zero(k, vs, a, l, g);
        assert(0 * value(k, vs, a, r) == 0);
    }
}

/// Where a guard is 0, every equation under it holds, whatever the other variables are.
pub proof fn lemma_guard_that_is_zero(
    k: Numbers,
    vs: Seq<VarV>,
    a: spec_fn(Seq<char>) -> int,
    f: spec_fn(Seq<char>, Seq<char>, Seq<int>) -> int,
    c: ConstraintV,
    g: IrExprV,
)
    requires
        c is Eq,
        under(c, g),
        value(k, vs, a, g) == 0,
        k is Modulo ==> k->Modulo_0 > 0,
    ensures
        holds(k, vs, a, f, c),
{
    let h = *c->lhs->Mul_0;
    let l = *c->lhs->Mul_1;
    let r = *c->rhs->Mul_1;
    lemma_product_is_zero(k, vs, a, h, g);
    assert(0 * value(k, vs, a, l) == 0 && 0 * value(k, vs, a, r) == 0);
}

/// A call adds no output to the instruction. A call that is expanded does so because the names
/// made inside of it have a prefix, which is empty only where it is made at the top level and the
/// name of the component is empty in lower case.
pub proof fn lemma_call_adds_no_output(
    env: Env,
    st: State,
    name: Seq<char>,
    args: Seq<ValueV>,
    type_args: Seq<u64>,
    prefix: Seq<char>,
    depth: nat,
)
    ensures
        !expands(env, name) || inner_prefix(prefix, name).len() > 0 ==> (call(
            env,
            st,
            name,
            args,
            type_args,
            prefix,
            depth,
        ) matches Run::Done(s, _) ==> s.spec.outputs == st.spec.outputs),
{
    if !expands(env, name) || inner_prefix(prefix, name).len() > 0 {
        let c = Course {
            from: st.spec.constraints.len(),
            guard: None,
            outputs: Some(st.spec.outputs),
            counter: 0,
        };
        assert(goes(env, c, st)) by {
            reveal(goes);
        }
        lemma_call(env, c, st, name, args, type_args, prefix, depth);
        reveal(goes);
    }
}

/// A call of a function that the prover supplies gives a fresh value of its type: it adds no
/// constraint, and neither the arguments matter nor that there is a component of that name or
/// that calls of it are not expanded.
pub proof fn lemma_extern_call(
    env: Env,
    st: State,
    name: Seq<char>,
    args: Seq<ValueV>,
    type_args: Seq<u64>,
    prefix: Seq<char>,
    depth: nat,
)
    requires
        !is_builtin(name),
        env.externs.dom().contains(name),
    ensures
        call(env, st, name, args, type_args, prefix, depth) == fresh_value(
            env,
            st,
            env.externs[name],
            prefix,
            depth,
        ),
        call(env, st, name, args, type_args, prefix, depth) matches Run::Done(s, _)
            ==> s.spec.constraints == st.spec.constraints && s.spec.outputs == st.spec.outputs
            && s.guard == st.guard,
{
    reveal(call);
    lemma_fresh_value(env, st, env.externs[name], prefix, depth);
}

/// No name is made twice: the count of names never falls, and a name that is made after another
/// is a different one, whatever the two are made from.
pub proof fn lemma_no_name_is_made_twice(
    env: Env,
    st: State,
    name: Seq<char>,
    args: Seq<ValueV>,
    type_args: Seq<u64>,
    prefix: Seq<char>,
    depth: nat,
    p: Seq<char>,
    x: Seq<char>,
    q: Seq<char>,
    y: Seq<char>,
)
    ensures
        call(env, tick(st), name, args, type_args, prefix, depth) matches Run::Done(s, _)
            ==> st.counter < s.counter && next_name(st, p, x) != next_name(s, q, y),
{
    let c = Course {
        from: st.spec.constraints.len(),
        guard: None,
        outputs: None,
        counter: st.counter + 1,
    };
    assert(goes(env, c, tick(st))) by {
        reveal(goes);
    }
    lemma_call(env, c, tick(st), name, args, type_args, prefix, depth);
    match call(env, tick(st), name, args, type_args, prefix, depth) {
        Run::Done(s, _) => {
            reveal(goes);
            lemma_fresh_names_differ(p, x, st.counter + 1, q, y, s.counter + 1);
        },
        _ => {},
    }
}

} // verus!
