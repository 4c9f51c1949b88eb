//! How deeply calls may be nested does not matter, as long as it is deep enough.

use vstd::prelude::*;
use crate::ir::lowering::max_depth;
use crate::ir::rules::{
    arg_values, bind, bind_args, body, call, elements, expr, fresh_fields, fresh_scalar,
    fresh_value, inner_guard, inner_prefix, is_builtin, is_halves, lowered, mux, param_inputs,
    publics, room, shown_type, start, stmt, Env, Run, State,
};
use crate::ir::value::{put, Fields, ValueV};
use crate::ir::IrExprV;
use crate::parser::ast::{ComponentV, ExprV, StmtV};

verus! {

/// Whether a step that did not stop short is as another.
pub open spec fn same_unless_stop<T>(a: Run<T>, b: Run<T>) -> bool {
    a is Stop || a == b
}

proof fn lemma_fresh_value(
    env: Env,
    st: State,
    ty: Seq<char>,
    prefix: Seq<char>,
    d: nat,
    e: nat,
)
    requires
        d <= e,
    ensures
        same_unless_stop(
            fresh_value(env, st, ty, prefix, d),
            fresh_value(env, st, ty, prefix, e),
        ),
    decreases d, 0int, 0int,
{
    if !is_halves(ty) && env.components.dom().contains(ty) && d > 0 {
        let comp = env.components[ty];
        lemma_fresh_fields(
            env,
            st,
            comp,
            publics(comp.body),
            0,
            Seq::empty(),
            prefix,
            (d - 1) as nat,
            (e - 1) as nat,
        );
    }
}

proof fn lemma_fresh_fields(
    env: Env,
    st: State,
    comp: ComponentV,
    pubs: Seq<(Seq<char>, ExprV)>,
    i: int,
    acc: Fields,
    prefix: Seq<char>,
    d: nat,
    e: nat,
)
    requires
        d <= e,
    ensures
        same_unless_stop(
            fresh_fields(env, st, comp, pubs, i, acc, prefix, d),
            fresh_fields(env, st, comp, pubs, i, acc, prefix, e),
        ),
    decreases d, 1int, pubs.len() - i,
{
    if 0 <= i < pubs.len() {
        let t = shown_type(comp, pubs[i].1);
        let nested = t is Some && (is_halves(t->Some_0) || env.components.dom().contains(
            t->Some_0,
        ));
        if nested {
            lemma_fresh_value(env, st, t->Some_0, prefix, d, e);
        }
        let r = if nested {
            fresh_value(env, st, t->Some_0, prefix, d)
        } else {
            fresh_scalar(st, prefix, pubs[i].0)
        };
        match r {
            Run::Done(s, v) => {
                lemma_fresh_fields(
                    env,
                    s,
                    comp,
                    pubs,
                    i + 1,
                    put(acc, pubs[i].0, v),
                    prefix,
                    d,
                    e,
                );
            },
            _ => {},
        }
    }
}

proof fn lemma_call(
    env: Env,
    st: State,
    name: Seq<char>,
    args: Seq<ValueV>,
    type_args: Seq<u64>,
    prefix: Seq<char>,
    d: nat,
    e: nat,
)
    requires
        d <= e,
    ensures
        same_unless_stop(
            call(env, st, name, args, type_args, prefix, d),
            call(env, st, name, args, type_args, prefix, e),
        ),
    decreases 3 * d + 2, args, 0int, 0int,
{
    reveal(call);
    reveal(body);
    if !is_builtin(name) {
        if env.externs.dom().contains(name) {
            lemma_fresh_value(env, st, env.externs[name], prefix, d, e);
        } else if env.components.dom().contains(name) && !env.abstracts.contains(name) {
            let comp = env.components[name];
            let inner = bind_args(st, comp.params, args, comp.params.len());
            lemma_body(env, inner, comp.body, 0, None, inner_prefix(prefix, name), d, e);
        }
    }
}

proof fn lemma_body(
    env: Env,
    st: State,
    stmts: Seq<StmtV>,
    i: int,
    last: Option<ValueV>,
    prefix: Seq<char>,
    d: nat,
    e: nat,
)
    requires
        d <= e,
    ensures
        same_unless_stop(
            body(env, st, stmts, i, last, prefix, d),
            body(env, st, stmts, i, last, prefix, e),
        ),
    decreases 3 * d + 1, stmts, 0int, stmts.len() - i,
{
    reveal(body);
    reveal(stmt);
    if 0 <= i < stmts.len() {
        lemma_stmt(env, st, stmts[i], prefix, d, e);
        match stmt(env, st, stmts[i], prefix, d) {
            Run::Done(s, v) => {
                lemma_body(env, s, stmts, i + 1, v, prefix, d, e);
            },
            _ => {},
        }
    }
}

proof fn lemma_stmt(env: Env, st: State, s: StmtV, prefix: Seq<char>, d: nat, e: nat)
    requires
        d <= e,
    ensures
        same_unless_stop(stmt(env, st, s, prefix, d), stmt(env, st, s, prefix, e)),
    decreases 3 * d + 1, s, 1int, 0int,
{
    reveal(stmt);
    reveal(expr);
    reveal(mux);
    match s {
        StmtV::Binding { value, .. } => {
            lemma_expr(env, st, value, prefix, d, e);
        },
        StmtV::Constraint { lhs, rhs } => {
            lemma_expr(env, st, lhs, prefix, d, e);
            match expr(env, st, lhs, prefix, d) {
                Run::Done(s1, _) => {
                    lemma_expr(env, s1, rhs, prefix, d, e);
                },
                _ => {},
            }
        },
        StmtV::Mux { .. } => {
            lemma_mux(env, st, s, 0, st.guard, prefix, d, e);
        },
        StmtV::ExprStmt(x) => {
            lemma_expr(env, st, x, prefix, d, e);
        },
    }
}

proof fn lemma_mux(
    env: Env,
    st: State,
    s: StmtV,
    i: int,
    outer: Option<IrExprV>,
    prefix: Seq<char>,
    d: nat,
    e: nat,
)
    requires
        d <= e,
    ensures
        same_unless_stop(
            mux(env, st, s, i, outer, prefix, d),
            mux(env, st, s, i, outer, prefix, e),
        ),
    decreases 3 * d + 1, s, 0int, s->guards.len() - i,
{
    reveal(mux);
    reveal(expr);
    reveal(body);
    match s {
        StmtV::Mux { guards, branches } => {
            if 0 <= i < guards.len() && i < branches.len() {
                lemma_expr(env, st, guards[i], prefix, d, e);
                match expr(env, st, guards[i], prefix, d) {
                    Run::Done(s1, ValueV::Expr(g)) => {
                        let s2 = State { guard: Some(inner_guard(outer, g)), ..s1 };
                        lemma_body(env, s2, branches[i], 0, None, prefix, d, e);
                        match body(env, s2, branches[i], 0, None, prefix, d) {
                            Run::Done(s3, _) => {
                                let s4 = State { guard: outer, ..s3 };
                                lemma_mux(env, s4, s, i + 1, outer, prefix, d, e);
                            },
                            _ => {},
                        }
                    },
                    _ => {},
                }
            }
        },
        _ => {},
    }
}

proof fn lemma_expr(env: Env, st: State, x: ExprV, prefix: Seq<char>, d: nat, e: nat)
    requires
        d <= e,
    ensures
        same_unless_stop(expr(env, st, x, prefix, d), expr(env, st, x, prefix, e)),
    decreases 3 * d, x, 1int, 0int,
{
    reveal(expr);
    reveal(call);
    reveal(arg_values);
    reveal(elements);
    match x {
        ExprV::Field { object, .. } => {
            lemma_expr(env, st, *object, prefix, d, e);
        },
        ExprV::BinOp { lhs, rhs, .. } => {
            lemma_expr(env, st, *lhs, prefix, d, e);
            match expr(env, st, *lhs, prefix, d) {
                Run::Done(s1, _) => {
                    lemma_expr(env, s1, *rhs, prefix, d, e);
                },
                _ => {},
            }
        },
        ExprV::Call { name, type_args, args } => {
            lemma_arg_values(env, st, args, 0, Seq::empty(), prefix, d, e);
            match arg_values(env, st, args, 0, Seq::empty(), prefix, d) {
                Run::Done(s, vs) => {
                    if d > 0 {
                        lemma_call(
                            env,
                            s,
                            name,
                            vs,
                            type_args,
                            prefix,
                            (d - 1) as nat,
                            (e - 1) as nat,
                        );
                    }
                },
                _ => {},
            }
        },
        ExprV::For { var, start, end, body } => {
            lemma_elements(
                env,
                st,
                var,
                start as int,
                end as int,
                *body,
                Seq::empty(),
                prefix,
                d,
                e,
            );
        },
        ExprV::Index { object, index } => {
            lemma_expr(env, st, *object, prefix, d, e);
            match expr(env, st, *object, prefix, d) {
                Run::Done(s1, _) => {
                    lemma_expr(env, s1, *index, prefix, d, e);
                },
                _ => {},
            }
        },
        _ => {},
    }
}

proof fn lemma_arg_values(
    env: Env,
    st: State,
    args: Seq<ExprV>,
    i: int,
    acc: Seq<ValueV>,
    prefix: Seq<char>,
    d: nat,
    e: nat,
)
    requires
        d <= e,
    ensures
        same_unless_stop(
            arg_values(env, st, args, i, acc, prefix, d),
            arg_values(env, st, args, i, acc, prefix, e),
        ),
    decreases 3 * d, args, 0int, args.len() - i,
{
    reveal(arg_values);
    reveal(expr);
    if 0 <= i < args.len() {
        lemma_expr(env, st, args[i], prefix, d, e);
        match expr(env, st, args[i], prefix, d) {
            Run::Done(s, v) => {
                lemma_arg_values(env, s, args, i + 1, acc.push(v), prefix, d, e);
            },
            _ => {},
        }
    }
}

proof fn lemma_elements(
    env: Env,
    st: State,
    var: Seq<char>,
    i: int,
    end: int,
    x: ExprV,
    acc: Seq<IrExprV>,
    prefix: Seq<char>,
    d: nat,
    e: nat,
)
    requires
        d <= e,
    ensures
        same_unless_stop(
            elements(env, st, var, i, end, x, acc, prefix, d),
            elements(env, st, var, i, end, x, acc, prefix, e),
        ),
    decreases 3 * d, x, 2int, end - i,
{
    reveal(elements);
    reveal(expr);
    if i < end {
        let s = bind(st, var, ValueV::Expr(IrExprV::Const((i as u64) as i64)));
        lemma_expr(env, s, x, prefix, d, e);
        match expr(env, s, x, prefix, d) {
            Run::Done(s1, ValueV::Expr(v)) => {
                lemma_elements(env, s1, var, i + 1, end, x, acc.push(v), prefix, d, e);
            },
            _ => {},
        }
    }
}

/// A component that can be lowered, or fails to be, with calls nested as deeply as `d` has
/// the same outcome wherever they may be nested more deeply.
pub proof fn lemma_lowered_deeper(env: Env, name: Seq<char>, d: nat, e: nat)
    requires
        d <= e,
        !(lowered(env, name, d) is Stop),
    ensures
        lowered(env, name, e) == lowered(env, name, d),
{
    if env.components.dom().contains(name) {
        let comp = env.components[name];
        let st = param_inputs(env, start(name, comp.source_line), comp.params, comp.params.len());
        lemma_body(env, st, comp.body, 0, None, ""@, d, e);
    }
}

/// How deeply calls may be nested is no bound but that of a machine word: what a component is
/// lowered to at any depth that one can count is what it is lowered to.
pub proof fn lemma_deep_enough(env: Env, name: Seq<char>, d: nat)
    requires
        d <= usize::MAX,
        !(lowered(env, name, d) is Stop),
    ensures
        lowered(env, name, max_depth()) == lowered(env, name, d),
{
    lemma_lowered_deeper(env, name, d, max_depth());
}

/// As many names can be made as a machine word can count.
pub proof fn lemma_room_for_names(st: State, n: nat)
    ensures
        room(st, n as int) <==> st.counter + n <= usize::MAX,
{
}

} // verus!
