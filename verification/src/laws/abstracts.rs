//! Of the names that are not to be expanded only those of components matter.

use vstd::prelude::*;
use crate::ir::rules::{
    arg_values, bind, bind_args, body, call, elements, expr, flat_arg, flat_args, fresh_fields,
    fresh_scalar, fresh_value, inner_guard, inner_prefix, is_builtin, is_halves, lowered, mux,
    param_inputs, publics, shown_type, start, stmt, Env, Run, State,
};
use crate::ir::value::{put, Fields, ValueV};
use crate::ir::IrExprV;
use crate::parser::ast::{ComponentV, ExprV, StmtV};

verus! {

/// Whether two files define the same, and agree on which of their components are not to be
/// expanded, as far as calls of these come to be looked at.
pub open spec fn agree(a: Env, b: Env) -> bool {
    &&& a.components == b.components
    &&& a.externs == b.externs
    &&& forall|name: Seq<char>|
        !is_builtin(name) && !a.externs.dom().contains(name) && a.components.dom().contains(name)
            ==> (#[trigger] a.abstracts.contains(name) <==> b.abstracts.contains(name))
}

proof fn lemma_fresh_value(
    env: Env,
    st: State,
    ty: Seq<char>,
    prefix: Seq<char>,
    b: Env,
    d: nat,
)
    requires
        agree(env, b),
    ensures
        fresh_value(env, st, ty, prefix, d) == fresh_value(b, st, ty, prefix, d),
    decreases d, 0int, 0int,
{
    if !is_halves(ty) && env.components.dom().contains(ty) && d > 0 {
        let comp = env.components[ty];
        lemma_fresh_fields(
            env,
            st,
            comp,
            publics(comp.body),
            0,
            Seq::empty(),
            prefix,
            b,
            (d - 1) as nat,
        );
    }
}

proof fn lemma_fresh_fields(
    env: Env,
    st: State,
    comp: ComponentV,
    pubs: Seq<(Seq<char>, ExprV)>,
    i: int,
    acc: Fields,
    prefix: Seq<char>,
    b: Env,
    d: nat,
)
    requires
        agree(env, b),
    ensures
        fresh_fields(env, st, comp, pubs, i, acc, prefix, d) == fresh_fields(
            b,
            st,
            comp,
            pubs,
            i,
            acc,
            prefix,
            d,
        ),
    decreases d, 1int, pubs.len() - i,
{
    if 0 <= i < pubs.len() {
        let t = shown_type(comp, pubs[i].1);
        let nested = t is Some && (is_halves(t->Some_0) || env.components.dom().contains(
            t->Some_0,
        ));
        if nested {
            lemma_fresh_value(env, st, t->Some_0, prefix, b, d);
        }
        let r = if nested {
            fresh_value(env, st, t->Some_0, prefix, d)
        } else {
            fresh_scalar(st, prefix, pubs[i].0)
        };
        match r {
            Run::Done(s, v) => {
                lemma_fresh_fields(
                    env,
                    s,
                    comp,
                    pubs,
                    i + 1,
                    put(acc, pubs[i].0, v),
                    prefix,
                    b,
                    d,
                );
            },
            _ => {},
        }
    }
}

proof fn lemma_call(
    env: Env,
    st: State,
    name: Seq<char>,
    args: Seq<ValueV>,
    type_args: Seq<u64>,
    prefix: Seq<char>,
    b: Env,
    d: nat,
)
    requires
        agree(env, b),
    ensures
        call(env, st, name, args, type_args, prefix, d) == call(
            b,
            st,
            name,
            args,
            type_args,
            prefix,
            d,
        ),
    decreases 3 * d + 2, args, 0int, 0int,
{
    reveal(call);
    reveal(body);
    if !is_builtin(name) {
        if env.externs.dom().contains(name) {
            lemma_fresh_value(env, st, env.externs[name], prefix, b, d);
        } else if env.components.dom().contains(name) {
            let comp = env.components[name];
            assert(env.abstracts.contains(name) <==> b.abstracts.contains(name));
            lemma_flat_args(env, st, name, comp.params, args, 0, Seq::empty(), b);
            let inner = bind_args(st, comp.params, args, comp.params.len());
            lemma_body(env, inner, comp.body, 0, None, inner_prefix(prefix, name), b, d);
        }
    }
}

proof fn lemma_body(
    env: Env,
    st: State,
    stmts: Seq<StmtV>,
    i: int,
    last: Option<ValueV>,
    prefix: Seq<char>,
    b: Env,
    d: nat,
)
    requires
        agree(env, b),
    ensures
        body(env, st, stmts, i, last, prefix, d) == body(b, st, stmts, i, last, prefix, d),
    decreases 3 * d + 1, stmts, 0int, stmts.len() - i,
{
    reveal(body);
    reveal(stmt);
    if 0 <= i < stmts.len() {
        lemma_stmt(env, st, stmts[i], prefix, b, d);
        match stmt(env, st, stmts[i], prefix, d) {
            Run::Done(s, v) => {
                lemma_body(env, s, stmts, i + 1, v, prefix, b, d);
            },
            _ => {},
        }
    }
}

proof fn lemma_stmt(env: Env, st: State, s: StmtV, prefix: Seq<char>, b: Env, d: nat)
    requires
        agree(env, b),
    ensures
        stmt(env, st, s, prefix, d) == stmt(b, st, s, prefix, d),
    decreases 3 * d + 1, s, 1int, 0int,
{
    reveal(stmt);
    reveal(expr);
    reveal(mux);
    match s {
        StmtV::Binding { value, .. } => {
            lemma_expr(env, st, value, prefix, b, d);
        },
        StmtV::Constraint { lhs, rhs } => {
            lemma_expr(env, st, lhs, prefix, b, d);
            match expr(env, st, lhs, prefix, d) {
                Run::Done(s1, _) => {
                    lemma_expr(env, s1, rhs, prefix, b, d);
                },
                _ => {},
            }
        },
        StmtV::Mux { .. } => {
            lemma_mux(env, st, s, 0, st.guard, prefix, b, d);
        },
        StmtV::ExprStmt(x) => {
            lemma_expr(env, st, x, prefix, b, d);
        },
    }
}

proof fn lemma_mux(
    env: Env,
    st: State,
    s: StmtV,
    i: int,
    outer: Option<IrExprV>,
    prefix: Seq<char>,
    b: Env,
    d: nat,
)
    requires
        agree(env, b),
    ensures
        mux(env, st, s, i, outer, prefix, d) == mux(b, st, s, i, outer, prefix, d),
    decreases 3 * d + 1, s, 0int, s->guards.len() - i,
{
    reveal(mux);
    reveal(expr);
    reveal(body);
    match s {
        StmtV::Mux { guards, branches } => {
            if 0 <= i < guards.len() && i < branches.len() {
                lemma_expr(env, st, guards[i], prefix, b, d);
                match expr(env, st, guards[i], prefix, d) {
                    Run::Done(s1, ValueV::Expr(g)) => {
                        let s2 = State { guard: Some(inner_guard(outer, g)), ..s1 };
                        lemma_body(env, s2, branches[i], 0, None, prefix, b, d);
                        match body(env, s2, branches[i], 0, None, prefix, d) {
                            Run::Done(s3, _) => {
                                let s4 = State { guard: outer, ..s3 };
                                lemma_mux(env, s4, s, i + 1, outer, prefix, b, d);
                            },
                            _ => {},
                        }
                    },
                    _ => {},
                }
            }
        },
        _ => {},
    }
}

proof fn lemma_expr(env: Env, st: State, x: ExprV, prefix: Seq<char>, b: Env, d: nat)
    requires
        agree(env, b),
    ensures
        expr(env, st, x, prefix, d) == expr(b, st, x, prefix, d),
    decreases 3 * d, x, 1int, 0int,
{
    reveal(expr);
    reveal(call);
    reveal(arg_values);
    reveal(elements);
    match x {
        ExprV::Field { object, .. } => {
            lemma_expr(env, st, *object, prefix, b, d);
        },
        ExprV::BinOp { lhs, rhs, .. } => {
            lemma_expr(env, st, *lhs, prefix, b, d);
            match expr(env, st, *lhs, prefix, d) {
                Run::Done(s1, _) => {
                    lemma_expr(env, s1, *rhs, prefix, b, d);
                },
                _ => {},
            }
        },
        ExprV::Call { name, type_args, args } => {
            lemma_arg_values(env, st, args, 0, Seq::empty(), prefix, b, d);
            match arg_values(env, st, args, 0, Seq::empty(), prefix, d) {
                Run::Done(s, vs) => {
                    if d > 0 {
                        lemma_call(
                            env,
                            s,
                            name,
                            vs,
                            type_args,
                            prefix,
                            b,
                            (d - 1) as nat,
                        );
                    }
                },
                _ => {},
            }
        },
        ExprV::For { var, start, end, body } => {
            lemma_elements(
                env,
                st,
                var,
                start as int,
                end as int,
                *body,
                Seq::empty(),
                prefix,
                b,
                d,
            );
        },
        ExprV::Index { object, index } => {
            lemma_expr(env, st, *object, prefix, b, d);
            match expr(env, st, *object, prefix, d) {
                Run::Done(s1, _) => {
                    lemma_expr(env, s1, *index, prefix, b, d);
                },
                _ => {},
            }
        },
        _ => {},
    }
}

proof fn lemma_arg_values(
    env: Env,
    st: State,
    args: Seq<ExprV>,
    i: int,
    acc: Seq<ValueV>,
    prefix: Seq<char>,
    b: Env,
    d: nat,
)
    requires
        agree(env, b),
    ensures
        arg_values(env, st, args, i, acc, prefix, d) == arg_values(b, st, args, i, acc, prefix, d),
    decreases 3 * d, args, 0int, args.len() - i,
{
    reveal(arg_values);
    reveal(expr);
    if 0 <= i < args.len() {
        lemma_expr(env, st, args[i], prefix, b, d);
        match expr(env, st, args[i], prefix, d) {
            Run::Done(s, v) => {
                lemma_arg_values(env, s, args, i + 1, acc.push(v), prefix, b, d);
            },
            _ => {},
        }
    }
}

proof fn lemma_elements(
    env: Env,
    st: State,
    var: Seq<char>,
    i: int,
    end: int,
    x: ExprV,
    acc: Seq<IrExprV>,
    prefix: Seq<char>,
    b: Env,
    d: nat,
)
    requires
        agree(env, b),
    ensures
        elements(env, st, var, i, end, x, acc, prefix, d) == elements(
            b,
            st,
            var,
            i,
            end,
            x,
            acc,
            prefix,
            d,
        ),
    decreases 3 * d, x, 2int, end - i,
{
    reveal(elements);
    reveal(expr);
    if i < end {
        let s = bind(st, var, ValueV::Expr(IrExprV::Const((i as u64) as i64)));
        lemma_expr(env, s, x, prefix, b, d);
        match expr(env, s, x, prefix, d) {
            Run::Done(s1, ValueV::Expr(v)) => {
                lemma_elements(env, s1, var, i + 1, end, x, acc.push(v), prefix, b, d);
            },
            _ => {},
        }
    }
}

proof fn lemma_flat_args(
    env: Env,
    st: State,
    name: Seq<char>,
    params: Seq<(Seq<char>, Seq<char>)>,
    args: Seq<ValueV>,
    i: int,
    acc: Seq<IrExprV>,
    b: Env,
)
    requires
        agree(env, b),
    ensures
        flat_args(env, st, name, params, args, i, acc) == flat_args(
            b,
            st,
            name,
            params,
            args,
            i,
            acc,
        ),
    decreases params.len() - i,
{
    if 0 <= i < params.len() && i < args.len() {
        match flat_arg(env, st, args[i], params[i].1, acc) {
            Run::Done(s, a) => {
                lemma_flat_args(env, s, name, params, args, i + 1, a, b);
            },
            _ => {},
        }
    }
}

proof fn lemma_param_inputs(
    env: Env,
    st: State,
    params: Seq<(Seq<char>, Seq<char>)>,
    n: nat,
    b: Env,
)
    requires
        agree(env, b),
    ensures
        param_inputs(env, st, params, n) == param_inputs(b, st, params, n),
    decreases n,
{
    if 0 < n <= params.len() {
        lemma_param_inputs(env, st, params, (n - 1) as nat, b);
    }
}

/// Names that are none of components, or that are those of calls with rules of their own or of
/// functions that the prover supplies, make no difference among the names that are not to be
/// expanded: every component is lowered to the same instruction.
pub proof fn lemma_only_components_matter(a: Env, b: Env, name: Seq<char>, depth: nat)
    requires
        agree(a, b),
    ensures
        lowered(a, name, depth) == lowered(b, name, depth),
{
    if a.components.dom().contains(name) {
        let comp = a.components[name];
        let s0 = start(name, comp.source_line);
        let st = param_inputs(a, s0, comp.params, comp.params.len());
        lemma_param_inputs(a, s0, comp.params, comp.params.len(), b);
        lemma_body(a, st, comp.body, 0, None, ""@, b, depth);
    }
}

} // verus!
