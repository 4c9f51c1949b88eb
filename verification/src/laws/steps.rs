//! What lowering adds to an instruction step by step.

use vstd::prelude::*;
use crate::ir::rules::{
    abstract_call, abstract_results, add_outputs, and_bits, arg_values, bind, bind_args, bind_value,
    bit_count, bit_sum, bit_vars, body, bound_register, bound_value, builtin_call, call,
    chosen_register, declare, declare_bits, declare_inputs, declare_output, declare_pairs, elements,
    emit, equal_register, equate, equation, expr, flat_arg, flat_args, flat_fields, fresh_fields,
    fresh_scalar, fresh_value, guessed_type, inner_guard, inner_prefix, is_builtin, is_halves,
    lowered, makes_halves, mux, next_name, operation, outputs_of, param_inputs, publics, room,
    scalar_arg, shown_type, start, stmt, tick, times, var, var_value, x_bits, y_bits, Env, Lowered,
    Output, Run, State,
};
use crate::ir::value::{field_of, halves, put, Fields, ValueV};
use crate::ir::{ConstraintV, IrExprV, SpecV, VarType, VarV};
use crate::laws::calls::{fits, type_width, width};
use crate::parser::ast::{ComponentV, ExprV, Op, StmtV};
use crate::text::unicode_lowercase;

verus! {

/// What is known of a course of lowering.
pub struct Course {
    /// How many constraints there are before it.
    pub from: nat,
    /// The guard that it is under, if any.
    pub guard: Option<IrExprV>,
    /// The outputs, where it adds none.
    pub outputs: Option<Seq<VarV>>,
    /// How many names have been made before it.
    pub counter: nat,
}

/// Whether a guard is `g` or that of a branch inside of it: a product that starts with `g`.
pub open spec fn starts(h: IrExprV, g: IrExprV) -> bool
    decreases h,
{
    h == g || (h matches IrExprV::Mul(a, _) && starts(*a, g))
}

/// Whether a constraint, if it is an equation, has both sides multiplied by one guard that is
/// `g` or that of a branch inside of it.
pub open spec fn under(c: ConstraintV, g: IrExprV) -> bool {
    c matches ConstraintV::Eq { lhs, rhs, .. } ==> {
        &&& lhs matches IrExprV::Mul(a, _) && starts(*a, g)
        &&& rhs matches IrExprV::Mul(b, _) && *b == *lhs->Mul_0
    }
}

/// Whether the guard of a state is that of a course.
pub open spec fn guarded_by(c: Course, guard: Option<IrExprV>) -> bool {
    c.guard is Some ==> guard is Some && starts(guard->Some_0, c.guard->Some_0)
}

/// Whether a constraint at a place is as a course has it.
pub open spec fn proper(env: Env, c: Course, i: int, x: ConstraintV) -> bool {
    c.from <= i ==> {
        &&& fits(env, x)
        &&& c.guard is Some ==> under(x, c.guard->Some_0)
    }
}

/// Whether a state is one of a course.
#[verifier::opaque]
pub open spec fn goes(env: Env, c: Course, st: State) -> bool {
    &&& forall|i: int|
        0 <= i < st.spec.constraints.len() ==> proper(
            env,
            c,
            i,
            #[trigger] st.spec.constraints[i],
        )
    &&& c.outputs is Some ==> st.spec.outputs == c.outputs->Some_0
    &&& guarded_by(c, st.guard)
    &&& c.counter <= st.counter
}

/// Whether a step that is done ends in a state of the course.
pub open spec fn goes_run<T>(env: Env, c: Course, r: Run<T>) -> bool {
    r matches Run::Done(s, _) ==> goes(env, c, s)
}

/// Whether a call of `name` is replaced by the body of a component.
pub open spec fn expands(env: Env, name: Seq<char>) -> bool {
    &&& !is_builtin(name)
    &&& !env.externs.dom().contains(name)
    &&& env.components.dom().contains(name)
    &&& !env.abstracts.contains(name)
}

/// Whether names with a prefix are made in a course.
pub open spec fn prefixed(c: Course, prefix: Seq<char>) -> bool {
    c.outputs is Some ==> prefix.len() > 0
}

proof fn lemma_same(env: Env, c: Course, st: State, s: State)
    requires
        goes(env, c, st),
        s.spec.constraints == st.spec.constraints,
        s.spec.outputs == st.spec.outputs,
        guarded_by(c, s.guard),
        st.counter <= s.counter,
    ensures
        goes(env, c, s),
{
    reveal(goes);
}

proof fn lemma_guarded(env: Env, c: Course, st: State)
    requires
        goes(env, c, st),
    ensures
        guarded_by(c, st.guard),
{
    reveal(goes);
}

proof fn lemma_inner_guarded(c: Course, outer: Option<IrExprV>, g: IrExprV)
    requires
        guarded_by(c, outer),
    ensures
        guarded_by(c, Some(inner_guard(outer, g))),
{
    reveal_with_fuel(starts, 2);
}

proof fn lemma_emit(env: Env, c: Course, st: State, x: ConstraintV)
    requires
        goes(env, c, st),
        fits(env, x),
        c.guard is Some ==> under(x, c.guard->Some_0),
    ensures
        goes(env, c, emit(st, x)),
{
    reveal(goes);
    let cs = st.spec.constraints;
    assert forall|i: int| 0 <= i < cs.push(x).len() implies proper(
        env,
        c,
        i,
        #[trigger] cs.push(x)[i],
    ) by {
        if i < cs.len() {
            assert(proper(env, c, i, cs[i]));
        }
    }
}

proof fn lemma_equate(env: Env, c: Course, st: State, l: IrExprV, r: IrExprV, tag: Seq<char>)
    requires
        goes(env, c, st),
    ensures
        goes(env, c, equate(st, l, r, tag)),
{
    lemma_guarded(env, c, st);
    lemma_emit(env, c, st, equation(st, l, r, tag));
}

proof fn lemma_add_outputs(env: Env, c: Course, st: State, outs: Seq<Output>)
    requires
        goes(env, c, st),
        c.outputs is None,
    ensures
        goes(env, c, add_outputs(st, outs)),
{
    reveal(goes);
    let s = add_outputs(st, outs);
    let cs = st.spec.constraints;
    assert forall|i: int| 0 <= i < s.spec.constraints.len() implies proper(
        env,
        c,
        i,
        #[trigger] s.spec.constraints[i],
    ) by {
        if i < cs.len() {
            assert(proper(env, c, i, cs[i]));
            assert(s.spec.constraints[i] == cs[i]);
        }
    }
}

/// Whether the constraints, the outputs and the guard are the same, and no name is unmade.
pub open spec fn same_frame(st: State, s: State) -> bool {
    &&& s.spec.constraints == st.spec.constraints
    &&& s.spec.outputs == st.spec.outputs
    &&& s.guard == st.guard
    &&& st.counter <= s.counter
}

proof fn lemma_same_frame(env: Env, c: Course, st: State, s: State)
    requires
        goes(env, c, st),
        same_frame(st, s),
    ensures
        goes(env, c, s),
{
    lemma_guarded(env, c, st);
    lemma_same(env, c, st, s);
}

proof fn lemma_declare_pairs(st: State, prefix: Seq<char>, n: nat)
    ensures
        same_frame(st, declare_pairs(st, prefix, n)),
    decreases n,
{
    if n > 0 {
        lemma_declare_pairs(st, prefix, (n - 1) as nat);
    }
}

proof fn lemma_declare_bits(st: State, prefix: Seq<char>, n: nat)
    ensures
        same_frame(st, declare_bits(st, prefix, n)),
    decreases n,
{
    if n > 0 {
        lemma_declare_bits(st, prefix, (n - 1) as nat);
    }
}

proof fn lemma_equal_register(
    env: Env,
    c: Course,
    st: State,
    args: Seq<ValueV>,
    prefix: Seq<char>,
    base: Seq<char>,
    t: VarType,
    tag: Seq<char>,
)
    requires
        goes(env, c, st),
    ensures
        goes_run(env, c, equal_register(st, args, prefix, base, t, tag)),
{
    match scalar_arg(args, 0) {
        Some(e) => {
            let v = next_name(st, prefix, base);
            let s = declare(tick(st), v, t);
            lemma_same_frame(env, c, st, s);
            lemma_equate(env, c, s, var(v), e, tag);
        },
        None => {},
    }
}

proof fn lemma_builtin_call(
    env: Env,
    c: Course,
    st: State,
    name: Seq<char>,
    args: Seq<ValueV>,
    type_args: Seq<u64>,
    prefix: Seq<char>,
)
    requires
        goes(env, c, st),
    ensures
        goes_run(env, c, builtin_call(st, name, args, type_args, prefix)),
{
    lemma_declare_pairs(st, prefix, 16);
    lemma_declare_bits(st, prefix, bit_count(type_args));
    if chosen_register(name) is Some {
        let b = chosen_register(name)->Some_0;
        lemma_same_frame(env, c, st, declare(tick(st), next_name(st, prefix, b.0), b.1));
    } else if name == "FakeTwitReg"@ {
        lemma_equal_register(env, c, st, args, prefix, "ftwit"@, VarType::Twit, "fake_twit_reg"@);
    } else if name == "U16Reg"@ {
        lemma_equal_register(env, c, st, args, prefix, "u16r"@, VarType::U16, "u16reg"@);
    } else if name == "U32Reg"@ {
        lemma_equal_register(env, c, st, args, prefix, "u32r"@, VarType::U32, "u32reg"@);
    } else if name == "IsZero"@ || name == "Isz"@ {
        match scalar_arg(args, 0) {
            Some(e) => {
                let v = next_name(st, prefix, "iz"@);
                let s = declare(tick(st), v, VarType::Bit);
                lemma_same_frame(env, c, st, s);
                lemma_emit(env, c, s, ConstraintV::IsZero { result: v, expr: e });
            },
            None => {},
        }
    } else if name == "BitwiseAndU16"@ {
        match (scalar_arg(args, 0), scalar_arg(args, 1)) {
            (Some(x), Some(y)) => {
                let s1 = declare_pairs(st, prefix, 16);
                let xs = bit_sum(x_bits(prefix, st.counter, 16));
                let ys = bit_sum(y_bits(prefix, st.counter, 16));
                let rs = bit_sum(and_bits(prefix, st.counter, 16));
                lemma_same_frame(env, c, st, s1);
                lemma_equate(env, c, s1, x, xs, "tobits_x"@);
                let s2 = equate(s1, x, xs, "tobits_x"@);
                lemma_equate(env, c, s2, y, ys, "tobits_y"@);
                let s3 = equate(s2, y, ys, "tobits_y"@);
                let r = next_name(s3, prefix, "and16"@);
                let s4 = declare(tick(s3), r, VarType::U16);
                lemma_same_frame(env, c, s3, s4);
                lemma_equate(env, c, s4, var(r), rs, "and_result"@);
            },
            _ => {},
        }
    } else if name == "ToBits"@ {
        match scalar_arg(args, 0) {
            Some(e) => {
                let s = declare_bits(st, prefix, bit_count(type_args));
                let bits = bit_vars(prefix, st.counter, bit_count(type_args));
                lemma_same_frame(env, c, st, s);
                lemma_equate(env, c, s, e, bit_sum(bits), "tobits_decompose"@);
            },
            None => {},
        }
    }
}

/// A fresh value adds no constraint and no output.
pub proof fn lemma_fresh_value(env: Env, st: State, ty: Seq<char>, prefix: Seq<char>, depth: nat)
    ensures
        fresh_value(env, st, ty, prefix, depth) matches Run::Done(s, _)
            ==> same_frame(st, s),
    decreases depth, 0int, 0int,
{
    if !is_halves(ty) && env.components.dom().contains(ty) && depth > 0 {
        let comp = env.components[ty];
        lemma_fresh_fields(
            env,
            st,
            comp,
            publics(comp.body),
            0,
            Seq::empty(),
            prefix,
            (depth - 1) as nat,
        );
    }
}

proof fn lemma_fresh_fields(
    env: Env,
    st: State,
    comp: ComponentV,
    pubs: Seq<(Seq<char>, ExprV)>,
    i: int,
    acc: Fields,
    prefix: Seq<char>,
    depth: nat,
)
    ensures
        fresh_fields(env, st, comp, pubs, i, acc, prefix, depth) matches Run::Done(s, _)
            ==> same_frame(st, s),
    decreases depth, 1int, pubs.len() - i,
{
    if 0 <= i < pubs.len() {
        let t = shown_type(comp, pubs[i].1);
        let nested = t is Some && (is_halves(t->Some_0) || env.components.dom().contains(
            t->Some_0,
        ));
        if nested {
            lemma_fresh_value(env, st, t->Some_0, prefix, depth);
        }
        let r = if nested {
            fresh_value(env, st, t->Some_0, prefix, depth)
        } else {
            fresh_scalar(st, prefix, pubs[i].0)
        };
        match r {
            Run::Done(s, v) => {
                lemma_fresh_fields(
                    env,
                    s,
                    comp,
                    pubs,
                    i + 1,
                    put(acc, pubs[i].0, v),
                    prefix,
                    depth,
                );
            },
            _ => {},
        }
    }
}

proof fn lemma_flat_fields(
    st: State,
    arg: ValueV,
    ty: Seq<char>,
    pubs: Seq<(Seq<char>, ExprV)>,
    i: int,
    acc: Seq<IrExprV>,
)
    requires
        0 <= i <= pubs.len(),
    ensures
        flat_fields(st, arg, ty, pubs, i, acc) matches Run::Done(s, v) ==> s == st && v.len()
            == acc.len() + (pubs.len() - i),
    decreases pubs.len() - i,
{
    if i < pubs.len() {
        match field_of(arg, pubs[i].0) {
            Some(ValueV::Expr(e)) => {
                lemma_flat_fields(st, arg, ty, pubs, i + 1, acc.push(e));
            },
            _ => {},
        }
    }
}

proof fn lemma_flat_args(
    env: Env,
    st: State,
    name: Seq<char>,
    params: Seq<(Seq<char>, Seq<char>)>,
    args: Seq<ValueV>,
    i: int,
    acc: Seq<IrExprV>,
)
    requires
        0 <= i <= params.len(),
        acc.len() == width(env, params, i as nat),
    ensures
        flat_args(env, st, name, params, args, i, acc) matches Run::Done(s, v) ==> s == st
            && v.len() == width(env, params, params.len()),
    decreases params.len() - i,
{
    if i < params.len() && i < args.len() {
        let ty = params[i].1;
        if !is_halves(ty) && env.components.dom().contains(ty) {
            lemma_flat_fields(st, args[i], ty, publics(env.components[ty].body), 0, acc);
        }
        match flat_arg(env, st, args[i], ty, acc) {
            Run::Done(s, a) => {
                assert(s == st && a.len() == acc.len() + type_width(env, ty));
                assert(width(env, params, (i + 1) as nat) == width(env, params, i as nat)
                    + type_width(env, ty));
                lemma_flat_args(env, s, name, params, args, i + 1, a);
            },
            _ => {},
        }
    }
}

proof fn lemma_abstract_results(
    st: State,
    name: Seq<char>,
    pubs: Seq<(Seq<char>, ExprV)>,
    i: int,
    acc: Fields,
    outs: Seq<(Seq<char>, Seq<char>)>,
    prefix: Seq<char>,
)
    ensures
        abstract_results(st, name, pubs, i, acc, outs, prefix) matches Run::Done(s, _)
            ==> same_frame(st, s),
    decreases pubs.len() - i,
{
    if 0 <= i < pubs.len() {
        let f = pubs[i].0;
        let base = unicode_lowercase(name) + "_"@ + f;
        if makes_halves(pubs[i].1) {
            if room(st, 2) {
                let low = next_name(st, prefix, base + "_low"@);
                let high = next_name(tick(st), prefix, base + "_high"@);
                lemma_abstract_results(
                    declare(declare(tick(tick(st)), low, VarType::U16), high, VarType::U16),
                    name,
                    pubs,
                    i + 1,
                    put(acc, f, halves(var_value(low), var_value(high))),
                    outs.push((f + ".low"@, low)).push((f + ".high"@, high)),
                    prefix,
                );
            }
        } else if room(st, 1) {
            let v = next_name(st, prefix, base);
            lemma_abstract_results(
                declare(tick(st), v, VarType::Val),
                name,
                pubs,
                i + 1,
                put(acc, f, var_value(v)),
                outs.push((f, v)),
                prefix,
            );
        }
    }
}

proof fn lemma_abstract_call(
    env: Env,
    c: Course,
    st: State,
    name: Seq<char>,
    args: Seq<ValueV>,
    prefix: Seq<char>,
)
    requires
        env.components.dom().contains(name),
        env.abstracts.contains(name),
        goes(env, c, st),
    ensures
        goes_run(env, c, abstract_call(env, st, env.components[name], name, args, prefix)),
{
    let comp = env.components[name];
    let none = Seq::<IrExprV>::empty();
    lemma_flat_args(env, st, name, comp.params, args, 0, none);
    match flat_args(env, st, name, comp.params, args, 0, none) {
        Run::Done(s, flat) => {
            let pubs = publics(comp.body);
            let acc = Seq::<(Seq<char>, ValueV)>::empty();
            let outs = Seq::<(Seq<char>, Seq<char>)>::empty();
            lemma_abstract_results(s, name, pubs, 0, acc, outs, prefix);
            match abstract_results(s, name, pubs, 0, acc, outs, prefix) {
                Run::Done(s2, (fields, outputs)) => {
                    lemma_same_frame(env, c, st, s2);
                    lemma_emit(
                        env,
                        c,
                        s2,
                        ConstraintV::Call { component: name, args: flat, outputs },
                    );
                },
                _ => {},
            }
        },
        _ => {},
    }
}

proof fn lemma_bind_args(
    st: State,
    params: Seq<(Seq<char>, Seq<char>)>,
    args: Seq<ValueV>,
    n: nat,
)
    ensures
        same_frame(st, bind_args(st, params, args, n)),
    decreases n,
{
    if 0 < n <= params.len() {
        lemma_bind_args(st, params, args, (n - 1) as nat);
    }
}

proof fn lemma_bind_value(
    env: Env,
    c: Course,
    st: State,
    is_public: bool,
    name: Seq<char>,
    rhs: ExprV,
    v: ValueV,
    prefix: Seq<char>,
)
    requires
        goes(env, c, st),
        prefixed(c, prefix),
    ensures
        goes_run(env, c, bind_value(st, is_public, name, rhs, v, prefix)),
{
    if is_public && v is Struct && prefix.len() == 0 {
        let s = add_outputs(st, outputs_of(v, name));
        lemma_add_outputs(env, c, st, outputs_of(v, name));
        lemma_same_frame(env, c, s, bind(s, name, v));
    } else if is_public && v is Expr {
        let n = next_name(st, prefix, name);
        let t = guessed_type(rhs);
        let s = if prefix.len() == 0 {
            declare_output(tick(st), n, t)
        } else {
            declare(tick(st), n, t)
        };
        assert(goes(env, c, s)) by {
            reveal(goes);
        }
        lemma_equate(env, c, s, var(n), v->Expr_0, "public_"@ + name);
        let s1 = equate(s, var(n), v->Expr_0, "public_"@ + name);
        lemma_same_frame(env, c, s1, bind(s1, name, var_value(n)));
    } else {
        lemma_same_frame(env, c, st, bind(st, name, v));
    }
}

proof fn lemma_bound_register(
    env: Env,
    c: Course,
    st: State,
    name: Seq<char>,
    v: ValueV,
    t: VarType,
    prefix: Seq<char>,
)
    requires
        goes(env, c, st),
    ensures
        goes_run(env, c, bound_register(st, name, v, t, prefix)),
{
    match v {
        ValueV::Expr(e) => {
            let n = next_name(st, prefix, name);
            let s = declare(tick(st), n, t);
            lemma_same_frame(env, c, st, s);
            lemma_equate(env, c, s, var(n), e, "reg_"@ + name);
        },
        _ => {},
    }
}

proof fn lemma_bound_value(
    env: Env,
    c: Course,
    st: State,
    name: Seq<char>,
    rhs: ExprV,
    v: ValueV,
    prefix: Seq<char>,
)
    requires
        goes(env, c, st),
    ensures
        goes_run(env, c, bound_value(st, name, rhs, v, prefix)),
{
    lemma_bound_register(env, c, st, name, v, VarType::U16, prefix);
    lemma_bound_register(env, c, st, name, v, VarType::Val, prefix);
}

proof fn lemma_operation(
    env: Env,
    c: Course,
    st: State,
    op: Op,
    l: IrExprV,
    r: IrExprV,
    prefix: Seq<char>,
)
    requires
        goes(env, c, st),
    ensures
        goes_run(env, c, operation(st, op, l, r, prefix)),
{
    if op == Op::Div {
        let q = next_name(st, prefix, "div"@);
        let s = declare(tick(st), q, VarType::Val);
        lemma_same_frame(env, c, st, s);
        lemma_equate(env, c, s, times(var(q), r), l, "exact_div"@);
    }
}

/// A call stays in its course.
pub proof fn lemma_call(
    env: Env,
    c: Course,
    st: State,
    name: Seq<char>,
    args: Seq<ValueV>,
    type_args: Seq<u64>,
    prefix: Seq<char>,
    depth: nat,
)
    requires
        goes(env, c, st),
        expands(env, name) ==> prefixed(c, inner_prefix(prefix, name)),
    ensures
        goes_run(env, c, call(env, st, name, args, type_args, prefix, depth)),
    decreases 3 * depth + 2, args, 0int, 0int,
{
    reveal(call);
    reveal(body);
    if is_builtin(name) {
        lemma_builtin_call(env, c, st, name, args, type_args, prefix);
    } else if env.externs.dom().contains(name) {
        lemma_fresh_value(env, st, env.externs[name], prefix, depth);
        match fresh_value(env, st, env.externs[name], prefix, depth) {
            Run::Done(s, _) => {
                lemma_same_frame(env, c, st, s);
            },
            _ => {},
        }
    } else if env.components.dom().contains(name) {
        let comp = env.components[name];
        if env.abstracts.contains(name) {
            lemma_abstract_call(env, c, st, name, args, prefix);
        } else {
            let inner = bind_args(st, comp.params, args, comp.params.len());
            lemma_bind_args(st, comp.params, args, comp.params.len());
            lemma_same_frame(env, c, st, inner);
            lemma_body(env, c, inner, comp.body, 0, None, inner_prefix(prefix, name), depth);
            match body(env, inner, comp.body, 0, None, inner_prefix(prefix, name), depth) {
                Run::Done(s, _) => {
                    lemma_same_frame(env, c, s, State { bindings: st.bindings, ..s });
                },
                _ => {},
            }
        }
    }
}

/// A body stays in its course.
pub proof fn lemma_body(
    env: Env,
    c: Course,
    st: State,
    stmts: Seq<StmtV>,
    i: int,
    last: Option<ValueV>,
    prefix: Seq<char>,
    depth: nat,
)
    requires
        goes(env, c, st),
        prefixed(c, prefix),
    ensures
        goes_run(env, c, body(env, st, stmts, i, last, prefix, depth)),
    decreases 3 * depth + 1, stmts, 0int, stmts.len() - i,
{
    reveal(body);
    reveal(stmt);
    if 0 <= i < stmts.len() {
        lemma_stmt(env, c, st, stmts[i], prefix, depth);
        match stmt(env, st, stmts[i], prefix, depth) {
            Run::Done(s, v) => {
                lemma_body(env, c, s, stmts, i + 1, v, prefix, depth);
            },
            _ => {},
        }
    }
}

proof fn lemma_stmt(env: Env, c: Course, st: State, s: StmtV, prefix: Seq<char>, depth: nat)
    requires
        goes(env, c, st),
        prefixed(c, prefix),
    ensures
        goes_run(env, c, stmt(env, st, s, prefix, depth)),
    decreases 3 * depth + 1, s, 1int, 0int,
{
    reveal(stmt);
    reveal(expr);
    reveal(mux);
    match s {
        StmtV::Binding { is_public, name, value } => {
            lemma_expr(env, c, st, value, prefix, depth);
            match expr(env, st, value, prefix, depth) {
                Run::Done(s1, v) => {
                    lemma_bound_value(env, c, s1, name, value, v, prefix);
                    match bound_value(s1, name, value, v, prefix) {
                        Run::Done(s2, w) => {
                            lemma_bind_value(env, c, s2, is_public, name, value, w, prefix);
                        },
                        _ => {},
                    }
                },
                _ => {},
            }
        },
        StmtV::Constraint { lhs, rhs } => {
            lemma_expr(env, c, st, lhs, prefix, depth);
            match expr(env, st, lhs, prefix, depth) {
                Run::Done(s1, ValueV::Expr(l)) => {
                    lemma_expr(env, c, s1, rhs, prefix, depth);
                    match expr(env, s1, rhs, prefix, depth) {
                        Run::Done(s2, ValueV::Expr(r)) => {
lemma_equate(env, c, s2, l, r, "constraint"@);
                        },
                        _ => {},
                    }
                },
                _ => {},
            }
        },
        StmtV::Mux { .. } => {
            lemma_guarded(env, c, st);
            lemma_mux(env, c, st, s, 0, st.guard, prefix, depth);
        },
        StmtV::ExprStmt(x) => {
            lemma_expr(env, c, st, x, prefix, depth);
        },
    }
}

proof fn lemma_mux(
    env: Env,
    c: Course,
    st: State,
    s: StmtV,
    i: int,
    outer: Option<IrExprV>,
    prefix: Seq<char>,
    depth: nat,
)
    requires
        goes(env, c, st),
        guarded_by(c, outer),
        prefixed(c, prefix),
    ensures
        goes_run(env, c, mux(env, st, s, i, outer, prefix, depth)),
    decreases 3 * depth + 1, s, 0int, s->guards.len() - i,
{
    reveal(mux);
    reveal(expr);
    reveal(body);
    match s {
        StmtV::Mux { guards, branches } => {
            if 0 <= i < guards.len() && i < branches.len() {
                lemma_expr(env, c, st, guards[i], prefix, depth);
                match expr(env, st, guards[i], prefix, depth) {
                    Run::Done(s1, ValueV::Expr(g)) => {
                        let s2 = State { guard: Some(inner_guard(outer, g)), ..s1 };
                        lemma_inner_guarded(c, outer, g);
                        lemma_same(env, c, s1, s2);
                        lemma_body(env, c, s2, branches[i], 0, None, prefix, depth);
                        match body(env, s2, branches[i], 0, None, prefix, depth) {
                            Run::Done(s3, _) => {
                                let s4 = State { guard: outer, ..s3 };
                                lemma_same(env, c, s3, s4);
                                lemma_mux(env, c, s4, s, i + 1, outer, prefix, depth);
                            },
                            _ => {},
                        }
                    },
                    _ => {},
                }
            }
        },
        _ => {},
    }
}

proof fn lemma_expr(env: Env, c: Course, st: State, x: ExprV, prefix: Seq<char>, depth: nat)
    requires
        goes(env, c, st),
        prefixed(c, prefix),
    ensures
        goes_run(env, c, expr(env, st, x, prefix, depth)),
    decreases 3 * depth, x, 1int, 0int,
{
    reveal(expr);
    reveal(call);
    reveal(arg_values);
    reveal(elements);
    match x {
        ExprV::Field { object, .. } => {
            lemma_expr(env, c, st, *object, prefix, depth);
        },
        ExprV::BinOp { op, lhs, rhs } => {
            lemma_expr(env, c, st, *lhs, prefix, depth);
            match expr(env, st, *lhs, prefix, depth) {
                Run::Done(s1, ValueV::Expr(l)) => {
                    lemma_expr(env, c, s1, *rhs, prefix, depth);
                    match expr(env, s1, *rhs, prefix, depth) {
                        Run::Done(s2, ValueV::Expr(r)) => {
                            lemma_operation(env, c, s2, op, l, r, prefix);
                        },
                        _ => {},
                    }
                },
                _ => {},
            }
        },
        ExprV::Call { name, type_args, args } => {
            lemma_arg_values(env, c, st, args, 0, Seq::empty(), prefix, depth);
            match arg_values(env, st, args, 0, Seq::empty(), prefix, depth) {
                Run::Done(s, vs) => {
                    if depth > 0 {
                        lemma_call(env, c, s, name, vs, type_args, prefix, (depth - 1) as nat);
                    }
                },
                _ => {},
            }
        },
        ExprV::For { var, start, end, body } => {
            lemma_elements(
                env,
                c,
                st,
                var,
                start as int,
                end as int,
                *body,
                Seq::empty(),
                prefix,
                depth,
            );
        },
        ExprV::Index { object, index } => {
            lemma_expr(env, c, st, *object, prefix, depth);
            match expr(env, st, *object, prefix, depth) {
                Run::Done(s1, _) => {
                    lemma_expr(env, c, s1, *index, prefix, depth);
                },
                _ => {},
            }
        },
        _ => {},
    }
}

proof fn lemma_arg_values(
    env: Env,
    c: Course,
    st: State,
    args: Seq<ExprV>,
    i: int,
    acc: Seq<ValueV>,
    prefix: Seq<char>,
    depth: nat,
)
    requires
        goes(env, c, st),
        prefixed(c, prefix),
    ensures
        goes_run(env, c, arg_values(env, st, args, i, acc, prefix, depth)),
    decreases 3 * depth, args, 0int, args.len() - i,
{
    reveal(arg_values);
    reveal(expr);
    if 0 <= i < args.len() {
        lemma_expr(env, c, st, args[i], prefix, depth);
        match expr(env, st, args[i], prefix, depth) {
            Run::Done(s, v) => {
                lemma_arg_values(env, c, s, args, i + 1, acc.push(v), prefix, depth);
            },
            _ => {},
        }
    }
}

proof fn lemma_elements(
    env: Env,
    c: Course,
    st: State,
    var: Seq<char>,
    i: int,
    end: int,
    x: ExprV,
    acc: Seq<IrExprV>,
    prefix: Seq<char>,
    depth: nat,
)
    requires
        goes(env, c, st),
        prefixed(c, prefix),
    ensures
        goes_run(env, c, elements(env, st, var, i, end, x, acc, prefix, depth)),
    decreases 3 * depth, x, 2int, end - i,
{
    reveal(elements);
    reveal(expr);
    if i < end {
        let s = bind(st, var, ValueV::Expr(IrExprV::Const((i as u64) as i64)));
        lemma_same_frame(env, c, st, s);
        lemma_expr(env, c, s, x, prefix, depth);
        match expr(env, s, x, prefix, depth) {
            Run::Done(s1, ValueV::Expr(v)) => {
                lemma_elements(env, c, s1, var, i + 1, end, x, acc.push(v), prefix, depth);
            },
            _ => {},
        }
    }
}

proof fn lemma_declare_inputs(
    st: State,
    name: Seq<char>,
    pubs: Seq<(Seq<char>, ExprV)>,
    n: nat,
)
    ensures
        same_frame(st, declare_inputs(st, name, pubs, n)),
    decreases n,
{
    if 0 < n <= pubs.len() {
        lemma_declare_inputs(st, name, pubs, (n - 1) as nat);
    }
}

proof fn lemma_param_inputs(
    env: Env,
    st: State,
    params: Seq<(Seq<char>, Seq<char>)>,
    n: nat,
)
    ensures
        same_frame(st, param_inputs(env, st, params, n)),
    decreases n,
{
    if 0 < n <= params.len() {
        lemma_param_inputs(env, st, params, (n - 1) as nat);
        let s = param_inputs(env, st, params, (n - 1) as nat);
        let ty = params[n - 1].1;
        if env.components.dom().contains(ty) {
            let pubs = publics(env.components[ty].body);
            lemma_declare_inputs(s, params[n - 1].0, pubs, pubs.len());
        }
    }
}

/// Every constraint of an instruction that a component is lowered to fits.
pub proof fn lemma_lowered_fits(env: Env, name: Seq<char>, depth: nat, s: SpecV)
    requires
        lowered(env, name, depth) == Lowered::Done(s),
    ensures
        forall|i: int| 0 <= i < s.constraints.len() ==> fits(env, #[trigger] s.constraints[i]),
{
    let c = Course { from: 0, guard: None, outputs: None, counter: 0 };
    let comp = env.components[name];
    let s0 = start(name, comp.source_line);
    assert(goes(env, c, s0)) by {
        reveal(goes);
    }
    let st = param_inputs(env, s0, comp.params, comp.params.len());
    lemma_param_inputs(env, s0, comp.params, comp.params.len());
    lemma_same_frame(env, c, s0, st);
    lemma_body(env, c, st, comp.body, 0, None, ""@, depth);
    let cs = s.constraints;
    assert forall|i: int| 0 <= i < cs.len() implies fits(env, #[trigger] cs[i]) by {
        reveal(goes);
        match body(env, st, comp.body, 0, None, ""@, depth) {
            Run::Done(t, Some(v)) => {
                lemma_add_outputs(env, c, t, outputs_of(v, "result"@));
                let u = add_outputs(t, outputs_of(v, "result"@));
                assert(proper(env, c, i, u.spec.constraints[i]));
            },
            Run::Done(t, None) => {
                assert(proper(env, c, i, t.spec.constraints[i]));
            },
            _ => {},
        }
    }
}

} // verus!
