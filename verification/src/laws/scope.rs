//! Where every name is bound, every variable of an instruction is declared.

use vstd::prelude::*;
use crate::ir::rules::{
    abstract_call, abstract_results, add_outputs, and_bits, and_call, arg_values, bind, bind_args,
    bind_value, bit_count, bit_name, bit_sum, bit_vars, body, bound_register, bound_value,
    builtin_call, call, call_value, chosen_register, declare, declare_bits, declare_input,
    declare_inputs, declare_output, declare_pairs, elements, emit, equal_register, equate, equation,
    expr, flat_arg, flat_args, flat_fields, fresh_fields, fresh_scalar, fresh_value, guessed_type,
    inner_guard, inner_prefix, input_fields, is_builtin, is_halves, lowered, makes_halves, mux,
    next_name, operation, outputs_of, outputs_of_fields, param_inputs, public_fields, publics, room,
    scalar_arg, shown_type, start, stmt, tick, times, var, var_value, with_missing, x_bit, x_bits,
    y_bit, y_bits, Env, Lowered, Output, Run, State,
};
use crate::ir::value::{field_of, firsts, get, halves, lemma_place, place, put, Fields, ValueV};
use crate::ir::{ConstraintV, IrExprV, SpecV, VarType, VarV};
use crate::laws::steps::expands;
use crate::model::declared;
use crate::parser::ast::{ComponentV, ExprV, Op, StmtV};
use crate::text::unicode_lowercase;

verus! {

// ---------------------------------------------------------------------------
// Names that are bound
// ---------------------------------------------------------------------------

/// Whether every name that a call reads is bound when it is read.
#[verifier::opaque]
pub open spec fn call_bound(
    env: Env,
    st: State,
    name: Seq<char>,
    args: Seq<ValueV>,
    prefix: Seq<char>,
    depth: nat,
) -> bool
    decreases 3 * depth + 2, args, 0int, 0int,
{
    expands(env, name) ==> {
        let comp = env.components[name];
        let inner = bind_args(st, comp.params, args, comp.params.len());
        body_bound(env, inner, comp.body, 0, inner_prefix(prefix, name), depth)
    }
}

/// Whether every name that the statements from `i` on read is bound when it is read.
#[verifier::opaque]
pub open spec fn body_bound(
    env: Env,
    st: State,
    stmts: Seq<StmtV>,
    i: int,
    prefix: Seq<char>,
    depth: nat,
) -> bool
    decreases 3 * depth + 1, stmts, 0int, stmts.len() - i,
{
    0 <= i < stmts.len() ==> {
        &&& stmt_bound(env, st, stmts[i], prefix, depth)
        &&& stmt(env, st, stmts[i], prefix, depth) matches Run::Done(s, _) ==> body_bound(
            env,
            s,
            stmts,
            i + 1,
            prefix,
            depth,
        )
    }
}

/// Whether every name that a statement reads is bound when it is read.
#[verifier::opaque]
pub open spec fn stmt_bound(env: Env, st: State, s: StmtV, prefix: Seq<char>, depth: nat) -> bool
    decreases 3 * depth + 1, s, 1int, 0int,
{
    match s {
        StmtV::Binding { value, .. } => expr_bound(env, st, value, prefix, depth),
        StmtV::Constraint { lhs, rhs } => {
            &&& expr_bound(env, st, lhs, prefix, depth)
            &&& expr(env, st, lhs, prefix, depth) matches Run::Done(s1, _) ==> expr_bound(
                env,
                s1,
                rhs,
                prefix,
                depth,
            )
        },
        StmtV::Mux { .. } => mux_bound(env, st, s, 0, st.guard, prefix, depth),
        StmtV::ExprStmt(e) => expr_bound(env, st, e, prefix, depth),
    }
}

/// Whether every name that the branches of a mux from `i` on read is bound when it is read.
#[verifier::opaque]
pub open spec fn mux_bound(
    env: Env,
    st: State,
    s: StmtV,
    i: int,
    outer: Option<IrExprV>,
    prefix: Seq<char>,
    depth: nat,
) -> bool
    decreases 3 * depth + 1, s, 0int, s->guards.len() - i,
{
    match s {
        StmtV::Mux { guards, branches } => 0 <= i < guards.len() && i < branches.len() ==> {
            &&& expr_bound(env, st, guards[i], prefix, depth)
            &&& match expr(env, st, guards[i], prefix, depth) {
                Run::Done(s1, ValueV::Expr(g)) => {
                    let s2 = State { guard: Some(inner_guard(outer, g)), ..s1 };
                    &&& body_bound(env, s2, branches[i], 0, prefix, depth)
                    &&& body(env, s2, branches[i], 0, None, prefix, depth) matches Run::Done(s3, _)
                        ==> mux_bound(
                        env,
                        State { guard: outer, ..s3 },
                        s,
                        i + 1,
                        outer,
                        prefix,
                        depth,
                    )
                },
                _ => true,
            }
        },
        _ => true,
    }
}

/// Whether a field that is read of a value is there, or is bound under its full name.
pub open spec fn field_bound(st: State, object: ExprV, v: ValueV, field: Seq<char>) -> bool {
    ||| field_of(v, field) is Some
    ||| object matches ExprV::Ident(o) ==> get(st.bindings, o + "."@ + field) is Some
}

/// Whether every name that an expression reads is bound when it is read.
#[verifier::opaque]
pub open spec fn expr_bound(env: Env, st: State, e: ExprV, prefix: Seq<char>, depth: nat) -> bool
    decreases 3 * depth, e, 1int, 0int,
{
    match e {
        ExprV::IntLit(_) => true,
        ExprV::Ident(name) => get(st.bindings, name) is Some,
        ExprV::Field { object, field } => {
            &&& expr_bound(env, st, *object, prefix, depth)
            &&& expr(env, st, *object, prefix, depth) matches Run::Done(s, v) ==> field_bound(
                s,
                *object,
                v,
                field,
            )
        },
        ExprV::BinOp { lhs, rhs, .. } => {
            &&& expr_bound(env, st, *lhs, prefix, depth)
            &&& expr(env, st, *lhs, prefix, depth) matches Run::Done(s, _) ==> expr_bound(
                env,
                s,
                *rhs,
                prefix,
                depth,
            )
        },
        ExprV::Call { name, args, .. } => {
            &&& args_bound(env, st, args, 0, prefix, depth)
            &&& depth > 0 ==> (arg_values(env, st, args, 0, Seq::empty(), prefix, depth) matches
                Run::Done(s, vs) ==> call_bound(env, s, name, vs, prefix, (depth - 1) as nat))
        },
        ExprV::For { var, start, end, body } => elements_bound(
            env,
            st,
            var,
            start as int,
            end as int,
            *body,
            prefix,
            depth,
        ),
        ExprV::Index { object, index } => {
            &&& expr_bound(env, st, *object, prefix, depth)
            &&& expr(env, st, *object, prefix, depth) matches Run::Done(s, _) ==> expr_bound(
                env,
                s,
                *index,
                prefix,
                depth,
            )
        },
    }
}

/// Whether every name that the arguments from `i` on read is bound when it is read.
#[verifier::opaque]
pub open spec fn args_bound(
    env: Env,
    st: State,
    args: Seq<ExprV>,
    i: int,
    prefix: Seq<char>,
    depth: nat,
) -> bool
    decreases 3 * depth, args, 0int, args.len() - i,
{
    0 <= i < args.len() ==> {
        &&& expr_bound(env, st, args[i], prefix, depth)
        &&& expr(env, st, args[i], prefix, depth) matches Run::Done(s, _) ==> args_bound(
            env,
            s,
            args,
            i + 1,
            prefix,
            depth,
        )
    }
}

/// Whether every name that the elements of a loop from `i` on read is bound when it is read.
#[verifier::opaque]
pub open spec fn elements_bound(
    env: Env,
    st: State,
    var: Seq<char>,
    i: int,
    end: int,
    e: ExprV,
    prefix: Seq<char>,
    depth: nat,
) -> bool
    decreases 3 * depth, e, 2int, end - i,
{
    i < end ==> {
        let s = bind(st, var, ValueV::Expr(IrExprV::Const((i as u64) as i64)));
        &&& expr_bound(env, s, e, prefix, depth)
        &&& expr(env, s, e, prefix, depth) matches Run::Done(s1, _) ==> elements_bound(
            env,
            s1,
            var,
            i + 1,
            end,
            e,
            prefix,
            depth,
        )
    }
}

/// Whether every name that a component reads is bound when it is read.
pub open spec fn all_bound(env: Env, name: Seq<char>, depth: nat) -> bool {
    let comp = env.components[name];
    let st = param_inputs(env, start(name, comp.source_line), comp.params, comp.params.len());
    body_bound(env, st, comp.body, 0, ""@, depth)
}

// ---------------------------------------------------------------------------
// Variables that are declared
// ---------------------------------------------------------------------------

/// Whether every variable of an expression is one of `d`.
pub open spec fn known(d: Set<Seq<char>>, e: IrExprV) -> bool
    decreases e,
{
    match e {
        IrExprV::Const(_) => true,
        IrExprV::Var(x) => d.contains(x),
        IrExprV::Add(l, r) => known(d, *l) && known(d, *r),
        IrExprV::Sub(l, r) => known(d, *l) && known(d, *r),
        IrExprV::Mul(l, r) => known(d, *l) && known(d, *r),
        IrExprV::Div(l, r) => known(d, *l) && known(d, *r),
    }
}

/// Whether every variable of expressions is one of `d`.
pub open spec fn known_exprs(d: Set<Seq<char>>, v: Seq<IrExprV>) -> bool {
    forall|i: int| 0 <= i < v.len() ==> known(d, #[trigger] v[i])
}

/// Whether every variable of a value is one of `d`.
pub open spec fn known_value(d: Set<Seq<char>>, v: ValueV) -> bool
    decreases v,
{
    match v {
        ValueV::Expr(e) => known(d, e),
        ValueV::Struct(f) => known_fields(d, f),
        ValueV::BitArray(b) => known_exprs(d, b),
    }
}

/// Whether every variable of fields is one of `d`.
pub open spec fn known_fields(d: Set<Seq<char>>, f: Fields) -> bool
    decreases f,
{
    forall|i: int| 0 <= i < f.len() ==> known_value(d, (#[trigger] f[i]).1)
}

/// Whether every variable of values is one of `d`.
pub open spec fn known_values(d: Set<Seq<char>>, v: Seq<ValueV>) -> bool {
    forall|i: int| 0 <= i < v.len() ==> known_value(d, #[trigger] v[i])
}

/// Whether the variables of pairs of a field and a variable are among `d`.
pub open spec fn known_results(d: Set<Seq<char>>, v: Seq<(Seq<char>, Seq<char>)>) -> bool {
    forall|i: int| 0 <= i < v.len() ==> d.contains((#[trigger] v[i]).1)
}

/// Whether every variable of a constraint is one of `d`.
pub open spec fn known_constraint(d: Set<Seq<char>>, c: ConstraintV) -> bool {
    match c {
        ConstraintV::Eq { lhs, rhs, .. } => known(d, lhs) && known(d, rhs),
        ConstraintV::IsZero { result, expr } => d.contains(result) && known(d, expr),
        ConstraintV::Call { args, outputs, .. } => known_exprs(d, args) && known_results(
            d,
            outputs,
        ),
    }
}

/// The variables that an instruction declares.
pub open spec fn names(s: SpecV) -> Set<Seq<char>> {
    Set::new(|x: Seq<char>| declared(s.all_vars(), x))
}

/// Whether every variable of a state is declared.
#[verifier::opaque]
pub open spec fn covered(st: State) -> bool {
    &&& known_fields(names(st.spec), st.bindings)
    &&& st.guard is Some ==> known(names(st.spec), st.guard->Some_0)
    &&& forall|i: int|
        0 <= i < st.spec.constraints.len() ==> known_constraint(
            names(st.spec),
            #[trigger] st.spec.constraints[i],
        )
}

/// Whether every variable of a state is declared, those of an earlier one among them.
pub open spec fn follows(st: State, s: State) -> bool {
    covered(s) && names(st.spec).subset_of(names(s.spec))
}

/// Whether a step that is done leads to such a state and gives a value of declared variables.
pub open spec fn gives(st: State, r: Run<ValueV>) -> bool {
    r matches Run::Done(s, v) ==> follows(st, s) && known_value(names(s.spec), v)
}

/// Whether a statement that is done does.
pub open spec fn stmt_gives(st: State, r: Run<Option<ValueV>>) -> bool {
    r matches Run::Done(s, v) ==> follows(st, s) && (v is Some ==> known_value(
        names(s.spec),
        v->Some_0,
    ))
}

/// Whether arguments that are done do.
pub open spec fn args_give(st: State, r: Run<Seq<ValueV>>) -> bool {
    r matches Run::Done(s, v) ==> follows(st, s) && known_values(names(s.spec), v)
}

proof fn lemma_lift(d: Set<Seq<char>>, e: Set<Seq<char>>, x: IrExprV)
    requires
        d.subset_of(e),
        known(d, x),
    ensures
        known(e, x),
    decreases x,
{
    match x {
        IrExprV::Add(l, r) => {
            lemma_lift(d, e, *l);
            lemma_lift(d, e, *r);
        },
        IrExprV::Sub(l, r) => {
            lemma_lift(d, e, *l);
            lemma_lift(d, e, *r);
        },
        IrExprV::Mul(l, r) => {
            lemma_lift(d, e, *l);
            lemma_lift(d, e, *r);
        },
        IrExprV::Div(l, r) => {
            lemma_lift(d, e, *l);
            lemma_lift(d, e, *r);
        },
        _ => {},
    }
}

proof fn lemma_lift_exprs(d: Set<Seq<char>>, e: Set<Seq<char>>, v: Seq<IrExprV>)
    requires
        d.subset_of(e),
        known_exprs(d, v),
    ensures
        known_exprs(e, v),
{
    assert forall|i: int| 0 <= i < v.len() implies known(e, #[trigger] v[i]) by {
        lemma_lift(d, e, v[i]);
    }
}

proof fn lemma_lift_value(d: Set<Seq<char>>, e: Set<Seq<char>>, v: ValueV)
    requires
        d.subset_of(e),
        known_value(d, v),
    ensures
        known_value(e, v),
    decreases v,
{
    match v {
        ValueV::Expr(x) => {
            lemma_lift(d, e, x);
        },
        ValueV::Struct(f) => {
            lemma_lift_fields(d, e, f);
        },
        ValueV::BitArray(b) => {
            lemma_lift_exprs(d, e, b);
        },
    }
}

proof fn lemma_lift_fields(d: Set<Seq<char>>, e: Set<Seq<char>>, f: Fields)
    requires
        d.subset_of(e),
        known_fields(d, f),
    ensures
        known_fields(e, f),
    decreases f,
{
    assert forall|i: int| 0 <= i < f.len() implies known_value(e, (#[trigger] f[i]).1) by {
        lemma_lift_value(d, e, f[i].1);
    }
}

proof fn lemma_lift_values(d: Set<Seq<char>>, e: Set<Seq<char>>, v: Seq<ValueV>)
    requires
        d.subset_of(e),
        known_values(d, v),
    ensures
        known_values(e, v),
{
    assert forall|i: int| 0 <= i < v.len() implies known_value(e, #[trigger] v[i]) by {
        lemma_lift_value(d, e, v[i]);
    }
}

proof fn lemma_lift_constraint(d: Set<Seq<char>>, e: Set<Seq<char>>, c: ConstraintV)
    requires
        d.subset_of(e),
        known_constraint(d, c),
    ensures
        known_constraint(e, c),
{
    match c {
        ConstraintV::Eq { lhs, rhs, .. } => {
            lemma_lift(d, e, lhs);
            lemma_lift(d, e, rhs);
        },
        ConstraintV::IsZero { expr, .. } => {
            lemma_lift(d, e, expr);
        },
        ConstraintV::Call { args, .. } => {
            lemma_lift_exprs(d, e, args);
        },
    }
}

// ---------------------------------------------------------------------------
// Changes of the state
// ---------------------------------------------------------------------------

/// More variables, other bindings and another guard leave a state closed where they are known.
proof fn lemma_more(st: State, s: State)
    requires
        covered(st),
        names(st.spec).subset_of(names(s.spec)),
        s.spec.constraints == st.spec.constraints,
        s.bindings == st.bindings || known_fields(names(s.spec), s.bindings),
        s.guard == st.guard || (s.guard is Some ==> known(names(s.spec), s.guard->Some_0)),
    ensures
        follows(st, s),
{
    reveal(covered);
    let d = names(st.spec);
    let e = names(s.spec);
    lemma_lift_fields(d, e, st.bindings);
    if st.guard is Some {
        lemma_lift(d, e, st.guard->Some_0);
    }
    assert forall|i: int| 0 <= i < s.spec.constraints.len() implies known_constraint(
        e,
        #[trigger] s.spec.constraints[i],
    ) by {
        lemma_lift_constraint(d, e, st.spec.constraints[i]);
    }
}

proof fn lemma_covered_parts(st: State)
    requires
        covered(st),
    ensures
        known_fields(names(st.spec), st.bindings),
        st.guard is Some ==> known(names(st.spec), st.guard->Some_0),
{
    reveal(covered);
}

/// A variable that is declared is one of the variables, and those before it stay.
proof fn lemma_names_declare(st: State, name: Seq<char>, t: VarType)
    ensures
        names(declare(st, name, t).spec) == names(st.spec).insert(name),
        names(declare_output(st, name, t).spec) == names(st.spec).insert(name),
        names(declare_input(st, name, t).spec) == names(st.spec).insert(name),
{
    let x = VarV { name, vtype: t };
    lemma_names_added(st.spec, SpecV { internals: st.spec.internals.push(x), ..st.spec }, x);
    lemma_names_added(st.spec, SpecV { outputs: st.spec.outputs.push(x), ..st.spec }, x);
    lemma_names_added(st.spec, SpecV { inputs: st.spec.inputs.push(x), ..st.spec }, x);
}

proof fn lemma_names_added(a: SpecV, b: SpecV, x: VarV)
    requires
        ({
            ||| b == (SpecV { internals: a.internals.push(x), ..a })
            ||| b == (SpecV { outputs: a.outputs.push(x), ..a })
            ||| b == (SpecV { inputs: a.inputs.push(x), ..a })
        }),
    ensures
        names(b) == names(a).insert(x.name),
{
    let va = a.all_vars();
    let vb = b.all_vars();
    let n = a.inputs.len();
    let m = a.inputs.len() + a.outputs.len();
    let p = if b.inputs.len() > a.inputs.len() {
        n as int
    } else if b.outputs.len() > a.outputs.len() {
        m as int
    } else {
        va.len() as int
    };
    assert(vb =~= va.insert(p, x));
    assert forall|y: Seq<char>| declared(vb, y) <==> declared(va, y) || y == x.name by {
        if declared(va, y) {
            let i = choose|i: int| 0 <= i < va.len() && (#[trigger] va[i]).name == y;
            if i < p {
                assert(vb[i].name == y);
            } else {
                assert(vb[i + 1].name == y);
            }
        }
        if declared(vb, y) {
            let i = choose|i: int| 0 <= i < vb.len() && (#[trigger] vb[i]).name == y;
            if i < p {
                assert(va[i].name == y);
            } else if i > p {
                assert(va[i - 1].name == y);
            }
        }
        assert(vb[p].name == x.name);
    }
    assert(names(b) =~= names(a).insert(x.name));
}

proof fn lemma_declare(st: State, name: Seq<char>, t: VarType)
    requires
        covered(st),
    ensures
        follows(st, declare(tick(st), name, t)),
        names(declare(tick(st), name, t).spec).contains(name),
{
    lemma_names_declare(tick(st), name, t);
    lemma_more(st, declare(tick(st), name, t));
}

proof fn lemma_emit(st: State, s: State, c: ConstraintV)
    requires
        follows(st, s),
        known_constraint(names(s.spec), c),
    ensures
        follows(st, emit(s, c)),
        names(emit(s, c).spec) == names(s.spec),
{
    reveal(covered);
    assert(emit(s, c).spec.all_vars() == s.spec.all_vars());
    assert(names(emit(s, c).spec) =~= names(s.spec));
    let cs = s.spec.constraints;
    assert forall|i: int| 0 <= i < cs.push(c).len() implies known_constraint(
        names(s.spec),
        #[trigger] cs.push(c)[i],
    ) by {
        if i < cs.len() {
            assert(known_constraint(names(s.spec), cs[i]));
        }
    }
}

proof fn lemma_equate(st: State, s: State, l: IrExprV, r: IrExprV, tag: Seq<char>)
    requires
        follows(st, s),
        known(names(s.spec), l),
        known(names(s.spec), r),
    ensures
        follows(st, equate(s, l, r, tag)),
        names(equate(s, l, r, tag).spec) == names(s.spec),
{
    lemma_covered_parts(s);
    reveal_with_fuel(known, 2);
    lemma_emit(st, s, equation(s, l, r, tag));
}

proof fn lemma_put(d: Set<Seq<char>>, f: Fields, k: Seq<char>, v: ValueV)
    requires
        known_fields(d, f),
        known_value(d, v),
    ensures
        known_fields(d, put(f, k, v)),
{
    lemma_place(firsts(f), k, 0);
    let g = put(f, k, v);
    assert forall|i: int| 0 <= i < g.len() implies known_value(d, (#[trigger] g[i]).1) by {
        if i < f.len() {
            assert(known_value(d, f[i].1));
        }
    }
}

proof fn lemma_get(d: Set<Seq<char>>, f: Fields, k: Seq<char>)
    requires
        known_fields(d, f),
    ensures
        get(f, k) is Some ==> known_value(d, get(f, k)->Some_0),
{
    lemma_place(firsts(f), k, 0);
    match place(firsts(f), k, 0) {
        Some(i) => {
            assert(known_value(d, f[i].1));
        },
        None => {},
    }
}

proof fn lemma_bind(st: State, name: Seq<char>, v: ValueV)
    requires
        covered(st),
        known_value(names(st.spec), v),
    ensures
        follows(st, bind(st, name, v)),
        bind(st, name, v).spec == st.spec,
{
    lemma_covered_parts(st);
    lemma_put(names(st.spec), st.bindings, name, v);
    lemma_more(st, bind(st, name, v));
}

proof fn lemma_halves(d: Set<Seq<char>>, low: ValueV, high: ValueV)
    requires
        known_value(d, low),
        known_value(d, high),
    ensures
        known_value(d, halves(low, high)),
{
    let f = seq![("low"@, low), ("high"@, high)];
    assert forall|i: int| 0 <= i < f.len() implies known_value(d, (#[trigger] f[i]).1) by {}
    assert(known_fields(d, f));
}

proof fn lemma_push(d: Set<Seq<char>>, v: Seq<IrExprV>, e: IrExprV)
    requires
        known_exprs(d, v),
        known(d, e),
    ensures
        known_exprs(d, v.push(e)),
{
    assert forall|i: int| 0 <= i < v.push(e).len() implies known(d, #[trigger] v.push(e)[i]) by {
        if i < v.len() {
            assert(known(d, v[i]));
        }
    }
}

proof fn lemma_bit_sum(d: Set<Seq<char>>, bits: Seq<IrExprV>)
    requires
        known_exprs(d, bits),
    ensures
        known(d, bit_sum(bits)),
    decreases bits.len(),
{
    reveal_with_fuel(known, 3);
    if bits.len() > 0 {
        assert(known(d, bits.last()));
        assert forall|i: int| 0 <= i < bits.drop_last().len() implies known(
            d,
            #[trigger] bits.drop_last()[i],
        ) by {
            assert(known(d, bits[i]));
        }
        lemma_bit_sum(d, bits.drop_last());
    }
}

// ---------------------------------------------------------------------------
// Registers and bits
// ---------------------------------------------------------------------------

proof fn lemma_scalar(d: Set<Seq<char>>, args: Seq<ValueV>, i: int)
    requires
        known_values(d, args),
    ensures
        scalar_arg(args, i) is Some ==> known(d, scalar_arg(args, i)->Some_0),
{
    if 0 <= i < args.len() {
        assert(known_value(d, args[i]));
    }
}

proof fn lemma_equal_register(
    st: State,
    args: Seq<ValueV>,
    prefix: Seq<char>,
    base: Seq<char>,
    t: VarType,
    tag: Seq<char>,
)
    requires
        covered(st),
        known_values(names(st.spec), args),
    ensures
        gives(st, equal_register(st, args, prefix, base, t, tag)),
{
    lemma_scalar(names(st.spec), args, 0);
    match scalar_arg(args, 0) {
        Some(e) => {
            let v = next_name(st, prefix, base);
            let s = declare(tick(st), v, t);
            lemma_declare(st, v, t);
            lemma_lift(names(st.spec), names(s.spec), e);
            lemma_equate(st, s, var(v), e, tag);
        },
        None => {},
    }
}

proof fn lemma_declare_bits(st: State, prefix: Seq<char>, n: nat)
    requires
        covered(st),
    ensures
        follows(st, declare_bits(st, prefix, n)),
        known_exprs(names(declare_bits(st, prefix, n).spec), bit_vars(prefix, st.counter, n)),
        declare_bits(st, prefix, n).counter == st.counter + n,
    decreases n,
{
    if n > 0 {
        let k = (n - 1) as nat;
        lemma_declare_bits(st, prefix, k);
        let s = declare_bits(st, prefix, k);
        let x = bit_name(prefix, st.counter, k);
        lemma_declare(s, x, VarType::Bit);
        let s1 = declare(tick(s), x, VarType::Bit);
        let bits = bit_vars(prefix, st.counter, n);
        lemma_lift_exprs(names(s.spec), names(s1.spec), bit_vars(prefix, st.counter, k));
        assert forall|i: int| 0 <= i < bits.len() implies known(
            names(s1.spec),
            #[trigger] bits[i],
        ) by {
            if i < k {
                assert(bits[i] == bit_vars(prefix, st.counter, k)[i]);
            }
        }
    }
}

proof fn lemma_declare_pairs(st: State, prefix: Seq<char>, n: nat)
    requires
        covered(st),
    ensures
        follows(st, declare_pairs(st, prefix, n)),
        known_exprs(names(declare_pairs(st, prefix, n).spec), x_bits(prefix, st.counter, n)),
        known_exprs(names(declare_pairs(st, prefix, n).spec), y_bits(prefix, st.counter, n)),
    decreases n,
{
    if n > 0 {
        let k = (n - 1) as nat;
        lemma_declare_pairs(st, prefix, k);
        let s = declare_pairs(st, prefix, k);
        let x = x_bit(prefix, st.counter, k);
        let y = y_bit(prefix, st.counter, k);
        lemma_declare(s, x, VarType::Bit);
        let s1 = declare(tick(s), x, VarType::Bit);
        lemma_declare(s1, y, VarType::Bit);
        let s2 = declare(tick(s1), y, VarType::Bit);
        let xs = x_bits(prefix, st.counter, n);
        let ys = y_bits(prefix, st.counter, n);
        lemma_lift_exprs(names(s.spec), names(s2.spec), x_bits(prefix, st.counter, k));
        lemma_lift_exprs(names(s.spec), names(s2.spec), y_bits(prefix, st.counter, k));
        assert forall|i: int| 0 <= i < xs.len() implies known(names(s2.spec), #[trigger] xs[i]) by {
            if i < k {
                assert(xs[i] == x_bits(prefix, st.counter, k)[i]);
            }
        }
        assert forall|i: int| 0 <= i < ys.len() implies known(names(s2.spec), #[trigger] ys[i]) by {
            if i < k {
                assert(ys[i] == y_bits(prefix, st.counter, k)[i]);
            }
        }
    }
}

proof fn lemma_and_call(st: State, args: Seq<ValueV>, prefix: Seq<char>)
    requires
        covered(st),
        known_values(names(st.spec), args),
    ensures
        gives(st, and_call(st, args, prefix)),
{
    lemma_scalar(names(st.spec), args, 0);
    lemma_scalar(names(st.spec), args, 1);
    match (scalar_arg(args, 0), scalar_arg(args, 1)) {
        (Some(x), Some(y)) => {
            let c = st.counter;
            lemma_declare_pairs(st, prefix, 16);
            let s1 = declare_pairs(st, prefix, 16);
            let xs = x_bits(prefix, c, 16);
            let ys = y_bits(prefix, c, 16);
            let rs = and_bits(prefix, c, 16);
            let d = names(s1.spec);
            lemma_lift(names(st.spec), d, x);
            lemma_lift(names(st.spec), d, y);
            lemma_bit_sum(d, xs);
            lemma_bit_sum(d, ys);
            lemma_equate(st, s1, x, bit_sum(xs), "tobits_x"@);
            let s2 = equate(s1, x, bit_sum(xs), "tobits_x"@);
            lemma_equate(st, s2, y, bit_sum(ys), "tobits_y"@);
            let s3 = equate(s2, y, bit_sum(ys), "tobits_y"@);
            let r = next_name(s3, prefix, "and16"@);
            lemma_declare(s3, r, VarType::U16);
            let s4 = declare(tick(s3), r, VarType::U16);
            let e = names(s4.spec);
            assert forall|i: int| 0 <= i < rs.len() implies known(e, #[trigger] rs[i]) by {
                reveal_with_fuel(known, 2);
                assert(known(d, xs[i]) && known(d, ys[i]));
            }
            lemma_bit_sum(e, rs);
            lemma_equate(st, s4, var(r), bit_sum(rs), "and_result"@);
        },
        _ => {},
    }
}

proof fn lemma_builtin_call(
    st: State,
    name: Seq<char>,
    args: Seq<ValueV>,
    type_args: Seq<u64>,
    prefix: Seq<char>,
)
    requires
        covered(st),
        known_values(names(st.spec), args),
    ensures
        gives(st, builtin_call(st, name, args, type_args, prefix)),
{
    let d = names(st.spec);
    lemma_scalar(d, args, 0);
    if is_halves(name) {
        if args.len() >= 2 {
            assert(known_value(d, args[0]) && known_value(d, args[1]));
            lemma_halves(d, args[0], args[1]);
        }
    } else if chosen_register(name) is Some {
        let r = chosen_register(name)->Some_0;
        lemma_declare(st, next_name(st, prefix, r.0), r.1);
    } else if name == "FakeTwitReg"@ {
        lemma_equal_register(st, args, prefix, "ftwit"@, VarType::Twit, "fake_twit_reg"@);
    } else if name == "Reg"@ {
        if args.len() > 0 {
            assert(known_value(d, args[0]));
        }
    } else if name == "U16Reg"@ {
        lemma_equal_register(st, args, prefix, "u16r"@, VarType::U16, "u16reg"@);
    } else if name == "U32Reg"@ {
        lemma_equal_register(st, args, prefix, "u32r"@, VarType::U32, "u32reg"@);
    } else if name == "IsZero"@ || name == "Isz"@ {
        match scalar_arg(args, 0) {
            Some(e) => {
                let v = next_name(st, prefix, "iz"@);
                let s = declare(tick(st), v, VarType::Bit);
                lemma_declare(st, v, VarType::Bit);
                lemma_lift(d, names(s.spec), e);
                lemma_emit(st, s, ConstraintV::IsZero { result: v, expr: e });
            },
            None => {},
        }
    } else if name == "BitwiseAndU16"@ {
        lemma_and_call(st, args, prefix);
    } else if name == "ToBits"@ {
        let n = bit_count(type_args);
        match scalar_arg(args, 0) {
            Some(e) => {
                lemma_declare_bits(st, prefix, n);
                let s = declare_bits(st, prefix, n);
                let bits = bit_vars(prefix, st.counter, n);
                lemma_lift(d, names(s.spec), e);
                lemma_bit_sum(names(s.spec), bits);
                lemma_equate(st, s, e, bit_sum(bits), "tobits_decompose"@);
            },
            None => {},
        }
    } else {
        if args.len() > 0 {
            assert(known_value(d, args[0]));
            match args[0] {
                ValueV::BitArray(bits) => {
                    lemma_bit_sum(d, bits);
                },
                _ => {},
            }
        }
    }
}

// ---------------------------------------------------------------------------
// Calls that are not expanded
// ---------------------------------------------------------------------------

/// A fresh value is made of variables that are declared.
pub proof fn lemma_fresh_value(env: Env, st: State, ty: Seq<char>, prefix: Seq<char>, depth: nat)
    requires
        covered(st),
    ensures
        gives(st, fresh_value(env, st, ty, prefix, depth)),
    decreases depth, 0int, 0int,
{
    if is_halves(ty) {
        let low = next_name(st, prefix, "ext_low"@);
        let high = next_name(tick(st), prefix, "ext_high"@);
        lemma_declare_two(st, low, high, VarType::Val);
    } else if env.components.dom().contains(ty) {
        if depth > 0 {
            let comp = env.components[ty];
            lemma_fresh_fields(
                env,
                st,
                st,
                comp,
                publics(comp.body),
                0,
                Seq::empty(),
                prefix,
                (depth - 1) as nat,
            );
        }
    } else {
        lemma_declare(st, next_name(st, prefix, "ext"@), VarType::Val);
    }
}

proof fn lemma_declare_two(st: State, low: Seq<char>, high: Seq<char>, t: VarType)
    requires
        covered(st),
    ensures
        ({
            let s = declare(declare(tick(tick(st)), low, t), high, t);
            &&& follows(st, s)
            &&& names(s.spec).contains(low)
            &&& names(s.spec).contains(high)
            &&& known_value(names(s.spec), halves(var_value(low), var_value(high)))
        }),
{
    let s = declare(declare(tick(tick(st)), low, t), high, t);
    lemma_names_declare(tick(tick(st)), low, t);
    lemma_names_declare(declare(tick(tick(st)), low, t), high, t);
    lemma_more(st, s);
    lemma_halves(names(s.spec), var_value(low), var_value(high));
}

proof fn lemma_fresh_fields(
    env: Env,
    first: State,
    st: State,
    comp: ComponentV,
    pubs: Seq<(Seq<char>, ExprV)>,
    i: int,
    acc: Fields,
    prefix: Seq<char>,
    depth: nat,
)
    requires
        follows(first, st),
        known_fields(names(st.spec), acc),
    ensures
        gives(first, fresh_fields(env, st, comp, pubs, i, acc, prefix, depth)),
    decreases depth, 1int, pubs.len() - i,
{
    if 0 <= i < pubs.len() {
        let name = pubs[i].0;
        let t = shown_type(comp, pubs[i].1);
        let nested = t is Some && (is_halves(t->Some_0) || env.components.dom().contains(
            t->Some_0,
        ));
        if nested {
            lemma_fresh_value(env, st, t->Some_0, prefix, depth);
        } else {
            lemma_declare(st, next_name(st, prefix, name), VarType::Val);
        }
        let r = if nested {
            fresh_value(env, st, t->Some_0, prefix, depth)
        } else {
            fresh_scalar(st, prefix, name)
        };
        match r {
            Run::Done(s, v) => {
                lemma_lift_fields(names(st.spec), names(s.spec), acc);
                lemma_put(names(s.spec), acc, name, v);
                lemma_fresh_fields(
                    env,
                    first,
                    s,
                    comp,
                    pubs,
                    i + 1,
                    put(acc, name, v),
                    prefix,
                    depth,
                );
            },
            _ => {},
        }
    }
}

proof fn lemma_field(d: Set<Seq<char>>, v: ValueV, name: Seq<char>)
    requires
        known_value(d, v),
    ensures
        field_of(v, name) is Some ==> known_value(d, field_of(v, name)->Some_0),
{
    match v {
        ValueV::Struct(f) => {
            lemma_get(d, f, name);
        },
        _ => {},
    }
}

proof fn lemma_flat_fields(
    d: Set<Seq<char>>,
    st: State,
    arg: ValueV,
    ty: Seq<char>,
    pubs: Seq<(Seq<char>, ExprV)>,
    i: int,
    acc: Seq<IrExprV>,
)
    requires
        known_value(d, arg),
        known_exprs(d, acc),
    ensures
        flat_fields(st, arg, ty, pubs, i, acc) matches Run::Done(s, v) ==> s == st && known_exprs(
            d,
            v,
        ),
    decreases pubs.len() - i,
{
    if 0 <= i < pubs.len() {
        lemma_field(d, arg, pubs[i].0);
        match field_of(arg, pubs[i].0) {
            Some(ValueV::Expr(e)) => {
                lemma_push(d, acc, e);
                lemma_flat_fields(d, st, arg, ty, pubs, i + 1, acc.push(e));
            },
            _ => {},
        }
    }
}

proof fn lemma_flat_args(
    d: Set<Seq<char>>,
    env: Env,
    st: State,
    name: Seq<char>,
    params: Seq<(Seq<char>, Seq<char>)>,
    args: Seq<ValueV>,
    i: int,
    acc: Seq<IrExprV>,
)
    requires
        known_values(d, args),
        known_exprs(d, acc),
    ensures
        flat_args(env, st, name, params, args, i, acc) matches Run::Done(s, v) ==> s == st
            && known_exprs(d, v),
    decreases params.len() - i,
{
    if 0 <= i < params.len() && i < args.len() {
        let ty = params[i].1;
        assert(known_value(d, args[i]));
        lemma_field(d, args[i], "low"@);
        lemma_field(d, args[i], "high"@);
        if is_halves(ty) {
            match (field_of(args[i], "low"@), field_of(args[i], "high"@)) {
                (Some(ValueV::Expr(low)), Some(ValueV::Expr(high))) => {
                    lemma_push(d, acc, low);
                    lemma_push(d, acc.push(low), high);
                },
                _ => {},
            }
        } else if env.components.dom().contains(ty) {
            lemma_flat_fields(d, st, args[i], ty, publics(env.components[ty].body), 0, acc);
        } else {
            match args[i] {
                ValueV::Expr(e) => {
                    lemma_push(d, acc, e);
                },
                _ => {},
            }
        }
        match flat_arg(env, st, args[i], ty, acc) {
            Run::Done(s, a) => {
                lemma_flat_args(d, env, s, name, params, args, i + 1, a);
            },
            _ => {},
        }
    }
}

proof fn lemma_results_push(
    d: Set<Seq<char>>,
    e: Set<Seq<char>>,
    outs: Seq<(Seq<char>, Seq<char>)>,
    x: (Seq<char>, Seq<char>),
)
    requires
        d.subset_of(e),
        known_results(d, outs),
        e.contains(x.1),
    ensures
        known_results(e, outs.push(x)),
{
    assert forall|i: int| 0 <= i < outs.push(x).len() implies e.contains(
        (#[trigger] outs.push(x)[i]).1,
    ) by {
        if i < outs.len() {
            assert(d.contains(outs[i].1));
        }
    }
}

proof fn lemma_abstract_results(
    first: State,
    st: State,
    name: Seq<char>,
    pubs: Seq<(Seq<char>, ExprV)>,
    i: int,
    acc: Fields,
    outs: Seq<(Seq<char>, Seq<char>)>,
    prefix: Seq<char>,
)
    requires
        follows(first, st),
        known_fields(names(st.spec), acc),
        known_results(names(st.spec), outs),
    ensures
        abstract_results(st, name, pubs, i, acc, outs, prefix) matches Run::Done(s, (f, o))
            ==> follows(first, s) && known_fields(names(s.spec), f) && known_results(
            names(s.spec),
            o,
        ),
    decreases pubs.len() - i,
{
    if 0 <= i < pubs.len() {
        let f = pubs[i].0;
        let base = unicode_lowercase(name) + "_"@ + f;
        let d = names(st.spec);
        if makes_halves(pubs[i].1) {
            if room(st, 2) {
                let low = next_name(st, prefix, base + "_low"@);
                let high = next_name(tick(st), prefix, base + "_high"@);
                let s = declare(declare(tick(tick(st)), low, VarType::U16), high, VarType::U16);
                let e = names(s.spec);
                let v = halves(var_value(low), var_value(high));
                lemma_declare_two(st, low, high, VarType::U16);
                lemma_lift_fields(d, e, acc);
                lemma_put(e, acc, f, v);
                lemma_results_push(d, e, outs, (f + ".low"@, low));
                lemma_results_push(e, e, outs.push((f + ".low"@, low)), (f + ".high"@, high));
                lemma_abstract_results(
                    first,
                    s,
                    name,
                    pubs,
                    i + 1,
                    put(acc, f, v),
                    outs.push((f + ".low"@, low)).push((f + ".high"@, high)),
                    prefix,
                );
            }
        } else if room(st, 1) {
            let v = next_name(st, prefix, base);
            let s = declare(tick(st), v, VarType::Val);
            let e = names(s.spec);
            lemma_declare(st, v, VarType::Val);
            lemma_lift_fields(d, e, acc);
            lemma_put(e, acc, f, var_value(v));
            lemma_results_push(d, e, outs, (f, v));
            lemma_abstract_results(
                first,
                s,
                name,
                pubs,
                i + 1,
                put(acc, f, var_value(v)),
                outs.push((f, v)),
                prefix,
            );
        }
    }
}

proof fn lemma_abstract_call(
    env: Env,
    st: State,
    comp: ComponentV,
    name: Seq<char>,
    args: Seq<ValueV>,
    prefix: Seq<char>,
)
    requires
        covered(st),
        known_values(names(st.spec), args),
    ensures
        gives(st, abstract_call(env, st, comp, name, args, prefix)),
{
    let none = Seq::<IrExprV>::empty();
    lemma_flat_args(names(st.spec), env, st, name, comp.params, args, 0, none);
    match flat_args(env, st, name, comp.params, args, 0, none) {
        Run::Done(s, flat) => {
            let pubs = publics(comp.body);
            let acc = Seq::<(Seq<char>, ValueV)>::empty();
            let outs = Seq::<(Seq<char>, Seq<char>)>::empty();
            lemma_abstract_results(st, st, name, pubs, 0, acc, outs, prefix);
            match abstract_results(s, name, pubs, 0, acc, outs, prefix) {
                Run::Done(s2, (fields, outputs)) => {
                    lemma_lift_exprs(names(st.spec), names(s2.spec), flat);
                    lemma_emit(
                        st,
                        s2,
                        ConstraintV::Call { component: name, args: flat, outputs },
                    );
                },
                _ => {},
            }
        },
        _ => {},
    }
}

// ---------------------------------------------------------------------------
// Expressions and statements
// ---------------------------------------------------------------------------

proof fn lemma_bind_args(
    st: State,
    params: Seq<(Seq<char>, Seq<char>)>,
    args: Seq<ValueV>,
    n: nat,
)
    requires
        covered(st),
        known_values(names(st.spec), args),
    ensures
        follows(st, bind_args(st, params, args, n)),
        bind_args(st, params, args, n).spec == st.spec,
    decreases n,
{
    if 0 < n <= params.len() {
        lemma_bind_args(st, params, args, (n - 1) as nat);
        let s = bind_args(st, params, args, (n - 1) as nat);
        if n <= args.len() {
            assert(known_value(names(st.spec), args[n - 1]));
            lemma_bind(s, params[n - 1].0, args[n - 1]);
        }
    }
}

proof fn lemma_public_fields(
    d: Set<Seq<char>>,
    bindings: Fields,
    pubs: Seq<(Seq<char>, ExprV)>,
    n: nat,
)
    requires
        known_fields(d, bindings),
    ensures
        known_fields(d, public_fields(bindings, pubs, n)),
    decreases n,
{
    if 0 < n <= pubs.len() {
        lemma_public_fields(d, bindings, pubs, (n - 1) as nat);
        lemma_get(d, bindings, pubs[n - 1].0);
        match get(bindings, pubs[n - 1].0) {
            Some(v) => {
                lemma_put(
                    d,
                    public_fields(bindings, pubs, (n - 1) as nat),
                    pubs[n - 1].0,
                    v,
                );
            },
            None => {},
        }
    }
}

proof fn lemma_with_missing(d: Set<Seq<char>>, f: Fields, more: Fields, n: nat)
    requires
        known_fields(d, f),
        known_fields(d, more),
    ensures
        known_fields(d, with_missing(f, more, n)),
    decreases n,
{
    if 0 < n <= more.len() {
        lemma_with_missing(d, f, more, (n - 1) as nat);
        assert(known_value(d, more[n - 1].1));
        lemma_put(
            d,
            with_missing(f, more, (n - 1) as nat),
            more[n - 1].0,
            more[n - 1].1,
        );
    }
}

proof fn lemma_call_value(d: Set<Seq<char>>, result: Option<ValueV>, public: Fields)
    requires
        result is Some ==> known_value(d, result->Some_0),
        known_fields(d, public),
    ensures
        known_value(d, call_value(result, public)),
{
    match result {
        Some(ValueV::Struct(f)) => {
            assert(known_fields(d, f));
            lemma_with_missing(d, f, public, public.len());
        },
        Some(v) => {
            lemma_put(d, public, "_value"@, v);
        },
        None => {},
    }
}

proof fn lemma_bound_register(
    st: State,
    name: Seq<char>,
    v: ValueV,
    t: VarType,
    prefix: Seq<char>,
)
    requires
        covered(st),
        known_value(names(st.spec), v),
    ensures
        gives(st, bound_register(st, name, v, t, prefix)),
{
    match v {
        ValueV::Expr(e) => {
            let n = next_name(st, prefix, name);
            let s = declare(tick(st), n, t);
            lemma_declare(st, n, t);
            lemma_lift(names(st.spec), names(s.spec), e);
            lemma_equate(st, s, var(n), e, "reg_"@ + name);
        },
        _ => {},
    }
}

proof fn lemma_bound_value(
    st: State,
    name: Seq<char>,
    rhs: ExprV,
    v: ValueV,
    prefix: Seq<char>,
)
    requires
        covered(st),
        known_value(names(st.spec), v),
    ensures
        gives(st, bound_value(st, name, rhs, v, prefix)),
{
    lemma_bound_register(st, name, v, VarType::U16, prefix);
    lemma_bound_register(st, name, v, VarType::Val, prefix);
}

/// Outputs of known variables.
spec fn known_outputs(d: Set<Seq<char>>, outs: Seq<Output>) -> bool {
    forall|i: int| 0 <= i < outs.len() ==> known(d, (#[trigger] outs[i]).expr)
}

proof fn lemma_outputs_of(d: Set<Seq<char>>, v: ValueV, name: Seq<char>)
    requires
        known_value(d, v),
    ensures
        known_outputs(d, outputs_of(v, name)),
    decreases v,
{
    match v {
        ValueV::Struct(f) => {
            lemma_outputs_of_fields(d, f, f.len(), name);
        },
        _ => {},
    }
}

proof fn lemma_outputs_of_fields(d: Set<Seq<char>>, f: Fields, n: nat, name: Seq<char>)
    requires
        known_fields(d, f),
        n <= f.len(),
    ensures
        known_outputs(d, outputs_of_fields(f, n, name)),
    decreases f, n,
{
    if n > 0 {
        lemma_outputs_of_fields(d, f, (n - 1) as nat, name);
        let full = name + "."@ + f[n - 1].0;
        assert(known_value(d, f[n - 1].1));
        match f[n - 1].1 {
            ValueV::Expr(e) => {},
            _ => {
                lemma_outputs_of(d, f[n - 1].1, full);
            },
        }
        let a = outputs_of_fields(f, (n - 1) as nat, name);
        let b = match f[n - 1].1 {
            ValueV::Expr(e) => seq![Output { name: full, vtype: VarType::U16, expr: e }],
            _ => outputs_of(f[n - 1].1, full),
        };
        assert forall|i: int| 0 <= i < (a + b).len() implies known(
            d,
            (#[trigger] (a + b)[i]).expr,
        ) by {
            if i < a.len() {
                assert((a + b)[i] == a[i]);
            } else {
                assert((a + b)[i] == b[i - a.len()]);
            }
        }
    }
}

proof fn lemma_add_outputs(st: State, outs: Seq<Output>)
    requires
        covered(st),
        known_outputs(names(st.spec), outs),
    ensures
        follows(st, add_outputs(st, outs)),
{
    reveal(covered);
    let s = add_outputs(st, outs);
    let d = names(st.spec);
    let e = names(s.spec);
    let vs = st.spec.all_vars();
    let ws = s.spec.all_vars();
    let n = st.spec.inputs.len() + st.spec.outputs.len();
    assert forall|x: Seq<char>| declared(vs, x) implies declared(ws, x) by {
        let i = choose|i: int| 0 <= i < vs.len() && (#[trigger] vs[i]).name == x;
        if i < n {
            assert(ws[i].name == x);
        } else {
            assert(ws[i + outs.len()].name == x);
        }
    }
    assert(d.subset_of(e));
    lemma_lift_fields(d, e, st.bindings);
    if st.guard is Some {
        lemma_lift(d, e, st.guard->Some_0);
    }
    let cs = st.spec.constraints;
    assert forall|i: int| 0 <= i < s.spec.constraints.len() implies known_constraint(
        e,
        #[trigger] s.spec.constraints[i],
    ) by {
        if i < cs.len() {
            assert(s.spec.constraints[i] == cs[i]);
            lemma_lift_constraint(d, e, cs[i]);
        } else {
            let o = outs[i - cs.len()];
            assert(known(d, o.expr));
            lemma_lift(d, e, o.expr);
            assert(ws[n + (i - cs.len())].name == o.name);
            assert(e.contains(o.name));
            reveal_with_fuel(known, 2);
        }
    }
}

proof fn lemma_bind_value(
    st: State,
    is_public: bool,
    name: Seq<char>,
    rhs: ExprV,
    v: ValueV,
    prefix: Seq<char>,
)
    requires
        covered(st),
        known_value(names(st.spec), v),
    ensures
        stmt_gives(st, bind_value(st, is_public, name, rhs, v, prefix)),
{
    lemma_bind(st, name, v);
    if is_public {
        match v {
            ValueV::Expr(e) => {
                let n = next_name(st, prefix, name);
                let t = guessed_type(rhs);
                let s = if prefix.len() == 0 {
                    declare_output(tick(st), n, t)
                } else {
                    declare(tick(st), n, t)
                };
                lemma_names_declare(tick(st), n, t);
                lemma_more(st, s);
                lemma_lift(names(st.spec), names(s.spec), e);
                lemma_equate(st, s, var(n), e, "public_"@ + name);
                let s1 = equate(s, var(n), e, "public_"@ + name);
                lemma_bind(s1, name, var_value(n));
            },
            ValueV::Struct(f) => {
                lemma_outputs_of(names(st.spec), v, name);
                lemma_add_outputs(st, outputs_of(v, name));
                let s = add_outputs(st, outputs_of(v, name));
                lemma_lift_value(names(st.spec), names(s.spec), v);
                lemma_bind(s, name, v);
            },
            ValueV::BitArray(_) => {},
        }
    }
}

proof fn lemma_operation(st: State, op: Op, l: IrExprV, r: IrExprV, prefix: Seq<char>)
    requires
        covered(st),
        known(names(st.spec), l),
        known(names(st.spec), r),
    ensures
        gives(st, operation(st, op, l, r, prefix)),
{
    reveal_with_fuel(known, 2);
    if op == Op::Div {
        let q = next_name(st, prefix, "div"@);
        let s = declare(tick(st), q, VarType::Val);
        lemma_declare(st, q, VarType::Val);
        lemma_lift(names(st.spec), names(s.spec), l);
        lemma_lift(names(st.spec), names(s.spec), r);
        lemma_equate(st, s, times(var(q), r), l, "exact_div"@);
    }
}

/// A call in which every name is bound gives a value of variables that are declared.
pub proof fn lemma_call(
    env: Env,
    st: State,
    name: Seq<char>,
    args: Seq<ValueV>,
    type_args: Seq<u64>,
    prefix: Seq<char>,
    depth: nat,
)
    requires
        covered(st),
        known_values(names(st.spec), args),
        call_bound(env, st, name, args, prefix, depth),
    ensures
        gives(st, call(env, st, name, args, type_args, prefix, depth)),
    decreases 3 * depth + 2, args, 0int, 0int,
{
    reveal(call);
    reveal(body);
    reveal(call_bound);
    reveal(body_bound);
    if is_builtin(name) {
        lemma_builtin_call(st, name, args, type_args, prefix);
    } else if env.externs.dom().contains(name) {
        lemma_fresh_value(env, st, env.externs[name], prefix, depth);
    } else if env.components.dom().contains(name) {
        let comp = env.components[name];
        if env.abstracts.contains(name) {
            lemma_abstract_call(env, st, comp, name, args, prefix);
        } else {
            let inner = bind_args(st, comp.params, args, comp.params.len());
            let p = inner_prefix(prefix, name);
            lemma_bind_args(st, comp.params, args, comp.params.len());
            lemma_body(env, inner, inner, comp.body, 0, None, p, depth);
            match body(env, inner, comp.body, 0, None, p, depth) {
                Run::Done(s, result) => {
                    let pubs = publics(comp.body);
                    let d = names(s.spec);
                    lemma_covered_parts(s);
                    lemma_public_fields(d, s.bindings, pubs, pubs.len());
                    lemma_call_value(d, result, public_fields(s.bindings, pubs, pubs.len()));
                    let back = State { bindings: st.bindings, ..s };
                    lemma_covered_parts(st);
                    lemma_lift_fields(names(st.spec), d, st.bindings);
                    lemma_more(s, back);
                },
                _ => {},
            }
        }
    }
}

proof fn lemma_body(
    env: Env,
    first: State,
    st: State,
    stmts: Seq<StmtV>,
    i: int,
    last: Option<ValueV>,
    prefix: Seq<char>,
    depth: nat,
)
    requires
        follows(first, st),
        last is Some ==> known_value(names(st.spec), last->Some_0),
        body_bound(env, st, stmts, i, prefix, depth),
    ensures
        stmt_gives(first, body(env, st, stmts, i, last, prefix, depth)),
    decreases 3 * depth + 1, stmts, 0int, stmts.len() - i,
{
    reveal(body);
    reveal(stmt);
    reveal(body_bound);
    reveal(stmt_bound);
    if 0 <= i < stmts.len() {
        lemma_stmt(env, st, stmts[i], prefix, depth);
        match stmt(env, st, stmts[i], prefix, depth) {
            Run::Done(s, v) => {
                lemma_body(env, first, s, stmts, i + 1, v, prefix, depth);
            },
            _ => {},
        }
    }
}

proof fn lemma_stmt(env: Env, st: State, s: StmtV, prefix: Seq<char>, depth: nat)
    requires
        covered(st),
        stmt_bound(env, st, s, prefix, depth),
    ensures
        stmt_gives(st, stmt(env, st, s, prefix, depth)),
    decreases 3 * depth + 1, s, 1int, 0int,
{
    reveal(stmt);
    reveal(expr);
    reveal(mux);
    reveal(stmt_bound);
    reveal(expr_bound);
    reveal(mux_bound);
    match s {
        StmtV::Binding { is_public, name, value } => {
            lemma_expr(env, st, value, prefix, depth);
            match expr(env, st, value, prefix, depth) {
                Run::Done(s1, v) => {
                    lemma_bound_value(s1, name, value, v, prefix);
                    match bound_value(s1, name, value, v, prefix) {
                        Run::Done(s2, w) => {
                            lemma_bind_value(s2, is_public, name, value, w, prefix);
                        },
                        _ => {},
                    }
                },
                _ => {},
            }
        },
        StmtV::Constraint { lhs, rhs } => {
            lemma_expr(env, st, lhs, prefix, depth);
            match expr(env, st, lhs, prefix, depth) {
                Run::Done(s1, ValueV::Expr(l)) => {
                    lemma_expr(env, s1, rhs, prefix, depth);
                    match expr(env, s1, rhs, prefix, depth) {
                        Run::Done(s2, ValueV::Expr(r)) => {
                            lemma_lift(names(s1.spec), names(s2.spec), l);
                            lemma_equate(st, s2, l, r, "constraint"@);
                        },
                        _ => {},
                    }
                },
                _ => {},
            }
        },
        StmtV::Mux { .. } => {
            lemma_covered_parts(st);
            lemma_mux(env, st, st, s, 0, st.guard, prefix, depth);
        },
        StmtV::ExprStmt(e) => {
            lemma_expr(env, st, e, prefix, depth);
        },
    }
}

proof fn lemma_mux(
    env: Env,
    first: State,
    st: State,
    s: StmtV,
    i: int,
    outer: Option<IrExprV>,
    prefix: Seq<char>,
    depth: nat,
)
    requires
        follows(first, st),
        outer is Some ==> known(names(st.spec), outer->Some_0),
        mux_bound(env, st, s, i, outer, prefix, depth),
    ensures
        stmt_gives(first, mux(env, st, s, i, outer, prefix, depth)),
    decreases 3 * depth + 1, s, 0int, s->guards.len() - i,
{
    reveal(mux);
    reveal(expr);
    reveal(body);
    reveal(mux_bound);
    reveal(expr_bound);
    reveal(body_bound);
    match s {
        StmtV::Mux { guards, branches } => {
            if 0 <= i < guards.len() && i < branches.len() {
                lemma_expr(env, st, guards[i], prefix, depth);
                match expr(env, st, guards[i], prefix, depth) {
                    Run::Done(s1, ValueV::Expr(g)) => {
                        let inner = Some(inner_guard(outer, g));
                        let s2 = State { guard: inner, ..s1 };
                        if outer is Some {
                            lemma_lift(names(st.spec), names(s1.spec), outer->Some_0);
                        }
                        reveal_with_fuel(known, 2);
                        lemma_more(s1, s2);
                        lemma_body(env, s2, s2, branches[i], 0, None, prefix, depth);
                        match body(env, s2, branches[i], 0, None, prefix, depth) {
                            Run::Done(s3, v) => {
                                let s4 = State { guard: outer, ..s3 };
                                if outer is Some {
                                    lemma_lift(names(st.spec), names(s3.spec), outer->Some_0);
                                }
                                lemma_more(s3, s4);
                                lemma_mux(env, first, s4, s, i + 1, outer, prefix, depth);
                            },
                            _ => {},
                        }
                    },
                    _ => {},
                }
            }
        },
        _ => {},
    }
}

proof fn lemma_expr(env: Env, st: State, x: ExprV, prefix: Seq<char>, depth: nat)
    requires
        covered(st),
        expr_bound(env, st, x, prefix, depth),
    ensures
        gives(st, expr(env, st, x, prefix, depth)),
    decreases 3 * depth, x, 1int, 0int,
{
    reveal(expr);
    reveal(call);
    reveal(arg_values);
    reveal(elements);
    reveal(expr_bound);
    reveal(call_bound);
    reveal(args_bound);
    reveal(elements_bound);
    match x {
        ExprV::IntLit(_) => {},
        ExprV::Ident(name) => {
            lemma_covered_parts(st);
            lemma_get(names(st.spec), st.bindings, name);
        },
        ExprV::Field { object, field } => {
            lemma_expr(env, st, *object, prefix, depth);
            match expr(env, st, *object, prefix, depth) {
                Run::Done(s, v) => {
                    lemma_field(names(s.spec), v, field);
                    lemma_covered_parts(s);
                    match *object {
                        ExprV::Ident(o) => {
                            lemma_get(names(s.spec), s.bindings, o + "."@ + field);
                        },
                        _ => {},
                    }
                },
                _ => {},
            }
        },
        ExprV::BinOp { op, lhs, rhs } => {
            lemma_expr(env, st, *lhs, prefix, depth);
            match expr(env, st, *lhs, prefix, depth) {
                Run::Done(s1, ValueV::Expr(l)) => {
                    lemma_expr(env, s1, *rhs, prefix, depth);
                    match expr(env, s1, *rhs, prefix, depth) {
                        Run::Done(s2, ValueV::Expr(r)) => {
                            lemma_lift(names(s1.spec), names(s2.spec), l);
                            lemma_operation(s2, op, l, r, prefix);
                        },
                        _ => {},
                    }
                },
                _ => {},
            }
        },
        ExprV::Call { name, type_args, args } => {
            lemma_arg_values(env, st, st, args, 0, Seq::empty(), prefix, depth);
            match arg_values(env, st, args, 0, Seq::empty(), prefix, depth) {
                Run::Done(s, vs) => {
                    if depth > 0 {
                        lemma_call(env, s, name, vs, type_args, prefix, (depth - 1) as nat);
                    }
                },
                _ => {},
            }
        },
        ExprV::For { var, start, end, body } => {
            lemma_elements(
                env,
                st,
                st,
                var,
                start as int,
                end as int,
                *body,
                Seq::empty(),
                prefix,
                depth,
            );
        },
        ExprV::Index { object, index } => {
            lemma_expr(env, st, *object, prefix, depth);
            match expr(env, st, *object, prefix, depth) {
                Run::Done(s1, v) => {
                    lemma_expr(env, s1, *index, prefix, depth);
                    match expr(env, s1, *index, prefix, depth) {
                        Run::Done(s2, _) => {
                            lemma_lift_value(names(s1.spec), names(s2.spec), v);
                        },
                        _ => {},
                    }
                },
                _ => {},
            }
        },
    }
}

proof fn lemma_arg_values(
    env: Env,
    first: State,
    st: State,
    args: Seq<ExprV>,
    i: int,
    acc: Seq<ValueV>,
    prefix: Seq<char>,
    depth: nat,
)
    requires
        follows(first, st),
        known_values(names(st.spec), acc),
        args_bound(env, st, args, i, prefix, depth),
    ensures
        args_give(first, arg_values(env, st, args, i, acc, prefix, depth)),
    decreases 3 * depth, args, 0int, args.len() - i,
{
    reveal(arg_values);
    reveal(expr);
    reveal(args_bound);
    reveal(expr_bound);
    if 0 <= i < args.len() {
        lemma_expr(env, st, args[i], prefix, depth);
        match expr(env, st, args[i], prefix, depth) {
            Run::Done(s, v) => {
                let d = names(s.spec);
                lemma_lift_values(names(st.spec), d, acc);
                assert forall|j: int| 0 <= j < acc.push(v).len() implies known_value(
                    d,
                    #[trigger] acc.push(v)[j],
                ) by {
                    if j < acc.len() {
                        assert(known_value(d, acc[j]));
                    }
                }
                lemma_arg_values(env, first, s, args, i + 1, acc.push(v), prefix, depth);
            },
            _ => {},
        }
    }
}

proof fn lemma_elements(
    env: Env,
    first: State,
    st: State,
    var: Seq<char>,
    i: int,
    end: int,
    x: ExprV,
    acc: Seq<IrExprV>,
    prefix: Seq<char>,
    depth: nat,
)
    requires
        follows(first, st),
        known_exprs(names(st.spec), acc),
        elements_bound(env, st, var, i, end, x, prefix, depth),
    ensures
        gives(first, elements(env, st, var, i, end, x, acc, prefix, depth)),
    decreases 3 * depth, x, 2int, end - i,
{
    reveal(elements);
    reveal(expr);
    reveal(elements_bound);
    reveal(expr_bound);
    if i < end {
        let n = ValueV::Expr(IrExprV::Const((i as u64) as i64));
        let s = bind(st, var, n);
        lemma_bind(st, var, n);
        lemma_expr(env, s, x, prefix, depth);
        match expr(env, s, x, prefix, depth) {
            Run::Done(s1, ValueV::Expr(v)) => {
                lemma_lift_exprs(names(st.spec), names(s1.spec), acc);
                lemma_push(names(s1.spec), acc, v);
                lemma_elements(env, first, s1, var, i + 1, end, x, acc.push(v), prefix, depth);
            },
            _ => {},
        }
    }
}

// ---------------------------------------------------------------------------
// Components
// ---------------------------------------------------------------------------

proof fn lemma_declare_inputs(
    st: State,
    name: Seq<char>,
    pubs: Seq<(Seq<char>, ExprV)>,
    n: nat,
)
    requires
        covered(st),
    ensures
        follows(st, declare_inputs(st, name, pubs, n)),
        known_fields(
            names(declare_inputs(st, name, pubs, n).spec),
            input_fields(name, pubs, n),
        ),
    decreases n,
{
    if 0 < n <= pubs.len() {
        let k = (n - 1) as nat;
        lemma_declare_inputs(st, name, pubs, k);
        let s = declare_inputs(st, name, pubs, k);
        let full = name + "."@ + pubs[n - 1].0;
        let s1 = declare_input(s, full, VarType::Val);
        lemma_names_declare(s, full, VarType::Val);
        lemma_more(s, s1);
        lemma_lift_fields(names(s.spec), names(s1.spec), input_fields(name, pubs, k));
        lemma_put(
            names(s1.spec),
            input_fields(name, pubs, k),
            pubs[n - 1].0,
            var_value(full),
        );
    }
}

proof fn lemma_param_inputs(
    env: Env,
    st: State,
    params: Seq<(Seq<char>, Seq<char>)>,
    n: nat,
)
    requires
        covered(st),
    ensures
        covered(param_inputs(env, st, params, n)),
    decreases n,
{
    if 0 < n <= params.len() {
        lemma_param_inputs(env, st, params, (n - 1) as nat);
        let s = param_inputs(env, st, params, (n - 1) as nat);
        let name = params[n - 1].0;
        let ty = params[n - 1].1;
        if is_halves(ty) {
            let low = name + ".low"@;
            let high = name + ".high"@;
            let s1 = declare_input(s, low, VarType::U16);
            let s2 = declare_input(s1, high, VarType::U16);
            lemma_names_declare(s, low, VarType::U16);
            lemma_names_declare(s1, high, VarType::U16);
            lemma_more(s, s2);
            lemma_halves(names(s2.spec), var_value(low), var_value(high));
            lemma_bind(s2, name, halves(var_value(low), var_value(high)));
        } else if env.components.dom().contains(ty) && publics(env.components[ty].body).len() > 0 {
            let pubs = publics(env.components[ty].body);
            lemma_declare_inputs(s, name, pubs, pubs.len());
            lemma_bind(
                declare_inputs(s, name, pubs, pubs.len()),
                name,
                ValueV::Struct(input_fields(name, pubs, pubs.len())),
            );
        } else {
            let t = if ty == "U32"@ && !env.components.dom().contains(ty) {
                VarType::U32
            } else {
                VarType::Val
            };
            let s1 = declare_input(s, name, t);
            lemma_names_declare(s, name, t);
            lemma_more(s, s1);
            lemma_bind(s1, name, var_value(name));
        }
    }
}

/// Where every name that a component reads is bound when it is read, every variable in the
/// constraints of its instruction is declared: as an input, an output or otherwise.
pub proof fn lemma_variables_are_declared(env: Env, name: Seq<char>, depth: nat, s: SpecV)
    requires
        lowered(env, name, depth) == Lowered::Done(s),
        all_bound(env, name, depth),
    ensures
        forall|i: int|
            0 <= i < s.constraints.len() ==> known_constraint(
                names(s),
                #[trigger] s.constraints[i],
            ),
{
    let comp = env.components[name];
    let s0 = start(name, comp.source_line);
    assert(covered(s0)) by {
        reveal(covered);
    }
    let st = param_inputs(env, s0, comp.params, comp.params.len());
    lemma_param_inputs(env, s0, comp.params, comp.params.len());
    lemma_body(env, st, st, comp.body, 0, None, ""@, depth);
    reveal(covered);
    match body(env, st, comp.body, 0, None, ""@, depth) {
        Run::Done(t, Some(v)) => {
            lemma_outputs_of(names(t.spec), v, "result"@);
            lemma_add_outputs(t, outputs_of(v, "result"@));
        },
        _ => {},
    }
}

} // verus!
