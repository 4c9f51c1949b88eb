//! What components give: outputs, results of calls that are not expanded, and branches.

use vstd::prelude::*;
use crate::ir::{max_value, IrExprV, SpecV, VarType, VarV};
use crate::ir::rules::{
    abstract_call, abstract_results, add_outputs, bind_value, body, declare, expr, flat_arg,
    flat_args, flat_fields, fresh_name, guessed_type, inner_guard, lowered, makes_halves, mux,
    next_name, outputs_of, outputs_of_fields, param_inputs, publics, stmt, tick, Env, Lowered,
    Output, Run, State,
};
use crate::ir::value::{field_of, get, halves, put, Fields, ValueV};
use crate::laws::bindings::{lemma_put, names_differ};
use crate::laws::determinism::{value, Numbers};
use crate::laws::evaluation::{lemma_halves, lemma_register_names, lemma_says_equal, says_equal};
use crate::parser::ast::{ComponentV, ExprV, StmtV};
use crate::text::unicode_lowercase;

verus! {

// ---------------------------------------------------------------------------
// Outputs
// ---------------------------------------------------------------------------

/// The outputs of a value. A scalar is one output of its name. The outputs of a structure are those
/// of its fields, in their order, a field `f` of `p` being `p.f`, of 16 bits where it is a scalar.
/// An array gives none.
pub proof fn lemma_outputs(
    f: Fields,
    g: Fields,
    k: Seq<char>,
    v: ValueV,
    e: IrExprV,
    b: Seq<IrExprV>,
    name: Seq<char>,
)
    ensures
        outputs_of(ValueV::Expr(e), name) == seq![Output { name, vtype: VarType::Val, expr: e }],
        outputs_of(ValueV::BitArray(b), name) == Seq::<Output>::empty(),
        outputs_of(ValueV::Struct(f + g), name) == outputs_of(ValueV::Struct(f), name) + outputs_of(
            ValueV::Struct(g),
            name,
        ),
        outputs_of(ValueV::Struct(seq![(k, ValueV::Expr(e))]), name) == seq![
            Output { name: name + "."@ + k, vtype: VarType::U16, expr: e },
        ],
        !(v is Expr) ==> outputs_of(ValueV::Struct(seq![(k, v)]), name) == outputs_of(
            v,
            name + "."@ + k,
        ),
{
    lemma_outputs_behind(f, g, g.len(), name);
    lemma_outputs_of_one(k, ValueV::Expr(e), name);
    lemma_outputs_of_one(k, v, name);
}

proof fn lemma_outputs_of_one(k: Seq<char>, v: ValueV, name: Seq<char>)
    ensures
        outputs_of(ValueV::Struct(seq![(k, v)]), name) == (match v {
            ValueV::Expr(e) => seq![
                Output { name: name + "."@ + k, vtype: VarType::U16, expr: e },
            ],
            _ => outputs_of(v, name + "."@ + k),
        }),
{
    let f = seq![(k, v)];
    assert(f[0] == (k, v));
    assert(outputs_of_fields(f, 0, name) == Seq::<Output>::empty());
    let last = match v {
        ValueV::Expr(e) => seq![Output { name: name + "."@ + k, vtype: VarType::U16, expr: e }],
        _ => outputs_of(v, name + "."@ + k),
    };
    assert(outputs_of_fields(f, 1, name) == outputs_of_fields(f, 0, name) + last);
    assert(Seq::<Output>::empty() + last =~= last);
}

proof fn lemma_outputs_behind(f: Fields, g: Fields, n: nat, name: Seq<char>)
    requires
        n <= g.len(),
    ensures
        outputs_of_fields(f + g, f.len() + n, name) == outputs_of_fields(f, f.len(), name)
            + outputs_of_fields(g, n, name),
    decreases n,
{
    if n == 0 {
        lemma_outputs_of_start(f, g, f.len(), name);
        assert(outputs_of_fields(g, 0, name) == Seq::<Output>::empty());
        assert(outputs_of_fields(f, f.len(), name) + Seq::<Output>::empty() =~= outputs_of_fields(
            f,
            f.len(),
            name,
        ));
    } else {
        lemma_outputs_behind(f, g, (n - 1) as nat, name);
        let m = f.len() + n;
        assert((f + g)[m - 1] == g[n - 1]);
        let full = name + "."@ + g[n - 1].0;
        let last = match g[n - 1].1 {
            ValueV::Expr(e) => seq![Output { name: full, vtype: VarType::U16, expr: e }],
            _ => outputs_of(g[n - 1].1, full),
        };
        assert(outputs_of_fields(f + g, m, name) == outputs_of_fields(f + g, (m - 1) as nat, name)
            + last);
        assert(outputs_of_fields(g, n, name) == outputs_of_fields(g, (n - 1) as nat, name) + last);
        assert(outputs_of_fields(f, f.len(), name) + outputs_of_fields(g, (n - 1) as nat, name)
            + last =~= outputs_of_fields(f, f.len(), name) + (outputs_of_fields(
            g,
            (n - 1) as nat,
            name,
        ) + last));
    }
}

proof fn lemma_outputs_of_start(f: Fields, g: Fields, n: nat, name: Seq<char>)
    requires
        n <= f.len(),
    ensures
        outputs_of_fields(f + g, n, name) == outputs_of_fields(f, n, name),
    decreases n,
{
    if n > 0 {
        lemma_outputs_of_start(f, g, (n - 1) as nat, name);
        assert((f + g)[n - 1] == f[n - 1]);
    }
}

/// Each output is a variable of its own, in order, and one equation says that it equals its
/// expression.
pub proof fn lemma_added_outputs(st: State, outs: Seq<Output>)
    ensures
        ({
            let s = add_outputs(st, outs);
            let n = st.spec.outputs.len();
            let m = st.spec.constraints.len();
            &&& s.spec.outputs.len() == n + outs.len()
            &&& s.spec.outputs.take(n as int) == st.spec.outputs
            &&& s.spec.constraints.len() == m + outs.len()
            &&& s.spec.constraints.take(m as int) == st.spec.constraints
            &&& s.spec.inputs == st.spec.inputs
            &&& s.spec.internals == st.spec.internals
            &&& s.bindings == st.bindings
            &&& s.counter == st.counter
            &&& s.guard == st.guard
            &&& forall|i: int|
                0 <= i < outs.len() ==> s.spec.outputs[n + i].name == (#[trigger] outs[i]).name
                    && s.spec.outputs[n + i].vtype == outs[i].vtype && says_equal(
                    st,
                    s.spec.constraints[m + i],
                    IrExprV::Var(outs[i].name),
                    outs[i].expr,
                )
        }),
{
    let s = add_outputs(st, outs);
    assert(s.spec.outputs.take(st.spec.outputs.len() as int) =~= st.spec.outputs);
    assert(s.spec.constraints.take(st.spec.constraints.len() as int) =~= st.spec.constraints);
    assert forall|i: int| 0 <= i < outs.len() implies s.spec.outputs[st.spec.outputs.len()
        + i].name == (#[trigger] outs[i]).name && s.spec.outputs[st.spec.outputs.len() + i].vtype
        == outs[i].vtype && says_equal(
        st,
        s.spec.constraints[st.spec.constraints.len() + i],
        IrExprV::Var(outs[i].name),
        outs[i].expr,
    ) by {
        lemma_says_equal(
            st,
            IrExprV::Var(outs[i].name),
            outs[i].expr,
            "output_"@ + outs[i].name,
        );
    }
}

/// What a component is lowered to: its parameters are the inputs, its body runs behind them at the
/// top level, and what the body gives are outputs under `result`, behind those of the body.
pub proof fn lemma_lowered_component(env: Env, name: Seq<char>, depth: nat)
    requires
        env.components.dom().contains(name),
    ensures
        ({
            let c = env.components[name];
            let empty = SpecV {
                name,
                source_line: c.source_line,
                inputs: Seq::empty(),
                outputs: Seq::empty(),
                internals: Seq::empty(),
                constraints: Seq::empty(),
            };
            let none = State {
                bindings: Seq::empty(),
                counter: 0,
                guard: None,
                spec: empty,
            };
            let st = param_inputs(env, none, c.params, c.params.len());
            match body(env, st, c.body, 0, None, Seq::empty(), depth) {
                Run::Done(s, v) => lowered(env, name, depth) == Lowered::Done(
                    match v {
                        Some(w) => add_outputs(s, outputs_of(w, "result"@)).spec,
                        None => s.spec,
                    },
                ),
                Run::Fail(m) => lowered(env, name, depth) == Lowered::Fail(m),
                Run::Stop => lowered(env, name, depth) == Lowered::Stop,
            }
        }),
{
    reveal_strlit("");
    assert(""@ =~= Seq::<char>::empty());
}

/// The range of a variable that holds a public binding: that of the register which its right-hand
/// side is, and else that of the field.
pub proof fn lemma_range_of_public(name: Seq<char>, type_args: Seq<u64>, args: Seq<ExprV>)
    ensures
        ({
            let m = max_value(guessed_type(ExprV::Call { name, type_args, args }));
            &&& name == "NondetU16Reg"@ || name == "U16Reg"@ ==> m == 65535
            &&& name == "NondetU32Reg"@ || name == "U32Reg"@ ==> m == 4294967295
            &&& name == "NondetBitReg"@ || name == "IsZero"@ || name == "Isz"@ ==> m == 1
            &&& name == "NondetTwitReg"@ ==> m == 3
            &&& !(name == "NondetU16Reg"@ || name == "U16Reg"@ || name == "NondetU32Reg"@ || name
                == "U32Reg"@ || name == "NondetBitReg"@ || name == "IsZero"@ || name == "Isz"@
                || name == "NondetTwitReg"@) ==> m == 2013265920
        }),
        forall|e: ExprV| !(e is Call) ==> max_value(#[trigger] guessed_type(e)) == 2013265920,
{
    lemma_register_names();
}

// ---------------------------------------------------------------------------
// Calls that are not expanded
// ---------------------------------------------------------------------------

/// The scalars that an argument is made of, by the type of its parameter: its two halves, the low
/// one first, or its fields by the public bindings of a component, in their order, or itself.
pub open spec fn is_flat(env: Env, arg: ValueV, ty: Seq<char>, v: Seq<IrExprV>) -> bool {
    if ty == "ValU32"@ || ty == "DenormedValU32"@ {
        &&& v.len() == 2
        &&& field_of(arg, "low"@) == Some(ValueV::Expr(v[0]))
        &&& field_of(arg, "high"@) == Some(ValueV::Expr(v[1]))
    } else if env.components.dom().contains(ty) {
        let pubs = publics(env.components[ty].body);
        &&& v.len() == pubs.len()
        &&& forall|i: int|
            0 <= i < pubs.len() ==> field_of(arg, (#[trigger] pubs[i]).0) == Some(
                ValueV::Expr(v[i]),
            )
    } else {
        v.len() == 1 && arg == ValueV::Expr(v[0])
    }
}

proof fn lemma_flat_fields(
    st: State,
    arg: ValueV,
    ty: Seq<char>,
    pubs: Seq<(Seq<char>, ExprV)>,
    i: int,
    acc: Seq<IrExprV>,
)
    requires
        0 <= i <= pubs.len(),
    ensures
        flat_fields(st, arg, ty, pubs, i, acc) matches Run::Done(s, v) ==> {
            &&& s == st
            &&& v.len() == acc.len() + pubs.len() - i
            &&& v.take(acc.len() as int) == acc
            &&& forall|j: int|
                i <= j < pubs.len() ==> field_of(arg, (#[trigger] pubs[j]).0) == Some(
                    ValueV::Expr(v[acc.len() + j - i]),
                )
        },
    decreases pubs.len() - i,
{
    if i < pubs.len() {
        match field_of(arg, pubs[i].0) {
            Some(ValueV::Expr(e)) => {
                lemma_flat_fields(st, arg, ty, pubs, i + 1, acc.push(e));
                match flat_fields(st, arg, ty, pubs, i, acc) {
                    Run::Done(s, v) => {
                        let n = acc.len() as int;
                        assert(v.take(n) =~= v.take(n + 1).take(n));
                        assert(acc.push(e).take(n) =~= acc);
                        assert(v[n] == v.take(n + 1)[n]);
                    },
                    _ => {},
                }
            },
            _ => {},
        }
    } else {
        assert(acc.take(acc.len() as int) =~= acc);
    }
}

proof fn lemma_flat_arg(env: Env, st: State, arg: ValueV, ty: Seq<char>, acc: Seq<IrExprV>)
    ensures
        flat_arg(env, st, arg, ty, acc) matches Run::Done(s, v) ==> {
            &&& s == st
            &&& v.len() >= acc.len()
            &&& v.take(acc.len() as int) == acc
            &&& is_flat(env, arg, ty, v.skip(acc.len() as int))
        },
{
    let n = acc.len() as int;
    if env.components.dom().contains(ty) {
        lemma_flat_fields(st, arg, ty, publics(env.components[ty].body), 0, acc);
    }
    match flat_arg(env, st, arg, ty, acc) {
        Run::Done(s, v) => {
            assert(v.take(n) =~= acc);
        },
        _ => {},
    }
}

/// The arguments of a call that is not expanded are the scalars of its arguments, one argument
/// behind the other, each by the type of its parameter: `parts` are those of each.
pub proof fn lemma_flat_args(
    env: Env,
    st: State,
    name: Seq<char>,
    params: Seq<(Seq<char>, Seq<char>)>,
    args: Seq<ValueV>,
) -> (parts: Seq<Seq<IrExprV>>)
    ensures
        flat_args(env, st, name, params, args, 0, Seq::empty()) matches Run::Done(s, v) ==> {
            &&& s == st
            &&& params.len() <= args.len()
            &&& parts.len() == params.len()
            &&& v == parts.flatten()
            &&& forall|i: int|
                0 <= i < params.len() ==> is_flat(env, args[i], (#[trigger] params[i]).1, parts[i])
        },
{
    lemma_flat_args_from(env, st, name, params, args, 0, Seq::empty())
}

proof fn lemma_flat_args_from(
    env: Env,
    st: State,
    name: Seq<char>,
    params: Seq<(Seq<char>, Seq<char>)>,
    args: Seq<ValueV>,
    i: int,
    acc: Seq<IrExprV>,
) -> (parts: Seq<Seq<IrExprV>>)
    requires
        0 <= i <= params.len(),
    ensures
        flat_args(env, st, name, params, args, i, acc) matches Run::Done(s, v) ==> {
            &&& s == st
            &&& i < params.len() ==> params.len() <= args.len()
            &&& parts.len() == params.len() - i
            &&& v == acc + parts.flatten()
            &&& forall|j: int|
                i <= j < params.len() ==> is_flat(
                    env,
                    args[j],
                    (#[trigger] params[j]).1,
                    parts[j - i],
                )
        },
    decreases params.len() - i,
{
    if i < params.len() && i < args.len() {
        lemma_flat_arg(env, st, args[i], params[i].1, acc);
        match flat_arg(env, st, args[i], params[i].1, acc) {
            Run::Done(s, a) => {
                let rest = lemma_flat_args_from(env, s, name, params, args, i + 1, a);
                let part = a.skip(acc.len() as int);
                let parts = seq![part] + rest;
                assert(parts.drop_first() =~= rest);
                assert(parts.flatten() == part + rest.flatten());
                assert(acc + (part + rest.flatten()) =~= a + rest.flatten()) by {
                    assert(a =~= a.take(acc.len() as int) + part);
                }
                match flat_args(env, st, name, params, args, i, acc) {
                    Run::Done(t, v) => {
                        assert forall|j: int| i <= j < params.len() implies is_flat(
                            env,
                            args[j],
                            (#[trigger] params[j]).1,
                            parts[j - i],
                        ) by {
                            if j > i {
                                assert(parts[j - i] == rest[j - (i + 1)]);
                            }
                        }
                    },
                    _ => {},
                }
                parts
            },
            _ => Seq::empty(),
        }
    } else {
        let none = Seq::<Seq<IrExprV>>::empty();
        assert(acc + none.flatten() =~= acc);
        none
    }
}

/// Whether a value is what a call that is not expanded gives for a public binding: two variables of
/// 16 bits where it makes a number in two halves, and else one variable.
pub open spec fn is_result(
    rhs: ExprV,
    v: ValueV,
    vs: Seq<VarV>,
) -> bool {
    if makes_halves(rhs) {
        &&& vs.len() == 2
        &&& field_of(v, "low"@) == Some(ValueV::Expr(IrExprV::Var(vs[0].name)))
        &&& field_of(v, "high"@) == Some(ValueV::Expr(IrExprV::Var(vs[1].name)))
        &&& max_value(vs[0].vtype) == 65535
        &&& max_value(vs[1].vtype) == 65535
    } else {
        &&& vs.len() == 1
        &&& v == ValueV::Expr(IrExprV::Var(vs[0].name))
        &&& max_value(vs[0].vtype) == 2013265920
    }
}

/// The names of the results for a public binding.
pub open spec fn result_names(name: Seq<char>, rhs: ExprV) -> Seq<Seq<char>> {
    if makes_halves(rhs) {
        seq![name + ".low"@, name + ".high"@]
    } else {
        seq![name]
    }
}

/// The names of the results for the first public bindings, one binding behind the other.
pub open spec fn all_result_names(pubs: Seq<(Seq<char>, ExprV)>) -> Seq<Seq<char>>
    decreases pubs.len(),
{
    if pubs.len() == 0 {
        Seq::empty()
    } else {
        result_names(pubs[0].0, pubs[0].1) + all_result_names(pubs.drop_first())
    }
}

/// Whether a state has new internal variables, one for each of some names, which are paired with
/// them behind other pairs, and nothing else that is new.
pub open spec fn adds_results(
    st: State,
    s: State,
    before: Seq<(Seq<char>, Seq<char>)>,
    pairs: Seq<(Seq<char>, Seq<char>)>,
    names: Seq<Seq<char>>,
) -> bool {
    let n = st.spec.internals.len() as int;
    let m = before.len() as int;
    &&& s.spec.constraints == st.spec.constraints
    &&& s.spec.outputs == st.spec.outputs
    &&& s.spec.inputs == st.spec.inputs
    &&& s.bindings == st.bindings
    &&& s.guard == st.guard
    &&& s.spec.internals.len() == n + names.len()
    &&& s.spec.internals.take(n) == st.spec.internals
    &&& pairs.len() == m + names.len()
    &&& pairs.take(m) == before
    &&& forall|j: int|
        0 <= j < names.len() ==> pairs[m + j].0 == #[trigger] names[j] && pairs[m + j].1
            == s.spec.internals[n + j].name
}

proof fn lemma_results_from(
    st: State,
    name: Seq<char>,
    pubs: Seq<(Seq<char>, ExprV)>,
    i: int,
    acc: Fields,
    outs: Seq<(Seq<char>, Seq<char>)>,
    prefix: Seq<char>,
)
    requires
        0 <= i <= pubs.len(),
    ensures
        abstract_results(st, name, pubs, i, acc, outs, prefix) matches Run::Done(s, r)
            ==> adds_results(st, s, outs, r.1, all_result_names(pubs.skip(i))),
    decreases pubs.len() - i,
{
    match abstract_results(st, name, pubs, i, acc, outs, prefix) {
        Run::Done(s, r) => {
            let n = st.spec.internals.len() as int;
            let m = outs.len() as int;
            let left = pubs.skip(i);
            if i < pubs.len() {
                let f = pubs[i].0;
                let base = unicode_lowercase(name) + "_"@ + f;
                assert(left[0] == pubs[i]);
                assert(left.drop_first() =~= pubs.skip(i + 1));
                let later = all_result_names(pubs.skip(i + 1));
                let new = all_result_names(left);
                if makes_halves(pubs[i].1) {
                    let low = next_name(st, prefix, base + "_low"@);
                    let t1 = tick(st);
                    let high = next_name(t1, prefix, base + "_high"@);
                    let t = declare(
                        declare(tick(t1), low, VarType::U16),
                        high,
                        VarType::U16,
                    );
                    let v = halves(
                        ValueV::Expr(IrExprV::Var(low)),
                        ValueV::Expr(IrExprV::Var(high)),
                    );
                    let o = outs.push((f + ".low"@, low)).push((f + ".high"@, high));
                    lemma_results_from(
                        t,
                        name,
                        pubs,
                        i + 1,
                        put(acc, f, v),
                        o,
                        prefix,
                    );
                    assert(new =~= seq![f + ".low"@, f + ".high"@] + later);
                    assert(t.spec.internals.len() == n + 2 && o.len() == m + 2);
                    assert(s.spec.internals.take(n + 2) == t.spec.internals);
                    assert(r.1.take(m + 2) == o);
                    assert(new[0] == f + ".low"@ && new[1] == f + ".high"@);
                    assert(o[m] == (f + ".low"@, low) && o[m + 1] == (f + ".high"@, high));
                    assert(t.spec.internals[n].name == low);
                    assert(t.spec.internals[n + 1].name == high);
                    assert(s.spec.internals.take(n) =~= s.spec.internals.take(n + 2).take(n));
                    assert(t.spec.internals.take(n) =~= st.spec.internals);
                    assert(r.1.take(m) =~= r.1.take(m + 2).take(m));
                    assert(o.take(m) =~= outs);
                    assert(r.1[m] == r.1.take(m + 2)[m]);
                    assert(r.1[m + 1] == r.1.take(m + 2)[m + 1]);
                    assert(s.spec.internals[n] == s.spec.internals.take(n + 2)[n]);
                    assert(s.spec.internals[n + 1] == s.spec.internals.take(n + 2)[n + 1]);
                    assert forall|j: int| 0 <= j < new.len() implies r.1[m + j].0
                        == #[trigger] new[j] && r.1[m + j].1 == s.spec.internals[n + j].name by {
                        if j >= 2 {
                            assert(later[j - 2] == new[j]);
                            assert(r.1[m + 2 + (j - 2)].0 == later[j - 2]);
                        }
                    }
                    assert(adds_results(st, s, outs, r.1, new));
                } else {
                    let x = next_name(st, prefix, base);
                    let t = declare(tick(st), x, VarType::Val);
                    let o = outs.push((f, x));
                    lemma_results_from(
                        t,
                        name,
                        pubs,
                        i + 1,
                        put(acc, f, ValueV::Expr(IrExprV::Var(x))),
                        o,
                        prefix,
                    );
                    assert(new =~= seq![f] + later);
                    assert(s.spec.internals.take(n) =~= s.spec.internals.take(n + 1).take(n));
                    assert(t.spec.internals.take(n) =~= st.spec.internals);
                    assert(r.1.take(m) =~= r.1.take(m + 1).take(m));
                    assert(o.take(m) =~= outs);
                    assert forall|j: int| 0 <= j < new.len() implies r.1[m + j].0
                        == #[trigger] new[j] && r.1[m + j].1 == s.spec.internals[n + j].name by {
                        if j < 1 {
                            assert(r.1[m + j] == r.1.take(m + 1)[m + j]);
                            assert(s.spec.internals[n + j] == s.spec.internals.take(n + 1)[n + j]);
                        } else {
                            assert(later[j - 1] == new[j]);
                            assert(r.1[m + 1 + (j - 1)].0 == later[j - 1]);
                        }
                    }
                    assert(adds_results(st, s, outs, r.1, new));
                }
            } else {
                assert(left =~= Seq::empty());
                assert(s.spec.internals.take(n) =~= s.spec.internals);
                assert(r.1.take(m) =~= r.1);
                assert(adds_results(st, s, outs, r.1, all_result_names(left)));
            }
        },
        _ => {},
    }
}

/// What a call that is not expanded gives for a public binding whose name stands once: a variable
/// for it, or two for its halves, which are among the results of the call under its name.
pub open spec fn gives_field(
    r: (Fields, Seq<(Seq<char>, Seq<char>)>),
    internals: Seq<VarV>,
    name: Seq<char>,
    rhs: ExprV,
) -> bool {
    exists|v: ValueV, x: int| #[trigger]
        places_field(r, internals, name, rhs, v, x)
}

/// Whether the field is `v`, and its variables stand from place `x` on among the internal ones.
pub open spec fn places_field(
    r: (Fields, Seq<(Seq<char>, Seq<char>)>),
    internals: Seq<VarV>,
    name: Seq<char>,
    rhs: ExprV,
    v: ValueV,
    x: int,
) -> bool {
    let k = result_names(name, rhs).len() as int;
    &&& 0 <= x
    &&& x + k <= internals.len()
    &&& get(r.0, name) == Some(v)
    &&& is_result(rhs, v, internals.subrange(x, x + k))
    &&& forall|j: int|
        0 <= j < k ==> r.1.contains(
            (#[trigger] result_names(name, rhs)[j], internals[x + j].name),
        )
}

proof fn lemma_fields_from(
    st: State,
    name: Seq<char>,
    pubs: Seq<(Seq<char>, ExprV)>,
    i: int,
    acc: Fields,
    outs: Seq<(Seq<char>, Seq<char>)>,
    prefix: Seq<char>,
    j: int,
)
    requires
        0 <= i <= pubs.len(),
        0 <= j < pubs.len(),
        names_differ(pubs),
        j < i ==> gives_field((acc, outs), st.spec.internals, pubs[j].0, pubs[j].1),
    ensures
        abstract_results(st, name, pubs, i, acc, outs, prefix) matches Run::Done(s, r)
            ==> gives_field(r, s.spec.internals, pubs[j].0, pubs[j].1),
    decreases pubs.len() - i,
{
    match abstract_results(st, name, pubs, i, acc, outs, prefix) {
        Run::Done(s, r) => {
            if i < pubs.len() {
                let f = pubs[i].0;
                let rhs = pubs[i].1;
                let n = st.spec.internals.len() as int;
                let m = outs.len() as int;
                let base = unicode_lowercase(name) + "_"@ + f;
                let low = next_name(st, prefix, base + "_low"@);
                let t1 = tick(st);
                let high = next_name(t1, prefix, base + "_high"@);
                let x = next_name(st, prefix, base);
                let two = makes_halves(rhs);
                let t = if two {
                    declare(
                        declare(tick(t1), low, VarType::U16),
                        high,
                        VarType::U16,
                    )
                } else {
                    declare(t1, x, VarType::Val)
                };
                let v = if two {
                    halves(
                        ValueV::Expr(IrExprV::Var(low)),
                        ValueV::Expr(IrExprV::Var(high)),
                    )
                } else {
                    ValueV::Expr(IrExprV::Var(x))
                };
                let o = if two {
                    outs.push((f + ".low"@, low)).push((f + ".high"@, high))
                } else {
                    outs.push((f, x))
                };
                let now = put(acc, f, v);
                lemma_put(acc, f, v, pubs[j].0);
                if j < i {
                    assert(pubs[j].0 != pubs[i].0);
                    let (w, y) = choose|w: ValueV, y: int| #[trigger]
                        places_field((acc, outs), st.spec.internals, pubs[j].0, pubs[j].1, w, y);
                    let k = result_names(pubs[j].0, pubs[j].1).len() as int;
                    assert(t.spec.internals.subrange(y, y + k) =~= st.spec.internals.subrange(
                        y,
                        y + k,
                    ));
                    assert forall|q: int| 0 <= q < k implies o.contains(
                        (
                            #[trigger] result_names(pubs[j].0, pubs[j].1)[q],
                            t.spec.internals[y + q].name,
                        ),
                    ) by {
                        let e = (
                            result_names(pubs[j].0, pubs[j].1)[q],
                            st.spec.internals[y + q].name,
                        );
                        assert(outs.contains(e));
                        let z = choose|z: int| 0 <= z < outs.len() && outs[z] == e;
                        assert(o[z] == e);
                    }
                    assert(places_field(
                        (now, o),
                        t.spec.internals,
                        pubs[j].0,
                        pubs[j].1,
                        w,
                        y,
                    ));
                } else if j == i {
                    let k = result_names(f, rhs).len() as int;
                    if two {
                        lemma_halves(
                            ValueV::Expr(IrExprV::Var(low)),
                            ValueV::Expr(IrExprV::Var(high)),
                        );
                        assert(o[m] == (f + ".low"@, low) && o[m + 1] == (f + ".high"@, high));
                    } else {
                        assert(o[m] == (f, x));
                    }
                    assert(is_result(rhs, v, t.spec.internals.subrange(n, n + k)));
                    assert forall|q: int| 0 <= q < k implies o.contains(
                        (#[trigger] result_names(f, rhs)[q], t.spec.internals[n + q].name),
                    ) by {
                        assert(o[m + q] == (result_names(f, rhs)[q], t.spec.internals[n + q].name));
                    }
                    assert(places_field((now, o), t.spec.internals, f, rhs, v, n));
                }
                lemma_fields_from(t, name, pubs, i + 1, now, o, prefix, j);
            }
        },
        _ => {},
    }
}

/// A call that is not expanded. It adds one constraint, which relates the scalars of its arguments
/// to new variables, one or two for each public binding, in their order; what it gives has a field
/// for each public binding that is made of these variables.
pub proof fn lemma_unexpanded_call(
    env: Env,
    st: State,
    comp: ComponentV,
    name: Seq<char>,
    args: Seq<ValueV>,
    prefix: Seq<char>,
)
    ensures
        abstract_call(env, st, comp, name, args, prefix) matches Run::Done(s, v) ==> {
            let pubs = publics(comp.body);
            let c = s.spec.constraints.last();
            let before = Seq::<(Seq<char>, Seq<char>)>::empty();
            let t = State {
                spec: SpecV { constraints: st.spec.constraints, ..s.spec },
                ..s
            };
            &&& pubs.len() > 0
            &&& s.spec.constraints.len() == st.spec.constraints.len() + 1
            &&& s.spec.constraints.drop_last() == st.spec.constraints
            &&& c is Call
            &&& c->component == name
            &&& flat_args(env, st, name, comp.params, args, 0, Seq::empty()) == Run::Done(
                st,
                c->args,
            )
            &&& adds_results(st, t, before, c->outputs, all_result_names(pubs))
            &&& v is Struct
            &&& names_differ(pubs) ==> forall|j: int|
                0 <= j < pubs.len() ==> gives_field(
                    (v->Struct_0, c->outputs),
                    s.spec.internals,
                    (#[trigger] pubs[j]).0,
                    pubs[j].1,
                )
        },
{
    let parts = lemma_flat_args(env, st, name, comp.params, args);
    match abstract_call(env, st, comp, name, args, prefix) {
        Run::Done(s, v) => {
            let pubs = publics(comp.body);
            let none = Seq::<(Seq<char>, Seq<char>)>::empty();
            lemma_results_from(st, name, pubs, 0, Seq::empty(), none, prefix);
            assert(pubs.skip(0) =~= pubs);
            let r = abstract_results(st, name, pubs, 0, Seq::empty(), none, prefix);
            assert(s.spec.constraints.drop_last() =~= st.spec.constraints);
            let c = s.spec.constraints.last();
            if names_differ(pubs) {
                assert forall|j: int| 0 <= j < pubs.len() implies gives_field(
                    (v->Struct_0, c->outputs),
                    s.spec.internals,
                    (#[trigger] pubs[j]).0,
                    pubs[j].1,
                ) by {
                    lemma_fields_from(st, name, pubs, 0, Seq::empty(), none, prefix, j);
                }
            }
        },
        _ => {},
    }
}

// ---------------------------------------------------------------------------
// Branches
// ---------------------------------------------------------------------------

/// Whether a branch of a mux runs from one state to another: its guard is evaluated, and its block
/// runs under a guard whose value is that of the guard times that of the guard outside. Behind it
/// the guard is the one outside again.
pub open spec fn runs_branch(
    env: Env,
    st: State,
    s: State,
    guard: ExprV,
    block: Seq<StmtV>,
    prefix: Seq<char>,
    depth: nat,
) -> bool {
    expr(env, st, guard, prefix, depth) matches Run::Done(s1, ValueV::Expr(g)) && exists|h: IrExprV|
        #[trigger] is_inner_guard(st.guard, g, h) && (body(
            env,
            State { guard: Some(h), ..s1 },
            block,
            0,
            None,
            prefix,
            depth,
        ) matches Run::Done(s2, _) && s == (State { guard: st.guard, ..s2 }))
}

/// Whether an expression has the value of a guard times that of the guard outside, in every
/// assignment.
pub open spec fn is_inner_guard(outer: Option<IrExprV>, g: IrExprV, h: IrExprV) -> bool {
    forall|vs: Seq<VarV>, a: spec_fn(Seq<char>) -> int| #[trigger]
        value(Numbers::Integers, vs, a, h) == value(Numbers::Integers, vs, a, g) * (match outer {
            Some(o) => value(Numbers::Integers, vs, a, o),
            None => 1,
        })
}

proof fn lemma_is_inner_guard(outer: Option<IrExprV>, g: IrExprV)
    ensures
        is_inner_guard(outer, g, inner_guard(outer, g)),
{
    assert forall|vs: Seq<VarV>, a: spec_fn(Seq<char>) -> int| #[trigger]
        value(Numbers::Integers, vs, a, inner_guard(outer, g)) == value(
            Numbers::Integers,
            vs,
            a,
            g,
        ) * (match outer {
            Some(o) => value(Numbers::Integers, vs, a, o),
            None => 1,
        }) by {
        reveal_with_fuel(value, 2);
        match outer {
            Some(o) => {
                let x = value(Numbers::Integers, vs, a, o);
                let y = value(Numbers::Integers, vs, a, g);
                assert(x * y == y * x) by (nonlinear_arith);
            },
            None => {},
        }
    }
}

proof fn lemma_next_branch(
    env: Env,
    st: State,
    guards: Seq<ExprV>,
    branches: Seq<Seq<StmtV>>,
    i: int,
    prefix: Seq<char>,
    depth: nat,
) -> (s: State)
    requires
        0 <= i <= guards.len(),
        guards.len() == branches.len(),
    ensures
        ({
            let m = StmtV::Mux { guards, branches };
            &&& i == guards.len() ==> mux(env, st, m, i, st.guard, prefix, depth) == Run::Done(
                st,
                None::<ValueV>,
            )
            &&& i < guards.len() && mux(env, st, m, i, st.guard, prefix, depth) is Done
                ==> runs_branch(env, st, s, guards[i], branches[i], prefix, depth) && mux(
                env,
                s,
                m,
                i + 1,
                s.guard,
                prefix,
                depth,
            ) == mux(env, st, m, i, st.guard, prefix, depth)
        }),
{
    reveal(mux);
    reveal(expr);
    reveal(body);
    if i < guards.len() {
        match expr(env, st, guards[i], prefix, depth) {
            Run::Done(s1, ValueV::Expr(g)) => {
                let h = inner_guard(st.guard, g);
                lemma_is_inner_guard(st.guard, g);
                match body(
                    env,
                    State { guard: Some(h), ..s1 },
                    branches[i],
                    0,
                    None,
                    prefix,
                    depth,
                ) {
                    Run::Done(s2, _) => State { guard: st.guard, ..s2 },
                    _ => st,
                }
            },
            _ => st,
        }
    } else {
        st
    }
}

proof fn lemma_branches_from(
    env: Env,
    st: State,
    guards: Seq<ExprV>,
    branches: Seq<Seq<StmtV>>,
    i: int,
    prefix: Seq<char>,
    depth: nat,
) -> (states: Seq<State>)
    requires
        0 <= i <= guards.len(),
        guards.len() == branches.len(),
    ensures
        mux(env, st, StmtV::Mux { guards, branches }, i, st.guard, prefix, depth) matches Run::Done(
            s,
            v,
        ) ==> {
            &&& v is None
            &&& states.len() == guards.len() - i + 1
            &&& states[0] == st
            &&& states.last() == s
            &&& forall|j: int|
                i <= j < guards.len() ==> runs_branch(
                    env,
                    states[j - i],
                    states[j - i + 1],
                    #[trigger] guards[j],
                    branches[j],
                    prefix,
                    depth,
                )
        },
    decreases guards.len() - i,
{
    let t = lemma_next_branch(env, st, guards, branches, i, prefix, depth);
    if i < guards.len() {
        let rest = lemma_branches_from(env, t, guards, branches, i + 1, prefix, depth);
        let states = seq![st] + rest;
        match mux(env, st, StmtV::Mux { guards, branches }, i, st.guard, prefix, depth) {
            Run::Done(s, v) => {
                assert forall|j: int| i <= j < guards.len() implies runs_branch(
                    env,
                    states[j - i],
                    states[j - i + 1],
                    #[trigger] guards[j],
                    branches[j],
                    prefix,
                    depth,
                ) by {
                    if j > i {
                        assert(states[j - i] == rest[j - (i + 1)]);
                        assert(states[j - i + 1] == rest[j - (i + 1) + 1]);
                    }
                }
            },
            _ => {},
        }
        states
    } else {
        seq![st]
    }
}

/// The branches of a mux run one behind the other, each under its own guard: `states` are the
/// states between them. A mux gives nothing.
pub proof fn lemma_branches_in_order(
    env: Env,
    st: State,
    guards: Seq<ExprV>,
    branches: Seq<Seq<StmtV>>,
    prefix: Seq<char>,
    depth: nat,
) -> (states: Seq<State>)
    requires
        guards.len() == branches.len(),
    ensures
        stmt(env, st, StmtV::Mux { guards, branches }, prefix, depth) matches Run::Done(s, v) ==> {
            &&& v is None
            &&& states.len() == guards.len() + 1
            &&& states[0] == st
            &&& states.last() == s
            &&& forall|i: int|
                0 <= i < guards.len() ==> runs_branch(
                    env,
                    states[i],
                    states[i + 1],
                    #[trigger] guards[i],
                    branches[i],
                    prefix,
                    depth,
                )
        },
{
    reveal(stmt);
    reveal(mux);
    lemma_branches_from(env, st, guards, branches, 0, prefix, depth)
}

/// The variables of a result are called after the component and the field, and a half after which one
/// it is. A half has 16 bits, and another result is free in the range of `Val`.
pub proof fn lemma_variables_of_result(
    st: State,
    name: Seq<char>,
    pubs: Seq<(Seq<char>, ExprV)>,
    i: int,
    acc: Fields,
    outs: Seq<(Seq<char>, Seq<char>)>,
    prefix: Seq<char>,
)
    requires
        0 <= i < pubs.len(),
    ensures
        abstract_results(st, name, pubs, i, acc, outs, prefix) matches Run::Done(s, _) ==> {
            let n = st.spec.internals.len() as int;
            let word = unicode_lowercase(name) + "_"@ + pubs[i].0;
            if makes_halves(pubs[i].1) {
                &&& s.spec.internals[n] == (VarV {
                    name: fresh_name(prefix, word + "_low"@, st.counter + 1),
                    vtype: VarType::U16,
                })
                &&& s.spec.internals[n + 1] == (VarV {
                    name: fresh_name(prefix, word + "_high"@, st.counter + 2),
                    vtype: VarType::U16,
                })
            } else {
                s.spec.internals[n] == (VarV {
                    name: fresh_name(prefix, word, st.counter + 1),
                    vtype: VarType::Val,
                })
            }
        },
{
    if let Run::Done(s, r) = abstract_results(st, name, pubs, i, acc, outs, prefix) {
        let n = st.spec.internals.len() as int;
        let f = pubs[i].0;
        let word = unicode_lowercase(name) + "_"@ + f;
        if makes_halves(pubs[i].1) {
            let low = next_name(st, prefix, word + "_low"@);
            let high = next_name(tick(st), prefix, word + "_high"@);
            let t = declare(declare(tick(tick(st)), low, VarType::U16), high, VarType::U16);
            let v = halves(ValueV::Expr(IrExprV::Var(low)), ValueV::Expr(IrExprV::Var(high)));
            let o = outs.push((f + ".low"@, low)).push((f + ".high"@, high));
            lemma_results_from(t, name, pubs, i + 1, put(acc, f, v), o, prefix);
            assert(s.spec.internals[n] == s.spec.internals.take(n + 2)[n]);
            assert(s.spec.internals[n + 1] == s.spec.internals.take(n + 2)[n + 1]);
        } else {
            let x = next_name(st, prefix, word);
            let t = declare(tick(st), x, VarType::Val);
            let v = ValueV::Expr(IrExprV::Var(x));
            lemma_results_from(t, name, pubs, i + 1, put(acc, f, v), outs.push((f, x)), prefix);
            assert(s.spec.internals[n] == s.spec.internals.take(n + 1)[n]);
        }
    }
}

/// A public binding of a structure gives its outputs, under the name that is bound, at the top level and
/// nowhere else. That of an array, and a binding that is not public, only binds the name.
pub proof fn lemma_bound_structure(
    st: State,
    name: Seq<char>,
    rhs: ExprV,
    v: ValueV,
    prefix: Seq<char>,
)
    requires
        !(v is Expr),
    ensures
        bind_value(st, true, name, rhs, v, prefix) matches Run::Done(s, None) && get(
            s.bindings,
            name,
        ) == Some(v) && {
            let outs = if prefix.len() == 0 {
                outputs_of(v, name)
            } else {
                Seq::empty()
            };
            &&& s.counter == st.counter
            &&& s.guard == st.guard
            &&& s.spec.inputs == st.spec.inputs
            &&& s.spec.internals == st.spec.internals
            &&& s.spec.outputs.len() == st.spec.outputs.len() + outs.len()
            &&& s.spec.outputs.take(st.spec.outputs.len() as int) == st.spec.outputs
            &&& forall|i: int|
                0 <= i < outs.len() ==> s.spec.outputs[st.spec.outputs.len() + i] == (VarV {
                    name: (#[trigger] outs[i]).name,
                    vtype: outs[i].vtype,
                })
            &&& s.spec.constraints.len() == st.spec.constraints.len() + outs.len()
            &&& s.spec.constraints.take(st.spec.constraints.len() as int) == st.spec.constraints
            &&& forall|i: int|
                0 <= i < outs.len() ==> says_equal(
                    st,
                    s.spec.constraints[st.spec.constraints.len() + i],
                    IrExprV::Var((#[trigger] outs[i]).name),
                    outs[i].expr,
                )
        },
        bind_value(st, false, name, rhs, v, prefix) matches Run::Done(s, None) && s.spec == st.spec
            && s.counter == st.counter && s.guard == st.guard && get(s.bindings, name) == Some(v),
{
    lemma_put(st.bindings, name, v, name);
    let outs = if prefix.len() == 0 {
        outputs_of(v, name)
    } else {
        Seq::empty()
    };
    if let Run::Done(s, _) = bind_value(st, true, name, rhs, v, prefix) {
        assert(s.spec.outputs.take(st.spec.outputs.len() as int) =~= st.spec.outputs);
        assert(s.spec.constraints.take(st.spec.constraints.len() as int) =~= st.spec.constraints);
        assert forall|i: int| 0 <= i < outs.len() implies says_equal(
            st,
            s.spec.constraints[st.spec.constraints.len() + i],
            IrExprV::Var((#[trigger] outs[i]).name),
            outs[i].expr,
        ) by {
            let o = outs[i];
            lemma_says_equal(st, IrExprV::Var(o.name), o.expr, "output_"@ + o.name);
        }
    }
}

} // verus!
