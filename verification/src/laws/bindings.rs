//! What names stand for: bindings, arguments, fields and parameters.

use vstd::prelude::*;
use crate::ir::rules::{
    bind_args, body, call, call_value, declare_inputs, inner_prefix, input_fields, is_builtin,
    param_input, param_inputs, public_fields, publics, var_value, with_missing, Env, Run, State,
};
use crate::ir::value::{
    field_of, firsts, get, halves, lemma_place, place, put, Fields, ValueV,
};
use crate::ir::{IrExprV, VarType, VarV};
use crate::parser::ast::{ExprV, StmtV};

verus! {

// ---------------------------------------------------------------------------
// Names and what stands under them
// ---------------------------------------------------------------------------

/// Whether a name stands under none of some pairs.
pub open spec fn is_absent<T>(f: Seq<(Seq<char>, T)>, k: Seq<char>) -> bool {
    forall|i: int| 0 <= i < f.len() ==> (#[trigger] f[i]).0 != k
}

/// What is looked up under a name is what stands first under it, and nothing where it stands
/// nowhere.
pub proof fn lemma_get<T>(f: Seq<(Seq<char>, T)>, k: Seq<char>, i: int)
    ensures
        0 <= i < f.len() && f[i].0 == k && is_absent(f.take(i), k) ==> get(f, k) == Some(f[i].1),
        is_absent(f, k) <==> get(f, k) is None,
{
    lemma_place(firsts(f), k, 0);
    if 0 <= i < f.len() && f[i].0 == k && is_absent(f.take(i), k) {
        let j = place(firsts(f), k, 0);
        assert(firsts(f)[i] == k);
        if j is Some {
            assert(firsts(f)[j->Some_0] == k);
            if j->Some_0 < i {
                assert(f.take(i)[j->Some_0].0 != k);
            }
        }
    }
    if get(f, k) is None {
        assert forall|m: int| 0 <= m < f.len() implies (#[trigger] f[m]).0 != k by {
            assert(firsts(f)[m] != k);
        }
    } else {
        assert(f[place(firsts(f), k, 0)->Some_0].0 == k);
    }
}

/// What is put under a name stands there, and what stands under any other name stays.
pub proof fn lemma_put<T>(f: Seq<(Seq<char>, T)>, k: Seq<char>, v: T, j: Seq<char>)
    ensures
        get(put(f, k, v), k) == Some(v),
        j != k ==> get(put(f, k, v), j) == get(f, j),
        put(f, k, v).len() == f.len() + (if get(f, k) is Some {
            0int
        } else {
            1int
        }),
{
    let g = put(f, k, v);
    lemma_place(firsts(f), k, 0);
    lemma_place(firsts(g), k, 0);
    lemma_place(firsts(f), j, 0);
    lemma_place(firsts(g), j, 0);
    match place(firsts(f), k, 0) {
        Some(i) => {
            assert(firsts(g) =~= firsts(f));
        },
        None => {
            assert(firsts(g) =~= firsts(f).push(k));
            assert(firsts(g)[f.len() as int] == k);
            match place(firsts(f), j, 0) {
                Some(i) => {
                    assert(firsts(g)[i] == j);
                },
                None => {},
            }
        },
    }
}

// ---------------------------------------------------------------------------
// Calls
// ---------------------------------------------------------------------------

/// Whether the names of parameters differ.
pub open spec fn names_differ<T>(params: Seq<(Seq<char>, T)>) -> bool {
    forall|i: int, j: int|
        0 <= i < j < params.len() ==> (#[trigger] params[i]).0 != (#[trigger] params[j]).0
}

/// Whether a state is another one inside of a call: each parameter that has an argument stands for
/// that argument, parameter number `i` for argument number `i`, every other name for what it stood
/// for, and nothing else changes.
pub open spec fn enters(
    st: State,
    inner: State,
    params: Seq<(Seq<char>, Seq<char>)>,
    args: Seq<ValueV>,
) -> bool {
    &&& inner.counter == st.counter
    &&& inner.guard == st.guard
    &&& inner.spec == st.spec
    &&& forall|i: int|
        0 <= i < params.len() && i < args.len() ==> get(inner.bindings, (#[trigger] params[i]).0)
            == Some(args[i])
    &&& forall|k: Seq<char>|
        (forall|i: int| 0 <= i < params.len() && i < args.len() ==> (#[trigger] params[i]).0 != k)
            ==> #[trigger] get(inner.bindings, k) == get(st.bindings, k)
}

proof fn lemma_bind_first_args(
    st: State,
    params: Seq<(Seq<char>, Seq<char>)>,
    args: Seq<ValueV>,
    n: nat,
)
    requires
        names_differ(params),
        n <= params.len(),
    ensures
        enters(st, bind_args(st, params, args, n), params.take(n as int), args),
    decreases n,
{
    let first = params.take(n as int);
    if n > 0 {
        let m = (n - 1) as nat;
        lemma_bind_first_args(st, params, args, m);
        let s = bind_args(st, params, args, m);
        let t = bind_args(st, params, args, n);
        let less = params.take(m as int);
        assert forall|i: int| 0 <= i < first.len() && i < args.len() implies get(
            t.bindings,
            (#[trigger] first[i]).0,
        ) == Some(args[i]) by {
            assert(first[i] == params[i]);
            if n <= args.len() {
                lemma_put(s.bindings, params[n - 1].0, args[n - 1], params[i].0);
            }
            if i < m {
                assert(less[i] == params[i]);
                assert(params[i].0 != params[n - 1].0);
            }
        }
        assert forall|k: Seq<char>|
            (forall|i: int|
                0 <= i < first.len() && i < args.len() ==> (#[trigger] first[i]).0 != k) implies
            #[trigger] get(t.bindings, k) == get(st.bindings, k) by {
            assert forall|i: int| 0 <= i < less.len() && i < args.len() implies (
            #[trigger] less[i]).0 != k by {
                assert(first[i] == less[i]);
            }
            assert(get(s.bindings, k) == get(st.bindings, k));
            if n <= args.len() {
                assert(first[n - 1].0 != k);
                lemma_put(s.bindings, params[n - 1].0, args[n - 1], k);
            }
        }
    }
}

/// Inside of a call, where the names of the parameters differ, parameter number `i` stands for
/// argument number `i`, and every other name for what it stood for outside.
pub proof fn lemma_parameters_stand_for_arguments(
    st: State,
    params: Seq<(Seq<char>, Seq<char>)>,
    args: Seq<ValueV>,
)
    requires
        names_differ(params),
    ensures
        enters(st, bind_args(st, params, args, params.len()), params, args),
        forall|i: int|
            0 <= i < params.len() && i < args.len() ==> get(
                bind_args(st, params, args, params.len()).bindings,
                (#[trigger] params[i]).0,
            ) == Some(args[i]),
{
    lemma_bind_first_args(st, params, args, params.len());
    assert(params.take(params.len() as int) =~= params);
}

/// The public bindings of two parts of a body are those of the first and those of the second, and
/// those of one statement are its name and its right-hand side where it is a public binding.
pub proof fn lemma_publics(a: Seq<StmtV>, b: Seq<StmtV>, s: StmtV)
    ensures
        publics(a + b) == publics(a) + publics(b),
        publics(seq![s]) == (match s {
            StmtV::Binding { is_public: true, name, value } => seq![(name, value)],
            _ => Seq::empty(),
        }),
    decreases b.len(),
{
    reveal_with_fuel(publics, 2);
    assert(seq![s].drop_last() =~= Seq::empty());
    assert(publics(seq![s]) =~= (match s {
        StmtV::Binding { is_public: true, name, value } => seq![(name, value)],
        _ => Seq::empty(),
    }));
    if b.len() == 0 {
        assert(a + b =~= a);
        assert(publics(a) + publics(b) =~= publics(a));
    } else {
        lemma_publics(a, b.drop_last(), s);
        assert((a + b).drop_last() =~= a + b.drop_last());
        assert((a + b).last() == b.last());
        assert(publics(a + b) =~= publics(a) + publics(b));
    }
}

/// The fields of what a call gives: under the name of a public binding what is bound to it inside
/// of the call, and under no other name anything.
pub proof fn lemma_public_fields(bindings: Fields, pubs: Seq<(Seq<char>, ExprV)>, k: Seq<char>)
    ensures
        get(public_fields(bindings, pubs, pubs.len()), k) == (if is_absent(pubs, k) {
            None
        } else {
            get(bindings, k)
        }),
{
    lemma_first_public_fields(bindings, pubs, pubs.len(), k);
    assert(pubs.take(pubs.len() as int) =~= pubs);
}

proof fn lemma_first_public_fields(
    bindings: Fields,
    pubs: Seq<(Seq<char>, ExprV)>,
    n: nat,
    k: Seq<char>,
)
    requires
        n <= pubs.len(),
    ensures
        get(public_fields(bindings, pubs, n), k) == (if is_absent(pubs.take(n as int), k) {
            None
        } else {
            get(bindings, k)
        }),
    decreases n,
{
    let f = public_fields(bindings, pubs, n);
    let first = pubs.take(n as int);
    if n == 0 {
        lemma_get(f, k, 0);
    } else {
        let m = (n - 1) as nat;
        let less = pubs.take(m as int);
        lemma_first_public_fields(bindings, pubs, m, k);
        let rest = public_fields(bindings, pubs, m);
        let name = pubs[n - 1].0;
        if get(bindings, name) is Some {
            lemma_put(rest, name, get(bindings, name)->Some_0, k);
        }
        assert(first[n - 1] == pubs[n - 1]);
        if is_absent(first, k) {
            assert forall|i: int| 0 <= i < less.len() implies (#[trigger] less[i]).0 != k by {
                assert(first[i] == less[i]);
            }
        } else if name != k {
            let i = choose|i: int| 0 <= i < first.len() && (#[trigger] first[i]).0 == k;
            assert(less[i] == first[i]);
        }
    }
}

proof fn lemma_with_missing(f: Fields, more: Fields, n: nat, k: Seq<char>)
    requires
        n <= more.len(),
    ensures
        get(with_missing(f, more, n), k) == (if get(f, k) is Some {
            get(f, k)
        } else {
            get(more.take(n as int), k)
        }),
    decreases n,
{
    let first = more.take(n as int);
    if n == 0 {
        lemma_get(first, k, 0);
    } else {
        let m = (n - 1) as nat;
        let less = more.take(m as int);
        lemma_with_missing(f, more, m, k);
        lemma_with_missing(f, more, m, more[n - 1].0);
        let rest = with_missing(f, more, m);
        lemma_put(rest, more[n - 1].0, more[n - 1].1, k);
        lemma_get(less, k, 0);
        lemma_get(first, k, n - 1);
        assert(first.take(n - 1) =~= less);
        assert(first[n - 1] == more[n - 1]);
        if !is_absent(less, k) {
            lemma_first_place(less, k);
            let j = place(firsts(less), k, 0)->Some_0;
            assert(first[j] == less[j]);
            assert(first.take(j) =~= less.take(j));
            lemma_get(first, k, j);
            lemma_get(less, k, j);
        } else if more[n - 1].0 != k {
            assert forall|i: int| 0 <= i < first.len() implies (#[trigger] first[i]).0 != k by {
                if i < m {
                    assert(first[i] == less[i]);
                }
            }
            lemma_get(first, k, 0);
        }
    }
}

proof fn lemma_first_place<T>(f: Seq<(Seq<char>, T)>, k: Seq<char>)
    requires
        !is_absent(f, k),
    ensures
        place(firsts(f), k, 0) matches Some(j) && 0 <= j < f.len() && f[j].0 == k && is_absent(
            f.take(j),
            k,
        ),
{
    lemma_place(firsts(f), k, 0);
    let i = choose|i: int| 0 <= i < f.len() && (#[trigger] f[i]).0 == k;
    assert(firsts(f)[i] == k);
    let j = place(firsts(f), k, 0)->Some_0;
    assert forall|m: int| 0 <= m < f.take(j).len() implies (#[trigger] f.take(j)[m]).0 != k by {
        assert(firsts(f)[m] != k);
    }
}

/// What a call gives. Where the body gives a structure, that has its own fields, and the public
/// bindings where it has none of that name. Another value stands under `_value` beside the public
/// bindings, or by itself where there are none. Where the body gives nothing, the public bindings
/// are given, or 0.
pub proof fn lemma_call_value(result: Option<ValueV>, public: Fields, k: Seq<char>)
    ensures
        ({
            let v = call_value(result, public);
            &&& result matches Some(ValueV::Struct(f)) ==> v is Struct && field_of(v, k) == (
            if get(f, k) is Some {
                get(f, k)
            } else {
                get(public, k)
            })
            &&& result is Some && !(result->Some_0 is Struct) && public.len() > 0 ==> v is Struct
                && field_of(v, k) == (if k == "_value"@ {
                result
            } else {
                get(public, k)
            })
            &&& result is Some && public.len() == 0 && !(result->Some_0 is Struct) ==> Some(v)
                == result
            &&& result is None && public.len() > 0 ==> v is Struct && field_of(v, k) == get(
                public,
                k,
            )
            &&& result is None && public.len() == 0 ==> v == ValueV::Expr(IrExprV::Const(0))
        }),
{
    match result {
        Some(ValueV::Struct(f)) => {
            lemma_with_missing(f, public, public.len(), k);
            assert(public.take(public.len() as int) =~= public);
        },
        Some(v) => {
            lemma_put(public, "_value"@, v, k);
        },
        None => {},
    }
}

/// What a call of a component is that is expanded: its body runs with the parameters for the
/// arguments, names that it made inside are gone behind it, and it gives what the body gives
/// together with what its public bindings stand for inside.
pub proof fn lemma_expanded_call(
    env: Env,
    st: State,
    name: Seq<char>,
    args: Seq<ValueV>,
    type_args: Seq<u64>,
    prefix: Seq<char>,
    depth: nat,
) -> (inner: State)
    requires
        !is_builtin(name),
        !env.externs.dom().contains(name),
        env.components.dom().contains(name),
        !env.abstracts.contains(name),
        names_differ(env.components[name].params),
    ensures
        enters(st, inner, env.components[name].params, args),
        body(env, inner, env.components[name].body, 0, None, inner_prefix(prefix, name), depth)
            matches Run::Done(s, result) ==> {
            &&& call(env, st, name, args, type_args, prefix, depth) matches Run::Done(t, v)
            &&& t == (State { bindings: st.bindings, ..s })
            &&& exists|public: Fields|
                v == #[trigger] call_value(result, public) && (forall|k: Seq<char>| #[trigger]
                    get(public, k) == (if is_absent(publics(env.components[name].body), k) {
                        None
                    } else {
                        get(s.bindings, k)
                    }))
        },
        body(env, inner, env.components[name].body, 0, None, inner_prefix(prefix, name), depth)
            is Done <==> call(env, st, name, args, type_args, prefix, depth) is Done,
        body(env, inner, env.components[name].body, 0, None, inner_prefix(prefix, name), depth)
            matches Run::Fail(m) ==> call(env, st, name, args, type_args, prefix, depth)
            == Run::<ValueV>::Fail(m),
{
    reveal(call);
    reveal(body);
    let comp = env.components[name];
    let inner = bind_args(st, comp.params, args, comp.params.len());
    lemma_parameters_stand_for_arguments(st, comp.params, args);
    match body(env, inner, comp.body, 0, None, inner_prefix(prefix, name), depth) {
        Run::Done(s, result) => {
            let pubs = publics(comp.body);
            let public = public_fields(s.bindings, pubs, pubs.len());
            assert forall|k: Seq<char>| #[trigger] get(public, k) == (if is_absent(pubs, k) {
                None
            } else {
                get(s.bindings, k)
            }) by {
                lemma_public_fields(s.bindings, pubs, k);
            }
        },
        _ => {},
    }
    inner
}

// ---------------------------------------------------------------------------
// Parameters as inputs
// ---------------------------------------------------------------------------

/// The inputs of two parts of the parameters are those of the first and then those of the second.
pub proof fn lemma_inputs_in_order(
    env: Env,
    st: State,
    a: Seq<(Seq<char>, Seq<char>)>,
    b: Seq<(Seq<char>, Seq<char>)>,
)
    ensures
        param_inputs(env, st, a + b, (a + b).len()) == param_inputs(
            env,
            param_inputs(env, st, a, a.len()),
            b,
            b.len(),
        ),
{
    lemma_inputs_behind(env, st, a, b, b.len());
}

proof fn lemma_inputs_behind(
    env: Env,
    st: State,
    a: Seq<(Seq<char>, Seq<char>)>,
    b: Seq<(Seq<char>, Seq<char>)>,
    n: nat,
)
    requires
        n <= b.len(),
    ensures
        param_inputs(env, st, a + b, a.len() + n) == param_inputs(
            env,
            param_inputs(env, st, a, a.len()),
            b,
            n,
        ),
    decreases n,
{
    if n == 0 {
        lemma_inputs_of_start(env, st, a, b, a.len());
    } else {
        lemma_inputs_behind(env, st, a, b, (n - 1) as nat);
        assert((a + b)[a.len() + n - 1] == b[n - 1]);
    }
}

proof fn lemma_inputs_of_start(
    env: Env,
    st: State,
    a: Seq<(Seq<char>, Seq<char>)>,
    b: Seq<(Seq<char>, Seq<char>)>,
    n: nat,
)
    requires
        n <= a.len(),
    ensures
        param_inputs(env, st, a + b, n) == param_inputs(env, st, a, n),
    decreases n,
{
    if n > 0 {
        lemma_inputs_of_start(env, st, a, b, (n - 1) as nat);
        assert((a + b)[n - 1] == a[n - 1]);
    }
}

/// The inputs of one parameter. A number in two halves is two inputs of 16 bits, the low half
/// first; a parameter whose type is a component with public bindings is an input for each of them;
/// any other is one input of its own name, of 32 bits where its type is `U32` and no component.
/// The parameter stands for what is made of its inputs.
pub proof fn lemma_input_of_one(env: Env, st: State, name: Seq<char>, ty: Seq<char>)
    ensures
        ({
            let s = param_inputs(env, st, seq![(name, ty)], 1);
            let low = VarV { name: name + ".low"@, vtype: VarType::U16 };
            let high = VarV { name: name + ".high"@, vtype: VarType::U16 };
            let pubs = publics(env.components[ty].body);
            let wide = ty == "ValU32"@ || ty == "DenormedValU32"@;
            let fields = !wide && env.components.dom().contains(ty) && pubs.len() > 0;
            &&& s.spec.outputs == st.spec.outputs
            &&& s.spec.internals == st.spec.internals
            &&& s.spec.constraints == st.spec.constraints
            &&& s.counter == st.counter
            &&& s.guard == st.guard
            &&& wide ==> s.spec.inputs == st.spec.inputs + seq![low, high] && get(s.bindings, name)
                == Some(
                ValueV::Struct(
                    seq![
                        ("low"@, ValueV::Expr(IrExprV::Var(low.name))),
                        ("high"@, ValueV::Expr(IrExprV::Var(high.name))),
                    ],
                ),
            )
            &&& fields ==> s.spec.inputs == st.spec.inputs + Seq::new(
                pubs.len(),
                |i: int| VarV { name: name + "."@ + pubs[i].0, vtype: VarType::Val },
            )
            &&& fields ==> get(s.bindings, name) is Some && forall|k: Seq<char>| #[trigger]
                field_of(get(s.bindings, name)->Some_0, k) == (if is_absent(pubs, k) {
                    None
                } else {
                    Some(ValueV::Expr(IrExprV::Var(name + "."@ + k)))
                })
            &&& !wide && !fields ==> s.spec.inputs == st.spec.inputs.push(
                VarV {
                    name,
                    vtype: if ty == "U32"@ && !env.components.dom().contains(ty) {
                        VarType::U32
                    } else {
                        VarType::Val
                    },
                },
            ) && get(s.bindings, name) == Some(ValueV::Expr(IrExprV::Var(name)))
            &&& forall|k: Seq<char>|
                k != name ==> #[trigger] get(s.bindings, k) == get(st.bindings, k)
        }),
{
    reveal_with_fuel(param_inputs, 2);
    let p = seq![(name, ty)];
    let s = param_inputs(env, st, p, 1);
    assert(p[0] == (name, ty));
    assert(s == param_input(env, st, name, ty));
    let pubs = publics(env.components[ty].body);
    let d = declare_inputs(st, name, pubs, pubs.len());
    lemma_declared_inputs(st, name, pubs, pubs.len());
    assert(pubs.take(pubs.len() as int) =~= pubs);
    let v = get(s.bindings, name)->Some_0;
    lemma_put(st.bindings, name, v, name);
    let x = halves(var_value(name + ".low"@), var_value(name + ".high"@));
    lemma_put(st.bindings, name, x, name);
    let y = ValueV::Struct(input_fields(name, pubs, pubs.len()));
    lemma_put(st.bindings, name, y, name);
    lemma_put(st.bindings, name, var_value(name), name);
    assert(x->Struct_0 =~= seq![
        ("low"@, ValueV::Expr(IrExprV::Var(name + ".low"@))),
        ("high"@, ValueV::Expr(IrExprV::Var(name + ".high"@))),
    ]);
    assert forall|k: Seq<char>| k != name implies #[trigger] get(s.bindings, k) == get(
        st.bindings,
        k,
    ) by {
        lemma_put(st.bindings, name, x, k);
        lemma_put(st.bindings, name, y, k);
        lemma_put(st.bindings, name, var_value(name), k);
    }
    assert forall|k: Seq<char>| #[trigger] field_of(y, k) == (if is_absent(pubs, k) {
        None
    } else {
        Some(ValueV::Expr(IrExprV::Var(name + "."@ + k)))
    }) by {
        lemma_input_fields(name, pubs, pubs.len(), k);
    }
}

proof fn lemma_declared_inputs(
    st: State,
    name: Seq<char>,
    pubs: Seq<(Seq<char>, ExprV)>,
    n: nat,
)
    requires
        n <= pubs.len(),
    ensures
        ({
            let s = declare_inputs(st, name, pubs, n);
            &&& s.spec.inputs == st.spec.inputs + Seq::new(
                n,
                |i: int| VarV { name: name + "."@ + pubs[i].0, vtype: VarType::Val },
            )
            &&& s.spec.outputs == st.spec.outputs
            &&& s.spec.internals == st.spec.internals
            &&& s.spec.constraints == st.spec.constraints
            &&& s.bindings == st.bindings
            &&& s.counter == st.counter
            &&& s.guard == st.guard
        }),
    decreases n,
{
    if n > 0 {
        lemma_declared_inputs(st, name, pubs, (n - 1) as nat);
    }
    assert(declare_inputs(st, name, pubs, n).spec.inputs =~= st.spec.inputs + Seq::new(
        n,
        |i: int| VarV { name: name + "."@ + pubs[i].0, vtype: VarType::Val },
    ));
}

proof fn lemma_input_fields(
    name: Seq<char>,
    pubs: Seq<(Seq<char>, ExprV)>,
    n: nat,
    k: Seq<char>,
)
    requires
        n <= pubs.len(),
    ensures
        get(input_fields(name, pubs, n), k) == (if is_absent(pubs.take(n as int), k) {
            None
        } else {
            Some(ValueV::Expr(IrExprV::Var(name + "."@ + k)))
        }),
    decreases n,
{
    let f = input_fields(name, pubs, n);
    let first = pubs.take(n as int);
    if n == 0 {
        lemma_get(f, k, 0);
    } else {
        let m = (n - 1) as nat;
        let less = pubs.take(m as int);
        lemma_input_fields(name, pubs, m, k);
        let x = pubs[n - 1].0;
        lemma_put(input_fields(name, pubs, m), x, var_value(name + "."@ + x), k);
        assert(first[n - 1] == pubs[n - 1]);
        if is_absent(first, k) {
            assert forall|i: int| 0 <= i < less.len() implies (#[trigger] less[i]).0 != k by {
                assert(first[i] == less[i]);
            }
        } else if x != k {
            let i = choose|i: int| 0 <= i < first.len() && (#[trigger] first[i]).0 == k;
            assert(less[i] == first[i]);
        }
    }
}

} // verus!
