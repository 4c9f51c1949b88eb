//! What is made of new variables.

use vstd::prelude::*;
use crate::ir::{IrExprV, VarType};
use crate::ir::rules::{
    and_call, bit_name, declare_bits, declare_pairs, fresh_fields, fresh_scalar, fresh_value,
    from_bits_call, is_halves, publics, room, shown_type, to_bits_call, Env, Run, State,
};
use crate::ir::value::{field_of, get, put, ValueV};
use crate::laws::bindings::lemma_put;
use crate::laws::evaluation::lemma_halves;
use crate::parser::ast::{ComponentV, ExprV};

verus! {

/// Whether some variables of one type come behind those that an instruction has, and nothing but
/// names is made with them.
pub open spec fn adds_variables(st: State, s: State, n: nat, t: VarType) -> bool {
    &&& s.counter == st.counter + n
    &&& s.bindings == st.bindings
    &&& s.guard == st.guard
    &&& s.spec.inputs == st.spec.inputs
    &&& s.spec.outputs == st.spec.outputs
    &&& s.spec.internals.len() == st.spec.internals.len() + n
    &&& s.spec.internals.take(st.spec.internals.len() as int) == st.spec.internals
    &&& forall|i: int|
        st.spec.internals.len() <= i < s.spec.internals.len() ==> (
        #[trigger] s.spec.internals[i]).vtype == t
}

proof fn lemma_declared_bits(st: State, prefix: Seq<char>, n: nat)
    ensures
        adds_variables(st, declare_bits(st, prefix, n), n, VarType::Bit),
        declare_bits(st, prefix, n).spec.constraints == st.spec.constraints,
        forall|i: int|
            0 <= i < n ==> declare_bits(st, prefix, n).spec.internals[st.spec.internals.len() + i].name
                == #[trigger] bit_name(prefix, st.counter, i as nat),
    decreases n,
{
    if n > 0 {
        lemma_declared_bits(st, prefix, (n - 1) as nat);
        let a = declare_bits(st, prefix, (n - 1) as nat).spec.internals;
        let b = declare_bits(st, prefix, n).spec.internals;
        let k = st.spec.internals.len() as int;
        assert(b == a.push(b.last()));
        assert(b.take(k) =~= a.take(k));
    } else {
        let k = st.spec.internals.len() as int;
        assert(st.spec.internals.take(k) =~= st.spec.internals);
    }
}

/// A scalar is taken apart into as many bits as the call asks for, 16 where it does not say, and at
/// most 64. They are new variables, each a bit, in the order of their weights, and one constraint
/// comes with them.
pub proof fn lemma_taken_apart(
    st: State,
    e: IrExprV,
    type_args: Seq<u64>,
    prefix: Seq<char>,
)
    ensures
        ({
            let n: nat = if type_args.len() == 0 {
                16
            } else {
                type_args[0] as nat
            };
            let r = to_bits_call(st, seq![ValueV::Expr(e)], type_args, prefix);
            &&& n > 64 ==> r is Stop
            &&& n <= 64 && room(st, n as int) ==> r is Done && adds_variables(
                st,
                r->Done_0,
                n,
                VarType::Bit,
            ) && r->Done_0.spec.constraints.len() == st.spec.constraints.len() + 1
                && r->Done_1 is BitArray && r->Done_1->BitArray_0.len() == n && forall|i: int|
                0 <= i < n ==> #[trigger] r->Done_1->BitArray_0[i] == IrExprV::Var(
                    r->Done_0.spec.internals[st.spec.internals.len() + i].name,
                )
        }),
{
    let n: nat = if type_args.len() == 0 {
        16
    } else {
        type_args[0] as nat
    };
    lemma_declared_bits(st, prefix, n);
    let r = to_bits_call(st, seq![ValueV::Expr(e)], type_args, prefix);
    if n <= 64 && room(st, n as int) {
        assert forall|i: int| 0 <= i < n implies #[trigger] r->Done_1->BitArray_0[i]
            == IrExprV::Var(r->Done_0.spec.internals[st.spec.internals.len() + i].name) by {
            let x = bit_name(prefix, st.counter, i as nat);
            assert(r->Done_1->BitArray_0[i] == IrExprV::Var(x));
        }
    }
}

/// Up to 64 bits are put together to a scalar, and nothing is made for it. Anything but an array is
/// refused.
pub proof fn lemma_put_together(st: State, v: ValueV)
    ensures
        v matches ValueV::BitArray(bits) ==> (from_bits_call(st, seq![v]) is Done <==> bits.len()
            <= 64),
        from_bits_call(st, seq![v]) matches Run::Done(s, w) ==> s == st && w is Expr,
        from_bits_call(st, seq![v]) is Fail <==> !(v is BitArray),
{
}

proof fn lemma_declared_pairs(st: State, prefix: Seq<char>, n: nat)
    ensures
        adds_variables(st, declare_pairs(st, prefix, n), 2 * n, VarType::Bit),
        declare_pairs(st, prefix, n).spec.constraints == st.spec.constraints,
    decreases n,
{
    let k = st.spec.internals.len() as int;
    if n > 0 {
        lemma_declared_pairs(st, prefix, (n - 1) as nat);
        let a = declare_pairs(st, prefix, (n - 1) as nat).spec.internals;
        let b = declare_pairs(st, prefix, n).spec.internals;
        assert(b.len() == a.len() + 2);
        assert(b.take(k) =~= a.take(k));
        assert forall|i: int| k <= i < b.len() implies (#[trigger] b[i]).vtype == VarType::Bit by {
            if i < a.len() {
                assert(b[i] == a[i]);
            }
        }
    } else {
        assert(st.spec.internals.take(k) =~= st.spec.internals);
    }
}

/// For a conjunction 32 bits and the result, which has 16 bits, are new, and three constraints come
/// with them.
pub proof fn lemma_conjunction_is_made(st: State, x: IrExprV, y: IrExprV, prefix: Seq<char>)
    requires
        room(st, 33),
    ensures
        ({
            let r = and_call(st, seq![ValueV::Expr(x), ValueV::Expr(y)], prefix);
            let k = st.spec.internals.len() as int;
            &&& r is Done
            &&& r->Done_0.counter == st.counter + 33
            &&& r->Done_0.spec.constraints.len() == st.spec.constraints.len() + 3
            &&& r->Done_0.spec.internals.len() == k + 33
            &&& forall|i: int|
                k <= i < k + 32 ==> (#[trigger] r->Done_0.spec.internals[i]).vtype == VarType::Bit
            &&& r->Done_0.spec.internals[k + 32].vtype == VarType::U16
            &&& r->Done_1 == ValueV::Expr(IrExprV::Var(r->Done_0.spec.internals[k + 32].name))
        }),
{
    lemma_declared_pairs(st, prefix, 16);
    let r = and_call(st, seq![ValueV::Expr(x), ValueV::Expr(y)], prefix);
    let k = st.spec.internals.len() as int;
    let a = declare_pairs(st, prefix, 16).spec.internals;
    let b = r->Done_0.spec.internals;
    assert(b == a.push(b.last()));
    assert forall|i: int| k <= i < k + 32 implies (#[trigger] b[i]).vtype == VarType::Bit by {
        assert(b[i] == a[i]);
    }
}

/// Whether a value is a new variable that is free in the range of `Val`.
pub open spec fn is_new_scalar(st: State, s: State, v: ValueV) -> bool {
    exists|i: int|
        st.spec.internals.len() <= i < s.spec.internals.len() && v == ValueV::Expr(
            IrExprV::Var((#[trigger] s.spec.internals[i]).name),
        ) && s.spec.internals[i].vtype == VarType::Val
}

/// A new number in two halves is two new variables, first the low one, and they are its fields.
pub proof fn lemma_new_halves(env: Env, st: State, ty: Seq<char>, prefix: Seq<char>, depth: nat)
    requires
        is_halves(ty),
        room(st, 2),
    ensures
        ({
            let r = fresh_value(env, st, ty, prefix, depth);
            let k = st.spec.internals.len() as int;
            &&& r is Done
            &&& adds_variables(st, r->Done_0, 2, VarType::Val)
            &&& r->Done_0.spec.constraints == st.spec.constraints
            &&& field_of(r->Done_1, "low"@) == Some(
                ValueV::Expr(IrExprV::Var(r->Done_0.spec.internals[k].name)),
            )
            &&& field_of(r->Done_1, "high"@) == Some(
                ValueV::Expr(IrExprV::Var(r->Done_0.spec.internals[k + 1].name)),
            )
        }),
{
    let r = fresh_value(env, st, ty, prefix, depth);
    let a = st.spec.internals;
    let b = r->Done_0.spec.internals;
    assert(b.take(a.len() as int) =~= a);
    lemma_halves(
        ValueV::Expr(IrExprV::Var(b[a.len() as int].name)),
        ValueV::Expr(IrExprV::Var(b[a.len() as int + 1].name)),
    );
}

/// Whether a state goes on from another: what was there is still there, and nothing but variables
/// came behind it.
pub open spec fn goes_on(st: State, s: State) -> bool {
    &&& s.bindings == st.bindings
    &&& s.guard == st.guard
    &&& s.spec.inputs == st.spec.inputs
    &&& s.spec.outputs == st.spec.outputs
    &&& s.spec.constraints == st.spec.constraints
    &&& st.spec.internals.len() <= s.spec.internals.len()
    &&& s.spec.internals.take(st.spec.internals.len() as int) == st.spec.internals
}

proof fn lemma_goes_on_then(a: State, b: State, c: State)
    requires
        goes_on(a, b),
        goes_on(b, c),
    ensures
        goes_on(a, c),
{
    let k = a.spec.internals.len() as int;
    let m = b.spec.internals.len() as int;
    assert(c.spec.internals.take(k) =~= c.spec.internals.take(m).take(k));
}

/// A new scalar is one new variable, free in the range of `Val`.
pub proof fn lemma_new_scalar(st: State, prefix: Seq<char>, name: Seq<char>)
    requires
        room(st, 1),
    ensures
        fresh_scalar(st, prefix, name) matches Run::Done(s, v) && goes_on(st, s) && is_new_scalar(
            st,
            s,
            v,
        ) && s.spec.internals.len() == st.spec.internals.len() + 1 && s.counter == st.counter + 1,
{
    let r = fresh_scalar(st, prefix, name);
    let a = st.spec.internals;
    let b = r->Done_0.spec.internals;
    assert(b.take(a.len() as int) =~= a);
    assert(b[a.len() as int].vtype == VarType::Val);
}

/// Whether a type is made of parts.
pub open spec fn has_parts(env: Env, t: Option<Seq<char>>) -> bool {
    t is Some && (is_halves(t->Some_0) || env.components.dom().contains(t->Some_0))
}

/// A new value of a type only adds variables. It is a structure where the type is one, and a new
/// scalar otherwise.
pub proof fn lemma_new_value(env: Env, st: State, ty: Seq<char>, prefix: Seq<char>, depth: nat)
    ensures
        fresh_value(env, st, ty, prefix, depth) matches Run::Done(s, v) ==> goes_on(st, s) && (
        if has_parts(env, Some(ty)) {
            v is Struct
        } else {
            is_new_scalar(st, s, v)
        }),
        !(fresh_value(env, st, ty, prefix, depth) is Fail),
    decreases depth, 0int, 0int,
{
    if is_halves(ty) {
        if room(st, 2) {
            lemma_new_halves(env, st, ty, prefix, depth);
        }
    } else if env.components.dom().contains(ty) {
        if depth > 0 {
            let comp = env.components[ty];
            lemma_new_fields(
                env,
                st,
                comp,
                publics(comp.body),
                0,
                Seq::empty(),
                prefix,
                (depth - 1) as nat,
            );
        }
    } else if room(st, 1) {
        lemma_new_scalar(st, prefix, "ext"@);
    }
}

/// The structure that is made of a component has a field for each public binding: a structure where
/// its type is made of parts, and a scalar otherwise. What it had under other names stays.
pub proof fn lemma_new_fields(
    env: Env,
    st: State,
    comp: ComponentV,
    pubs: Seq<(Seq<char>, ExprV)>,
    i: int,
    acc: Seq<(Seq<char>, ValueV)>,
    prefix: Seq<char>,
    depth: nat,
)
    requires
        0 <= i <= pubs.len(),
    ensures
        !(fresh_fields(env, st, comp, pubs, i, acc, prefix, depth) is Fail),
        fresh_fields(env, st, comp, pubs, i, acc, prefix, depth) matches Run::Done(s, v) ==> {
            &&& goes_on(st, s)
            &&& v is Struct
            &&& forall|j: int|
                i <= j < pubs.len() ==> field_of(v, (#[trigger] pubs[j]).0) is Some
            &&& forall|j: int|
                i <= j < pubs.len() && (forall|k: int|
                    j < k < pubs.len() ==> (#[trigger] pubs[k]).0 != pubs[j].0) ==> ((
                #[trigger] field_of(v, pubs[j].0))->Some_0 is Struct <==> has_parts(
                    env,
                    shown_type(comp, pubs[j].1),
                ))
            &&& forall|x: Seq<char>|
                (forall|j: int| i <= j < pubs.len() ==> (#[trigger] pubs[j]).0 != x)
                    ==> #[trigger] field_of(v, x) == get(acc, x)
        },
    decreases depth, 1int, pubs.len() - i,
{
    if i < pubs.len() {
        let t = shown_type(comp, pubs[i].1);
        let r = if has_parts(env, t) {
            fresh_value(env, st, t->Some_0, prefix, depth)
        } else {
            fresh_scalar(st, prefix, pubs[i].0)
        };
        if has_parts(env, t) {
            lemma_new_value(env, st, t->Some_0, prefix, depth);
        } else if room(st, 1) {
            lemma_new_scalar(st, prefix, pubs[i].0);
        }
        if let Run::Done(s1, w) = r {
            let more = put(acc, pubs[i].0, w);
            lemma_new_fields(env, s1, comp, pubs, i + 1, more, prefix, depth);
            if let Run::Done(s, v) = fresh_fields(env, st, comp, pubs, i, acc, prefix, depth) {
                lemma_goes_on_then(st, s1, s);
                assert forall|x: Seq<char>| x != pubs[i].0 implies #[trigger] get(more, x) == get(
                    acc,
                    x,
                ) by {
                    lemma_put(acc, pubs[i].0, w, x);
                }
                lemma_put(acc, pubs[i].0, w, pubs[i].0);
                assert forall|j: int| i <= j < pubs.len() implies field_of(
                    v,
                    (#[trigger] pubs[j]).0,
                ) is Some by {
                    if j == i {
                        if forall|k: int| i < k < pubs.len() ==> (#[trigger] pubs[k]).0 != pubs[i].0 {
                            assert(field_of(v, pubs[i].0) == get(more, pubs[i].0));
                        } else {
                            let k = choose|k: int|
                                i < k < pubs.len() && (#[trigger] pubs[k]).0 == pubs[i].0;
                            assert(field_of(v, pubs[k].0) is Some);
                        }
                    }
                }
                assert forall|j: int|
                    i <= j < pubs.len() && (forall|k: int|
                        j < k < pubs.len() ==> (#[trigger] pubs[k]).0 != pubs[j].0) implies ((
                #[trigger] field_of(v, pubs[j].0))->Some_0 is Struct <==> has_parts(
                    env,
                    shown_type(comp, pubs[j].1),
                )) by {
                    if j == i {
                        assert(field_of(v, pubs[i].0) == get(more, pubs[i].0));
                    }
                }
            }
        }
    } else {
        let k = st.spec.internals.len() as int;
        assert(st.spec.internals.take(k) =~= st.spec.internals);
    }
}

} // verus!
