//! Laws of lowering.

use vstd::prelude::*;
use crate::ir::rules::{
    abstract_call, abstract_results, add_outputs, and_bits, and_call, arg_values, bind, bind_args,
    bind_value, bit_count, bit_name, bit_sum, bit_vars, body, bound_register, bound_value,
    builtin_call, call, call_value, choose_register, chosen_register, declare, declare_bits,
    declare_input, declare_inputs, declare_output, declare_pairs, elements, emit, equal_register,
    equate, equation, expr, flat_arg, flat_args, flat_fields, fresh_fields, fresh_scalar, fresh_value,
    guessed_type, ident_value, inner_guard, inner_prefix, input_fields, is_builtin, is_halves,
    is_zero_call, lowered, makes_halves, mux, next_name, operation, outputs_of, outputs_of_fields,
    param_inputs, public_fields, publics, room, scalar_arg, shown_type, start, stmt, tick, times,
    to_bits_call, var, var_value, with_missing, x_bit, x_bits, y_bit, y_bits, Env, Lowered, Output,
    Run, State,
};
use crate::ir::value::{
    each_once, field_of, firsts, get, halves, lemma_place, lemma_put_each_once, place, put, tidy,
    tidy_fields, Fields, ValueV,
};
use crate::ir::{ConstraintV, IrExprV, VarType, VarV};
use crate::laws::determinism::{
    all_divisionless, divisionless, divisionless_constraint, results_known,
};
use crate::laws::naming::{
    lemma_ascending_tags_differ, lemma_fresh_is_tagged, lemma_tags_push, tag, tagged,
    tags_ascend,
};
use crate::model::declared;
use crate::parser::ast::{ComponentV, ExprV, Op, StmtV};
use crate::text::{digits, unicode_lowercase};

verus! {

// ---------------------------------------------------------------------------
// What every step keeps
// ---------------------------------------------------------------------------

/// Whether there is no division in a value, and the fields of structures in it have each name
/// once.
pub open spec fn clean_value(v: ValueV) -> bool
    decreases v,
{
    match v {
        ValueV::Expr(e) => divisionless(e),
        ValueV::Struct(f) => clean_fields(f),
        ValueV::BitArray(b) => clean_exprs(b),
    }
}

/// Whether there is no division in the values of fields, and each name stands once.
pub open spec fn clean_fields(f: Fields) -> bool
    decreases f,
{
    each_once(f) && forall|i: int| 0 <= i < f.len() ==> clean_value((#[trigger] f[i]).1)
}

/// Whether there is no division in expressions.
pub open spec fn clean_exprs(v: Seq<IrExprV>) -> bool {
    forall|i: int| 0 <= i < v.len() ==> divisionless(#[trigger] v[i])
}

/// Whether there is no division in values.
pub open spec fn clean_values(v: Seq<ValueV>) -> bool {
    forall|i: int| 0 <= i < v.len() ==> clean_value(#[trigger] v[i])
}

/// Whether the variables that constraints determine are among `vs`.
pub open spec fn all_settled(vs: Seq<VarV>, cs: Seq<ConstraintV>) -> bool {
    forall|i: int| 0 <= i < cs.len() ==> results_known(vs, #[trigger] cs[i])
}

/// Whether a state holds no division, the variables that its constraints determine are
/// declared, and its variables that are neither input nor output have names that end in
/// numbers up to `limit`, in ascending order.
#[verifier::opaque]
pub open spec fn sound_below(st: State, limit: nat) -> bool {
    &&& clean_fields(st.bindings)
    &&& st.guard is Some ==> divisionless(st.guard->Some_0)
    &&& all_divisionless(st.spec.constraints)
    &&& all_settled(st.spec.internals, st.spec.constraints)
    &&& tags_ascend(st.spec.internals, limit)
    &&& limit <= st.counter
}

/// Whether a state is sound: the numbers in names are those that were given out.
pub open spec fn sound(st: State) -> bool {
    sound_below(st, st.counter)
}

/// Whether `b` is `a` with more at the end.
pub open spec fn begins<T>(a: Seq<T>, b: Seq<T>) -> bool {
    a.len() <= b.len() && b.take(a.len() as int) == a
}

/// Whether a state comes from another by adding to it: the inputs stay, and outputs,
/// other variables and constraints are only added.
#[verifier::opaque]
pub open spec fn extends(a: State, b: State) -> bool {
    &&& a.spec.name == b.spec.name
    &&& a.spec.source_line == b.spec.source_line
    &&& a.spec.inputs == b.spec.inputs
    &&& begins(a.spec.outputs, b.spec.outputs)
    &&& begins(a.spec.internals, b.spec.internals)
    &&& begins(a.spec.constraints, b.spec.constraints)
    &&& a.counter <= b.counter
}

proof fn lemma_begins_push<T>(a: Seq<T>, x: T)
    ensures
        begins(a, a),
        begins(a, a.push(x)),
{
    assert(a.take(a.len() as int) =~= a);
    assert(a.push(x).take(a.len() as int) =~= a);
}

proof fn lemma_begins_trans<T>(a: Seq<T>, b: Seq<T>, c: Seq<T>)
    requires
        begins(a, b),
        begins(b, c),
    ensures
        begins(a, c),
{
    assert(c.take(a.len() as int) =~= c.take(b.len() as int).take(a.len() as int));
}

proof fn lemma_extends_same(a: State, b: State)
    requires
        a.spec == b.spec,
        a.counter <= b.counter,
    ensures
        extends(a, b),
{
    reveal(extends);
    assert(a.spec.outputs.take(a.spec.outputs.len() as int) =~= a.spec.outputs);
    assert(a.spec.internals.take(a.spec.internals.len() as int) =~= a.spec.internals);
    assert(a.spec.constraints.take(a.spec.constraints.len() as int) =~= a.spec.constraints);
}

proof fn lemma_extends_trans(a: State, b: State, c: State)
    requires
        extends(a, b),
        extends(b, c),
    ensures
        extends(a, c),
{
    reveal(extends);
    lemma_begins_trans(a.spec.outputs, b.spec.outputs, c.spec.outputs);
    lemma_begins_trans(a.spec.internals, b.spec.internals, c.spec.internals);
    lemma_begins_trans(a.spec.constraints, b.spec.constraints, c.spec.constraints);
}

// ---------------------------------------------------------------------------
// Changes of the state
// ---------------------------------------------------------------------------

proof fn lemma_put_clean(f: Fields, k: Seq<char>, v: ValueV)
    requires
        clean_fields(f),
        clean_value(v),
    ensures
        clean_fields(put(f, k, v)),
{
    lemma_place(firsts(f), k, 0);
    lemma_put_each_once(f, k, v);
    let g = put(f, k, v);
    assert forall|i: int| 0 <= i < g.len() implies clean_value((#[trigger] g[i]).1) by {
        if i < f.len() {
            assert(clean_value(f[i].1));
        }
    }
}

proof fn lemma_get_clean(f: Fields, k: Seq<char>)
    requires
        clean_fields(f),
    ensures
        get(f, k) is Some ==> clean_value(get(f, k)->Some_0),
{
    lemma_place(firsts(f), k, 0);
    match place(firsts(f), k, 0) {
        Some(i) => {
            assert(clean_value(f[i].1));
        },
        None => {},
    }
}

proof fn lemma_bind(st: State, name: Seq<char>, v: ValueV)
    requires
        sound(st),
        clean_value(v),
    ensures
        sound(bind(st, name, v)),
        extends(st, bind(st, name, v)),
{
    reveal(sound_below);
    lemma_put_clean(st.bindings, name, v);
    lemma_extends_same(st, bind(st, name, v));
}

proof fn lemma_tick(st: State)
    requires
        sound(st),
    ensures
        sound(tick(st)),
        sound_below(tick(st), st.counter),
        extends(st, tick(st)),
{
    reveal(sound_below);
    lemma_extends_same(st, tick(st));
    let vs = st.spec.internals;
    assert forall|i: int| 0 <= i < vs.len() implies tagged(
        (#[trigger] vs[i]).name,
        tag(vs[i].name),
    ) && tag(vs[i].name) <= st.counter + 1 by {}
}

/// What is declared stays so with one more variable.
proof fn lemma_declared_push(vs: Seq<VarV>, v: VarV)
    ensures
        declared(vs.push(v), v.name),
        forall|x: Seq<char>| declared(vs, x) ==> #[trigger] declared(vs.push(v), x),
{
    let ws = vs.push(v);
    assert(ws[vs.len() as int] == v);
    assert forall|x: Seq<char>| declared(vs, x) implies #[trigger] declared(ws, x) by {
        let i = choose|i: int| 0 <= i < vs.len() && (#[trigger] vs[i]).name == x;
        assert(ws[i] == vs[i]);
    }
}

proof fn lemma_settled_push(vs: Seq<VarV>, v: VarV, cs: Seq<ConstraintV>)
    requires
        all_settled(vs, cs),
    ensures
        all_settled(vs.push(v), cs),
{
    lemma_declared_push(vs, v);
    assert forall|i: int| 0 <= i < cs.len() implies results_known(
        vs.push(v),
        #[trigger] cs[i],
    ) by {
        assert(results_known(vs, cs[i]));
    }
}

/// A variable whose name ends in a number that was not used.
proof fn lemma_declare(st: State, name: Seq<char>, t: VarType, limit: nat, n: nat)
    requires
        sound_below(st, limit),
        tagged(name, n),
        limit < n <= st.counter,
    ensures
        sound_below(declare(st, name, t), n),
        extends(st, declare(st, name, t)),
{
    reveal(sound_below);
    reveal(extends);
    lemma_tags_push(st.spec.internals, limit, VarV { name, vtype: t }, n);
    lemma_settled_push(st.spec.internals, VarV { name, vtype: t }, st.spec.constraints);
    lemma_begins_push(st.spec.internals, VarV { name, vtype: t });
    assert(st.spec.outputs.take(st.spec.outputs.len() as int) =~= st.spec.outputs);
    assert(st.spec.constraints.take(st.spec.constraints.len() as int) =~= st.spec.constraints);
}

/// A variable with the next name.
proof fn lemma_declare_next(st: State, prefix: Seq<char>, name: Seq<char>, t: VarType)
    requires
        sound(st),
    ensures
        sound(declare(tick(st), next_name(st, prefix, name), t)),
        extends(st, declare(tick(st), next_name(st, prefix, name), t)),
{
    let v = next_name(st, prefix, name);
    lemma_tick(st);
    lemma_fresh_is_tagged(prefix, name, st.counter + 1);
    lemma_declare(tick(st), v, t, st.counter, st.counter + 1);
    lemma_extends_trans(st, tick(st), declare(tick(st), v, t));
}

proof fn lemma_declare_output(st: State, name: Seq<char>, t: VarType)
    requires
        sound(st),
    ensures
        sound(declare_output(st, name, t)),
        extends(st, declare_output(st, name, t)),
{
    reveal(sound_below);
    reveal(extends);
    lemma_begins_push(st.spec.outputs, VarV { name, vtype: t });
    assert(st.spec.internals.take(st.spec.internals.len() as int) =~= st.spec.internals);
    assert(st.spec.constraints.take(st.spec.constraints.len() as int) =~= st.spec.constraints);
}

proof fn lemma_emit(st: State, c: ConstraintV)
    requires
        sound(st),
        divisionless_constraint(c),
        results_known(st.spec.internals, c),
    ensures
        sound(emit(st, c)),
        extends(st, emit(st, c)),
{
    reveal(sound_below);
    reveal(extends);
    let cs = st.spec.constraints;
    assert forall|i: int| 0 <= i < cs.push(c).len() implies divisionless_constraint(
        #[trigger] cs.push(c)[i],
    ) by {
        if i < cs.len() {
            assert(divisionless_constraint(cs[i]));
        }
    }
    let vs = st.spec.internals;
    assert forall|i: int| 0 <= i < cs.push(c).len() implies results_known(
        vs,
        #[trigger] cs.push(c)[i],
    ) by {
        if i < cs.len() {
            assert(results_known(vs, cs[i]));
        }
    }
    lemma_begins_push(cs, c);
    assert(st.spec.internals.take(st.spec.internals.len() as int) =~= st.spec.internals);
    assert(st.spec.outputs.take(st.spec.outputs.len() as int) =~= st.spec.outputs);
}

proof fn lemma_emit_after(st: State, s: State, c: ConstraintV)
    requires
        sound(s),
        extends(st, s),
        divisionless_constraint(c),
        results_known(s.spec.internals, c),
    ensures
        sound(emit(s, c)),
        extends(st, emit(s, c)),
{
    lemma_emit(s, c);
    lemma_extends_trans(st, s, emit(s, c));
}

proof fn lemma_equate(st: State, s: State, l: IrExprV, r: IrExprV, tag: Seq<char>)
    requires
        sound(s),
        extends(st, s),
        divisionless(l),
        divisionless(r),
    ensures
        sound(equate(s, l, r, tag)),
        extends(st, equate(s, l, r, tag)),
{
    lemma_guard_clean(s);
    reveal_with_fuel(divisionless, 2);
    lemma_emit_after(st, s, equation(s, l, r, tag));
}

/// Outputs whose expressions hold no division.
spec fn clean_outputs(outs: Seq<Output>) -> bool {
    forall|i: int| 0 <= i < outs.len() ==> divisionless((#[trigger] outs[i]).expr)
}

proof fn lemma_outputs_clean(v: ValueV, name: Seq<char>)
    requires
        clean_value(v),
    ensures
        clean_outputs(outputs_of(v, name)),
    decreases v,
{
    match v {
        ValueV::Struct(f) => {
            lemma_outputs_of_fields_clean(f, f.len(), name);
        },
        _ => {},
    }
}

proof fn lemma_outputs_of_fields_clean(f: Fields, n: nat, name: Seq<char>)
    requires
        clean_fields(f),
        n <= f.len(),
    ensures
        clean_outputs(outputs_of_fields(f, n, name)),
    decreases f, n,
{
    if n > 0 {
        lemma_outputs_of_fields_clean(f, (n - 1) as nat, name);
        let full = name + "."@ + f[n - 1].0;
        assert(clean_value(f[n - 1].1));
        match f[n - 1].1 {
            ValueV::Expr(e) => {},
            _ => {
                lemma_outputs_clean(f[n - 1].1, full);
            },
        }
        let a = outputs_of_fields(f, (n - 1) as nat, name);
        let b = match f[n - 1].1 {
            ValueV::Expr(e) => seq![Output { name: full, vtype: VarType::U16, expr: e }],
            _ => outputs_of(f[n - 1].1, full),
        };
        assert forall|i: int| 0 <= i < (a + b).len() implies divisionless(
            (#[trigger] (a + b)[i]).expr,
        ) by {
            if i < a.len() {
                assert((a + b)[i] == a[i]);
            } else {
                assert((a + b)[i] == b[i - a.len()]);
            }
        }
    }
}

proof fn lemma_add_outputs(st: State, outs: Seq<Output>)
    requires
        sound(st),
        clean_outputs(outs),
    ensures
        sound(add_outputs(st, outs)),
        extends(st, add_outputs(st, outs)),
{
    reveal(sound_below);
    reveal(extends);
    let s = add_outputs(st, outs);
    let cs = st.spec.constraints;
    assert forall|i: int| 0 <= i < s.spec.constraints.len() implies divisionless_constraint(
        #[trigger] s.spec.constraints[i],
    ) by {
        if i < cs.len() {
            assert(divisionless_constraint(cs[i]));
            assert(s.spec.constraints[i] == cs[i]);
        } else {
            let o = outs[i - cs.len()];
            reveal_with_fuel(divisionless, 2);
            assert(divisionless(o.expr));
        }
    }
    let vs = st.spec.internals;
    assert forall|i: int| 0 <= i < s.spec.constraints.len() implies results_known(
        vs,
        #[trigger] s.spec.constraints[i],
    ) by {
        if i < cs.len() {
            assert(results_known(vs, cs[i]));
            assert(s.spec.constraints[i] == cs[i]);
        }
    }
    assert(s.spec.constraints.take(cs.len() as int) =~= cs);
    assert(s.spec.outputs.take(st.spec.outputs.len() as int) =~= st.spec.outputs);
    assert(st.spec.internals.take(st.spec.internals.len() as int) =~= st.spec.internals);
}

// ---------------------------------------------------------------------------
// Calls with rules of their own
// ---------------------------------------------------------------------------

/// Whether a step that is done keeps what every step keeps.
pub open spec fn keeps(st: State, r: Run<ValueV>) -> bool {
    match r {
        Run::Done(s, v) => sound(s) && extends(st, s) && clean_value(v) && s.guard == st.guard,
        _ => true,
    }
}

proof fn lemma_bit_sum_clean(bits: Seq<IrExprV>)
    requires
        clean_exprs(bits),
    ensures
        divisionless(bit_sum(bits)),
    decreases bits.len(),
{
    reveal_with_fuel(divisionless, 3);
    if bits.len() > 0 {
        assert(divisionless(bits.last()));
        if bits.len() > 1 {
            assert forall|i: int| 0 <= i < bits.drop_last().len() implies divisionless(
                #[trigger] bits.drop_last()[i],
            ) by {
                assert(bits.drop_last()[i] == bits[i]);
            }
            lemma_bit_sum_clean(bits.drop_last());
        }
    }
}

proof fn lemma_choose_register(st: State, prefix: Seq<char>, base: Seq<char>, t: VarType)
    requires
        sound(st),
    ensures
        keeps(st, choose_register(st, prefix, base, t)),
{
    lemma_declare_next(st, prefix, base, t);
}

proof fn lemma_scalar_clean(args: Seq<ValueV>, i: int)
    requires
        clean_values(args),
    ensures
        scalar_arg(args, i) is Some ==> divisionless(scalar_arg(args, i)->Some_0),
{
    if 0 <= i < args.len() {
        assert(clean_value(args[i]));
    }
}

proof fn lemma_equal_register(
    st: State,
    args: Seq<ValueV>,
    prefix: Seq<char>,
    base: Seq<char>,
    t: VarType,
    tag: Seq<char>,
)
    requires
        sound(st),
        clean_values(args),
    ensures
        keeps(st, equal_register(st, args, prefix, base, t, tag)),
{
    lemma_scalar_clean(args, 0);
    match scalar_arg(args, 0) {
        Some(e) => {
            let v = next_name(st, prefix, base);
            lemma_declare_next(st, prefix, base, t);
            lemma_equate(st, declare(tick(st), v, t), var(v), e, tag);
        },
        None => {},
    }
}

proof fn lemma_is_zero_call(st: State, args: Seq<ValueV>, prefix: Seq<char>)
    requires
        sound(st),
        clean_values(args),
    ensures
        keeps(st, is_zero_call(st, args, prefix)),
{
    lemma_scalar_clean(args, 0);
    match scalar_arg(args, 0) {
        Some(e) => {
            let v = next_name(st, prefix, "iz"@);
            lemma_declare_next(st, prefix, "iz"@, VarType::Bit);
            lemma_declared_push(st.spec.internals, VarV { name: v, vtype: VarType::Bit });
            lemma_emit_after(
                st,
                declare(tick(st), v, VarType::Bit),
                ConstraintV::IsZero { result: v, expr: e },
            );
        },
        None => {},
    }
}

proof fn lemma_declare_pairs(st: State, prefix: Seq<char>, n: nat)
    requires
        sound(st),
    ensures
        sound(declare_pairs(st, prefix, n)),
        extends(st, declare_pairs(st, prefix, n)),
        declare_pairs(st, prefix, n).counter == st.counter + 2 * n,
        declare_pairs(st, prefix, n).guard == st.guard,
    decreases n,
{
    if n == 0 {
        lemma_extends_same(st, st);
    } else {
        let k = (n - 1) as nat;
        lemma_declare_pairs(st, prefix, k);
        let s = declare_pairs(st, prefix, k);
        let x = x_bit(prefix, st.counter, k);
        let y = y_bit(prefix, st.counter, k);
        lemma_tick(s);
        lemma_fresh_is_tagged(prefix, "xb"@ + digits(k), st.counter + 2 * k + 1);
        lemma_fresh_is_tagged(prefix, "yb"@ + digits(k), st.counter + 2 * k + 2);
        lemma_declare(tick(s), x, VarType::Bit, s.counter, s.counter + 1);
        let s1 = declare(tick(s), x, VarType::Bit);
        lemma_tick(s1);
        lemma_declare(tick(s1), y, VarType::Bit, s1.counter, s1.counter + 1);
        let s2 = declare(tick(s1), y, VarType::Bit);
        lemma_extends_trans(st, s, tick(s));
        lemma_extends_trans(st, tick(s), s1);
        lemma_extends_trans(st, s1, tick(s1));
        lemma_extends_trans(st, tick(s1), s2);
    }
}

proof fn lemma_and_call(st: State, args: Seq<ValueV>, prefix: Seq<char>)
    requires
        sound(st),
        clean_values(args),
    ensures
        keeps(st, and_call(st, args, prefix)),
{
    lemma_scalar_clean(args, 0);
    lemma_scalar_clean(args, 1);
    match (scalar_arg(args, 0), scalar_arg(args, 1)) {
        (Some(x), Some(y)) => {
            let c = st.counter;
            lemma_declare_pairs(st, prefix, 16);
            let s1 = declare_pairs(st, prefix, 16);
            let xs = x_bits(prefix, c, 16);
            let ys = y_bits(prefix, c, 16);
            let rs = and_bits(prefix, c, 16);
            reveal_with_fuel(divisionless, 3);
            lemma_bit_sum_clean(xs);
            lemma_bit_sum_clean(ys);
            lemma_bit_sum_clean(rs);
            lemma_equate(st, s1, x, bit_sum(xs), "tobits_x"@);
            let s2 = equate(s1, x, bit_sum(xs), "tobits_x"@);
            lemma_equate(st, s2, y, bit_sum(ys), "tobits_y"@);
            let s3 = equate(s2, y, bit_sum(ys), "tobits_y"@);
            let r = next_name(s3, prefix, "and16"@);
            lemma_declare_next(s3, prefix, "and16"@, VarType::U16);
            let s4 = declare(tick(s3), r, VarType::U16);
            lemma_extends_trans(st, s3, s4);
            lemma_equate(st, s4, var(r), bit_sum(rs), "and_result"@);
        },
        _ => {},
    }
}

proof fn lemma_declare_bits(st: State, prefix: Seq<char>, n: nat)
    requires
        sound(st),
    ensures
        sound(declare_bits(st, prefix, n)),
        extends(st, declare_bits(st, prefix, n)),
        declare_bits(st, prefix, n).counter == st.counter + n,
        declare_bits(st, prefix, n).guard == st.guard,
    decreases n,
{
    if n == 0 {
        lemma_extends_same(st, st);
    } else {
        let k = (n - 1) as nat;
        lemma_declare_bits(st, prefix, k);
        let s = declare_bits(st, prefix, k);
        let x = bit_name(prefix, st.counter, k);
        lemma_tick(s);
        lemma_fresh_is_tagged(prefix, "b"@ + digits(k), st.counter + k + 1);
        lemma_declare(tick(s), x, VarType::Bit, s.counter, s.counter + 1);
        let s1 = declare(tick(s), x, VarType::Bit);
        lemma_extends_trans(st, s, tick(s));
        lemma_extends_trans(st, tick(s), s1);
    }
}

proof fn lemma_builtin_call(
    st: State,
    name: Seq<char>,
    args: Seq<ValueV>,
    type_args: Seq<u64>,
    prefix: Seq<char>,
)
    requires
        sound(st),
        clean_values(args),
    ensures
        keeps(st, builtin_call(st, name, args, type_args, prefix)),
        match builtin_call(st, name, args, type_args, prefix) {
            Run::Done(s, v) => s.bindings == st.bindings,
            _ => true,
        },
{
    lemma_extends_same(st, st);
    lemma_declare_pairs_bindings(st, prefix, 16);
    if is_halves(name) {
        if args.len() >= 2 {
            lemma_halves_clean(args[0], args[1]);
        }
    } else if chosen_register(name) is Some {
        let r = chosen_register(name)->Some_0;
        lemma_choose_register(st, prefix, r.0, r.1);
    } else if name == "FakeTwitReg"@ {
        lemma_equal_register(st, args, prefix, "ftwit"@, VarType::Twit, "fake_twit_reg"@);
    } else if name == "Reg"@ {
    } else if name == "U16Reg"@ {
        lemma_equal_register(st, args, prefix, "u16r"@, VarType::U16, "u16reg"@);
    } else if name == "U32Reg"@ {
        lemma_equal_register(st, args, prefix, "u32r"@, VarType::U32, "u32reg"@);
    } else if name == "IsZero"@ || name == "Isz"@ {
        lemma_is_zero_call(st, args, prefix);
    } else if name == "BitwiseAndU16"@ {
        lemma_and_call(st, args, prefix);
    } else if name == "ToBits"@ {
        lemma_to_bits_call(st, args, type_args, prefix);
    } else {
        if args.len() > 0 {
            assert(clean_value(args[0]));
            match args[0] {
                ValueV::BitArray(bits) => {
                    lemma_bit_sum_clean(bits);
                },
                _ => {},
            }
        }
    }
}

proof fn lemma_declare_pairs_bindings(st: State, prefix: Seq<char>, n: nat)
    ensures
        declare_pairs(st, prefix, n).bindings == st.bindings,
    decreases n,
{
    if n > 0 {
        lemma_declare_pairs_bindings(st, prefix, (n - 1) as nat);
    }
}

proof fn lemma_declare_bits_bindings(st: State, prefix: Seq<char>, n: nat)
    ensures
        declare_bits(st, prefix, n).bindings == st.bindings,
    decreases n,
{
    if n > 0 {
        lemma_declare_bits_bindings(st, prefix, (n - 1) as nat);
    }
}

proof fn lemma_guard_clean(st: State)
    requires
        sound(st),
    ensures
        st.guard is Some ==> divisionless(st.guard->Some_0),
        clean_fields(st.bindings),
{
    reveal(sound_below);
}

proof fn lemma_halves_clean(low: ValueV, high: ValueV)
    requires
        clean_value(low),
        clean_value(high),
    ensures
        clean_value(halves(low, high)),
{
    let f = seq![("low"@, low), ("high"@, high)];
    assert forall|i: int| 0 <= i < f.len() implies clean_value((#[trigger] f[i]).1) by {}
    reveal_strlit("low");
    reveal_strlit("high");
    assert("low"@.len() != "high"@.len());
    assert(clean_fields(f));
}

proof fn lemma_to_bits_call(
    st: State,
    args: Seq<ValueV>,
    type_args: Seq<u64>,
    prefix: Seq<char>,
)
    requires
        sound(st),
        clean_values(args),
    ensures
        keeps(st, to_bits_call(st, args, type_args, prefix)),
        match to_bits_call(st, args, type_args, prefix) {
            Run::Done(s, v) => s.bindings == st.bindings,
            _ => true,
        },
{
    let n = bit_count(type_args);
    lemma_scalar_clean(args, 0);
    lemma_declare_bits_bindings(st, prefix, n);
    match scalar_arg(args, 0) {
        Some(e) => {
            lemma_declare_bits(st, prefix, n);
            let bits = bit_vars(prefix, st.counter, n);
            assert(clean_exprs(bits));
            lemma_bit_sum_clean(bits);
            let s = declare_bits(st, prefix, n);
            lemma_equate(st, s, e, bit_sum(bits), "tobits_decompose"@);
        },
        None => {},
    }
}

// ---------------------------------------------------------------------------
// Calls that are not expanded
// ---------------------------------------------------------------------------

/// Whether a step that is done keeps what every step keeps, and the bindings.
spec fn keeps_all(st: State, r: Run<ValueV>) -> bool {
    &&& keeps(st, r)
    &&& match r {
        Run::Done(s, v) => s.bindings == st.bindings,
        _ => true,
    }
}

proof fn lemma_fresh_scalar(st: State, prefix: Seq<char>, name: Seq<char>)
    requires
        sound(st),
    ensures
        keeps_all(st, fresh_scalar(st, prefix, name)),
{
    lemma_declare_next(st, prefix, name, VarType::Val);
}

proof fn lemma_fresh_value(
    env: Env,
    st: State,
    ty: Seq<char>,
    prefix: Seq<char>,
    depth: nat,
)
    requires
        sound(st),
    ensures
        keeps_all(st, fresh_value(env, st, ty, prefix, depth)),
    decreases depth, 0int, 0int,
{
    if is_halves(ty) {
        let low = next_name(st, prefix, "ext_low"@);
        let high = next_name(tick(st), prefix, "ext_high"@);
        lemma_declare_next(st, prefix, "ext_low"@, VarType::Val);
        let s1 = declare(tick(st), low, VarType::Val);
        lemma_declare_next(s1, prefix, "ext_high"@, VarType::Val);
        let s2 = declare(tick(s1), high, VarType::Val);
        lemma_extends_trans(st, s1, s2);
        assert(s2 == declare(declare(tick(tick(st)), low, VarType::Val), high, VarType::Val));
        lemma_halves_clean(var_value(low), var_value(high));
    } else if env.components.dom().contains(ty) {
        if depth > 0 {
            let comp = env.components[ty];
            lemma_extends_same(st, st);
            lemma_fresh_fields(
                env,
                st,
                st,
                comp,
                publics(comp.body),
                0,
                Seq::empty(),
                prefix,
                (depth - 1) as nat,
            );
        }
    } else {
        lemma_fresh_scalar(st, prefix, "ext"@);
    }
}

proof fn lemma_fresh_fields(
    env: Env,
    first: State,
    st: State,
    comp: ComponentV,
    pubs: Seq<(Seq<char>, ExprV)>,
    i: int,
    acc: Fields,
    prefix: Seq<char>,
    depth: nat,
)
    requires
        0 <= i,
        sound(st),
        extends(first, st),
        first.guard == st.guard,
        first.bindings == st.bindings,
        clean_fields(acc),
    ensures
        keeps_all(first, fresh_fields(env, st, comp, pubs, i, acc, prefix, depth)),
    decreases depth, 1int, pubs.len() - i,
{
    if i < pubs.len() {
        let name = pubs[i].0;
        lemma_fresh_scalar(st, prefix, name);
        let r = match shown_type(comp, pubs[i].1) {
            Some(t) => if is_halves(t) || env.components.dom().contains(t) {
                lemma_fresh_value(env, st, t, prefix, depth);
                fresh_value(env, st, t, prefix, depth)
            } else {
                fresh_scalar(st, prefix, name)
            },
            None => fresh_scalar(st, prefix, name),
        };
        match r {
            Run::Done(s, v) => {
                lemma_extends_trans(first, st, s);
                lemma_put_clean(acc, name, v);
                lemma_fresh_fields(
                    env,
                    first,
                    s,
                    comp,
                    pubs,
                    i + 1,
                    put(acc, name, v),
                    prefix,
                    depth,
                );
            },
            _ => {},
        }
    }
}

proof fn lemma_field_clean(v: ValueV, name: Seq<char>)
    requires
        clean_value(v),
    ensures
        field_of(v, name) is Some ==> clean_value(field_of(v, name)->Some_0),
{
    match v {
        ValueV::Struct(f) => {
            lemma_get_clean(f, name);
        },
        _ => {},
    }
}

proof fn lemma_push_clean(v: Seq<IrExprV>, e: IrExprV)
    requires
        clean_exprs(v),
        divisionless(e),
    ensures
        clean_exprs(v.push(e)),
{
    assert forall|i: int| 0 <= i < v.push(e).len() implies divisionless(
        #[trigger] v.push(e)[i],
    ) by {
        if i < v.len() {
            assert(divisionless(v[i]));
        }
    }
}

/// Whether flattening leaves the state alone and gives expressions without division.
spec fn flat_keeps(st: State, r: Run<Seq<IrExprV>>) -> bool {
    match r {
        Run::Done(s, v) => s == st && clean_exprs(v),
        _ => true,
    }
}

proof fn lemma_flat_fields(
    st: State,
    arg: ValueV,
    ty: Seq<char>,
    pubs: Seq<(Seq<char>, ExprV)>,
    i: int,
    acc: Seq<IrExprV>,
)
    requires
        0 <= i,
        clean_value(arg),
        clean_exprs(acc),
    ensures
        flat_keeps(st, flat_fields(st, arg, ty, pubs, i, acc)),
    decreases pubs.len() - i,
{
    if i < pubs.len() {
        lemma_field_clean(arg, pubs[i].0);
        match field_of(arg, pubs[i].0) {
            Some(ValueV::Expr(e)) => {
                lemma_push_clean(acc, e);
                lemma_flat_fields(st, arg, ty, pubs, i + 1, acc.push(e));
            },
            _ => {},
        }
    }
}

proof fn lemma_flat_arg(env: Env, st: State, arg: ValueV, ty: Seq<char>, acc: Seq<IrExprV>)
    requires
        clean_value(arg),
        clean_exprs(acc),
    ensures
        flat_keeps(st, flat_arg(env, st, arg, ty, acc)),
{
    if is_halves(ty) {
        lemma_field_clean(arg, "low"@);
        lemma_field_clean(arg, "high"@);
        match field_of(arg, "low"@) {
            Some(ValueV::Expr(low)) => {
                lemma_push_clean(acc, low);
                match field_of(arg, "high"@) {
                    Some(ValueV::Expr(high)) => {
                        lemma_push_clean(acc.push(low), high);
                    },
                    _ => {},
                }
            },
            _ => {},
        }
    } else if env.components.dom().contains(ty) {
        lemma_flat_fields(st, arg, ty, publics(env.components[ty].body), 0, acc);
    } else {
        match arg {
            ValueV::Expr(e) => {
                lemma_push_clean(acc, e);
            },
            _ => {},
        }
    }
}

proof fn lemma_flat_args(
    env: Env,
    st: State,
    name: Seq<char>,
    params: Seq<(Seq<char>, Seq<char>)>,
    args: Seq<ValueV>,
    i: int,
    acc: Seq<IrExprV>,
)
    requires
        0 <= i,
        clean_values(args),
        clean_exprs(acc),
    ensures
        flat_keeps(st, flat_args(env, st, name, params, args, i, acc)),
    decreases params.len() - i,
{
    if i < params.len() && i < args.len() {
        assert(clean_value(args[i]));
        lemma_flat_arg(env, st, args[i], params[i].1, acc);
        match flat_arg(env, st, args[i], params[i].1, acc) {
            Run::Done(s, a) => {
                lemma_flat_args(env, s, name, params, args, i + 1, a);
            },
            _ => {},
        }
    }
}

/// Whether the variables of outputs are among `vs`.
spec fn outs_known(vs: Seq<VarV>, outs: Seq<(Seq<char>, Seq<char>)>) -> bool {
    forall|j: int| 0 <= j < outs.len() ==> declared(vs, (#[trigger] outs[j]).1)
}

/// An output whose variable is declared with it.
proof fn lemma_outs_push(
    vs: Seq<VarV>,
    v: VarV,
    outs: Seq<(Seq<char>, Seq<char>)>,
    field: Seq<char>,
)
    requires
        outs_known(vs, outs),
    ensures
        outs_known(vs.push(v), outs),
        outs_known(vs.push(v), outs.push((field, v.name))),
{
    lemma_declared_push(vs, v);
}

/// Whether the results of a call that is not expanded keep what every step keeps.
spec fn results_keep(st: State, r: Run<(Fields, Seq<(Seq<char>, Seq<char>)>)>) -> bool {
    match r {
        Run::Done(s, (acc, outs)) => sound(s) && extends(st, s) && clean_fields(acc) && s.guard
            == st.guard && s.bindings == st.bindings && outs_known(s.spec.internals, outs),
        _ => true,
    }
}

proof fn lemma_abstract_results(
    first: State,
    st: State,
    name: Seq<char>,
    pubs: Seq<(Seq<char>, ExprV)>,
    i: int,
    acc: Fields,
    outs: Seq<(Seq<char>, Seq<char>)>,
    prefix: Seq<char>,
)
    requires
        0 <= i,
        sound(st),
        extends(first, st),
        first.guard == st.guard,
        first.bindings == st.bindings,
        clean_fields(acc),
        outs_known(st.spec.internals, outs),
    ensures
        results_keep(first, abstract_results(st, name, pubs, i, acc, outs, prefix)),
    decreases pubs.len() - i,
{
    if i < pubs.len() {
        let f = pubs[i].0;
        let base = unicode_lowercase(name) + "_"@ + f;
        if makes_halves(pubs[i].1) {
            if room(st, 2) {
                let n = st.counter;
                let low = next_name(st, prefix, base + "_low"@);
                let high = next_name(tick(st), prefix, base + "_high"@);
                let s1 = tick(st);
                let s2 = tick(s1);
                lemma_tick(st);
                lemma_tick(s1);
                lemma_sound_below_tick(s1, n);
                lemma_fresh_is_tagged(prefix, base + "_low"@, n + 1);
                lemma_fresh_is_tagged(prefix, base + "_high"@, n + 2);
                let s3 = declare(s2, low, VarType::U16);
                let s4 = declare(s3, high, VarType::U16);
                lemma_declare(s2, low, VarType::U16, n, n + 1);
                lemma_declare(s3, high, VarType::U16, n + 1, n + 2);
                lemma_extends_trans(first, st, s1);
                lemma_extends_trans(first, s1, s2);
                lemma_extends_trans(first, s2, s3);
                lemma_extends_trans(first, s3, s4);
                let v = halves(var_value(low), var_value(high));
                lemma_halves_clean(var_value(low), var_value(high));
                lemma_put_clean(acc, f, v);
                let lv = VarV { name: low, vtype: VarType::U16 };
                let hv = VarV { name: high, vtype: VarType::U16 };
                let vs = st.spec.internals;
                lemma_outs_push(vs, lv, outs, f + ".low"@);
                lemma_outs_push(vs.push(lv), hv, outs.push((f + ".low"@, low)), f + ".high"@);
                lemma_abstract_results(
                    first,
                    s4,
                    name,
                    pubs,
                    i + 1,
                    put(acc, f, v),
                    outs.push((f + ".low"@, low)).push((f + ".high"@, high)),
                    prefix,
                );
            }
        } else if room(st, 1) {
            let v = next_name(st, prefix, base);
            lemma_declare_next(st, prefix, base, VarType::Val);
            let s = declare(tick(st), v, VarType::Val);
            lemma_extends_trans(first, st, s);
            lemma_put_clean(acc, f, var_value(v));
            lemma_outs_push(st.spec.internals, VarV { name: v, vtype: VarType::Val }, outs, f);
            lemma_abstract_results(
                first,
                s,
                name,
                pubs,
                i + 1,
                put(acc, f, var_value(v)),
                outs.push((f, v)),
                prefix,
            );
        }
    }
}

proof fn lemma_sound_below_tick(st: State, limit: nat)
    requires
        sound_below(st, limit),
    ensures
        sound_below(tick(st), limit),
{
    reveal(sound_below);
}

proof fn lemma_abstract_call(
    env: Env,
    st: State,
    comp: ComponentV,
    name: Seq<char>,
    args: Seq<ValueV>,
    prefix: Seq<char>,
)
    requires
        sound(st),
        clean_values(args),
    ensures
        keeps_all(st, abstract_call(env, st, comp, name, args, prefix)),
{
    let none = Seq::<IrExprV>::empty();
    lemma_flat_args(env, st, name, comp.params, args, 0, none);
    match flat_args(env, st, name, comp.params, args, 0, none) {
        Run::Done(s, flat) => {
            let pubs = publics(comp.body);
            let acc = Seq::<(Seq<char>, ValueV)>::empty();
            let outs = Seq::<(Seq<char>, Seq<char>)>::empty();
            lemma_extends_same(st, st);
            lemma_abstract_results(st, st, name, pubs, 0, acc, outs, prefix);
            match abstract_results(s, name, pubs, 0, acc, outs, prefix) {
                Run::Done(s2, (fields, outputs)) => {
                    lemma_emit_after(
                        st,
                        s2,
                        ConstraintV::Call { component: name, args: flat, outputs },
                    );
                },
                _ => {},
            }
        },
        _ => {},
    }
}

// ---------------------------------------------------------------------------
// Expressions and statements
// ---------------------------------------------------------------------------

proof fn lemma_bind_args(
    st: State,
    params: Seq<(Seq<char>, Seq<char>)>,
    args: Seq<ValueV>,
    n: nat,
)
    requires
        sound(st),
        clean_values(args),
        n <= params.len(),
    ensures
        sound(bind_args(st, params, args, n)),
        extends(st, bind_args(st, params, args, n)),
        bind_args(st, params, args, n).guard == st.guard,
    decreases n,
{
    if n == 0 {
        lemma_extends_same(st, st);
    } else {
        lemma_bind_args(st, params, args, (n - 1) as nat);
        let s = bind_args(st, params, args, (n - 1) as nat);
        if n <= args.len() {
            assert(clean_value(args[n - 1]));
            lemma_bind(s, params[n - 1].0, args[n - 1]);
            lemma_extends_trans(st, s, bind(s, params[n - 1].0, args[n - 1]));
        }
    }
}

proof fn lemma_public_fields(bindings: Fields, pubs: Seq<(Seq<char>, ExprV)>, n: nat)
    requires
        clean_fields(bindings),
        n <= pubs.len(),
    ensures
        clean_fields(public_fields(bindings, pubs, n)),
    decreases n,
{
    if n > 0 {
        lemma_public_fields(bindings, pubs, (n - 1) as nat);
        lemma_get_clean(bindings, pubs[n - 1].0);
        match get(bindings, pubs[n - 1].0) {
            Some(v) => {
                lemma_put_clean(
                    public_fields(bindings, pubs, (n - 1) as nat),
                    pubs[n - 1].0,
                    v,
                );
            },
            None => {},
        }
    }
}

proof fn lemma_with_missing(f: Fields, more: Fields, n: nat)
    requires
        clean_fields(f),
        clean_fields(more),
        n <= more.len(),
    ensures
        clean_fields(with_missing(f, more, n)),
    decreases n,
{
    if n > 0 {
        lemma_with_missing(f, more, (n - 1) as nat);
        assert(clean_value(more[n - 1].1));
        lemma_put_clean(
            with_missing(f, more, (n - 1) as nat),
            more[n - 1].0,
            more[n - 1].1,
        );
    }
}

proof fn lemma_call_value(result: Option<ValueV>, public: Fields)
    requires
        result is Some ==> clean_value(result->Some_0),
        clean_fields(public),
    ensures
        clean_value(call_value(result, public)),
{
    match result {
        Some(ValueV::Struct(f)) => {
            assert(clean_fields(f));
            lemma_with_missing(f, public, public.len());
        },
        Some(v) => {
            lemma_put_clean(public, "_value"@, v);
        },
        None => {},
    }
}

/// Whether a statement, or a body, that is done keeps what every step keeps.
pub open spec fn stmt_keeps(st: State, r: Run<Option<ValueV>>) -> bool {
    match r {
        Run::Done(s, v) => {
            &&& sound(s)
            &&& extends(st, s)
            &&& v is Some ==> clean_value(v->Some_0)
            &&& s.guard == st.guard
        },
        _ => true,
    }
}

/// Whether arguments that are done keep what every step keeps.
pub open spec fn args_keep(st: State, r: Run<Seq<ValueV>>) -> bool {
    match r {
        Run::Done(s, v) => sound(s) && extends(st, s) && clean_values(v) && s.guard == st.guard,
        _ => true,
    }
}

proof fn lemma_bound_value(
    st: State,
    name: Seq<char>,
    rhs: ExprV,
    v: ValueV,
    prefix: Seq<char>,
)
    requires
        sound(st),
        clean_value(v),
    ensures
        keeps(st, bound_value(st, name, rhs, v, prefix)),
{
    lemma_extends_same(st, st);
    lemma_bound_register(st, name, v, VarType::U16, prefix);
    lemma_bound_register(st, name, v, VarType::Val, prefix);
}

proof fn lemma_bound_register(
    st: State,
    name: Seq<char>,
    v: ValueV,
    t: VarType,
    prefix: Seq<char>,
)
    requires
        sound(st),
        clean_value(v),
    ensures
        keeps(st, bound_register(st, name, v, t, prefix)),
{
    match v {
        ValueV::Expr(e) => {
            let n = next_name(st, prefix, name);
            lemma_declare_next(st, prefix, name, t);
            lemma_equate(st, declare(tick(st), n, t), var(n), e, "reg_"@ + name);
        },
        _ => {},
    }
}

proof fn lemma_bind_value(
    st: State,
    is_public: bool,
    name: Seq<char>,
    rhs: ExprV,
    v: ValueV,
    prefix: Seq<char>,
)
    requires
        sound(st),
        clean_value(v),
    ensures
        stmt_keeps(st, bind_value(st, is_public, name, rhs, v, prefix)),
{
    lemma_bind(st, name, v);
    if is_public {
        match v {
            ValueV::Expr(e) => {
                let n = next_name(st, prefix, name);
                let t = guessed_type(rhs);
                lemma_declare_next(st, prefix, name, t);
                lemma_tick(st);
                lemma_declare_output(tick(st), n, t);
                lemma_extends_trans(st, tick(st), declare_output(tick(st), n, t));
                let s = if prefix.len() == 0 {
                    declare_output(tick(st), n, t)
                } else {
                    declare(tick(st), n, t)
                };
                lemma_equate(st, s, var(n), e, "public_"@ + name);
                let s1 = equate(s, var(n), e, "public_"@ + name);
                lemma_bind(s1, name, var_value(n));
                lemma_extends_trans(st, s1, bind(s1, name, var_value(n)));
            },
            ValueV::Struct(f) => {
                lemma_outputs_clean(v, name);
                lemma_add_outputs(st, outputs_of(v, name));
                let s = add_outputs(st, outputs_of(v, name));
                lemma_bind(s, name, v);
                lemma_extends_trans(st, s, bind(s, name, v));
            },
            ValueV::BitArray(_) => {},
        }
    }
}

proof fn lemma_operation(st: State, op: Op, l: IrExprV, r: IrExprV, prefix: Seq<char>)
    requires
        sound(st),
        divisionless(l),
        divisionless(r),
    ensures
        keeps(st, operation(st, op, l, r, prefix)),
{
    lemma_extends_same(st, st);
    reveal_with_fuel(divisionless, 2);
    if op == Op::Div {
        let q = next_name(st, prefix, "div"@);
        lemma_declare_next(st, prefix, "div"@, VarType::Val);
        let s = declare(tick(st), q, VarType::Val);
        lemma_equate(st, s, times(var(q), r), l, "exact_div"@);
    }
}

proof fn lemma_ident_clean(st: State, name: Seq<char>)
    requires
        sound(st),
    ensures
        clean_value(ident_value(st, name)),
{
    lemma_guard_clean(st);
    lemma_get_clean(st.bindings, name);
}

proof fn lemma_expr(env: Env, st: State, e: ExprV, prefix: Seq<char>, depth: nat)
    requires
        sound(st),
    ensures
        keeps(st, expr(env, st, e, prefix, depth)),
    decreases 3 * depth, e, 1int, 0int,
{
    reveal(expr);
    lemma_extends_same(st, st);
    match e {
        ExprV::IntLit(n) => {},
        ExprV::Ident(name) => {
            lemma_ident_clean(st, name);
        },
        ExprV::Field { object, field } => {
            lemma_expr(env, st, *object, prefix, depth);
            match expr(env, st, *object, prefix, depth) {
                Run::Done(s, v) => {
                    lemma_field_clean(v, field);
                    match *object {
                        ExprV::Ident(o) => {
                            lemma_ident_clean(s, o + "."@ + field);
                        },
                        _ => {},
                    }
                },
                _ => {},
            }
        },
        ExprV::BinOp { op, lhs, rhs } => {
            lemma_expr(env, st, *lhs, prefix, depth);
            match expr(env, st, *lhs, prefix, depth) {
                Run::Done(s1, ValueV::Expr(l)) => {
                    lemma_expr(env, s1, *rhs, prefix, depth);
                    match expr(env, s1, *rhs, prefix, depth) {
                        Run::Done(s2, ValueV::Expr(r)) => {
                            lemma_operation(s2, op, l, r, prefix);
                            lemma_extends_trans(st, s1, s2);
                            match operation(s2, op, l, r, prefix) {
                                Run::Done(s3, v) => {
                                    lemma_extends_trans(st, s2, s3);
                                },
                                _ => {},
                            }
                        },
                        _ => {},
                    }
                },
                _ => {},
            }
        },
        ExprV::Call { name, type_args, args } => {
            let none = Seq::<ValueV>::empty();
            reveal(arg_values);
            reveal(call);
            lemma_arg_values(env, st, st, args, 0, none, prefix, depth);
            match arg_values(env, st, args, 0, none, prefix, depth) {
                Run::Done(s, vs) => {
                    if depth > 0 {
                        let d = (depth - 1) as nat;
                        lemma_call(env, s, name, vs, type_args, prefix, d);
                        match call(env, s, name, vs, type_args, prefix, d) {
                            Run::Done(s2, v) => {
                                lemma_extends_trans(st, s, s2);
                            },
                            _ => {},
                        }
                    }
                },
                _ => {},
            }
        },
        ExprV::For { var, start, end, body: inner } => {
            reveal(elements);
            lemma_elements(
                env,
                st,
                st,
                var,
                start as int,
                end as int,
                *inner,
                Seq::empty(),
                prefix,
                depth,
            );
        },
        ExprV::Index { object, index } => {
            lemma_expr(env, st, *object, prefix, depth);
            match expr(env, st, *object, prefix, depth) {
                Run::Done(s1, v) => {
                    lemma_expr(env, s1, *index, prefix, depth);
                    match expr(env, s1, *index, prefix, depth) {
                        Run::Done(s2, i) => {
                            lemma_extends_trans(st, s1, s2);
                            match (v, i) {
                                (ValueV::BitArray(a), ValueV::Expr(IrExprV::Const(k))) => {
                                    if 0 <= k < a.len() {
                                        assert(divisionless(a[k as int]));
                                    }
                                },
                                _ => {},
                            }
                        },
                        _ => {},
                    }
                },
                _ => {},
            }
        },
    }
}

proof fn lemma_arg_values(
    env: Env,
    first: State,
    st: State,
    args: Seq<ExprV>,
    i: int,
    acc: Seq<ValueV>,
    prefix: Seq<char>,
    depth: nat,
)
    requires
        0 <= i,
        sound(st),
        extends(first, st),
        first.guard == st.guard,
        clean_values(acc),
    ensures
        args_keep(first, arg_values(env, st, args, i, acc, prefix, depth)),
    decreases 3 * depth, args, 0int, args.len() - i,
{
    reveal(arg_values);
    reveal(expr);
    if i < args.len() {
        lemma_expr(env, st, args[i], prefix, depth);
        match expr(env, st, args[i], prefix, depth) {
            Run::Done(s, v) => {
                lemma_extends_trans(first, st, s);
                assert forall|k: int| 0 <= k < acc.push(v).len() implies clean_value(
                    #[trigger] acc.push(v)[k],
                ) by {
                    if k < acc.len() {
                        assert(clean_value(acc[k]));
                    }
                }
                lemma_arg_values(env, first, s, args, i + 1, acc.push(v), prefix, depth);
            },
            _ => {},
        }
    }
}

proof fn lemma_elements(
    env: Env,
    first: State,
    st: State,
    var: Seq<char>,
    i: int,
    end: int,
    e: ExprV,
    acc: Seq<IrExprV>,
    prefix: Seq<char>,
    depth: nat,
)
    requires
        sound(st),
        extends(first, st),
        first.guard == st.guard,
        clean_exprs(acc),
    ensures
        keeps(first, elements(env, st, var, i, end, e, acc, prefix, depth)),
    decreases 3 * depth, e, 2int, end - i,
{
    reveal(elements);
    reveal(expr);
    if i < end {
        let n = ValueV::Expr(IrExprV::Const((i as u64) as i64));
        let s = bind(st, var, n);
        lemma_bind(st, var, n);
        lemma_extends_trans(first, st, s);
        lemma_expr(env, s, e, prefix, depth);
        match expr(env, s, e, prefix, depth) {
            Run::Done(s1, ValueV::Expr(x)) => {
                lemma_extends_trans(first, s, s1);
                lemma_push_clean(acc, x);
                lemma_elements(
                    env,
                    first,
                    s1,
                    var,
                    i + 1,
                    end,
                    e,
                    acc.push(x),
                    prefix,
                    depth,
                );
            },
            _ => {},
        }
    }
}

/// A call keeps what every step keeps, and leaves the bindings as they were.
pub proof fn lemma_call(
    env: Env,
    st: State,
    name: Seq<char>,
    args: Seq<ValueV>,
    type_args: Seq<u64>,
    prefix: Seq<char>,
    depth: nat,
)
    requires
        sound(st),
        clean_values(args),
    ensures
        keeps(st, call(env, st, name, args, type_args, prefix, depth)),
        match call(env, st, name, args, type_args, prefix, depth) {
            Run::Done(s, v) => s.bindings == st.bindings,
            _ => true,
        },
    decreases 3 * depth + 2, args, 0int, 0int,
{
    reveal(call);
    reveal(body);
    if is_builtin(name) {
        lemma_builtin_call(st, name, args, type_args, prefix);
    } else if env.externs.dom().contains(name) {
        lemma_fresh_value(env, st, env.externs[name], prefix, depth);
    } else if env.components.dom().contains(name) {
        let comp = env.components[name];
        if env.abstracts.contains(name) {
            lemma_abstract_call(env, st, comp, name, args, prefix);
        } else {
            let inner = bind_args(st, comp.params, args, comp.params.len());
            let p = inner_prefix(prefix, name);
            lemma_bind_args(st, comp.params, args, comp.params.len());
            lemma_extends_same(inner, inner);
            lemma_body(env, inner, inner, comp.body, 0, None, p, depth);
            match body(env, inner, comp.body, 0, None, p, depth) {
                Run::Done(s, result) => {
                    let pubs = publics(comp.body);
                    lemma_guard_clean(s);
                    lemma_public_fields(s.bindings, pubs, pubs.len());
                    lemma_call_value(result, public_fields(s.bindings, pubs, pubs.len()));
                    let back = State { bindings: st.bindings, ..s };
                    lemma_restore(st, s);
                    lemma_extends_trans(st, inner, s);
                    lemma_extends_same(s, back);
                    lemma_extends_trans(st, s, back);
                },
                _ => {},
            }
        }
    }
}

proof fn lemma_restore(st: State, s: State)
    requires
        sound(st),
        sound(s),
    ensures
        sound(State { bindings: st.bindings, ..s }),
{
    reveal(sound_below);
}

/// A body keeps what every step keeps.
proof fn lemma_body(
    env: Env,
    first: State,
    st: State,
    stmts: Seq<StmtV>,
    i: int,
    last: Option<ValueV>,
    prefix: Seq<char>,
    depth: nat,
)
    requires
        0 <= i,
        sound(st),
        extends(first, st),
        first.guard == st.guard,
        last is Some ==> clean_value(last->Some_0),
    ensures
        stmt_keeps(first, body(env, st, stmts, i, last, prefix, depth)),
    decreases 3 * depth + 1, stmts, 0int, stmts.len() - i,
{
    reveal(body);
    reveal(stmt);
    if i < stmts.len() {
        lemma_stmt(env, st, stmts[i], prefix, depth);
        match stmt(env, st, stmts[i], prefix, depth) {
            Run::Done(s, v) => {
                lemma_extends_trans(first, st, s);
                lemma_body(env, first, s, stmts, i + 1, v, prefix, depth);
            },
            _ => {},
        }
    }
}

/// A statement keeps what every step keeps.
proof fn lemma_stmt(env: Env, st: State, s: StmtV, prefix: Seq<char>, depth: nat)
    requires
        sound(st),
    ensures
        stmt_keeps(st, stmt(env, st, s, prefix, depth)),
    decreases 3 * depth + 1, s, 1int, 0int,
{
    reveal(stmt);
    reveal(expr);
    match s {
        StmtV::Binding { is_public, name, value } => {
            lemma_expr(env, st, value, prefix, depth);
            match expr(env, st, value, prefix, depth) {
                Run::Done(s1, v) => {
                    lemma_bound_value(s1, name, value, v, prefix);
                    match bound_value(s1, name, value, v, prefix) {
                        Run::Done(s2, w) => {
                            lemma_extends_trans(st, s1, s2);
                            lemma_bind_value(s2, is_public, name, value, w, prefix);
                            match bind_value(s2, is_public, name, value, w, prefix) {
                                Run::Done(s3, x) => {
                                    lemma_extends_trans(st, s2, s3);
                                },
                                _ => {},
                            }
                        },
                        _ => {},
                    }
                },
                _ => {},
            }
        },
        StmtV::Constraint { lhs, rhs } => {
            lemma_expr(env, st, lhs, prefix, depth);
            match expr(env, st, lhs, prefix, depth) {
                Run::Done(s1, ValueV::Expr(l)) => {
                    lemma_expr(env, s1, rhs, prefix, depth);
                    match expr(env, s1, rhs, prefix, depth) {
                        Run::Done(s2, ValueV::Expr(r)) => {
                            lemma_extends_trans(st, s1, s2);
                            lemma_equate(st, s2, l, r, "constraint"@);
                        },
                        _ => {},
                    }
                },
                _ => {},
            }
        },
        StmtV::Mux { .. } => {
            reveal(mux);
            lemma_extends_same(st, st);
            lemma_guard_clean(st);
            lemma_mux(env, st, st, s, 0, st.guard, prefix, depth);
        },
        StmtV::ExprStmt(e) => {
            lemma_expr(env, st, e, prefix, depth);
        },
    }
}

proof fn lemma_set_guard(st: State, g: Option<IrExprV>)
    requires
        sound(st),
        g is Some ==> divisionless(g->Some_0),
    ensures
        sound(State { guard: g, ..st }),
        extends(st, State { guard: g, ..st }),
{
    reveal(sound_below);
    lemma_extends_same(st, State { guard: g, ..st });
}

/// The branches of a mux keep what every step keeps, and leave the guard outside of it.
proof fn lemma_mux(
    env: Env,
    first: State,
    st: State,
    s: StmtV,
    i: int,
    outer: Option<IrExprV>,
    prefix: Seq<char>,
    depth: nat,
)
    requires
        0 <= i,
        sound(st),
        extends(first, st),
        first.guard == outer,
        st.guard == outer,
        outer is Some ==> divisionless(outer->Some_0),
    ensures
        stmt_keeps(first, mux(env, st, s, i, outer, prefix, depth)),
    decreases 3 * depth + 1, s, 0int, s->guards.len() - i,
{
    reveal(mux);
    reveal(expr);
    reveal(body);
    match s {
        StmtV::Mux { guards, branches } => {
            if i < guards.len() && i < branches.len() {
                lemma_expr(env, st, guards[i], prefix, depth);
                match expr(env, st, guards[i], prefix, depth) {
                    Run::Done(s1, ValueV::Expr(g)) => {
                        let inner = Some(inner_guard(outer, g));
                        reveal_with_fuel(divisionless, 2);
                        lemma_set_guard(s1, inner);
                        let s2 = State { guard: inner, ..s1 };
                        lemma_extends_same(s2, s2);
                        lemma_body(env, s2, s2, branches[i], 0, None, prefix, depth);
                        match body(env, s2, branches[i], 0, None, prefix, depth) {
                            Run::Done(s3, v) => {
                                lemma_extends_trans(first, st, s1);
                                lemma_extends_trans(first, s1, s2);
                                lemma_extends_trans(first, s2, s3);
                                lemma_set_guard(s3, outer);
                                let s4 = State { guard: outer, ..s3 };
                                lemma_extends_trans(first, s3, s4);
                                lemma_mux(env, first, s4, s, i + 1, outer, prefix, depth);
                            },
                            _ => {},
                        }
                    },
                    _ => {},
                }
            }
        },
        _ => {},
    }
}

// ---------------------------------------------------------------------------
// Components
// ---------------------------------------------------------------------------

proof fn lemma_declare_input(st: State, name: Seq<char>, t: VarType)
    requires
        sound(st),
    ensures
        sound(declare_input(st, name, t)),
{
    reveal(sound_below);
}

proof fn lemma_declare_inputs(
    st: State,
    name: Seq<char>,
    pubs: Seq<(Seq<char>, ExprV)>,
    n: nat,
)
    requires
        sound(st),
    ensures
        sound(declare_inputs(st, name, pubs, n)),
    decreases n,
{
    if n > 0 && n <= pubs.len() {
        lemma_declare_inputs(st, name, pubs, (n - 1) as nat);
        lemma_declare_input(
            declare_inputs(st, name, pubs, (n - 1) as nat),
            name + "."@ + pubs[n - 1].0,
            VarType::Val,
        );
    }
}

proof fn lemma_input_fields(name: Seq<char>, pubs: Seq<(Seq<char>, ExprV)>, n: nat)
    ensures
        clean_fields(input_fields(name, pubs, n)),
    decreases n,
{
    if n > 0 && n <= pubs.len() {
        lemma_input_fields(name, pubs, (n - 1) as nat);
        lemma_put_clean(
            input_fields(name, pubs, (n - 1) as nat),
            pubs[n - 1].0,
            var_value(name + "."@ + pubs[n - 1].0),
        );
    }
}

proof fn lemma_param_inputs(
    env: Env,
    st: State,
    params: Seq<(Seq<char>, Seq<char>)>,
    n: nat,
)
    requires
        sound(st),
    ensures
        sound(param_inputs(env, st, params, n)),
    decreases n,
{
    if n > 0 && n <= params.len() {
        lemma_param_inputs(env, st, params, (n - 1) as nat);
        let s = param_inputs(env, st, params, (n - 1) as nat);
        let name = params[n - 1].0;
        let ty = params[n - 1].1;
        if is_halves(ty) {
            let low = name + ".low"@;
            let high = name + ".high"@;
            lemma_declare_input(s, low, VarType::U16);
            lemma_declare_input(declare_input(s, low, VarType::U16), high, VarType::U16);
            lemma_halves_clean(var_value(low), var_value(high));
            lemma_bind(
                declare_input(declare_input(s, low, VarType::U16), high, VarType::U16),
                name,
                halves(var_value(low), var_value(high)),
            );
        } else if env.components.dom().contains(ty) && publics(env.components[ty].body).len() > 0 {
            let pubs = publics(env.components[ty].body);
            lemma_declare_inputs(s, name, pubs, pubs.len());
            lemma_input_fields(name, pubs, pubs.len());
            lemma_bind(
                declare_inputs(s, name, pubs, pubs.len()),
                name,
                ValueV::Struct(input_fields(name, pubs, pubs.len())),
            );
        } else {
            let t = if ty == "U32"@ && !env.components.dom().contains(ty) {
                VarType::U32
            } else {
                VarType::Val
            };
            lemma_declare_input(s, name, t);
            lemma_bind(declare_input(s, name, t), name, var_value(name));
        }
    }
}

proof fn lemma_clean_is_tidy(v: ValueV)
    requires
        clean_value(v),
    ensures
        tidy(v),
    decreases v,
{
    match v {
        ValueV::Struct(f) => {
            lemma_clean_fields_are_tidy(f);
        },
        _ => {},
    }
}

proof fn lemma_clean_fields_are_tidy(f: Fields)
    requires
        clean_fields(f),
    ensures
        tidy_fields(f),
    decreases f,
{
    assert forall|i: int| 0 <= i < f.len() implies tidy((#[trigger] f[i]).1) by {
        lemma_clean_is_tidy(f[i].1);
    }
}

/// Every name is bound once when the body of a component is lowered, and the fields of every
/// structure that it is bound to, or that the body gives, have each name once.
pub proof fn lemma_names_stand_once(env: Env, name: Seq<char>, depth: nat)
    requires
        env.components.dom().contains(name),
    ensures
        ({
            let comp = env.components[name];
            let s0 = start(name, comp.source_line);
            let st = param_inputs(env, s0, comp.params, comp.params.len());
            &&& tidy_fields(st.bindings)
            &&& body(env, st, comp.body, 0, None, ""@, depth) matches Run::Done(s, v)
                ==> tidy_fields(s.bindings) && (v is Some ==> tidy(v->Some_0))
        }),
{
    let comp = env.components[name];
    let s0 = start(name, comp.source_line);
    assert(sound(s0)) by {
        reveal(sound_below);
    }
    let st = param_inputs(env, s0, comp.params, comp.params.len());
    lemma_param_inputs(env, s0, comp.params, comp.params.len());
    lemma_guard_clean(st);
    lemma_clean_fields_are_tidy(st.bindings);
    lemma_extends_same(st, st);
    lemma_body(env, st, st, comp.body, 0, None, ""@, depth);
    match body(env, st, comp.body, 0, None, ""@, depth) {
        Run::Done(s, v) => {
            lemma_guard_clean(s);
            lemma_clean_fields_are_tidy(s.bindings);
            if v is Some {
                lemma_clean_is_tidy(v->Some_0);
            }
        },
        _ => {},
    }
}

/// The same of a call in a sound state whose arguments are so: what it gives has each name once.
pub proof fn lemma_call_gives_names_once(
    env: Env,
    st: State,
    name: Seq<char>,
    args: Seq<ValueV>,
    type_args: Seq<u64>,
    prefix: Seq<char>,
    depth: nat,
)
    requires
        sound(st),
        clean_values(args),
    ensures
        call(env, st, name, args, type_args, prefix, depth) matches Run::Done(s, v) ==> tidy(v)
            && tidy_fields(s.bindings),
{
    lemma_call(env, st, name, args, type_args, prefix, depth);
    match call(env, st, name, args, type_args, prefix, depth) {
        Run::Done(s, v) => {
            lemma_clean_is_tidy(v);
            lemma_guard_clean(s);
            lemma_clean_fields_are_tidy(s.bindings);
        },
        _ => {},
    }
}

/// An instruction that a component is lowered to holds no division, the variables that its
/// constraints determine are declared, its variables that are neither input nor output have
/// different names, and its inputs are those of the parameters.
pub proof fn lemma_lowered(env: Env, name: Seq<char>, depth: nat)
    ensures
        match lowered(env, name, depth) {
            Lowered::Done(s) => {
                let comp = env.components[name];
                &&& s.name == name
                &&& s.source_line == comp.source_line
                &&& s.inputs == param_inputs(
                    env,
                    start(name, comp.source_line),
                    comp.params,
                    comp.params.len(),
                ).spec.inputs
                &&& all_divisionless(s.constraints)
                &&& all_settled(s.internals, s.constraints)
                &&& forall|i: int, j: int|
                    0 <= i < j < s.internals.len() ==> (#[trigger] s.internals[i]).name != (
                    #[trigger] s.internals[j]).name
            },
            _ => true,
        },
{
    if env.components.dom().contains(name) {
        let comp = env.components[name];
        let s0 = start(name, comp.source_line);
        assert(sound(s0)) by {
            reveal(sound_below);
        }
        let st = param_inputs(env, s0, comp.params, comp.params.len());
        lemma_param_inputs(env, s0, comp.params, comp.params.len());
        lemma_param_names(env, s0, comp.params, comp.params.len());
        lemma_extends_same(st, st);
        lemma_body(env, st, st, comp.body, 0, None, ""@, depth);
        match body(env, st, comp.body, 0, None, ""@, depth) {
            Run::Done(s, Some(v)) => {
                lemma_outputs_clean(v, "result"@);
                lemma_add_outputs(s, outputs_of(v, "result"@));
                let t = add_outputs(s, outputs_of(v, "result"@));
                lemma_extends_trans(st, s, t);
                lemma_sound_means(t);
                assert(t.spec.inputs == st.spec.inputs && t.spec.name == name) by {
                    reveal(extends);
                }
            },
            Run::Done(s, None) => {
                lemma_sound_means(s);
                assert(s.spec.inputs == st.spec.inputs && s.spec.name == name) by {
                    reveal(extends);
                }
            },
            _ => {},
        }
        reveal(extends);
    }
}

proof fn lemma_sound_means(s: State)
    requires
        sound(s),
    ensures
        all_divisionless(s.spec.constraints),
        all_settled(s.spec.internals, s.spec.constraints),
        forall|i: int, j: int|
            0 <= i < j < s.spec.internals.len() ==> (#[trigger] s.spec.internals[i]).name != (
            #[trigger] s.spec.internals[j]).name,
{
    reveal(sound_below);
    lemma_ascending_tags_differ(s.spec.internals, s.counter);
}

proof fn lemma_param_names(
    env: Env,
    st: State,
    params: Seq<(Seq<char>, Seq<char>)>,
    n: nat,
)
    ensures
        param_inputs(env, st, params, n).spec.name == st.spec.name,
        param_inputs(env, st, params, n).spec.source_line == st.spec.source_line,
    decreases n,
{
    if n > 0 && n <= params.len() {
        lemma_param_names(env, st, params, (n - 1) as nat);
        let s = param_inputs(env, st, params, (n - 1) as nat);
        let ty = params[n - 1].1;
        if !is_halves(ty) && env.components.dom().contains(ty) && publics(
            env.components[ty].body,
        ).len() > 0 {
            let pubs = publics(env.components[ty].body);
            lemma_input_names(s, params[n - 1].0, pubs, pubs.len());
        }
    }
}

proof fn lemma_input_names(
    st: State,
    name: Seq<char>,
    pubs: Seq<(Seq<char>, ExprV)>,
    n: nat,
)
    ensures
        declare_inputs(st, name, pubs, n).spec.name == st.spec.name,
        declare_inputs(st, name, pubs, n).spec.source_line == st.spec.source_line,
    decreases n,
{
    if n > 0 && n <= pubs.len() {
        lemma_input_names(st, name, pubs, (n - 1) as nat);
    }
}

} // verus!
