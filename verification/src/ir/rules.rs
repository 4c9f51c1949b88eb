//! What lowering yields: the rules by which a component becomes an instruction.
//!
//! The rules pass a state from one step to the next. A step either is done, with a
//! new state and a result, or fails with a message, or stops short: it asks for
//! something that a value does not have, such as the scalar of a structure, or for
//! more than a machine word can count.

use vstd::arithmetic::power2::pow2;
use vstd::prelude::*;
use crate::ir::value::{field_of, get, halves, put, Fields, ValueV};
use crate::ir::{ConstraintV, IrExprV, SpecV, VarType, VarV};
use crate::parser::ast::{ComponentV, ExprV, Op, StmtV};
use crate::text::{digits, unicode_lowercase};

verus! {

/// The components and functions that a source file defines.
pub struct Env {
    pub components: Map<Seq<char>, ComponentV>,
    /// Functions that the prover supplies, with the types of their results.
    pub externs: Map<Seq<char>, Seq<char>>,
    /// Components whose calls are not expanded.
    pub abstracts: Set<Seq<char>>,
}

/// The state of lowering.
pub struct State {
    pub bindings: Fields,
    /// How many names have been made.
    pub counter: nat,
    /// The guard of the branch that is lowered, by which both sides of every equation are
    /// multiplied.
    pub guard: Option<IrExprV>,
    pub spec: SpecV,
}

/// The outcome of a step.
pub enum Run<T> {
    Done(State, T),
    Fail(Seq<char>),
    Stop,
}

// ---------------------------------------------------------------------------
// Changes of the state
// ---------------------------------------------------------------------------

/// `name` stands for `v` from now on.
pub open spec fn bind(st: State, name: Seq<char>, v: ValueV) -> State {
    State { bindings: put(st.bindings, name, v), ..st }
}

/// Whether `n` more names can be made.
pub open spec fn room(st: State, n: int) -> bool {
    st.counter + n <= usize::MAX
}

/// One more name has been made.
pub open spec fn tick(st: State) -> State {
    State { counter: st.counter + 1, ..st }
}

/// A variable of the instruction that is neither input nor output.
pub open spec fn declare(st: State, name: Seq<char>, vtype: VarType) -> State {
    State {
        spec: SpecV { internals: st.spec.internals.push(VarV { name, vtype }), ..st.spec },
        ..st
    }
}

/// An output of the instruction.
pub open spec fn declare_output(st: State, name: Seq<char>, vtype: VarType) -> State {
    State {
        spec: SpecV { outputs: st.spec.outputs.push(VarV { name, vtype }), ..st.spec },
        ..st
    }
}

/// An input of the instruction.
pub open spec fn declare_input(st: State, name: Seq<char>, vtype: VarType) -> State {
    State { spec: SpecV { inputs: st.spec.inputs.push(VarV { name, vtype }), ..st.spec }, ..st }
}

/// A constraint of the instruction.
pub open spec fn emit(st: State, c: ConstraintV) -> State {
    State { spec: SpecV { constraints: st.spec.constraints.push(c), ..st.spec }, ..st }
}

/// A side of an equation under a guard: with a guard `g`, `lhs = rhs` becomes
/// `g * lhs = g * rhs`.
pub open spec fn guarded(guard: Option<IrExprV>, e: IrExprV) -> IrExprV {
    match guard {
        Some(g) => times(g, e),
        None => e,
    }
}

/// The equation `lhs = rhs`, under the guard of a state.
pub open spec fn equation(st: State, lhs: IrExprV, rhs: IrExprV, tag: Seq<char>) -> ConstraintV {
    ConstraintV::Eq { lhs: guarded(st.guard, lhs), rhs: guarded(st.guard, rhs), tag }
}

/// The state with the equation `lhs = rhs`.
pub open spec fn equate(st: State, lhs: IrExprV, rhs: IrExprV, tag: Seq<char>) -> State {
    emit(st, equation(st, lhs, rhs, tag))
}

/// The name number `n`, made from `name`.
pub open spec fn fresh_name(prefix: Seq<char>, name: Seq<char>, n: nat) -> Seq<char> {
    if prefix.len() == 0 {
        name + "_"@ + digits(n)
    } else {
        prefix + "_"@ + name + "_"@ + digits(n)
    }
}

/// The next name, made from `name`.
pub open spec fn next_name(st: State, prefix: Seq<char>, name: Seq<char>) -> Seq<char> {
    fresh_name(prefix, name, st.counter + 1)
}

// ---------------------------------------------------------------------------
// Expressions and values
// ---------------------------------------------------------------------------

pub open spec fn var(name: Seq<char>) -> IrExprV {
    IrExprV::Var(name)
}

pub open spec fn plus(a: IrExprV, b: IrExprV) -> IrExprV {
    IrExprV::Add(Box::new(a), Box::new(b))
}

pub open spec fn minus(a: IrExprV, b: IrExprV) -> IrExprV {
    IrExprV::Sub(Box::new(a), Box::new(b))
}

pub open spec fn times(a: IrExprV, b: IrExprV) -> IrExprV {
    IrExprV::Mul(Box::new(a), Box::new(b))
}

/// The value that is the variable `name`.
pub open spec fn var_value(name: Seq<char>) -> ValueV {
    ValueV::Expr(var(name))
}

/// The guard of a branch inside a branch.
pub open spec fn inner_guard(outer: Option<IrExprV>, g: IrExprV) -> IrExprV {
    match outer {
        Some(o) => times(o, g),
        None => g,
    }
}

/// The weight of bit `i` in a 64-bit word in two's complement.
pub open spec fn weight(i: nat) -> i64 {
    if i >= 63 {
        i64::MIN
    } else {
        pow2(i) as i64
    }
}

/// The sum of the bits, each times its weight.
pub open spec fn bit_sum(bits: Seq<IrExprV>) -> IrExprV
    decreases bits.len(),
{
    if bits.len() == 0 {
        IrExprV::Const(0)
    } else {
        let term = times(bits.last(), IrExprV::Const(weight((bits.len() - 1) as nat)));
        if bits.len() == 1 {
            term
        } else {
            plus(bit_sum(bits.drop_last()), term)
        }
    }
}

/// The absolute value.
pub open spec fn magnitude(a: int) -> int {
    if a < 0 {
        -a
    } else {
        a
    }
}

/// The quotient of two integers, rounded towards zero.
pub open spec fn quotient(a: int, b: int) -> int {
    let q = magnitude(a) / magnitude(b);
    if (a < 0) == (b < 0) {
        q
    } else {
        -q
    }
}

/// Whether a type is that of a number in two halves.
pub open spec fn is_halves(t: Seq<char>) -> bool {
    t == "ValU32"@ || t == "DenormedValU32"@
}

/// The names and the right-hand sides of the public bindings of a body.
pub open spec fn publics(body: Seq<StmtV>) -> Seq<(Seq<char>, ExprV)>
    decreases body.len(),
{
    if body.len() == 0 {
        Seq::empty()
    } else {
        let rest = publics(body.drop_last());
        match body.last() {
            StmtV::Binding { is_public, name, value } => if is_public {
                rest.push((name, value))
            } else {
                rest
            },
            _ => rest,
        }
    }
}

/// The type of a variable that holds a public binding.
pub open spec fn guessed_type(e: ExprV) -> VarType {
    match e {
        ExprV::Call { name, .. } => if name == "NondetU16Reg"@ || name == "U16Reg"@ {
            VarType::U16
        } else if name == "NondetU32Reg"@ || name == "U32Reg"@ {
            VarType::U32
        } else if name == "NondetBitReg"@ || name == "IsZero"@ || name == "Isz"@ {
            VarType::Bit
        } else if name == "NondetTwitReg"@ {
            VarType::Twit
        } else {
            VarType::Val
        },
        _ => VarType::Val,
    }
}

// ---------------------------------------------------------------------------
// Outputs
// ---------------------------------------------------------------------------

/// An output and the expression that it equals.
pub struct Output {
    pub name: Seq<char>,
    pub vtype: VarType,
    pub expr: IrExprV,
}

/// The outputs that a value stands for, a field `f` of `p` being `p.f`.
pub open spec fn outputs_of(v: ValueV, name: Seq<char>) -> Seq<Output>
    decreases v,
{
    match v {
        ValueV::Expr(e) => seq![Output { name, vtype: VarType::Val, expr: e }],
        ValueV::Struct(f) => outputs_of_fields(f, f.len(), name),
        ValueV::BitArray(_) => Seq::empty(),
    }
}

/// The outputs that the first `n` fields stand for.
pub open spec fn outputs_of_fields(f: Fields, n: nat, name: Seq<char>) -> Seq<Output>
    decreases f, n,
{
    if n == 0 || n > f.len() {
        Seq::empty()
    } else {
        let full = name + "."@ + f[n - 1].0;
        outputs_of_fields(f, (n - 1) as nat, name) + match f[n - 1].1 {
            ValueV::Expr(e) => seq![Output { name: full, vtype: VarType::U16, expr: e }],
            _ => outputs_of(f[n - 1].1, full),
        }
    }
}

/// The state with an output and its constraint for each of `outs`.
pub open spec fn add_outputs(st: State, outs: Seq<Output>) -> State {
    State {
        spec: SpecV {
            outputs: st.spec.outputs + outs.map_values(
                |o: Output| VarV { name: o.name, vtype: o.vtype },
            ),
            constraints: st.spec.constraints + outs.map_values(
                |o: Output| equation(st, var(o.name), o.expr, "output_"@ + o.name),
            ),
            ..st.spec
        },
        ..st
    }
}

// ---------------------------------------------------------------------------
// Registers and bits
// ---------------------------------------------------------------------------

/// A register that the prover chooses: what its name is made from, and its type.
pub open spec fn chosen_register(name: Seq<char>) -> Option<(Seq<char>, VarType)> {
    if name == "NondetReg"@ {
        Some(("nd"@, VarType::Val))
    } else if name == "NondetU16Reg"@ {
        Some(("u16"@, VarType::U16))
    } else if name == "NondetU32Reg"@ {
        Some(("u32"@, VarType::U32))
    } else if name == "NondetU8Reg"@ {
        Some(("u8"@, VarType::U8))
    } else if name == "NondetBitReg"@ {
        Some(("bit"@, VarType::Bit))
    } else if name == "NondetTwitReg"@ || name == "NondetFakeTwitReg"@ {
        Some(("twit"@, VarType::Twit))
    } else {
        None
    }
}

/// The call of a register that the prover chooses.
pub open spec fn choose_register(
    st: State,
    prefix: Seq<char>,
    base: Seq<char>,
    vtype: VarType,
) -> Run<ValueV> {
    if room(st, 1) {
        let v = next_name(st, prefix, base);
        Run::Done(declare(tick(st), v, vtype), var_value(v))
    } else {
        Run::Stop
    }
}

/// The scalar that an argument is, if it is one.
pub open spec fn scalar_arg(args: Seq<ValueV>, i: int) -> Option<IrExprV> {
    if 0 <= i < args.len() {
        match args[i] {
            ValueV::Expr(e) => Some(e),
            _ => None,
        }
    } else {
        None
    }
}

/// The call of a register that equals its argument.
pub open spec fn equal_register(
    st: State,
    args: Seq<ValueV>,
    prefix: Seq<char>,
    base: Seq<char>,
    vtype: VarType,
    tag: Seq<char>,
) -> Run<ValueV> {
    match scalar_arg(args, 0) {
        Some(e) => if room(st, 1) {
            let v = next_name(st, prefix, base);
            Run::Done(
                equate(declare(tick(st), v, vtype), var(v), e, tag),
                var_value(v),
            )
        } else {
            Run::Stop
        },
        None => Run::Stop,
    }
}

/// The call that tells whether its argument is zero.
pub open spec fn is_zero_call(st: State, args: Seq<ValueV>, prefix: Seq<char>) -> Run<ValueV> {
    match scalar_arg(args, 0) {
        Some(e) => if room(st, 1) {
            let v = next_name(st, prefix, "iz"@);
            Run::Done(
                emit(
                    declare(tick(st), v, VarType::Bit),
                    ConstraintV::IsZero { result: v, expr: e },
                ),
                var_value(v),
            )
        } else {
            Run::Stop
        },
        None => Run::Stop,
    }
}

/// The name of bit `i` of the first operand of a bitwise operation.
pub open spec fn x_bit(prefix: Seq<char>, counter: nat, i: nat) -> Seq<char> {
    fresh_name(prefix, "xb"@ + digits(i), counter + 2 * i + 1)
}

/// The name of bit `i` of the second operand of a bitwise operation.
pub open spec fn y_bit(prefix: Seq<char>, counter: nat, i: nat) -> Seq<char> {
    fresh_name(prefix, "yb"@ + digits(i), counter + 2 * i + 2)
}

/// The first `n` bits of the first operand.
pub open spec fn x_bits(prefix: Seq<char>, counter: nat, n: nat) -> Seq<IrExprV> {
    Seq::new(n, |i: int| var(x_bit(prefix, counter, i as nat)))
}

/// The first `n` bits of the second operand.
pub open spec fn y_bits(prefix: Seq<char>, counter: nat, n: nat) -> Seq<IrExprV> {
    Seq::new(n, |i: int| var(y_bit(prefix, counter, i as nat)))
}

/// The products of the first `n` bits of two operands.
pub open spec fn and_bits(prefix: Seq<char>, counter: nat, n: nat) -> Seq<IrExprV> {
    Seq::new(
        n,
        |i: int|
            times(
                var(x_bit(prefix, counter, i as nat)),
                var(y_bit(prefix, counter, i as nat)),
            ),
    )
}

/// The state with the first `n` bits of two operands.
pub open spec fn declare_pairs(st: State, prefix: Seq<char>, n: nat) -> State
    decreases n,
{
    if n == 0 {
        st
    } else {
        let s = declare_pairs(st, prefix, (n - 1) as nat);
        declare(
            tick(
                declare(tick(s), x_bit(prefix, st.counter, (n - 1) as nat), VarType::Bit),
            ),
            y_bit(prefix, st.counter, (n - 1) as nat),
            VarType::Bit,
        )
    }
}

/// The bitwise conjunction of two 16-bit numbers: both are taken apart into bits, and
/// the result is the number whose bits are the products.
pub open spec fn and_call(st: State, args: Seq<ValueV>, prefix: Seq<char>) -> Run<ValueV> {
    match (scalar_arg(args, 0), scalar_arg(args, 1)) {
        (Some(x), Some(y)) => if room(st, 33) {
            let s1 = declare_pairs(st, prefix, 16);
            let s2 = equate(s1, x, bit_sum(x_bits(prefix, st.counter, 16)), "tobits_x"@);
            let s3 = equate(s2, y, bit_sum(y_bits(prefix, st.counter, 16)), "tobits_y"@);
            let r = next_name(s3, prefix, "and16"@);
            let s4 = declare(tick(s3), r, VarType::U16);
            Run::Done(
                equate(s4, var(r), bit_sum(and_bits(prefix, st.counter, 16)), "and_result"@),
                var_value(r),
            )
        } else {
            Run::Stop
        },
        _ => Run::Stop,
    }
}

/// The name of bit `i` of a number that is taken apart.
pub open spec fn bit_name(prefix: Seq<char>, counter: nat, i: nat) -> Seq<char> {
    fresh_name(prefix, "b"@ + digits(i), counter + i + 1)
}

/// The first `n` bits of a number that is taken apart.
pub open spec fn bit_vars(prefix: Seq<char>, counter: nat, n: nat) -> Seq<IrExprV> {
    Seq::new(n, |i: int| var(bit_name(prefix, counter, i as nat)))
}

/// The state with the first `n` bits of a number.
pub open spec fn declare_bits(st: State, prefix: Seq<char>, n: nat) -> State
    decreases n,
{
    if n == 0 {
        st
    } else {
        declare(
            tick(declare_bits(st, prefix, (n - 1) as nat)),
            bit_name(prefix, st.counter, (n - 1) as nat),
            VarType::Bit,
        )
    }
}

/// How many bits `ToBits` takes a number apart into.
pub open spec fn bit_count(type_args: Seq<u64>) -> nat {
    if type_args.len() > 0 {
        type_args[0] as nat
    } else {
        16
    }
}

/// A number taken apart into bits.
pub open spec fn to_bits_call(
    st: State,
    args: Seq<ValueV>,
    type_args: Seq<u64>,
    prefix: Seq<char>,
) -> Run<ValueV> {
    let n = bit_count(type_args);
    match scalar_arg(args, 0) {
        Some(e) => if n <= 64 && room(st, n as int) {
            let bits = bit_vars(prefix, st.counter, n);
            Run::Done(
                equate(declare_bits(st, prefix, n), e, bit_sum(bits), "tobits_decompose"@),
                ValueV::BitArray(bits),
            )
        } else {
            Run::Stop
        },
        None => Run::Stop,
    }
}

/// A number put together from bits.
pub open spec fn from_bits_call(st: State, args: Seq<ValueV>) -> Run<ValueV> {
    if args.len() == 0 {
        Run::Stop
    } else {
        match args[0] {
            ValueV::BitArray(bits) => if bits.len() <= 64 {
                Run::Done(st, ValueV::Expr(bit_sum(bits)))
            } else {
                Run::Stop
            },
            _ => Run::Fail("FromBits: expected BitArray"@),
        }
    }
}

/// Whether a name is that of a call with a rule of its own.
pub open spec fn is_builtin(name: Seq<char>) -> bool {
    ||| is_halves(name)
    ||| chosen_register(name) is Some
    ||| name == "FakeTwitReg"@
    ||| name == "Reg"@
    ||| name == "U16Reg"@
    ||| name == "U32Reg"@
    ||| name == "IsZero"@
    ||| name == "Isz"@
    ||| name == "BitwiseAndU16"@
    ||| name == "ToBits"@
    ||| name == "FromBits"@
}

/// A call with a rule of its own.
pub open spec fn builtin_call(
    st: State,
    name: Seq<char>,
    args: Seq<ValueV>,
    type_args: Seq<u64>,
    prefix: Seq<char>,
) -> Run<ValueV> {
    if is_halves(name) {
        if args.len() >= 2 {
            Run::Done(st, halves(args[0], args[1]))
        } else {
            Run::Stop
        }
    } else if chosen_register(name) is Some {
        let r = chosen_register(name)->Some_0;
        choose_register(st, prefix, r.0, r.1)
    } else if name == "FakeTwitReg"@ {
        equal_register(st, args, prefix, "ftwit"@, VarType::Twit, "fake_twit_reg"@)
    } else if name == "Reg"@ {
        if args.len() >= 1 {
            Run::Done(st, args[0])
        } else {
            Run::Stop
        }
    } else if name == "U16Reg"@ {
        equal_register(st, args, prefix, "u16r"@, VarType::U16, "u16reg"@)
    } else if name == "U32Reg"@ {
        equal_register(st, args, prefix, "u32r"@, VarType::U32, "u32reg"@)
    } else if name == "IsZero"@ || name == "Isz"@ {
        is_zero_call(st, args, prefix)
    } else if name == "BitwiseAndU16"@ {
        and_call(st, args, prefix)
    } else if name == "ToBits"@ {
        to_bits_call(st, args, type_args, prefix)
    } else {
        from_bits_call(st, args)
    }
}

// ---------------------------------------------------------------------------
// Calls that are not expanded
// ---------------------------------------------------------------------------

/// The type that a public binding of a component shows, if any.
pub open spec fn shown_type(comp: ComponentV, e: ExprV) -> Option<Seq<char>> {
    match e {
        ExprV::Call { name, .. } => if is_halves(name) {
            Some(name)
        } else {
            None
        },
        ExprV::Ident(p) => get(comp.params, p),
        _ => None,
    }
}

/// A value of a type, made of new variables that are free in the range of `Val`. `depth`
/// bounds how deeply types may be nested.
pub open spec fn fresh_value(
    env: Env,
    st: State,
    ty: Seq<char>,
    prefix: Seq<char>,
    depth: nat,
) -> Run<ValueV>
    decreases depth, 0int, 0int,
{
    if is_halves(ty) {
        if room(st, 2) {
            let low = next_name(st, prefix, "ext_low"@);
            let high = next_name(tick(st), prefix, "ext_high"@);
            Run::Done(
                declare(declare(tick(tick(st)), low, VarType::Val), high, VarType::Val),
                halves(var_value(low), var_value(high)),
            )
        } else {
            Run::Stop
        }
    } else if env.components.dom().contains(ty) {
        if depth == 0 {
            Run::Stop
        } else {
            let comp = env.components[ty];
            fresh_fields(
                env,
                st,
                comp,
                publics(comp.body),
                0,
                Seq::empty(),
                prefix,
                (depth - 1) as nat,
            )
        }
    } else {
        fresh_scalar(st, prefix, "ext"@)
    }
}

/// The structure `acc`, with new variables for the public bindings from `i` on.
pub open spec fn fresh_fields(
    env: Env,
    st: State,
    comp: ComponentV,
    pubs: Seq<(Seq<char>, ExprV)>,
    i: int,
    acc: Fields,
    prefix: Seq<char>,
    depth: nat,
) -> Run<ValueV>
    decreases depth, 1int, pubs.len() - i,
{
    if 0 <= i < pubs.len() {
        let r = match shown_type(comp, pubs[i].1) {
            Some(t) => if is_halves(t) || env.components.dom().contains(t) {
                fresh_value(env, st, t, prefix, depth)
            } else {
                fresh_scalar(st, prefix, pubs[i].0)
            },
            None => fresh_scalar(st, prefix, pubs[i].0),
        };
        match r {
            Run::Done(s, v) => fresh_fields(
                env,
                s,
                comp,
                pubs,
                i + 1,
                put(acc, pubs[i].0, v),
                prefix,
                depth,
            ),
            Run::Fail(m) => Run::Fail(m),
            Run::Stop => Run::Stop,
        }
    } else {
        Run::Done(st, ValueV::Struct(acc))
    }
}

/// A new variable that is free in the range of `Val`.
pub open spec fn fresh_scalar(st: State, prefix: Seq<char>, name: Seq<char>) -> Run<ValueV> {
    if room(st, 1) {
        let v = next_name(st, prefix, name);
        Run::Done(declare(tick(st), v, VarType::Val), var_value(v))
    } else {
        Run::Stop
    }
}

/// The scalars in the fields of `arg` that are named by the public bindings from `i`
/// on, behind `acc`.
pub open spec fn flat_fields(
    st: State,
    arg: ValueV,
    ty: Seq<char>,
    pubs: Seq<(Seq<char>, ExprV)>,
    i: int,
    acc: Seq<IrExprV>,
) -> Run<Seq<IrExprV>>
    decreases pubs.len() - i,
{
    if 0 <= i < pubs.len() {
        match field_of(arg, pubs[i].0) {
            Some(ValueV::Expr(e)) => flat_fields(st, arg, ty, pubs, i + 1, acc.push(e)),
            Some(_) => Run::Stop,
            None => Run::Fail("missing field "@ + pubs[i].0 + " on "@ + ty),
        }
    } else {
        Run::Done(st, acc)
    }
}

/// The scalars of one argument, behind `acc`.
pub open spec fn flat_arg(
    env: Env,
    st: State,
    arg: ValueV,
    ty: Seq<char>,
    acc: Seq<IrExprV>,
) -> Run<Seq<IrExprV>> {
    if is_halves(ty) {
        match field_of(arg, "low"@) {
            Some(ValueV::Expr(low)) => match field_of(arg, "high"@) {
                Some(ValueV::Expr(high)) => Run::Done(st, acc.push(low).push(high)),
                Some(_) => Run::Stop,
                None => Run::Fail("missing .high"@),
            },
            Some(_) => Run::Stop,
            None => Run::Fail("missing .low"@),
        }
    } else if env.components.dom().contains(ty) {
        flat_fields(st, arg, ty, publics(env.components[ty].body), 0, acc)
    } else {
        match arg {
            ValueV::Expr(e) => Run::Done(st, acc.push(e)),
            _ => Run::Stop,
        }
    }
}

/// The scalars of the arguments from `i` on, by the types of the parameters, behind
/// `acc`.
pub open spec fn flat_args(
    env: Env,
    st: State,
    name: Seq<char>,
    params: Seq<(Seq<char>, Seq<char>)>,
    args: Seq<ValueV>,
    i: int,
    acc: Seq<IrExprV>,
) -> Run<Seq<IrExprV>>
    decreases params.len() - i,
{
    if 0 <= i < params.len() {
        if i >= args.len() {
            Run::Fail("abstract "@ + name + ": param "@ + digits(i as nat) + " out of args"@)
        } else {
            match flat_arg(env, st, args[i], params[i].1, acc) {
                Run::Done(s, a) => flat_args(env, s, name, params, args, i + 1, a),
                Run::Fail(m) => Run::Fail(m),
                Run::Stop => Run::Stop,
            }
        }
    } else {
        Run::Done(st, acc)
    }
}

/// Whether a public binding makes a number in two halves.
pub open spec fn makes_halves(e: ExprV) -> bool {
    match e {
        ExprV::Call { name, .. } => is_halves(name),
        _ => false,
    }
}

/// The results of a call that is not expanded: a structure with a new variable for
/// each public binding from `i` on, behind `acc`, and the pairs of field and variable
/// behind `outs`.
pub open spec fn abstract_results(
    st: State,
    name: Seq<char>,
    pubs: Seq<(Seq<char>, ExprV)>,
    i: int,
    acc: Fields,
    outs: Seq<(Seq<char>, Seq<char>)>,
    prefix: Seq<char>,
) -> Run<(Fields, Seq<(Seq<char>, Seq<char>)>)>
    decreases pubs.len() - i,
{
    if 0 <= i < pubs.len() {
        let f = pubs[i].0;
        let base = unicode_lowercase(name) + "_"@ + f;
        if makes_halves(pubs[i].1) {
            if room(st, 2) {
                let low = next_name(st, prefix, base + "_low"@);
                let high = next_name(tick(st), prefix, base + "_high"@);
                abstract_results(
                    declare(declare(tick(tick(st)), low, VarType::U16), high, VarType::U16),
                    name,
                    pubs,
                    i + 1,
                    put(acc, f, halves(var_value(low), var_value(high))),
                    outs.push((f + ".low"@, low)).push((f + ".high"@, high)),
                    prefix,
                )
            } else {
                Run::Stop
            }
        } else if room(st, 1) {
            let v = next_name(st, prefix, base);
            abstract_results(
                declare(tick(st), v, VarType::Val),
                name,
                pubs,
                i + 1,
                put(acc, f, var_value(v)),
                outs.push((f, v)),
                prefix,
            )
        } else {
            Run::Stop
        }
    } else {
        Run::Done(st, (acc, outs))
    }
}

/// A call that is not expanded: its results are new variables, and one constraint says
/// that they are functions of the arguments.
pub open spec fn abstract_call(
    env: Env,
    st: State,
    comp: ComponentV,
    name: Seq<char>,
    args: Seq<ValueV>,
    prefix: Seq<char>,
) -> Run<ValueV> {
    match flat_args(env, st, name, comp.params, args, 0, Seq::empty()) {
        Run::Done(s, flat) => {
            let pubs = publics(comp.body);
            if pubs.len() == 0 {
                Run::Fail("abstract "@ + name + ": no public outputs"@)
            } else {
                match abstract_results(s, name, pubs, 0, Seq::empty(), Seq::empty(), prefix) {
                    Run::Done(s2, (acc, outputs)) => Run::Done(
                        emit(s2, ConstraintV::Call { component: name, args: flat, outputs }),
                        ValueV::Struct(acc),
                    ),
                    Run::Fail(m) => Run::Fail(m),
                    Run::Stop => Run::Stop,
                }
            }
        },
        Run::Fail(m) => Run::Fail(m),
        Run::Stop => Run::Stop,
    }
}

// ---------------------------------------------------------------------------
// Calls that are expanded
// ---------------------------------------------------------------------------

/// The prefix of names that are made inside a call of `name`.
pub open spec fn inner_prefix(prefix: Seq<char>, name: Seq<char>) -> Seq<char> {
    if prefix.len() == 0 {
        unicode_lowercase(name)
    } else {
        prefix + "_"@ + unicode_lowercase(name)
    }
}

/// The first `n` parameters bound to the arguments that there are.
pub open spec fn bind_args(
    st: State,
    params: Seq<(Seq<char>, Seq<char>)>,
    args: Seq<ValueV>,
    n: nat,
) -> State
    decreases n,
{
    if n == 0 || n > params.len() {
        st
    } else {
        let s = bind_args(st, params, args, (n - 1) as nat);
        if n <= args.len() {
            bind(s, params[n - 1].0, args[n - 1])
        } else {
            s
        }
    }
}

/// The values of the first `n` public bindings of a body.
pub open spec fn public_fields(
    bindings: Fields,
    pubs: Seq<(Seq<char>, ExprV)>,
    n: nat,
) -> Fields
    decreases n,
{
    if n == 0 || n > pubs.len() {
        Seq::empty()
    } else {
        let rest = public_fields(bindings, pubs, (n - 1) as nat);
        match get(bindings, pubs[n - 1].0) {
            Some(v) => put(rest, pubs[n - 1].0, v),
            None => rest,
        }
    }
}

/// The fields `f` with those of the first `n` of `more` that they lack.
pub open spec fn with_missing(f: Fields, more: Fields, n: nat) -> Fields
    decreases n,
{
    if n == 0 || n > more.len() {
        f
    } else {
        let rest = with_missing(f, more, (n - 1) as nat);
        if get(rest, more[n - 1].0) is Some {
            rest
        } else {
            put(rest, more[n - 1].0, more[n - 1].1)
        }
    }
}

/// The value of a call: what the body gives, with the public bindings as fields.
pub open spec fn call_value(result: Option<ValueV>, public: Fields) -> ValueV {
    match result {
        Some(ValueV::Struct(f)) => ValueV::Struct(with_missing(f, public, public.len())),
        Some(v) => if public.len() == 0 {
            v
        } else {
            ValueV::Struct(put(public, "_value"@, v))
        },
        None => if public.len() == 0 {
            ValueV::Expr(IrExprV::Const(0))
        } else {
            ValueV::Struct(public)
        },
    }
}

/// A call. `depth` bounds how deeply calls may be nested.
#[verifier::opaque]
pub open spec fn call(
    env: Env,
    st: State,
    name: Seq<char>,
    args: Seq<ValueV>,
    type_args: Seq<u64>,
    prefix: Seq<char>,
    depth: nat,
) -> Run<ValueV>
    decreases 3 * depth + 2, args, 0int, 0int,
{
    if is_builtin(name) {
        builtin_call(st, name, args, type_args, prefix)
    } else if env.externs.dom().contains(name) {
        fresh_value(env, st, env.externs[name], prefix, depth)
    } else if env.components.dom().contains(name) {
        let comp = env.components[name];
        if env.abstracts.contains(name) {
            abstract_call(env, st, comp, name, args, prefix)
        } else {
            let inner = bind_args(st, comp.params, args, comp.params.len());
            match body(env, inner, comp.body, 0, None, inner_prefix(prefix, name), depth) {
                Run::Done(s, result) => {
                    let pubs = publics(comp.body);
                    Run::Done(
                        State { bindings: st.bindings, ..s },
                        call_value(result, public_fields(s.bindings, pubs, pubs.len())),
                    )
                },
                Run::Fail(m) => Run::Fail(m),
                Run::Stop => Run::Stop,
            }
        }
    } else {
        Run::Fail("Unknown component: "@ + name)
    }
}

/// The statements of a body from `i` on. The result is the value of the last statement
/// where that is an expression; `last` is that of the statement before `i`.
#[verifier::opaque]
pub open spec fn body(
    env: Env,
    st: State,
    stmts: Seq<StmtV>,
    i: int,
    last: Option<ValueV>,
    prefix: Seq<char>,
    depth: nat,
) -> Run<Option<ValueV>>
    decreases 3 * depth + 1, stmts, 0int, stmts.len() - i,
{
    if 0 <= i < stmts.len() {
        match stmt(env, st, stmts[i], prefix, depth) {
            Run::Done(s, v) => body(env, s, stmts, i + 1, v, prefix, depth),
            Run::Fail(m) => Run::Fail(m),
            Run::Stop => Run::Stop,
        }
    } else {
        Run::Done(st, last)
    }
}

/// A register that is bound to a name: a variable that equals the value.
pub open spec fn bound_register(
    st: State,
    name: Seq<char>,
    v: ValueV,
    vtype: VarType,
    prefix: Seq<char>,
) -> Run<ValueV> {
    match v {
        ValueV::Expr(e) => if room(st, 1) {
            let n = next_name(st, prefix, name);
            Run::Done(
                equate(declare(tick(st), n, vtype), var(n), e, "reg_"@ + name),
                var_value(n),
            )
        } else {
            Run::Stop
        },
        _ => Run::Stop,
    }
}

/// What is bound to a name, by the right-hand side and its value.
pub open spec fn bound_value(
    st: State,
    name: Seq<char>,
    rhs: ExprV,
    v: ValueV,
    prefix: Seq<char>,
) -> Run<ValueV> {
    match rhs {
        ExprV::Call { name: f, .. } => if f == "U16Reg"@ {
            bound_register(st, name, v, VarType::U16, prefix)
        } else if f == "Reg"@ {
            bound_register(st, name, v, VarType::Val, prefix)
        } else {
            Run::Done(st, v)
        },
        _ => Run::Done(st, v),
    }
}

/// The binding of a name to a value. A public one is an output at the top level, and
/// elsewhere a variable that becomes a field of what the call gives.
pub open spec fn bind_value(
    st: State,
    is_public: bool,
    name: Seq<char>,
    rhs: ExprV,
    v: ValueV,
    prefix: Seq<char>,
) -> Run<Option<ValueV>> {
    if is_public {
        match v {
            ValueV::Expr(e) => if room(st, 1) {
                let n = next_name(st, prefix, name);
                let t = guessed_type(rhs);
                let s = if prefix.len() == 0 {
                    declare_output(tick(st), n, t)
                } else {
                    declare(tick(st), n, t)
                };
                Run::Done(
                    bind(equate(s, var(n), e, "public_"@ + name), name, var_value(n)),
                    None,
                )
            } else {
                Run::Stop
            },
            ValueV::Struct(_) => {
                let s = if prefix.len() == 0 {
                    add_outputs(st, outputs_of(v, name))
                } else {
                    st
                };
                Run::Done(bind(s, name, v), None)
            },
            ValueV::BitArray(_) => Run::Done(bind(st, name, v), None),
        }
    } else {
        Run::Done(bind(st, name, v), None)
    }
}

/// One statement.
#[verifier::opaque]
pub open spec fn stmt(
    env: Env,
    st: State,
    s: StmtV,
    prefix: Seq<char>,
    depth: nat,
) -> Run<Option<ValueV>>
    decreases 3 * depth + 1, s, 1int, 0int,
{
    match s {
        StmtV::Binding { is_public, name, value } => match expr(env, st, value, prefix, depth) {
            Run::Done(s1, v) => match bound_value(s1, name, value, v, prefix) {
                Run::Done(s2, w) => bind_value(s2, is_public, name, value, w, prefix),
                Run::Fail(m) => Run::Fail(m),
                Run::Stop => Run::Stop,
            },
            Run::Fail(m) => Run::Fail(m),
            Run::Stop => Run::Stop,
        },
        StmtV::Constraint { lhs, rhs } => match expr(env, st, lhs, prefix, depth) {
            Run::Done(s1, ValueV::Expr(l)) => match expr(env, s1, rhs, prefix, depth) {
                Run::Done(s2, ValueV::Expr(r)) => Run::Done(
                    equate(s2, l, r, "constraint"@),
                    None,
                ),
                Run::Done(_, _) => Run::Stop,
                Run::Fail(m) => Run::Fail(m),
                Run::Stop => Run::Stop,
            },
            Run::Done(_, _) => Run::Stop,
            Run::Fail(m) => Run::Fail(m),
            Run::Stop => Run::Stop,
        },
        StmtV::Mux { .. } => mux(env, st, s, 0, st.guard, prefix, depth),
        StmtV::ExprStmt(e) => match expr(env, st, e, prefix, depth) {
            Run::Done(s1, v) => Run::Done(s1, Some(v)),
            Run::Fail(m) => Run::Fail(m),
            Run::Stop => Run::Stop,
        },
    }
}

/// The branches of a mux from `i` on, each under its guard; `outer` is the guard
/// outside of the mux.
#[verifier::opaque]
pub open spec fn mux(
    env: Env,
    st: State,
    s: StmtV,
    i: int,
    outer: Option<IrExprV>,
    prefix: Seq<char>,
    depth: nat,
) -> Run<Option<ValueV>>
    decreases 3 * depth + 1, s, 0int, s->guards.len() - i,
{
    match s {
        StmtV::Mux { guards, branches } => if 0 <= i < guards.len() && i < branches.len() {
            match expr(env, st, guards[i], prefix, depth) {
                Run::Done(s1, ValueV::Expr(g)) => {
                    let s2 = State { guard: Some(inner_guard(outer, g)), ..s1 };
                    match body(env, s2, branches[i], 0, None, prefix, depth) {
                        Run::Done(s3, _) => mux(
                            env,
                            State { guard: outer, ..s3 },
                            s,
                            i + 1,
                            outer,
                            prefix,
                            depth,
                        ),
                        Run::Fail(m) => Run::Fail(m),
                        Run::Stop => Run::Stop,
                    }
                },
                Run::Done(_, _) => Run::Stop,
                Run::Fail(m) => Run::Fail(m),
                Run::Stop => Run::Stop,
            }
        } else {
            Run::Done(st, None)
        },
        _ => Run::Stop,
    }
}

/// The value of an identifier: what is bound to it, or else the variable of that name.
pub open spec fn ident_value(st: State, name: Seq<char>) -> ValueV {
    match get(st.bindings, name) {
        Some(v) => v,
        None => var_value(name),
    }
}

/// The value of the field `field` of `object`, whose own value is `v`.
pub open spec fn field_value(
    st: State,
    object: ExprV,
    v: ValueV,
    field: Seq<char>,
) -> Run<ValueV> {
    match field_of(v, field) {
        Some(w) => Run::Done(st, w),
        None => match object {
            ExprV::Ident(o) => Run::Done(st, ident_value(st, o + "."@ + field)),
            _ => Run::Fail("Cannot access field '"@ + field + "' on non-struct"@),
        },
    }
}

/// Whether a division comes out even: the quotient times the divisor is the number divided.
pub open spec fn divides_evenly(a: int, b: int) -> bool {
    b != 0 && quotient(a, b) * b == a
}

/// The quotient `l / r`, which is exact: of constants where it comes out even, and else a
/// new variable `q` with `q * r = l`.
pub open spec fn division(st: State, l: IrExprV, r: IrExprV, prefix: Seq<char>) -> Run<ValueV> {
    if l == IrExprV::Const(0) {
        Run::Done(st, ValueV::Expr(IrExprV::Const(0)))
    } else if l is Const && r is Const && divides_evenly(l->Const_0 as int, r->Const_0 as int) {
        let q = quotient(l->Const_0 as int, r->Const_0 as int);
        if q <= i64::MAX {
            Run::Done(st, ValueV::Expr(IrExprV::Const(q as i64)))
        } else {
            Run::Stop
        }
    } else if room(st, 1) {
        let q = next_name(st, prefix, "div"@);
        Run::Done(
            equate(declare(tick(st), q, VarType::Val), times(var(q), r), l, "exact_div"@),
            ValueV::Expr(var(q)),
        )
    } else {
        Run::Stop
    }
}

/// The value of an operation on two scalars.
pub open spec fn operation(
    st: State,
    op: Op,
    l: IrExprV,
    r: IrExprV,
    prefix: Seq<char>,
) -> Run<ValueV> {
    match op {
        Op::Add => Run::Done(st, ValueV::Expr(plus(l, r))),
        Op::Sub => Run::Done(st, ValueV::Expr(minus(l, r))),
        Op::Mul => Run::Done(st, ValueV::Expr(times(l, r))),
        Op::Div => division(st, l, r, prefix),
        Op::BitAnd => Run::Done(st, ValueV::Expr(IrExprV::Const(0))),
    }
}

/// The element of an array at a constant index.
pub open spec fn element(st: State, v: ValueV, index: ValueV) -> Run<ValueV> {
    match (v, index) {
        (ValueV::BitArray(a), ValueV::Expr(IrExprV::Const(i))) => if 0 <= i < a.len() {
            Run::Done(st, ValueV::Expr(a[i as int]))
        } else {
            Run::Stop
        },
        _ => Run::Fail("Index: expected BitArray[Const]"@),
    }
}

/// The value of an expression.
#[verifier::opaque]
pub open spec fn expr(
    env: Env,
    st: State,
    e: ExprV,
    prefix: Seq<char>,
    depth: nat,
) -> Run<ValueV>
    decreases 3 * depth, e, 1int, 0int,
{
    match e {
        ExprV::IntLit(n) => Run::Done(st, ValueV::Expr(IrExprV::Const(n as i64))),
        ExprV::Ident(name) => Run::Done(st, ident_value(st, name)),
        ExprV::Field { object, field } => match expr(env, st, *object, prefix, depth) {
            Run::Done(s, v) => field_value(s, *object, v, field),
            Run::Fail(m) => Run::Fail(m),
            Run::Stop => Run::Stop,
        },
        ExprV::BinOp { op, lhs, rhs } => match expr(env, st, *lhs, prefix, depth) {
            Run::Done(s1, ValueV::Expr(l)) => match expr(env, s1, *rhs, prefix, depth) {
                Run::Done(s2, ValueV::Expr(r)) => operation(s2, op, l, r, prefix),
                Run::Done(_, _) => Run::Stop,
                Run::Fail(m) => Run::Fail(m),
                Run::Stop => Run::Stop,
            },
            Run::Done(_, _) => Run::Stop,
            Run::Fail(m) => Run::Fail(m),
            Run::Stop => Run::Stop,
        },
        ExprV::Call { name, type_args, args } => match arg_values(
            env,
            st,
            args,
            0,
            Seq::empty(),
            prefix,
            depth,
        ) {
            Run::Done(s, vs) => if depth == 0 {
                Run::Stop
            } else {
                call(env, s, name, vs, type_args, prefix, (depth - 1) as nat)
            },
            Run::Fail(m) => Run::Fail(m),
            Run::Stop => Run::Stop,
        },
        ExprV::For { var, start, end, body } => elements(
            env,
            st,
            var,
            start as int,
            end as int,
            *body,
            Seq::empty(),
            prefix,
            depth,
        ),
        ExprV::Index { object, index } => match expr(env, st, *object, prefix, depth) {
            Run::Done(s1, v) => match expr(env, s1, *index, prefix, depth) {
                Run::Done(s2, i) => element(s2, v, i),
                Run::Fail(m) => Run::Fail(m),
                Run::Stop => Run::Stop,
            },
            Run::Fail(m) => Run::Fail(m),
            Run::Stop => Run::Stop,
        },
    }
}

/// The values of the arguments from `i` on, behind `acc`.
#[verifier::opaque]
pub open spec fn arg_values(
    env: Env,
    st: State,
    args: Seq<ExprV>,
    i: int,
    acc: Seq<ValueV>,
    prefix: Seq<char>,
    depth: nat,
) -> Run<Seq<ValueV>>
    decreases 3 * depth, args, 0int, args.len() - i,
{
    if 0 <= i < args.len() {
        match expr(env, st, args[i], prefix, depth) {
            Run::Done(s, v) => arg_values(env, s, args, i + 1, acc.push(v), prefix, depth),
            Run::Fail(m) => Run::Fail(m),
            Run::Stop => Run::Stop,
        }
    } else {
        Run::Done(st, acc)
    }
}

/// The array of the values of `e` with `i`, `i + 1`, ... below `end` for `var`, behind
/// `acc`.
#[verifier::opaque]
pub open spec fn elements(
    env: Env,
    st: State,
    var: Seq<char>,
    i: int,
    end: int,
    e: ExprV,
    acc: Seq<IrExprV>,
    prefix: Seq<char>,
    depth: nat,
) -> Run<ValueV>
    decreases 3 * depth, e, 2int, end - i,
{
    if i < end {
        let s = bind(st, var, ValueV::Expr(IrExprV::Const((i as u64) as i64)));
        match expr(env, s, e, prefix, depth) {
            Run::Done(s1, ValueV::Expr(x)) => elements(
                env,
                s1,
                var,
                i + 1,
                end,
                e,
                acc.push(x),
                prefix,
                depth,
            ),
            Run::Done(_, _) => Run::Stop,
            Run::Fail(m) => Run::Fail(m),
            Run::Stop => Run::Stop,
        }
    } else {
        Run::Done(st, ValueV::BitArray(acc))
    }
}

// ---------------------------------------------------------------------------
// Components
// ---------------------------------------------------------------------------

/// The structure of the inputs `name.f` for the first `n` of the public bindings.
pub open spec fn input_fields(
    name: Seq<char>,
    pubs: Seq<(Seq<char>, ExprV)>,
    n: nat,
) -> Fields
    decreases n,
{
    if n == 0 || n > pubs.len() {
        Seq::empty()
    } else {
        put(
            input_fields(name, pubs, (n - 1) as nat),
            pubs[n - 1].0,
            var_value(name + "."@ + pubs[n - 1].0),
        )
    }
}

/// The state with the inputs `name.f` for the first `n` of the public bindings.
pub open spec fn declare_inputs(
    st: State,
    name: Seq<char>,
    pubs: Seq<(Seq<char>, ExprV)>,
    n: nat,
) -> State
    decreases n,
{
    if n == 0 || n > pubs.len() {
        st
    } else {
        declare_input(
            declare_inputs(st, name, pubs, (n - 1) as nat),
            name + "."@ + pubs[n - 1].0,
            VarType::Val,
        )
    }
}

/// One parameter as inputs.
pub open spec fn param_input(env: Env, st: State, name: Seq<char>, ty: Seq<char>) -> State {
    if is_halves(ty) {
        let low = name + ".low"@;
        let high = name + ".high"@;
        bind(
            declare_input(declare_input(st, low, VarType::U16), high, VarType::U16),
            name,
            halves(var_value(low), var_value(high)),
        )
    } else if env.components.dom().contains(ty) && publics(env.components[ty].body).len() > 0 {
        let pubs = publics(env.components[ty].body);
        bind(
            declare_inputs(st, name, pubs, pubs.len()),
            name,
            ValueV::Struct(input_fields(name, pubs, pubs.len())),
        )
    } else {
        let t = if ty == "U32"@ && !env.components.dom().contains(ty) {
            VarType::U32
        } else {
            VarType::Val
        };
        bind(declare_input(st, name, t), name, var_value(name))
    }
}

/// The first `n` parameters as inputs.
pub open spec fn param_inputs(
    env: Env,
    st: State,
    params: Seq<(Seq<char>, Seq<char>)>,
    n: nat,
) -> State
    decreases n,
{
    if n == 0 || n > params.len() {
        st
    } else {
        param_input(
            env,
            param_inputs(env, st, params, (n - 1) as nat),
            params[n - 1].0,
            params[n - 1].1,
        )
    }
}

/// The state before anything of the component `name` is lowered.
pub open spec fn start(name: Seq<char>, source_line: nat) -> State {
    State {
        bindings: Seq::empty(),
        counter: 0,
        guard: None,
        spec: SpecV {
            name,
            source_line,
            inputs: Seq::empty(),
            outputs: Seq::empty(),
            internals: Seq::empty(),
            constraints: Seq::empty(),
        },
    }
}

/// The outcome of lowering a component.
pub enum Lowered {
    Done(SpecV),
    Fail(Seq<char>),
    Stop,
}

/// The instruction that the component `name` is.
pub open spec fn lowered(env: Env, name: Seq<char>, depth: nat) -> Lowered {
    if env.components.dom().contains(name) {
        let comp = env.components[name];
        let st = param_inputs(env, start(name, comp.source_line), comp.params, comp.params.len());
        match body(env, st, comp.body, 0, None, ""@, depth) {
            Run::Done(s, Some(v)) => Lowered::Done(add_outputs(s, outputs_of(v, "result"@)).spec),
            Run::Done(s, None) => Lowered::Done(s.spec),
            Run::Fail(m) => Lowered::Fail(m),
            Run::Stop => Lowered::Stop,
        }
    } else {
        Lowered::Fail("Component '"@ + name + "' not found"@)
    }
}

} // verus!
