//! Lowering of components to instructions.

use vstd::arithmetic::div_mod::lemma_fundamental_div_mod;
use vstd::arithmetic::power2::{
    lemma2_to64, lemma2_to64_rest, lemma_pow2_strictly_increases, lemma_pow2_unfold, pow2,
};
use vstd::prelude::*;
use crate::ir::database::ComponentDB;
use crate::ir::rules::{
    abstract_call, abstract_results, add_outputs, and_bits, and_call, arg_values, bind, bind_args,
    bind_value, bit_sum, bit_vars, body, bound_register, bound_value, builtin_call, call,
    call_value, choose_register, chosen_register, declare, declare_bits, declare_input,
    declare_inputs, declare_output, declare_pairs, divides_evenly, division, element, elements,
    emit, equal_register, equate, expr, field_value, flat_arg, flat_args, flat_fields, fresh_fields,
    fresh_name, fresh_scalar, fresh_value, from_bits_call, guarded, guessed_type, ident_value,
    input_fields, is_builtin, is_halves, is_zero_call, lowered, makes_halves, mux, next_name,
    operation, outputs_of, outputs_of_fields, param_input, param_inputs, public_fields, publics,
    quotient, room, scalar_arg, shown_type, start, stmt, tick, times, to_bits_call, var, weight,
    with_missing, x_bits, y_bits, Lowered, Output, Run, State,
};
use crate::ir::value::{
    copy_fields, fields, find, firsts, keys, lemma_keys, lemma_struct_view, put_value, values,
    Value, ValueV,
};
use crate::ir::{
    constraints, ir_exprs, ConstraintV, InstructionSpec, IrConstraint, IrExpr, IrExprV, Var,
    VarType,
};
use crate::laws::guards::{lemma_call_adds_no_output, lemma_extern_call};
use crate::laws::naming::lemma_fresh_names_differ;
use crate::laws::steps::expands;
use crate::parser::ast::{
    blocks, exprs, lemma_call_view, lemma_mux_view, pairs, stmts, ComponentDef, Expr, ExprV, Op,
    Stmt, StmtV,
};
use crate::text::{cat2, cat3, cat4, cat5, decimal, lowercase, same};

verus! {

// ---------------------------------------------------------------------------
// The state
// ---------------------------------------------------------------------------

/// Why lowering came to an end before it was done.
enum Halt {
    Error(String),
    Stop,
}

/// The state of lowering.
struct LowerCtx<'a> {
    db: &'a ComponentDB,
    bindings: Vec<(String, Value)>,
    counter: usize,
    current_guard: Option<IrExpr>,
    spec: InstructionSpec,
}

/// The mathematical value of a guard.
spec fn guard_of(g: Option<IrExpr>) -> Option<IrExprV> {
    match g {
        Some(e) => Some(e@),
        None => None,
    }
}

/// Whether a step from `before` to `after` had the outcome that the rules give.
spec fn follows<T, V>(
    before: LowerCtx,
    after: LowerCtx,
    r: Result<T, Halt>,
    value: spec_fn(T) -> V,
    s: Run<V>,
) -> bool {
    &&& after.db == before.db
    &&& match s {
        Run::Done(st, v) => r is Ok && value(r->Ok_0) == v && after@ == st,
        Run::Fail(m) => r is Err && r->Err_0 is Error && r->Err_0->Error_0@ == m,
        Run::Stop => r is Err && r->Err_0 is Stop,
    }
}

/// Whether a step is refused with a message.
spec fn refused<T>(r: Result<T, Halt>) -> bool {
    r is Err && r->Err_0 is Error
}

impl<'a> LowerCtx<'a> {
    /// The mathematical value of the state.
    spec fn view(&self) -> State {
        State {
            bindings: fields(self.bindings@),
            counter: self.counter as nat,
            guard: guard_of(self.current_guard),
            spec: self.spec@,
        }
    }

    fn bind(&mut self, name: &str, v: Value)
        ensures
            final(self).db == old(self).db,
            final(self)@ == bind(old(self)@, name@, v@),
    {
        put_value(&mut self.bindings, name, v);
    }

    fn has_room(&self, n: usize) -> (r: bool)
        ensures
            r == room(self@, n as int),
    {
        n <= usize::MAX - self.counter
    }

    /// The next name.
    fn fresh(&mut self, prefix: &str, name: &str) -> (r: String)
        requires
            room(old(self)@, 1),
        ensures
            final(self).db == old(self).db,
            final(self)@ == tick(old(self)@),
            r@ == next_name(old(self)@, prefix@, name@),
            forall|p: Seq<char>, x: Seq<char>, n: nat|
                n <= old(self)@.counter ==> r@ != #[trigger] fresh_name(p, x, n),
    {
        proof {
            let m = self@.counter + 1;
            assert forall|p: Seq<char>, x: Seq<char>, n: nat| n <= self@.counter implies next_name(
                self@,
                prefix@,
                name@,
            ) != #[trigger] fresh_name(p, x, n) by {
                lemma_fresh_names_differ(prefix@, name@, m, p, x, n);
            }
        }
        self.counter += 1;
        let n = decimal(self.counter as u64);
        if is_empty(prefix) {
            cat3(name, "_", &n)
        } else {
            cat5(prefix, "_", name, "_", &n)
        }
    }

    fn declare(&mut self, name: &str, vtype: VarType)
        ensures
            final(self).db == old(self).db,
            final(self)@ == declare(old(self)@, name@, vtype),
    {
        self.spec.internals.push(Var { name: name.to_owned(), vtype });
        assert(self@.spec.internals =~= declare(old(self)@, name@, vtype).spec.internals);
    }

    fn declare_output(&mut self, name: &str, vtype: VarType)
        ensures
            final(self).db == old(self).db,
            final(self)@ == declare_output(old(self)@, name@, vtype),
    {
        self.spec.outputs.push(Var { name: name.to_owned(), vtype });
        assert(self@.spec.outputs =~= declare_output(old(self)@, name@, vtype).spec.outputs);
    }

    fn declare_input(&mut self, name: &str, vtype: VarType)
        ensures
            final(self).db == old(self).db,
            final(self)@ == declare_input(old(self)@, name@, vtype),
    {
        self.spec.inputs.push(Var { name: name.to_owned(), vtype });
        assert(self@.spec.inputs =~= declare_input(old(self)@, name@, vtype).spec.inputs);
    }

    fn emit(&mut self, c: IrConstraint)
        ensures
            final(self).db == old(self).db,
            final(self)@ == emit(old(self)@, c@),
    {
        self.spec.constraints.push(c);
        assert(self@.spec.constraints =~= emit(old(self)@, c@).spec.constraints);
    }

    /// A side of an equation under the guard.
    fn maybe_guard(&self, e: IrExpr) -> (r: IrExpr)
        ensures
            r@ == guarded(self@.guard, e@),
    {
        match &self.current_guard {
            Some(g) => IrExpr::Mul(Box::new(g.clone()), Box::new(e)),
            None => e,
        }
    }

    fn equate(&mut self, lhs: IrExpr, rhs: IrExpr, tag: &str)
        ensures
            final(self).db == old(self).db,
            final(self)@ == equate(old(self)@, lhs@, rhs@, tag@),
    {
        let l = self.maybe_guard(lhs);
        let r = self.maybe_guard(rhs);
        self.emit(IrConstraint::Eq { lhs: l, rhs: r, tag: tag.to_owned() });
    }
}

/// Whether a text is empty.
fn is_empty(s: &str) -> (r: bool)
    ensures
        r == (s@.len() == 0),
{
    proof {
        reveal_strlit("");
        assert(s@.len() == 0 ==> s@ =~= ""@);
    }
    same(s, "")
}

// ---------------------------------------------------------------------------
// Outputs
// ---------------------------------------------------------------------------

/// Adding outputs in two parts is adding them at once.
proof fn lemma_add_outputs(st: State, a: Seq<Output>, b: Seq<Output>)
    ensures
        add_outputs(add_outputs(st, a), b) == add_outputs(st, a + b),
        add_outputs(st, Seq::empty()) == st,
{
    let s = add_outputs(add_outputs(st, a), b).spec;
    let t = add_outputs(st, a + b).spec;
    assert(s.outputs =~= t.outputs);
    assert(s.constraints =~= t.constraints);
    let e = add_outputs(st, Seq::empty()).spec;
    assert(e.outputs =~= st.spec.outputs);
    assert(e.constraints =~= st.spec.constraints);
}

/// Adding one output.
proof fn lemma_add_output(st: State, o: Output)
    ensures
        equate(declare_output(st, o.name, o.vtype), var(o.name), o.expr, "output_"@ + o.name)
            == add_outputs(st, seq![o]),
{
    let s = equate(
        declare_output(st, o.name, o.vtype),
        var(o.name),
        o.expr,
        "output_"@ + o.name,
    ).spec;
    let t = add_outputs(st, seq![o]).spec;
    assert(s.outputs =~= t.outputs);
    assert(s.constraints =~= t.constraints);
}

impl<'a> LowerCtx<'a> {
    fn add_output(&mut self, name: &str, vtype: VarType, e: &IrExpr)
        ensures
            final(self).db == old(self).db,
            final(self)@ == add_outputs(
                old(self)@,
                seq![Output { name: name@, vtype, expr: e@ }],
            ),
    {
        self.declare_output(name, vtype);
        self.equate(IrExpr::Var(name.to_owned()), e.clone(), &cat2("output_", name));
        proof {
            lemma_add_output(old(self)@, Output { name: name@, vtype, expr: e@ });
        }
    }

    /// Adds the outputs that a value stands for.
    fn extract_outputs(&mut self, v: &Value, name: &str)
        ensures
            final(self).db == old(self).db,
            final(self)@ == add_outputs(old(self)@, outputs_of(v@, name@)),
        decreases v,
    {
        match v {
            Value::Expr(e) => self.add_output(name, VarType::Val, e),
            Value::Struct(f) => {
                proof {
                    lemma_struct_view(*f);
                    lemma_add_outputs(self@, Seq::empty(), Seq::empty());
                }
                let ghost start = self@;
                let mut i: usize = 0;
                while i < f.len()
                    invariant
                        i <= f.len(),
                        self.db == old(self).db,
                        self@ == add_outputs(
                            start,
                            outputs_of_fields(fields(f@), i as nat, name@),
                        ),
                        decreases_to!(v => f),
                    decreases f.len() - i,
                {
                    let ghost done = outputs_of_fields(fields(f@), i as nat, name@);
                    let full = cat3(name, ".", &f[i].0);
                    let ghost here = self@;
                    assert(fields(f@)[i as int] == (f@[i as int].0@, f@[i as int].1@));
                    match &f[i].1 {
                        Value::Expr(e) => {
                            self.add_output(&full, VarType::U16, e);
                            proof {
                                lemma_add_outputs(
                                    start,
                                    done,
                                    seq![Output { name: full@, vtype: VarType::U16, expr: e@ }],
                                );
                            }
                        },
                        inner => {
                            assert(decreases_to!(f@ => f@[i as int]));
                            assert(decreases_to!(f@[i as int] => f@[i as int].1));
                            self.extract_outputs(inner, &full);
                            proof {
                                lemma_add_outputs(start, done, outputs_of(inner@, full@));
                            }
                        },
                    }
                    i += 1;
                }
            },
            Value::BitArray(_) => {
                proof {
                    lemma_add_outputs(self@, Seq::empty(), Seq::empty());
                }
            },
        }
    }
}

// ---------------------------------------------------------------------------
// Registers and bits
// ---------------------------------------------------------------------------

impl Value {
    /// The scalar that the value is.
    fn to_expr(&self) -> (r: Result<IrExpr, Halt>)
        ensures
            match self@ {
                ValueV::Expr(e) => r is Ok && r->Ok_0@ == e,
                _ => r is Err && r->Err_0 is Stop,
            },
    {
        match self {
            Value::Expr(e) => Ok(e.clone()),
            _ => Err(Halt::Stop),
        }
    }
}

/// The scalar that an argument is.
fn scalar(args: &Vec<Value>, i: usize) -> (r: Result<IrExpr, Halt>)
    ensures
        match scalar_arg(values(args@), i as int) {
            Some(e) => r is Ok && r->Ok_0@ == e,
            None => r is Err && r->Err_0 is Stop,
        },
{
    if i < args.len() {
        assert(values(args@)[i as int] == args@[i as int]@);
        args[i].to_expr()
    } else {
        Err(Halt::Stop)
    }
}

/// The value that is the variable `name`.
fn variable(name: &str) -> (r: Value)
    ensures
        r@ == ValueV::Expr(var(name@)),
{
    Value::Expr(IrExpr::Var(name.to_owned()))
}

/// Whether a type is that of a number in two halves.
fn halves_type(t: &str) -> (r: bool)
    ensures
        r == is_halves(t@),
{
    same(t, "ValU32") || same(t, "DenormedValU32")
}

/// A register that the prover chooses: what its name is made from, and its type.
fn chosen(name: &str) -> (r: Option<(String, VarType)>)
    ensures
        match chosen_register(name@) {
            Some(p) => r is Some && r->Some_0.0@ == p.0 && r->Some_0.1 == p.1,
            None => r is None,
        },
{
    if same(name, "NondetReg") {
        Some(("nd".to_owned(), VarType::Val))
    } else if same(name, "NondetU16Reg") {
        Some(("u16".to_owned(), VarType::U16))
    } else if same(name, "NondetU32Reg") {
        Some(("u32".to_owned(), VarType::U32))
    } else if same(name, "NondetU8Reg") {
        Some(("u8".to_owned(), VarType::U8))
    } else if same(name, "NondetBitReg") {
        Some(("bit".to_owned(), VarType::Bit))
    } else if same(name, "NondetTwitReg") || same(name, "NondetFakeTwitReg") {
        Some(("twit".to_owned(), VarType::Twit))
    } else {
        None
    }
}

/// The weight of bit `i`.
fn bit_weight(i: usize) -> (r: i64)
    requires
        i < 64,
    ensures
        r == weight(i as nat),
{
    if i >= 63 {
        i64::MIN
    } else {
        let mut w: i64 = 1;
        let mut k: usize = 0;
        proof {
            lemma2_to64();
        }
        while k < i
            invariant
                k <= i < 63,
                w == pow2(k as nat),
            decreases i - k,
        {
            proof {
                lemma_pow2_unfold((k + 1) as nat);
                lemma_pow2_strictly_increases((k + 1) as nat, 63);
                lemma2_to64_rest();
            }
            w = w * 2;
            k += 1;
        }
        proof {
            if i < 63 {
                lemma_pow2_strictly_increases(i as nat, 63);
            }
            lemma2_to64_rest();
        }
        w
    }
}

/// The sum of `sum` and the bit `i`.
fn add_bit(sum: IrExpr, bit: IrExpr, i: usize, Ghost(bits): Ghost<Seq<IrExprV>>) -> (r: IrExpr)
    requires
        i < 64,
        bits.len() == i,
        sum@ == bit_sum(bits),
    ensures
        r@ == bit_sum(bits.push(bit@)),
{
    let term = IrExpr::Mul(Box::new(bit), Box::new(IrExpr::Const(bit_weight(i))));
    proof {
        reveal_with_fuel(IrExpr::view, 3);
        assert(term@ == times(bit@, IrExprV::Const(weight(i as nat))));
        assert(bits.push(bit@).drop_last() =~= bits);
    }
    if i == 0 {
        term
    } else {
        IrExpr::Add(Box::new(sum), Box::new(term))
    }
}

/// Making the first bits uses up names, and leaves all but the variables as it was.
proof fn lemma_declare_bits(st: State, prefix: Seq<char>, n: nat)
    ensures
        declare_bits(st, prefix, n).counter == st.counter + n,
    decreases n,
{
    if n > 0 {
        lemma_declare_bits(st, prefix, (n - 1) as nat);
    }
}

proof fn lemma_declare_pairs(st: State, prefix: Seq<char>, n: nat)
    ensures
        declare_pairs(st, prefix, n).counter == st.counter + 2 * n,
    decreases n,
{
    if n > 0 {
        lemma_declare_pairs(st, prefix, (n - 1) as nat);
    }
}

impl<'a> LowerCtx<'a> {
    /// A register that the prover chooses.
    fn choose_register(&mut self, prefix: &str, base: &str, vtype: VarType) -> (r: Result<
        Value,
        Halt,
    >)
        ensures
            follows(
                *old(self),
                *final(self),
                r,
                |v: Value| v@,
                choose_register(old(self)@, prefix@, base@, vtype),
            ),
    {
        if !self.has_room(1) {
            return Err(Halt::Stop);
        }
        let name = self.fresh(prefix, base);
        self.declare(&name, vtype);
        Ok(variable(&name))
    }

    /// A register that equals its argument.
    fn equal_register(
        &mut self,
        args: &Vec<Value>,
        prefix: &str,
        base: &str,
        vtype: VarType,
        tag: &str,
    ) -> (r: Result<Value, Halt>)
        ensures
            follows(
                *old(self),
                *final(self),
                r,
                |v: Value| v@,
                equal_register(
                    old(self)@,
                    values(args@),
                    prefix@,
                    base@,
                    vtype,
                    tag@,
                ),
            ),
    {
        let e = scalar(args, 0)?;
        if !self.has_room(1) {
            return Err(Halt::Stop);
        }
        let name = self.fresh(prefix, base);
        self.declare(&name, vtype);
        self.equate(IrExpr::Var(name.clone()), e, tag);
        Ok(variable(&name))
    }

    fn is_zero_call(&mut self, args: &Vec<Value>, prefix: &str) -> (r: Result<Value, Halt>)
        ensures
            follows(
                *old(self),
                *final(self),
                r,
                |v: Value| v@,
                is_zero_call(old(self)@, values(args@), prefix@),
            ),
    {
        let e = scalar(args, 0)?;
        if !self.has_room(1) {
            return Err(Halt::Stop);
        }
        let name = self.fresh(prefix, "iz");
        self.declare(&name, VarType::Bit);
        self.emit(IrConstraint::IsZero { result: name.clone(), expr: e });
        Ok(variable(&name))
    }

    fn and_call(&mut self, args: &Vec<Value>, prefix: &str) -> (r: Result<Value, Halt>)
        ensures
            follows(
                *old(self),
                *final(self),
                r,
                |v: Value| v@,
                and_call(old(self)@, values(args@), prefix@),
            ),
    {
        let x_expr = scalar(args, 0)?;
        let y_expr = scalar(args, 1)?;
        if !self.has_room(33) {
            return Err(Halt::Stop);
        }
        let ghost st = self@;
        let ghost p = prefix@;
        let mut x_sum = IrExpr::Const(0);
        let mut y_sum = IrExpr::Const(0);
        let mut r_sum = IrExpr::Const(0);
        let mut i: usize = 0;
        while i < 16
            invariant
                i <= 16,
                p == prefix@,
                room(st, 33),
                self.db == old(self).db,
                self@ == declare_pairs(st, p, i as nat),
                x_sum@ == bit_sum(x_bits(p, st.counter, i as nat)),
                y_sum@ == bit_sum(y_bits(p, st.counter, i as nat)),
                r_sum@ == bit_sum(and_bits(p, st.counter, i as nat)),
            decreases 16 - i,
        {
            proof {
                lemma_declare_pairs(st, p, i as nat);
            }
            let n = decimal(i as u64);
            let xb = self.fresh(prefix, &cat2("xb", &n));
            self.declare(&xb, VarType::Bit);
            let yb = self.fresh(prefix, &cat2("yb", &n));
            self.declare(&yb, VarType::Bit);
            let product = IrExpr::Mul(
                Box::new(IrExpr::Var(xb.clone())),
                Box::new(IrExpr::Var(yb.clone())),
            );
            let ghost xs = x_bits(p, st.counter, i as nat);
            let ghost ys = y_bits(p, st.counter, i as nat);
            let ghost rs = and_bits(p, st.counter, i as nat);
            x_sum = add_bit(x_sum, IrExpr::Var(xb), i, Ghost(xs));
            y_sum = add_bit(y_sum, IrExpr::Var(yb), i, Ghost(ys));
            r_sum = add_bit(r_sum, product, i, Ghost(rs));
            proof {
                assert(xs.push(var(xb@)) =~= x_bits(p, st.counter, (i + 1) as nat));
                assert(ys.push(var(yb@)) =~= y_bits(p, st.counter, (i + 1) as nat));
                assert(rs.push(times(var(xb@), var(yb@))) =~= and_bits(
                    p,
                    st.counter,
                    (i + 1) as nat,
                ));
            }
            i += 1;
        }
        proof {
            lemma_declare_pairs(st, p, 16);
        }
        self.equate(x_expr, x_sum, "tobits_x");
        self.equate(y_expr, y_sum, "tobits_y");
        let name = self.fresh(prefix, "and16");
        self.declare(&name, VarType::U16);
        self.equate(IrExpr::Var(name.clone()), r_sum, "and_result");
        Ok(variable(&name))
    }

    fn to_bits_call(
        &mut self,
        args: &Vec<Value>,
        type_args: &Vec<u64>,
        prefix: &str,
    ) -> (r: Result<Value, Halt>)
        ensures
            follows(
                *old(self),
                *final(self),
                r,
                |v: Value| v@,
                to_bits_call(old(self)@, values(args@), type_args@, prefix@),
            ),
    {
        let count: u64 = if type_args.len() > 0 {
            type_args[0]
        } else {
            16
        };
        let input = scalar(args, 0)?;
        if count > 64 || !self.has_room(count as usize) {
            return Err(Halt::Stop);
        }
        let n = count as usize;
        let ghost st = self@;
        let ghost p = prefix@;
        let mut bits: Vec<IrExpr> = Vec::new();
        let mut sum = IrExpr::Const(0);
        let mut i: usize = 0;
        while i < n
            invariant
                i <= n <= 64,
                p == prefix@,
                room(st, n as int),
                self.db == old(self).db,
                self@ == declare_bits(st, p, i as nat),
                ir_exprs(bits@) =~= bit_vars(p, st.counter, i as nat),
                sum@ == bit_sum(bit_vars(p, st.counter, i as nat)),
            decreases n - i,
        {
            proof {
                lemma_declare_bits(st, p, i as nat);
            }
            let name = self.fresh(prefix, &cat2("b", &decimal(i as u64)));
            self.declare(&name, VarType::Bit);
            bits.push(IrExpr::Var(name.clone()));
            let ghost before = bit_vars(p, st.counter, i as nat);
            sum = add_bit(sum, IrExpr::Var(name), i, Ghost(before));
            proof {
                assert(before.push(var(name@)) =~= bit_vars(p, st.counter, (i + 1) as nat));
            }
            i += 1;
        }
        self.equate(input, sum, "tobits_decompose");
        Ok(Value::BitArray(bits))
    }

    fn from_bits_call(&mut self, args: &Vec<Value>) -> (r: Result<Value, Halt>)
        ensures
            follows(
                *old(self),
                *final(self),
                r,
                |v: Value| v@,
                from_bits_call(old(self)@, values(args@)),
            ),
            refused(r) ==> final(self)@ == old(self)@,
    {
        if args.len() == 0 {
            return Err(Halt::Stop);
        }
        assert(values(args@)[0] == args@[0]@);
        match &args[0] {
            Value::BitArray(bits) => {
                if bits.len() > 64 {
                    return Err(Halt::Stop);
                }
                let ghost all = ir_exprs(bits@);
                let mut sum = IrExpr::Const(0);
                let mut i: usize = 0;
                while i < bits.len()
                    invariant
                        i <= bits.len() <= 64,
                        all == ir_exprs(bits@),
                        sum@ == bit_sum(all.take(i as int)),
                    decreases bits.len() - i,
                {
                    sum = add_bit(sum, bits[i].clone(), i, Ghost(all.take(i as int)));
                    proof {
                        assert(all.take(i as int).push(bits@[i as int]@) =~= all.take(i + 1));
                    }
                    i += 1;
                }
                assert(all.take(i as int) =~= all);
                Ok(Value::Expr(sum))
            },
            _ => Err(Halt::Error("FromBits: expected BitArray".to_owned())),
        }
    }

    /// A call with a rule of its own, if `name` has one.
    fn builtin(
        &mut self,
        name: &str,
        args: &Vec<Value>,
        type_args: &Vec<u64>,
        prefix: &str,
    ) -> (r: Option<Result<Value, Halt>>)
        ensures
            r is Some <==> is_builtin(name@),
            r is Some ==> follows(
                *old(self),
                *final(self),
                r->Some_0,
                |v: Value| v@,
                builtin_call(old(self)@, name@, values(args@), type_args@, prefix@),
            ),
            r is None ==> *final(self) == *old(self),
            r is Some && refused(r->Some_0) ==> final(self)@ == old(self)@,
    {
        if halves_type(name) {
            if args.len() < 2 {
                return Some(Err(Halt::Stop));
            }
            assert(values(args@)[0] == args@[0]@ && values(args@)[1] == args@[1]@);
            return Some(Ok(Value::make_struct(args[0].clone(), args[1].clone())));
        }
        match chosen(name) {
            Some((base, vtype)) => {
                return Some(self.choose_register(prefix, &base, vtype));
            },
            None => {},
        }
        if same(name, "FakeTwitReg") {
            Some(self.equal_register(args, prefix, "ftwit", VarType::Twit, "fake_twit_reg"))
        } else if same(name, "Reg") {
            if args.len() < 1 {
                return Some(Err(Halt::Stop));
            }
            assert(values(args@)[0] == args@[0]@);
            Some(Ok(args[0].clone()))
        } else if same(name, "U16Reg") {
            Some(self.equal_register(args, prefix, "u16r", VarType::U16, "u16reg"))
        } else if same(name, "U32Reg") {
            Some(self.equal_register(args, prefix, "u32r", VarType::U32, "u32reg"))
        } else if same(name, "IsZero") || same(name, "Isz") {
            Some(self.is_zero_call(args, prefix))
        } else if same(name, "BitwiseAndU16") {
            Some(self.and_call(args, prefix))
        } else if same(name, "ToBits") {
            Some(self.to_bits_call(args, type_args, prefix))
        } else if same(name, "FromBits") {
            Some(self.from_bits_call(args))
        } else {
            None
        }
    }
}

// ---------------------------------------------------------------------------
// Calls that are not expanded
// ---------------------------------------------------------------------------

/// The mathematical values of public bindings.
spec fn bindings_of(v: Seq<(&String, &Expr)>) -> Seq<(Seq<char>, ExprV)> {
    v.map_values(|p: (&String, &Expr)| (p.0@, p.1@))
}

/// The names and the right-hand sides of the public bindings of a body.
fn public_bindings(body: &Vec<Stmt>) -> (r: Vec<(&String, &Expr)>)
    ensures
        bindings_of(r@) == publics(stmts(body@)),
{
    let ghost all = stmts(body@);
    let mut out: Vec<(&String, &Expr)> = Vec::new();
    let mut i: usize = 0;
    assert(bindings_of(out@) =~= publics(all.take(0)));
    while i < body.len()
        invariant
            i <= body.len(),
            all == stmts(body@),
            bindings_of(out@) == publics(all.take(i as int)),
        decreases body.len() - i,
    {
        let ghost was = out@;
        proof {
            assert(all.take(i + 1).drop_last() =~= all.take(i as int));
            assert(all.take(i + 1).last() == body@[i as int]@);
        }
        match &body[i] {
            Stmt::Binding { is_public, name, value } => {
                if *is_public {
                    out.push((name, value));
                    assert(bindings_of(out@) =~= bindings_of(was).push((name@, value@)));
                }
            },
            _ => {},
        }
        i += 1;
    }
    assert(all.take(i as int) =~= all);
    out
}

/// The type that a public binding of a component shows, if any.
fn shown<'b>(comp: &'b ComponentDef, e: &'b Expr) -> (r: Option<&'b String>)
    ensures
        match shown_type(comp@, e@) {
            Some(t) => r is Some && r->Some_0@ == t,
            None => r is None,
        },
{
    match e {
        Expr::Call { name, .. } => if halves_type(name) {
            Some(name)
        } else {
            None
        },
        Expr::Ident(p) => {
            proof {
                assert(firsts(pairs(comp.params@)) =~= keys(comp.params@));
            }
            match find(&comp.params, p) {
                Some(i) => Some(&comp.params[i].1),
                None => None,
            }
        },
        _ => None,
    }
}

/// Whether a public binding makes a number in two halves.
fn halves_result(e: &Expr) -> (r: bool)
    ensures
        r == makes_halves(e@),
{
    match e {
        Expr::Call { name, .. } => halves_type(name),
        _ => false,
    }
}

impl<'a> LowerCtx<'a> {
    /// A value of a type, made of new variables that are free in the range of `Val`.
    fn fresh_struct_for_type(&mut self, ty: &str, prefix: &str, depth: usize) -> (r: Result<
        Value,
        Halt,
    >)
        ensures
            follows(
                *old(self),
                *final(self),
                r,
                |v: Value| v@,
                fresh_value(old(self).db@, old(self)@, ty@, prefix@, depth as nat),
            ),
            !refused(r),
        decreases depth,
    {
        let db = self.db;
        if halves_type(ty) {
            if !self.has_room(2) {
                return Err(Halt::Stop);
            }
            let low = self.fresh(prefix, "ext_low");
            let high = self.fresh(prefix, "ext_high");
            self.declare(&low, VarType::Val);
            self.declare(&high, VarType::Val);
            return Ok(Value::make_struct(variable(&low), variable(&high)));
        }
        match db.component(ty) {
            Some(comp) => {
                if depth == 0 {
                    return Err(Halt::Stop);
                }
                let pubs = public_bindings(&comp.body);
                let ghost env = db@;
                let ghost all = publics(comp@.body);
                let ghost start = self@;
                let ghost d = (depth - 1) as nat;
                let mut acc: Vec<(String, Value)> = Vec::new();
                let mut i: usize = 0;
                assert(fields(acc@) =~= Seq::empty());
                while i < pubs.len()
                    invariant
                        i <= pubs.len(),
                        0 < depth,
                        d == depth - 1,
                        db == old(self).db,
                        self.db == db,
                        env == db@,
                        all == bindings_of(pubs@),
                        fresh_value(env, old(self)@, ty@, prefix@, depth as nat) == fresh_fields(
                            env,
                            self@,
                            comp@,
                            all,
                            i as int,
                            fields(acc@),
                            prefix@,
                            d,
                        ),
                    decreases pubs.len() - i,
                {
                    let (name, value) = pubs[i];
                    assert(all[i as int] == (name@, value@));
                    let v = match shown(comp, value) {
                        Some(t) => if halves_type(t) || db.component(t).is_some() {
                            self.fresh_struct_for_type(t, prefix, depth - 1)?
                        } else {
                            self.fresh_scalar(prefix, name)?
                        },
                        None => self.fresh_scalar(prefix, name)?,
                    };
                    put_value(&mut acc, name, v);
                    i += 1;
                }
                proof {
                    lemma_struct_view(acc);
                }
                Ok(Value::Struct(acc))
            },
            None => self.fresh_scalar(prefix, "ext"),
        }
    }

    /// A new variable that is free in the range of `Val`.
    fn fresh_scalar(&mut self, prefix: &str, name: &str) -> (r: Result<Value, Halt>)
        ensures
            follows(
                *old(self),
                *final(self),
                r,
                |v: Value| v@,
                fresh_scalar(old(self)@, prefix@, name@),
            ),
    {
        if !self.has_room(1) {
            return Err(Halt::Stop);
        }
        let v = self.fresh(prefix, name);
        self.declare(&v, VarType::Val);
        Ok(variable(&v))
    }

    /// Appends the scalars in the fields of `arg`.
    fn flat_fields(
        &self,
        arg: &Value,
        ty: &str,
        body: &Vec<Stmt>,
        acc: &mut Vec<IrExpr>,
    ) -> (r: Result<(), Halt>)
        ensures
            follows(
                *self,
                *self,
                r,
                |u: ()| ir_exprs(final(acc)@),
                flat_fields(
                    self@,
                    arg@,
                    ty@,
                    publics(stmts(body@)),
                    0,
                    ir_exprs(old(acc)@),
                ),
            ),
    {
        let pubs = public_bindings(body);
        let ghost all = publics(stmts(body@));
        let mut i: usize = 0;
        while i < pubs.len()
            invariant
                i <= pubs.len(),
                all == publics(stmts(body@)),
                all == bindings_of(pubs@),
                flat_fields(self@, arg@, ty@, all, 0, ir_exprs(old(acc)@)) == flat_fields(
                    self@,
                    arg@,
                    ty@,
                    all,
                    i as int,
                    ir_exprs(acc@),
                ),
            decreases pubs.len() - i,
        {
            let (name, value) = pubs[i];
            assert(all[i as int] == (name@, value@));
            match arg.field(name) {
                Some(v) => {
                    let ghost was = ir_exprs(acc@);
                    let e = v.to_expr()?;
                    acc.push(e);
                    assert(ir_exprs(acc@) =~= was.push(e@));
                },
                None => {
                    return Err(Halt::Error(cat4("missing field ", name, " on ", ty)));
                },
            }
            i += 1;
        }
        Ok(())
    }

    /// Appends the scalars of one argument.
    fn flat_arg(&self, arg: &Value, ty: &str, acc: &mut Vec<IrExpr>) -> (r: Result<(), Halt>)
        ensures
            follows(
                *self,
                *self,
                r,
                |u: ()| ir_exprs(final(acc)@),
                flat_arg(self.db@, self@, arg@, ty@, ir_exprs(old(acc)@)),
            ),
    {
        if halves_type(ty) {
            let ghost was = ir_exprs(acc@);
            let low = match arg.field("low") {
                Some(v) => v.to_expr()?,
                None => {
                    return Err(Halt::Error("missing .low".to_owned()));
                },
            };
            let high = match arg.field("high") {
                Some(v) => v.to_expr()?,
                None => {
                    return Err(Halt::Error("missing .high".to_owned()));
                },
            };
            acc.push(low);
            acc.push(high);
            assert(ir_exprs(acc@) =~= was.push(low@).push(high@));
            Ok(())
        } else {
            match self.db.component(ty) {
                Some(comp) => self.flat_fields(arg, ty, &comp.body, acc),
                None => {
                    let ghost was = ir_exprs(acc@);
                    let e = arg.to_expr()?;
                    acc.push(e);
                    assert(ir_exprs(acc@) =~= was.push(e@));
                    Ok(())
                },
            }
        }
    }

    /// The scalars of the arguments, by the types of the parameters.
    fn flat_args(
        &self,
        name: &str,
        params: &Vec<(String, String)>,
        args: &Vec<Value>,
    ) -> (r: Result<Vec<IrExpr>, Halt>)
        ensures
            follows(
                *self,
                *self,
                r,
                |v: Vec<IrExpr>| ir_exprs(v@),
                flat_args(
                    self.db@,
                    self@,
                    name@,
                    pairs(params@),
                    values(args@),
                    0,
                    Seq::empty(),
                ),
            ),
    {
        let mut acc: Vec<IrExpr> = Vec::new();
        let mut i: usize = 0;
        assert(ir_exprs(acc@) =~= Seq::empty());
        while i < params.len()
            invariant
                i <= params.len(),
                flat_args(
                    self.db@,
                    self@,
                    name@,
                    pairs(params@),
                    values(args@),
                    0,
                    Seq::empty(),
                ) == flat_args(
                    self.db@,
                    self@,
                    name@,
                    pairs(params@),
                    values(args@),
                    i as int,
                    ir_exprs(acc@),
                ),
            decreases params.len() - i,
        {
            if i >= args.len() {
                return Err(
                    Halt::Error(
                        cat5("abstract ", name, ": param ", &decimal(i as u64), " out of args"),
                    ),
                );
            }
            proof {
                assert(values(args@)[i as int] == args@[i as int]@);
                assert(pairs(params@)[i as int].1 == params@[i as int].1@);
            }
            self.flat_arg(&args[i], &params[i].1, &mut acc)?;
            i += 1;
        }
        Ok(acc)
    }

    /// A call that is not expanded.
    fn abstract_call(
        &mut self,
        comp: &ComponentDef,
        name: &str,
        args: &Vec<Value>,
        prefix: &str,
    ) -> (r: Result<Value, Halt>)
        ensures
            follows(
                *old(self),
                *final(self),
                r,
                |v: Value| v@,
                abstract_call(
                    old(self).db@,
                    old(self)@,
                    comp@,
                    name@,
                    values(args@),
                    prefix@,
                ),
            ),
            refused(r) ==> final(self)@ == old(self)@,
    {
        let flat = self.flat_args(name, &comp.params, args)?;
        let pubs = public_bindings(&comp.body);
        let ghost all = publics(comp@.body);
        if pubs.len() == 0 {
            return Err(Halt::Error(cat3("abstract ", name, ": no public outputs")));
        }
        let ghost st = self@;
        let mut acc: Vec<(String, Value)> = Vec::new();
        let mut outs: Vec<(String, String)> = Vec::new();
        let mut i: usize = 0;
        proof {
            assert(fields(acc@) =~= Seq::empty());
            assert(pairs(outs@) =~= Seq::empty());
        }
        while i < pubs.len()
            invariant
                i <= pubs.len(),
                self.db == old(self).db,
                all == bindings_of(pubs@),
                abstract_results(st, name@, all, 0, Seq::empty(), Seq::empty(), prefix@)
                    == abstract_results(
                    self@,
                    name@,
                    all,
                    i as int,
                    fields(acc@),
                    pairs(outs@),
                    prefix@,
                ),
                abstract_call(
                    old(self).db@,
                    old(self)@,
                    comp@,
                    name@,
                    values(args@),
                    prefix@,
                ) == (match abstract_results(
                    st,
                    name@,
                    all,
                    0,
                    Seq::empty(),
                    Seq::empty(),
                    prefix@,
                ) {
                    Run::Done(s2, (a, outputs)) => Run::Done(
                        emit(
                            s2,
                            ConstraintV::Call { component: name@, args: ir_exprs(flat@), outputs },
                        ),
                        ValueV::Struct(a),
                    ),
                    Run::Fail(m) => Run::Fail(m),
                    Run::Stop => Run::Stop,
                }),
            decreases pubs.len() - i,
        {
            let (field, value) = pubs[i];
            assert(all[i as int] == (field@, value@));
            let base = cat3(&lowercase(name), "_", field);
            let ghost was = pairs(outs@);
            if halves_result(value) {
                if !self.has_room(2) {
                    return Err(Halt::Stop);
                }
                let low = self.fresh(prefix, &cat2(&base, "_low"));
                let high = self.fresh(prefix, &cat2(&base, "_high"));
                self.declare(&low, VarType::U16);
                self.declare(&high, VarType::U16);
                put_value(
                    &mut acc,
                    field,
                    Value::make_struct(variable(&low), variable(&high)),
                );
                outs.push((cat2(field, ".low"), low));
                outs.push((cat2(field, ".high"), high));
                assert(pairs(outs@) =~= was.push((field@ + ".low"@, low@)).push(
                    (field@ + ".high"@, high@),
                ));
            } else {
                if !self.has_room(1) {
                    return Err(Halt::Stop);
                }
                let v = self.fresh(prefix, &base);
                self.declare(&v, VarType::Val);
                put_value(&mut acc, field, variable(&v));
                outs.push((field.clone(), v));
                assert(pairs(outs@) =~= was.push((field@, v@)));
            }
            i += 1;
        }
        self.emit(IrConstraint::Call { component: name.to_owned(), args: flat, outputs: outs });
        proof {
            lemma_struct_view(acc);
        }
        Ok(Value::Struct(acc))
    }
}

// ---------------------------------------------------------------------------
// Expressions and statements
// ---------------------------------------------------------------------------

/// The type of a variable that holds a public binding.
fn guess_type(e: &Expr) -> (r: VarType)
    ensures
        r == guessed_type(e@),
{
    match e {
        Expr::Call { name, .. } => {
            if same(name, "NondetU16Reg") || same(name, "U16Reg") {
                VarType::U16
            } else if same(name, "NondetU32Reg") || same(name, "U32Reg") {
                VarType::U32
            } else if same(name, "NondetBitReg") || same(name, "IsZero") || same(name, "Isz") {
                VarType::Bit
            } else if same(name, "NondetTwitReg") {
                VarType::Twit
            } else {
                VarType::Val
            }
        },
        _ => VarType::Val,
    }
}

/// The fields `f` with those of `more` that they lack.
fn merge(f: Vec<(String, Value)>, more: &Vec<(String, Value)>) -> (r: Vec<(String, Value)>)
    ensures
        fields(r@) == with_missing(fields(f@), fields(more@), more@.len()),
{
    let mut out = f;
    let mut i: usize = 0;
    while i < more.len()
        invariant
            i <= more.len(),
            fields(out@) == with_missing(fields(f@), fields(more@), i as nat),
        decreases more.len() - i,
    {
        proof {
            lemma_keys(out@);
            assert(fields(more@)[i as int] == (more@[i as int].0@, more@[i as int].1@));
        }
        if find(&out, &more[i].0).is_none() {
            put_value(&mut out, &more[i].0, more[i].1.clone());
        }
        i += 1;
    }
    out
}

/// The value of a call: what the body gives, with the public bindings as fields.
fn with_publics(result: Option<Value>, public: Vec<(String, Value)>) -> (r: Value)
    ensures
        r@ == call_value(opt(result), fields(public@)),
{
    match result {
        Some(Value::Struct(f)) => {
            proof {
                lemma_struct_view(f);
            }
            let all = merge(f, &public);
            proof {
                lemma_struct_view(all);
            }
            Value::Struct(all)
        },
        Some(v) => if public.len() == 0 {
            v
        } else {
            let mut all = public;
            put_value(&mut all, "_value", v);
            proof {
                lemma_struct_view(all);
            }
            Value::Struct(all)
        },
        None => if public.len() == 0 {
            Value::Expr(IrExpr::Const(0))
        } else {
            proof {
                lemma_struct_view(public);
            }
            Value::Struct(public)
        },
    }
}

/// The mathematical value of an optional value.
spec fn opt(v: Option<Value>) -> Option<ValueV> {
    match v {
        Some(x) => Some(x@),
        None => None,
    }
}

impl<'a> LowerCtx<'a> {
    /// What is bound to a name.
    fn lookup(&self, name: &str) -> (r: Value)
        ensures
            r@ == ident_value(self@, name@),
    {
        proof {
            lemma_keys(self.bindings@);
        }
        match find(&self.bindings, name) {
            Some(i) => self.bindings[i].1.clone(),
            None => variable(name),
        }
    }

    fn field_value(&mut self, object: &Expr, v: Value, field: &str) -> (r: Result<Value, Halt>)
        ensures
            follows(
                *old(self),
                *final(self),
                r,
                |w: Value| w@,
                field_value(old(self)@, object@, v@, field@),
            ),
    {
        match v.field(field) {
            Some(w) => Ok(w.clone()),
            None => match object {
                Expr::Ident(o) => Ok(self.lookup(&cat3(o, ".", field))),
                _ => Err(
                    Halt::Error(cat3("Cannot access field '", field, "' on non-struct")),
                ),
            },
        }
    }

    fn division(&mut self, l: IrExpr, r: IrExpr, prefix: &str) -> (res: Result<Value, Halt>)
        ensures
            follows(
                *old(self),
                *final(self),
                res,
                |v: Value| v@,
                division(old(self)@, l@, r@, prefix@),
            ),
    {
        match (&l, &r) {
            (IrExpr::Const(a), IrExpr::Const(b)) => {
                let (a, b) = (*a, *b);
                if a == 0 {
                    return Ok(Value::Expr(IrExpr::Const(0)));
                }
                if b != 0 && comes_out_even(a, b) {
                    return match divide(a, b) {
                        Some(q) => Ok(Value::Expr(IrExpr::Const(q))),
                        None => Err(Halt::Stop),
                    };
                }
            },
            (IrExpr::Const(a), _) => {
                if *a == 0 {
                    return Ok(Value::Expr(IrExpr::Const(0)));
                }
            },
            _ => {},
        }
        if !self.has_room(1) {
            return Err(Halt::Stop);
        }
        let q = self.fresh(prefix, "div");
        self.declare(&q, VarType::Val);
        let factor = IrExpr::Var(q.clone());
        assert(factor@ == var(q@));
        self.equate(IrExpr::Mul(Box::new(factor), Box::new(r)), l, "exact_div");
        Ok(variable(&q))
    }

    fn operation(&mut self, op: &Op, l: IrExpr, r: IrExpr, prefix: &str) -> (res: Result<
        Value,
        Halt,
    >)
        ensures
            follows(
                *old(self),
                *final(self),
                res,
                |v: Value| v@,
                operation(old(self)@, *op, l@, r@, prefix@),
            ),
    {
        match op {
            Op::Add => Ok(Value::Expr(IrExpr::Add(Box::new(l), Box::new(r)))),
            Op::Sub => Ok(Value::Expr(IrExpr::Sub(Box::new(l), Box::new(r)))),
            Op::Mul => Ok(Value::Expr(IrExpr::Mul(Box::new(l), Box::new(r)))),
            Op::Div => self.division(l, r, prefix),
            Op::BitAnd => Ok(Value::Expr(IrExpr::Const(0))),
        }
    }

    fn element(&mut self, v: &Value, index: &Value) -> (r: Result<Value, Halt>)
        ensures
            follows(
                *old(self),
                *final(self),
                r,
                |w: Value| w@,
                element(old(self)@, v@, index@),
            ),
    {
        match (v, index) {
            (Value::BitArray(a), Value::Expr(IrExpr::Const(i))) => {
                if *i < 0 || *i as u64 >= a.len() as u64 {
                    return Err(Halt::Stop);
                }
                let k = *i as usize;
                assert(ir_exprs(a@)[k as int] == a@[k as int]@);
                Ok(Value::Expr(a[k].clone()))
            },
            _ => Err(Halt::Error("Index: expected BitArray[Const]".to_owned())),
        }
    }

    fn bound_register(
        &mut self,
        name: &str,
        v: Value,
        vtype: VarType,
        prefix: &str,
    ) -> (r: Result<Value, Halt>)
        ensures
            follows(
                *old(self),
                *final(self),
                r,
                |w: Value| w@,
                bound_register(old(self)@, name@, v@, vtype, prefix@),
            ),
    {
        let e = v.to_expr()?;
        if !self.has_room(1) {
            return Err(Halt::Stop);
        }
        let n = self.fresh(prefix, name);
        self.declare(&n, vtype);
        self.equate(IrExpr::Var(n.clone()), e, &cat2("reg_", name));
        Ok(variable(&n))
    }

    fn bound_value(&mut self, name: &str, rhs: &Expr, v: Value, prefix: &str) -> (r: Result<
        Value,
        Halt,
    >)
        ensures
            follows(
                *old(self),
                *final(self),
                r,
                |w: Value| w@,
                bound_value(old(self)@, name@, rhs@, v@, prefix@),
            ),
    {
        match rhs {
            Expr::Call { name: f, .. } => {
                if same(f, "U16Reg") {
                    self.bound_register(name, v, VarType::U16, prefix)
                } else if same(f, "Reg") {
                    self.bound_register(name, v, VarType::Val, prefix)
                } else {
                    Ok(v)
                }
            },
            _ => Ok(v),
        }
    }

    fn bind_value(
        &mut self,
        is_public: bool,
        name: &str,
        rhs: &Expr,
        v: Value,
        prefix: &str,
    ) -> (r: Result<Option<Value>, Halt>)
        ensures
            follows(
                *old(self),
                *final(self),
                r,
                |w: Option<Value>| opt(w),
                bind_value(old(self)@, is_public, name@, rhs@, v@, prefix@),
            ),
    {
        if is_public {
            match &v {
                Value::Expr(e) => {
                    if !self.has_room(1) {
                        return Err(Halt::Stop);
                    }
                    let n = self.fresh(prefix, name);
                    let t = guess_type(rhs);
                    if is_empty(prefix) {
                        self.declare_output(&n, t);
                    } else {
                        self.declare(&n, t);
                    }
                    self.equate(IrExpr::Var(n.clone()), e.clone(), &cat2("public_", name));
                    self.bind(name, variable(&n));
                    return Ok(None);
                },
                Value::Struct(_) => {
                    if is_empty(prefix) {
                        self.extract_outputs(&v, name);
                    }
                },
                Value::BitArray(_) => {},
            }
        }
        self.bind(name, v);
        Ok(None)
    }
}

/// Whether a division comes out even.
fn comes_out_even(a: i64, b: i64) -> (r: bool)
    requires
        b != 0,
    ensures
        r == divides_evenly(a as int, b as int),
{
    let m: u64 = if a < 0 {
        (-(a as i128)) as u64
    } else {
        a as u64
    };
    let n: u64 = if b < 0 {
        (-(b as i128)) as u64
    } else {
        b as u64
    };
    proof {
        let q = m / n;
        lemma_fundamental_div_mod(m as int, n as int);
        assert(m == n * q + m % n);
        let w = quotient(a as int, b as int);
        assert(w * b == if a < 0 {
            -(n * q)
        } else {
            n * q
        }) by (nonlinear_arith)
            requires
                a < 0 ==> m == -a,
                a >= 0 ==> m == a,
                b < 0 ==> n == -b,
                b >= 0 ==> n == b,
                (a < 0) == (b < 0) ==> w == q,
                (a < 0) != (b < 0) ==> w == -q,
        ;
    }
    m % n == 0
}

/// The quotient of two integers, rounded towards zero, where it fits.
fn divide(a: i64, b: i64) -> (r: Option<i64>)
    requires
        b != 0,
    ensures
        match r {
            Some(q) => q == quotient(a as int, b as int),
            None => quotient(a as int, b as int) > i64::MAX,
        },
{
    let m: u64 = if a < 0 {
        (-(a as i128)) as u64
    } else {
        a as u64
    };
    let n: u64 = if b < 0 {
        (-(b as i128)) as u64
    } else {
        b as u64
    };
    let q: u64 = m / n;
    assert(q <= m) by (nonlinear_arith)
        requires
            q == m / n,
            n >= 1,
    ;
    if (a < 0) == (b < 0) {
        if q > i64::MAX as u64 {
            None
        } else {
            Some(q as i64)
        }
    } else {
        Some((-(q as i128)) as i64)
    }
}

impl<'a> LowerCtx<'a> {
    /// Binds the parameters to the arguments that there are.
    fn bind_args(&mut self, params: &Vec<(String, String)>, args: &Vec<Value>)
        ensures
            final(self).db == old(self).db,
            final(self)@ == bind_args(
                old(self)@,
                pairs(params@),
                values(args@),
                params@.len(),
            ),
    {
        let ghost st = self@;
        let mut i: usize = 0;
        while i < params.len()
            invariant
                i <= params.len(),
                self.db == old(self).db,
                self@ == bind_args(st, pairs(params@), values(args@), i as nat),
            decreases params.len() - i,
        {
            assert(pairs(params@)[i as int].0 == params@[i as int].0@);
            if i < args.len() {
                assert(values(args@)[i as int] == args@[i as int]@);
                self.bind(&params[i].0, args[i].clone());
            }
            i += 1;
        }
    }

    /// The values of the public bindings of a body.
    fn public_values(&self, body: &Vec<Stmt>) -> (r: Vec<(String, Value)>)
        ensures
            fields(r@) == public_fields(
                self@.bindings,
                publics(stmts(body@)),
                publics(stmts(body@)).len(),
            ),
    {
        let pubs = public_bindings(body);
        let ghost all = publics(stmts(body@));
        let mut out: Vec<(String, Value)> = Vec::new();
        let mut i: usize = 0;
        assert(fields(out@) =~= Seq::empty());
        while i < pubs.len()
            invariant
                i <= pubs.len(),
                all == bindings_of(pubs@),
                fields(out@) == public_fields(self@.bindings, all, i as nat),
            decreases pubs.len() - i,
        {
            let (name, value) = pubs[i];
            proof {
                assert(all[i as int] == (name@, value@));
                lemma_keys(self.bindings@);
            }
            match find(&self.bindings, name) {
                Some(k) => put_value(&mut out, name, self.bindings[k].1.clone()),
                None => {},
            }
            i += 1;
        }
        out
    }

    /// The value of an expression.
    fn eval_expr(&mut self, e: &Expr, prefix: &str, depth: usize) -> (r: Result<Value, Halt>)
        ensures
            follows(
                *old(self),
                *final(self),
                r,
                |v: Value| v@,
                expr(old(self).db@, old(self)@, e@, prefix@, depth as nat),
            ),
        decreases 3 * depth, e,
    {
        proof {
            reveal(expr);
        }
        match e {
            Expr::IntLit(n) => Ok(Value::Expr(IrExpr::Const(*n as i64))),
            Expr::Ident(name) => Ok(self.lookup(name)),
            Expr::Field { object, field } => {
                let v = self.eval_expr(object, prefix, depth)?;
                self.field_value(object, v, field)
            },
            Expr::BinOp { op, lhs, rhs } => {
                let lv = self.eval_expr(lhs, prefix, depth)?;
                let l = lv.to_expr()?;
                let rv = self.eval_expr(rhs, prefix, depth)?;
                let r = rv.to_expr()?;
                self.operation(op, l, r, prefix)
            },
            Expr::Call { name, type_args, args } => {
                proof {
                    reveal(arg_values);
                    reveal(call);
                    lemma_call_view(*name, *type_args, *args);
                }
                let ghost env = self.db@;
                let ghost start = self@;
                let mut vals: Vec<Value> = Vec::new();
                let mut i: usize = 0;
                assert(values(vals@) =~= Seq::empty());
                while i < args.len()
                    invariant
                        i <= args.len(),
                        self.db == old(self).db,
                        env == self.db@,
                        start == old(self)@,
                        e@ == (ExprV::Call {
                            name: name@,
                            type_args: type_args@,
                            args: exprs(args@),
                        }),
                        arg_values(
                            env,
                            start,
                            exprs(args@),
                            0,
                            Seq::empty(),
                            prefix@,
                            depth as nat,
                        ) == arg_values(
                            env,
                            self@,
                            exprs(args@),
                            i as int,
                            values(vals@),
                            prefix@,
                            depth as nat,
                        ),
                        decreases_to!(e => args),
                    decreases args.len() - i,
                {
                    proof {
                        reveal(expr);
                        reveal(arg_values);
                        assert(exprs(args@)[i as int] == args@[i as int]@);
                    }
                    let ghost was = values(vals@);
                    let v = self.eval_expr(&args[i], prefix, depth)?;
                    vals.push(v);
                    assert(values(vals@) =~= was.push(v@));
                    i += 1;
                }
                if depth == 0 {
                    return Err(Halt::Stop);
                }
                self.inline_call(name, &vals, type_args, prefix, depth - 1)
            },
            Expr::For { var: name, start: first, end, body: inner } => {
                proof {
                    reveal(elements);
                }
                let ghost env = self.db@;
                let ghost start = self@;
                let mut out: Vec<IrExpr> = Vec::new();
                let mut i: u64 = *first;
                assert(ir_exprs(out@) =~= Seq::empty());
                while i < *end
                    invariant
                        self.db == old(self).db,
                        env == self.db@,
                        start == old(self)@,
                        e@ == (ExprV::For {
                            var: name@,
                            start: *first,
                            end: *end,
                            body: Box::new(inner@),
                        }),
                        elements(
                            env,
                            start,
                            name@,
                            *first as int,
                            *end as int,
                            inner@,
                            Seq::empty(),
                            prefix@,
                            depth as nat,
                        ) == elements(
                            env,
                            self@,
                            name@,
                            i as int,
                            *end as int,
                            inner@,
                            ir_exprs(out@),
                            prefix@,
                            depth as nat,
                        ),
                        decreases_to!(e => inner),
                    decreases *end - i,
                {
                    proof {
                        reveal(expr);
                        reveal(elements);
                    }
                    let ghost was = ir_exprs(out@);
                    self.bind(name, Value::Expr(IrExpr::Const(i as i64)));
                    let v = self.eval_expr(inner, prefix, depth)?;
                    let x = v.to_expr()?;
                    out.push(x);
                    assert(ir_exprs(out@) =~= was.push(x@));
                    i += 1;
                }
                Ok(Value::BitArray(out))
            },
            Expr::Index { object, index } => {
                let v = self.eval_expr(object, prefix, depth)?;
                let i = self.eval_expr(index, prefix, depth)?;
                self.element(&v, &i)
            },
        }
    }

    /// A call.
    fn inline_call(
        &mut self,
        name: &str,
        args: &Vec<Value>,
        type_args: &Vec<u64>,
        prefix: &str,
        depth: usize,
    ) -> (r: Result<Value, Halt>)
        ensures
            follows(
                *old(self),
                *final(self),
                r,
                |v: Value| v@,
                call(
                    old(self).db@,
                    old(self)@,
                    name@,
                    values(args@),
                    type_args@,
                    prefix@,
                    depth as nat,
                ),
            ),
            refused(r) && !expands(old(self).db@, name@) ==> final(self)@ == old(self)@,
            r is Ok && (prefix@.len() > 0 || name@.len() > 0)
                ==> final(self)@.spec.outputs == old(self)@.spec.outputs,
            !is_builtin(name@) && old(self).db@.externs.dom().contains(name@) ==> {
                let fresh = fresh_value(
                    old(self).db@,
                    old(self)@,
                    old(self).db@.externs[name@],
                    prefix@,
                    depth as nat,
                );
                &&& follows(*old(self), *final(self), r, |v: Value| v@, fresh)
                &&& r is Ok ==> final(self)@.spec.constraints == old(self)@.spec.constraints
                &&& r is Ok ==> final(self)@.guard == old(self)@.guard
            },
        decreases 3 * depth + 2, args,
    {
        proof {
            reveal(call);
            reveal(body);
            lemma_call_adds_no_output(
                self.db@,
                self@,
                name@,
                values(args@),
                type_args@,
                prefix@,
                depth as nat,
            );
            if !is_builtin(name@) && self.db@.externs.dom().contains(name@) {
                lemma_extern_call(
                    self.db@,
                    self@,
                    name@,
                    values(args@),
                    type_args@,
                    prefix@,
                    depth as nat,
                );
            }
        }
        match self.builtin(name, args, type_args, prefix) {
            Some(r) => {
                return r;
            },
            None => {},
        }
        let db = self.db;
        match db.return_type(name) {
            Some(ty) => {
                return self.fresh_struct_for_type(ty, prefix, depth);
            },
            None => {},
        }
        match db.component(name) {
            Some(comp) => {
                if db.is_abstract(name) {
                    return self.abstract_call(comp, name, args, prefix);
                }
                let lower = lowercase(name);
                let inner = if is_empty(prefix) {
                    lower
                } else {
                    cat3(prefix, "_", &lower)
                };
                let saved = copy_fields(&self.bindings);
                self.bind_args(&comp.params, args);
                let result = self.process_body(&comp.body, &inner, depth)?;
                let public = self.public_values(&comp.body);
                self.bindings = saved;
                Ok(with_publics(result, public))
            },
            None => Err(Halt::Error(cat2("Unknown component: ", name))),
        }
    }

    /// The statements of a body. The result is the value of the last statement where
    /// that is an expression.
    fn process_body(&mut self, v: &Vec<Stmt>, prefix: &str, depth: usize) -> (r: Result<
        Option<Value>,
        Halt,
    >)
        ensures
            follows(
                *old(self),
                *final(self),
                r,
                |w: Option<Value>| opt(w),
                body(old(self).db@, old(self)@, stmts(v@), 0, None, prefix@, depth as nat),
            ),
        decreases 3 * depth + 1, v,
    {
        let ghost env = self.db@;
        let ghost start = self@;
        let mut last: Option<Value> = None;
        let mut i: usize = 0;
        while i < v.len()
            invariant
                i <= v.len(),
                self.db == old(self).db,
                env == self.db@,
                start == old(self)@,
                body(env, start, stmts(v@), 0, None, prefix@, depth as nat) == body(
                    env,
                    self@,
                    stmts(v@),
                    i as int,
                    opt(last),
                    prefix@,
                    depth as nat,
                ),
            decreases v.len() - i,
        {
            proof {
                reveal(body);
                reveal(stmt);
                assert(stmts(v@)[i as int] == v@[i as int]@);
                assert(decreases_to!(v@ => v@[i as int]));
            }
            last = self.process_stmt(&v[i], prefix, depth)?;
            i += 1;
        }
        proof {
            reveal(body);
        }
        Ok(last)
    }

    /// One statement.
    fn process_stmt(&mut self, s: &Stmt, prefix: &str, depth: usize) -> (r: Result<
        Option<Value>,
        Halt,
    >)
        ensures
            follows(
                *old(self),
                *final(self),
                r,
                |w: Option<Value>| opt(w),
                stmt(old(self).db@, old(self)@, s@, prefix@, depth as nat),
            ),
        decreases 3 * depth + 1, s,
    {
        proof {
            reveal(stmt);
            reveal(expr);
        }
        match s {
            Stmt::Binding { is_public, name, value } => {
                let v = self.eval_expr(value, prefix, depth)?;
                let w = self.bound_value(name, value, v, prefix)?;
                self.bind_value(*is_public, name, value, w, prefix)
            },
            Stmt::Constraint { lhs, rhs } => {
                let lv = self.eval_expr(lhs, prefix, depth)?;
                let l = lv.to_expr()?;
                let rv = self.eval_expr(rhs, prefix, depth)?;
                let r = rv.to_expr()?;
                self.equate(l, r, "constraint");
                Ok(None)
            },
            Stmt::Mux { guards, branches } => {
                proof {
                    reveal(mux);
                    lemma_mux_view(*guards, *branches);
                }
                let ghost env = self.db@;
                let ghost start = self@;
                let outer = match &self.current_guard {
                    Some(g) => Some(g.clone()),
                    None => None,
                };
                let mut i: usize = 0;
                while i < guards.len() && i < branches.len()
                    invariant
                        i <= guards.len(),
                        self.db == old(self).db,
                        env == self.db@,
                        start == old(self)@,
                        guard_of(outer) == start.guard,
                        s@ == (StmtV::Mux {
                            guards: exprs(guards@),
                            branches: blocks(branches@),
                        }),
                        mux(env, start, s@, 0, start.guard, prefix@, depth as nat) == mux(
                            env,
                            self@,
                            s@,
                            i as int,
                            start.guard,
                            prefix@,
                            depth as nat,
                        ),
                        decreases_to!(s => branches),
                    decreases guards.len() - i,
                {
                    proof {
                        reveal(stmt);
                        reveal(mux);
                        reveal(expr);
                        reveal(body);
                        assert(exprs(guards@)[i as int] == guards@[i as int]@);
                        assert(blocks(branches@)[i as int] == stmts(branches@[i as int]@));
                        assert(decreases_to!(branches@ => branches@[i as int]));
                    }
                    let gv = self.eval_expr(&guards[i], prefix, depth)?;
                    let g = gv.to_expr()?;
                    let inner = match &outer {
                        Some(o) => IrExpr::Mul(Box::new(o.clone()), Box::new(g)),
                        None => g,
                    };
                    self.current_guard = Some(inner);
                    self.process_body(&branches[i], prefix, depth)?;
                    self.current_guard = match &outer {
                        Some(o) => Some(o.clone()),
                        None => None,
                    };
                    i += 1;
                }
                Ok(None)
            },
            Stmt::ExprStmt(e) => {
                let v = self.eval_expr(e, prefix, depth)?;
                Ok(Some(v))
            },
        }
    }
}

// ---------------------------------------------------------------------------
// Components
// ---------------------------------------------------------------------------

impl<'a> LowerCtx<'a> {
    /// The state before anything of a component is lowered.
    fn new(db: &'a ComponentDB, name: &str, source_line: usize) -> (r: Self)
        ensures
            r.db == db,
            r@ == start(name@, source_line as nat),
    {
        let r = LowerCtx {
            db,
            bindings: Vec::new(),
            counter: 0,
            current_guard: None,
            spec: InstructionSpec {
                name: name.to_owned(),
                source_line,
                inputs: Vec::new(),
                outputs: Vec::new(),
                internals: Vec::new(),
                constraints: Vec::new(),
            },
        };
        proof {
            let s = start(name@, source_line as nat);
            assert(r@.bindings =~= s.bindings);
            assert(r@.spec.inputs =~= s.spec.inputs);
            assert(r@.spec.outputs =~= s.spec.outputs);
            assert(r@.spec.internals =~= s.spec.internals);
            assert(r@.spec.constraints =~= s.spec.constraints);
        }
        r
    }

    /// One parameter as inputs.
    fn param_input(&mut self, name: &str, ty: &str)
        ensures
            final(self).db == old(self).db,
            final(self)@ == param_input(old(self).db@, old(self)@, name@, ty@),
    {
        if halves_type(ty) {
            let low = cat2(name, ".low");
            let high = cat2(name, ".high");
            self.declare_input(&low, VarType::U16);
            self.declare_input(&high, VarType::U16);
            self.bind(name, Value::make_struct(variable(&low), variable(&high)));
            return ;
        }
        let db = self.db;
        match db.component(ty) {
            Some(comp) => {
                let pubs = public_bindings(&comp.body);
                let ghost all = publics(comp@.body);
                let ghost st = self@;
                if pubs.len() > 0 {
                    let mut f: Vec<(String, Value)> = Vec::new();
                    let mut i: usize = 0;
                    assert(fields(f@) =~= Seq::empty());
                    while i < pubs.len()
                        invariant
                            i <= pubs.len(),
                            self.db == old(self).db,
                            all == bindings_of(pubs@),
                            self@ == declare_inputs(st, name@, all, i as nat),
                            fields(f@) == input_fields(name@, all, i as nat),
                        decreases pubs.len() - i,
                    {
                        let (field, value) = pubs[i];
                        assert(all[i as int] == (field@, value@));
                        let full = cat3(name, ".", field);
                        self.declare_input(&full, VarType::Val);
                        put_value(&mut f, field, variable(&full));
                        i += 1;
                    }
                    proof {
                        lemma_struct_view(f);
                    }
                    self.bind(name, Value::Struct(f));
                } else {
                    self.declare_input(name, VarType::Val);
                    self.bind(name, variable(name));
                }
            },
            None => {
                let t = if same(ty, "U32") {
                    VarType::U32
                } else {
                    VarType::Val
                };
                self.declare_input(name, t);
                self.bind(name, variable(name));
            },
        }
    }

    /// The parameters as inputs.
    fn param_inputs(&mut self, params: &Vec<(String, String)>)
        ensures
            final(self).db == old(self).db,
            final(self)@ == param_inputs(
                old(self).db@,
                old(self)@,
                pairs(params@),
                params@.len(),
            ),
    {
        let ghost st = self@;
        let mut i: usize = 0;
        while i < params.len()
            invariant
                i <= params.len(),
                self.db == old(self).db,
                self@ == param_inputs(old(self).db@, st, pairs(params@), i as nat),
            decreases params.len() - i,
        {
            assert(pairs(params@)[i as int] == (params@[i as int].0@, params@[i as int].1@));
            self.param_input(&params[i].0, &params[i].1);
            i += 1;
        }
    }
}

/// How deeply calls may be nested.
pub open spec fn max_depth() -> nat {
    usize::MAX as nat
}

impl ComponentDB {
    /// Lowers a component.
    fn run(&self, name: &str) -> (r: Result<InstructionSpec, Halt>)
        ensures
            match lowered(self@, name@, max_depth()) {
                Lowered::Done(s) => r is Ok && r->Ok_0@ == s,
                Lowered::Fail(m) => r is Err && r->Err_0 is Error && r->Err_0->Error_0@ == m,
                Lowered::Stop => r is Err && r->Err_0 is Stop,
            },
    {
        match self.component(name) {
            Some(comp) => {
                let mut ctx = LowerCtx::new(self, name, comp.source_line);
                ctx.param_inputs(&comp.params);
                proof {
                    reveal_strlit("");
                }
                match ctx.process_body(&comp.body, "", usize::MAX)? {
                    Some(v) => ctx.extract_outputs(&v, "result"),
                    None => {},
                }
                Ok(ctx.spec)
            },
            None => Err(Halt::Error(cat3("Component '", name, "' not found"))),
        }
    }

    /// Whether lowering a component ends, with an instruction or with an error.
    pub fn lowers(&self, name: &str) -> (r: bool)
        ensures
            r == !(lowered(self@, name@, max_depth()) is Stop),
    {
        match self.run(name) {
            Err(Halt::Stop) => false,
            _ => true,
        }
    }

    /// Lowers a component to an instruction.
    pub fn lower(&self, name: &str) -> (r: Result<InstructionSpec, String>)
        requires
            !(lowered(self@, name@, max_depth()) is Stop),
        ensures
            match lowered(self@, name@, max_depth()) {
                Lowered::Done(s) => r is Ok && r->Ok_0@ == s,
                Lowered::Fail(m) => r is Err && r->Err_0@ == m,
                Lowered::Stop => false,
            },
    {
        match self.run(name) {
            Ok(spec) => Ok(spec),
            Err(Halt::Error(m)) => Err(m),
            Err(Halt::Stop) => Err(String::new()),
        }
    }

    /// Lowers a component to an instruction, where lowering ends.
    pub fn checked_lower(&self, name: &str) -> (r: Option<Result<InstructionSpec, String>>)
        ensures
            match lowered(self@, name@, max_depth()) {
                Lowered::Done(s) => r is Some && r->Some_0 is Ok && r->Some_0->Ok_0@ == s,
                Lowered::Fail(m) => r is Some && r->Some_0 is Err && r->Some_0->Err_0@ == m,
                Lowered::Stop => r is None,
            },
    {
        if self.lowers(name) {
            Some(self.lower(name))
        } else {
            None
        }
    }
}

} // verus!
