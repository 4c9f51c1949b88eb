//! The question whether an instruction is deterministic, over a prime field.
//!
//! The question is a script in the SMT-LIB language with the theory of finite fields. A
//! product of variables is an operation of the field there, not a problem of nonlinear
//! arithmetic over the integers.

use vstd::arithmetic::power2::{
    lemma2_to64, lemma2_to64_rest, lemma_pow2_strictly_increases, lemma_pow2_unfold, pow2,
};
use vstd::prelude::*;
use vstd::string::StringExecFns;
use crate::ir::rules::magnitude;
use crate::ir::{
    constraints, ir_exprs, vars, ConstraintV, InstructionSpec, IrConstraint, IrExpr, IrExprV, SpecV,
    Var, VarType, VarV,
};
use crate::model::{all_variables, declared, instance, instance_of, Side};
use crate::parser::ast::pairs;
use crate::text::{
    cat3, cat4, cat5, decimal, digits, join, joined, replace_dots, same, texts, trim, trimmed,
    undotted,
};
use crate::verifier_bv::{report, tells, VerifyResult};

verus! {

/// The number of elements of the field.
pub const BABYBEAR_P: u64 = 2013265921;

// ---------------------------------------------------------------------------
// Scripts
// ---------------------------------------------------------------------------

/// A term over the field.
pub enum FfTerm {
    Var(Seq<char>),
    Number(nat),
    Neg(Box<FfTerm>),
    Add(Box<FfTerm>, Box<FfTerm>),
    Mul(Box<FfTerm>, Box<FfTerm>),
    /// The call of a function symbol.
    Call(Seq<char>, Seq<FfTerm>),
}

/// A formula over the field.
pub enum FfFormula {
    Equal(FfTerm, FfTerm),
    Not(Box<FfFormula>),
    And(Box<FfFormula>, Box<FfFormula>),
    Or(Box<FfFormula>, Box<FfFormula>),
    /// One of the formulas, each on a line of its own.
    Any(Seq<FfFormula>),
}

/// A command of a script.
pub enum FfCommand {
    SetLogic(Seq<char>),
    DefineField,
    DeclareConst(Seq<char>),
    DeclareFun(Seq<char>, nat),
    Assert(FfFormula),
    CheckSat,
}

/// The text of a number of the field.
pub open spec fn number_text(n: nat) -> Seq<char> {
    "(as ff"@ + digits(n) + " F)"@
}

/// The text of a term.
pub open spec fn term_text(t: FfTerm) -> Seq<char>
    decreases t,
{
    match t {
        FfTerm::Var(x) => x,
        FfTerm::Number(n) => number_text(n),
        FfTerm::Neg(a) => "(ff.neg "@ + term_text(*a) + ")"@,
        FfTerm::Add(a, b) => "(ff.add "@ + term_text(*a) + " "@ + term_text(*b) + ")"@,
        FfTerm::Mul(a, b) => "(ff.mul "@ + term_text(*a) + " "@ + term_text(*b) + ")"@,
        FfTerm::Call(f, args) => "("@ + f + " "@ + joined(term_texts(args), " "@) + ")"@,
    }
}

/// The texts of terms.
pub open spec fn term_texts(v: Seq<FfTerm>) -> Seq<Seq<char>>
    decreases v,
{
    Seq::new(
        v.len(),
        |i: int|
            if 0 <= i < v.len() {
                term_text(v[i])
            } else {
                arbitrary()
            },
    )
}

/// The text of a formula.
pub open spec fn formula_text(f: FfFormula) -> Seq<char>
    decreases f,
{
    match f {
        FfFormula::Equal(a, b) => "(= "@ + term_text(a) + " "@ + term_text(b) + ")"@,
        FfFormula::Not(a) => "(not "@ + formula_text(*a) + ")"@,
        FfFormula::And(a, b) => "(and "@ + formula_text(*a) + " "@ + formula_text(*b) + ")"@,
        FfFormula::Or(a, b) => "(or "@ + formula_text(*a) + " "@ + formula_text(*b) + ")"@,
        FfFormula::Any(v) => "(or\n"@ + lines_text(v, v.len()) + ")"@,
    }
}

/// The text of the first `n` formulas, each on a line of its own.
pub open spec fn lines_text(v: Seq<FfFormula>, n: nat) -> Seq<char>
    decreases v, n,
{
    if n == 0 || n > v.len() {
        Seq::empty()
    } else {
        lines_text(v, (n - 1) as nat) + ("  "@ + formula_text(v[n - 1]) + "\n"@)
    }
}

/// The text of a command.
pub open spec fn command_text(c: FfCommand) -> Seq<char> {
    match c {
        FfCommand::SetLogic(l) => "(set-logic "@ + l + ")\n"@,
        FfCommand::DefineField => "(define-sort F () (_ FiniteField "@ + digits(
            BABYBEAR_P as nat,
        ) + "))\n"@,
        FfCommand::DeclareConst(x) => "(declare-const "@ + x + " F)\n"@,
        FfCommand::DeclareFun(f, n) => "(declare-fun "@ + f + " ("@ + joined(
            Seq::new(n, |i: int| "F"@),
            " "@,
        ) + ") F)\n"@,
        FfCommand::Assert(f) => "(assert "@ + formula_text(f) + ")\n"@,
        FfCommand::CheckSat => "(check-sat)\n"@,
    }
}

/// The text of a script.
pub open spec fn script_text(s: Seq<FfCommand>) -> Seq<char>
    decreases s.len(),
{
    if s.len() == 0 {
        Seq::empty()
    } else {
        script_text(s.drop_last()) + command_text(s.last())
    }
}

// ---------------------------------------------------------------------------
// The script of an instruction
// ---------------------------------------------------------------------------

pub open spec fn ff_add(a: FfTerm, b: FfTerm) -> FfTerm {
    FfTerm::Add(Box::new(a), Box::new(b))
}

pub open spec fn ff_mul(a: FfTerm, b: FfTerm) -> FfTerm {
    FfTerm::Mul(Box::new(a), Box::new(b))
}

pub open spec fn ff_neg(a: FfTerm) -> FfTerm {
    FfTerm::Neg(Box::new(a))
}

pub open spec fn ff_zero() -> FfTerm {
    FfTerm::Number(0)
}

pub open spec fn ff_one() -> FfTerm {
    FfTerm::Number(1)
}

/// A variable in one of the runs.
pub open spec fn ff_var(x: Seq<char>, side: Side) -> FfTerm {
    FfTerm::Var(instance(x, side))
}

/// An expression in one of the runs.
pub open spec fn ff_expr(e: IrExprV, side: Side) -> FfTerm
    decreases e,
{
    match e {
        IrExprV::Const(n) => if n >= 0 {
            FfTerm::Number(n as nat)
        } else {
            ff_neg(FfTerm::Number(magnitude(n as int) as nat))
        },
        IrExprV::Var(x) => ff_var(x, side),
        IrExprV::Add(a, b) => ff_add(ff_expr(*a, side), ff_expr(*b, side)),
        IrExprV::Sub(a, b) => ff_add(ff_expr(*a, side), ff_neg(ff_expr(*b, side))),
        IrExprV::Mul(a, b) => ff_mul(ff_expr(*a, side), ff_expr(*b, side)),
        IrExprV::Div(a, b) => ff_mul(ff_expr(*a, side), ff_expr(*b, side)),
    }
}

/// Expressions in one of the runs.
pub open spec fn ff_exprs(v: Seq<IrExprV>, side: Side) -> Seq<FfTerm> {
    v.map_values(|e: IrExprV| ff_expr(e, side))
}

/// `x * (x - 1) = 0`
pub open spec fn bit_formula(x: FfTerm) -> FfFormula {
    FfFormula::Equal(ff_mul(x, ff_add(x, ff_neg(ff_one()))), ff_zero())
}

/// `x * (x - 1) * (x - 2) * (x - 3) = 0`
pub open spec fn twit_formula(x: FfTerm) -> FfFormula {
    let two = ff_add(ff_one(), ff_one());
    let three = ff_add(ff_one(), ff_add(ff_one(), ff_one()));
    FfFormula::Equal(
        ff_mul(
            ff_mul(ff_mul(x, ff_add(x, ff_neg(ff_one()))), ff_add(x, ff_neg(two))),
            ff_add(x, ff_neg(three)),
        ),
        ff_zero(),
    )
}

/// The name of bit `i` of a variable.
pub open spec fn range_bit(x: Seq<char>, i: nat) -> Seq<char> {
    x + "_rb"@ + digits(i)
}

/// Bit `i` of a variable, times its weight.
pub open spec fn weighted_bit(x: Seq<char>, i: nat) -> FfTerm {
    ff_mul(FfTerm::Var(range_bit(x, i)), FfTerm::Number(pow2(i)))
}

/// The sum of the first `n` bits of a variable, each times its weight.
pub open spec fn range_sum(x: Seq<char>, n: nat) -> FfTerm
    recommends
        n > 0,
    decreases n,
{
    if n <= 1 {
        weighted_bit(x, 0)
    } else {
        ff_add(range_sum(x, (n - 1) as nat), weighted_bit(x, (n - 1) as nat))
    }
}

/// The first `n` bits of a variable are bits.
pub open spec fn range_bits(x: Seq<char>, n: nat) -> Seq<FfCommand>
    decreases n,
{
    if n == 0 {
        Seq::empty()
    } else {
        let b = range_bit(x, (n - 1) as nat);
        range_bits(x, (n - 1) as nat).push(FfCommand::DeclareConst(b)).push(
            FfCommand::Assert(bit_formula(FfTerm::Var(b))),
        )
    }
}

/// A variable has `n` bits.
pub open spec fn has_bits(x: Seq<char>, n: nat) -> Seq<FfCommand> {
    range_bits(x, n).push(
        FfCommand::Assert(FfFormula::Equal(FfTerm::Var(x), range_sum(x, n))),
    )
}

/// The range of a variable in one of the runs. A number of 8 or 16 bits is taken apart
/// only where it is neither input nor output; the others are in range by what surrounds
/// the instruction.
pub open spec fn ff_range(v: VarV, internal: bool, side: Side) -> Seq<FfCommand> {
    let x = instance(v.name, side);
    match v.vtype {
        VarType::Bit => seq![FfCommand::Assert(bit_formula(FfTerm::Var(x)))],
        VarType::Twit => seq![FfCommand::Assert(twit_formula(FfTerm::Var(x)))],
        VarType::U8 => if internal {
            has_bits(x, 8)
        } else {
            Seq::empty()
        },
        VarType::U16 => if internal {
            has_bits(x, 16)
        } else {
            Seq::empty()
        },
        _ => Seq::empty(),
    }
}

/// The first `n` variables in both runs.
pub open spec fn ff_declarations(vs: Seq<VarV>, n: nat) -> Seq<FfCommand>
    decreases n,
{
    if n == 0 || n > vs.len() {
        Seq::empty()
    } else {
        ff_declarations(vs, (n - 1) as nat).push(
            FfCommand::DeclareConst(instance(vs[n - 1].name, Side::First)),
        ).push(FfCommand::DeclareConst(instance(vs[n - 1].name, Side::Second)))
    }
}

/// The ranges of the first `n` variables in both runs.
pub open spec fn ff_ranges(vs: Seq<VarV>, internals: Seq<VarV>, n: nat) -> Seq<FfCommand>
    decreases n,
{
    if n == 0 || n > vs.len() {
        Seq::empty()
    } else {
        let internal = declared(internals, vs[n - 1].name);
        ff_ranges(vs, internals, (n - 1) as nat) + ff_range(vs[n - 1], internal, Side::First)
            + ff_range(vs[n - 1], internal, Side::Second)
    }
}

/// A variable is the same in both runs.
pub open spec fn ff_same(x: Seq<char>) -> FfFormula {
    FfFormula::Equal(ff_var(x, Side::First), ff_var(x, Side::Second))
}

/// The first `n` inputs are the same in both runs.
pub open spec fn ff_same_inputs(vs: Seq<VarV>, n: nat) -> Seq<FfCommand>
    decreases n,
{
    if n == 0 || n > vs.len() {
        Seq::empty()
    } else {
        ff_same_inputs(vs, (n - 1) as nat).push(FfCommand::Assert(ff_same(vs[n - 1].name)))
    }
}

/// The function symbol of a field of a component.
pub open spec fn ff_symbol(component: Seq<char>, field: Seq<char>) -> Seq<char> {
    component + "_"@ + undotted(field)
}

/// The function symbols `fs`, a name and a number of arguments each, with those for the
/// first `n` outputs of a call.
pub open spec fn ff_with_outputs(
    fs: Seq<(Seq<char>, nat)>,
    component: Seq<char>,
    arity: nat,
    outputs: Seq<(Seq<char>, Seq<char>)>,
    n: nat,
) -> Seq<(Seq<char>, nat)>
    decreases n,
{
    if n == 0 || n > outputs.len() {
        fs
    } else {
        let before = ff_with_outputs(fs, component, arity, outputs, (n - 1) as nat);
        let f = ff_symbol(component, outputs[n - 1].0);
        if has_symbol(before, f) {
            before
        } else {
            before.push((f, arity))
        }
    }
}

/// Whether a function symbol is among others.
pub open spec fn has_symbol(fs: Seq<(Seq<char>, nat)>, f: Seq<char>) -> bool {
    exists|i: int| 0 <= i < fs.len() && (#[trigger] fs[i]).0 == f
}

/// The function symbols that the first `n` constraints need, each once.
pub open spec fn ff_symbols(cs: Seq<ConstraintV>, n: nat) -> Seq<(Seq<char>, nat)>
    decreases n,
{
    if n == 0 || n > cs.len() {
        Seq::empty()
    } else {
        let before = ff_symbols(cs, (n - 1) as nat);
        match cs[n - 1] {
            ConstraintV::Call { component, args, outputs } => ff_with_outputs(
                before,
                component,
                args.len(),
                outputs,
                outputs.len(),
            ),
            _ => before,
        }
    }
}

/// The declarations of function symbols.
pub open spec fn ff_functions(fs: Seq<(Seq<char>, nat)>) -> Seq<FfCommand> {
    fs.map_values(|f: (Seq<char>, nat)| FfCommand::DeclareFun(f.0, f.1))
}

/// `r` is 1 where `e` is 0, and 0 elsewhere.
pub open spec fn ff_is_zero(e: FfTerm, r: FfTerm) -> FfFormula {
    let is_zero = FfFormula::Equal(e, ff_zero());
    FfFormula::Or(
        Box::new(
            FfFormula::And(
                Box::new(is_zero),
                Box::new(FfFormula::Equal(r, ff_one())),
            ),
        ),
        Box::new(
            FfFormula::And(
                Box::new(FfFormula::Not(Box::new(is_zero))),
                Box::new(FfFormula::Equal(r, ff_zero())),
            ),
        ),
    )
}

/// The first `n` outputs of a call: each equals its function of the arguments.
pub open spec fn ff_outputs(
    component: Seq<char>,
    args: Seq<FfTerm>,
    outputs: Seq<(Seq<char>, Seq<char>)>,
    side: Side,
    n: nat,
) -> Seq<FfCommand>
    decreases n,
{
    if n == 0 || n > outputs.len() {
        Seq::empty()
    } else {
        ff_outputs(component, args, outputs, side, (n - 1) as nat).push(
            FfCommand::Assert(
                FfFormula::Equal(
                    ff_var(outputs[n - 1].1, side),
                    FfTerm::Call(ff_symbol(component, outputs[n - 1].0), args),
                ),
            ),
        )
    }
}

/// A constraint in one of the runs.
pub open spec fn ff_constraint(c: ConstraintV, side: Side) -> Seq<FfCommand> {
    match c {
        ConstraintV::Eq { lhs, rhs, .. } => seq![
            FfCommand::Assert(FfFormula::Equal(ff_expr(lhs, side), ff_expr(rhs, side))),
        ],
        ConstraintV::IsZero { result, expr } => seq![
            FfCommand::Assert(ff_is_zero(ff_expr(expr, side), ff_var(result, side))),
        ],
        ConstraintV::Call { component, args, outputs } => ff_outputs(
            component,
            ff_exprs(args, side),
            outputs,
            side,
            outputs.len(),
        ),
    }
}

/// The first `n` constraints in both runs.
pub open spec fn ff_constraints(cs: Seq<ConstraintV>, n: nat) -> Seq<FfCommand>
    decreases n,
{
    if n == 0 || n > cs.len() {
        Seq::empty()
    } else {
        ff_constraints(cs, (n - 1) as nat) + ff_constraint(cs[n - 1], Side::First) + ff_constraint(
            cs[n - 1],
            Side::Second,
        )
    }
}

/// A variable differs between the runs.
pub open spec fn ff_differs(x: Seq<char>) -> FfFormula {
    FfFormula::Not(Box::new(ff_same(x)))
}

/// One of the outputs differs between the runs.
pub open spec fn ff_differ(outputs: Seq<VarV>) -> FfFormula {
    if outputs.len() == 1 {
        ff_differs(outputs[0].name)
    } else {
        FfFormula::Any(outputs.map_values(|v: VarV| ff_differs(v.name)))
    }
}

/// Whether one of the constraints is a call.
pub open spec fn has_calls(cs: Seq<ConstraintV>) -> bool {
    exists|i: int| 0 <= i < cs.len() && (#[trigger] cs[i]) is Call
}

/// The logic that the constraints need.
pub open spec fn ff_logic(cs: Seq<ConstraintV>) -> Seq<char> {
    if has_calls(cs) {
        "QF_UFFF"@
    } else {
        "QF_FF"@
    }
}

/// The script that asks whether two runs with the same inputs can have different
/// outputs.
pub open spec fn ff_script(s: SpecV) -> Seq<FfCommand> {
    let vs = s.all_vars();
    seq![FfCommand::SetLogic(ff_logic(s.constraints)), FfCommand::DefineField] + ff_declarations(
        vs,
        vs.len(),
    ) + ff_ranges(vs, s.internals, vs.len()) + ff_same_inputs(s.inputs, s.inputs.len())
        + ff_functions(ff_symbols(s.constraints, s.constraints.len())) + ff_constraints(
        s.constraints,
        s.constraints.len(),
    ) + seq![FfCommand::Assert(ff_differ(s.outputs)), FfCommand::CheckSat]
}

/// Whether the negative of each constant of an expression is an integer of 64 bits.
pub open spec fn negatable(e: IrExprV) -> bool
    decreases e,
{
    match e {
        IrExprV::Const(n) => n > i64::MIN,
        IrExprV::Var(_) => true,
        IrExprV::Add(a, b) => negatable(*a) && negatable(*b),
        IrExprV::Sub(a, b) => negatable(*a) && negatable(*b),
        IrExprV::Mul(a, b) => negatable(*a) && negatable(*b),
        IrExprV::Div(a, b) => negatable(*a) && negatable(*b),
    }
}

/// Whether the negative of each constant of expressions is an integer of 64 bits.
pub open spec fn negatable_exprs(v: Seq<IrExprV>) -> bool {
    forall|i: int| 0 <= i < v.len() ==> negatable(#[trigger] v[i])
}

/// Whether the negative of each constant of a constraint is an integer of 64 bits.
pub open spec fn negatable_constraint(c: ConstraintV) -> bool {
    match c {
        ConstraintV::Eq { lhs, rhs, .. } => negatable(lhs) && negatable(rhs),
        ConstraintV::IsZero { expr, .. } => negatable(expr),
        ConstraintV::Call { args, .. } => negatable_exprs(args),
    }
}

/// Whether the negative of each constant of the constraints is an integer of 64 bits.
pub open spec fn all_negatable(cs: Seq<ConstraintV>) -> bool {
    forall|i: int| 0 <= i < cs.len() ==> negatable_constraint(#[trigger] cs[i])
}

// ---------------------------------------------------------------------------
// Writing the script
// ---------------------------------------------------------------------------

/// The text of a script in two parts.
pub proof fn lemma_script_add(a: Seq<FfCommand>, b: Seq<FfCommand>)
    ensures
        script_text(a + b) == script_text(a) + script_text(b),
    decreases b.len(),
{
    if b.len() == 0 {
        assert(a + b =~= a);
        assert(script_text(a) + script_text(b) =~= script_text(a));
    } else {
        lemma_script_add(a, b.drop_last());
        assert((a + b).drop_last() =~= a + b.drop_last());
        assert(script_text(a) + (script_text(b.drop_last()) + command_text(b.last())) =~= (
        script_text(a) + script_text(b.drop_last())) + command_text(b.last()));
    }
}

/// The text of a script with one more command.
pub proof fn lemma_script_push(a: Seq<FfCommand>, c: FfCommand)
    ensures
        script_text(a.push(c)) == script_text(a) + command_text(c),
{
    assert(a.push(c).drop_last() =~= a);
}

/// Writes a number of the field.
fn number(n: u64) -> (r: String)
    ensures
        r@ == number_text(n as nat),
{
    cat3("(as ff", &decimal(n), " F)")
}

/// Writes a sum.
fn sum_of(a: &str, b: &str) -> (r: String)
    ensures
        r@ == "(ff.add "@ + a@ + " "@ + b@ + ")"@,
{
    cat5("(ff.add ", a, " ", b, ")")
}

/// Writes a product.
fn product_of(a: &str, b: &str) -> (r: String)
    ensures
        r@ == "(ff.mul "@ + a@ + " "@ + b@ + ")"@,
{
    cat5("(ff.mul ", a, " ", b, ")")
}

/// Writes a negative.
fn negative_of(a: &str) -> (r: String)
    ensures
        r@ == "(ff.neg "@ + a@ + ")"@,
{
    cat3("(ff.neg ", a, ")")
}

/// Writes an equation.
fn equation_of(a: &str, b: &str) -> (r: String)
    ensures
        r@ == "(= "@ + a@ + " "@ + b@ + ")"@,
{
    cat5("(= ", a, " ", b, ")")
}

/// Appends the assertion of a formula.
fn emit_assert(s: &mut String, formula: &str, Ghost(f): Ghost<FfFormula>)
    requires
        formula@ == formula_text(f),
    ensures
        final(s)@ == old(s)@ + command_text(FfCommand::Assert(f)),
{
    s.append("(assert ");
    s.append(formula);
    s.append(")\n");
    assert(s@ =~= old(s)@ + command_text(FfCommand::Assert(f)));
}

/// Appends the declaration of a variable.
fn emit_declaration(s: &mut String, name: &str)
    ensures
        final(s)@ == old(s)@ + command_text(FfCommand::DeclareConst(name@)),
{
    s.append("(declare-const ");
    s.append(name);
    s.append(" F)\n");
    assert(s@ =~= old(s)@ + command_text(FfCommand::DeclareConst(name@)));
}

/// Writes an expression in one of the runs.
fn emit_expr(e: &IrExpr, side: Side) -> (r: String)
    requires
        negatable(e@),
    ensures
        r@ == term_text(ff_expr(e@, side)),
    decreases e,
{
    match e {
        IrExpr::Const(n) => {
            if *n >= 0 {
                number(*n as u64)
            } else {
                proof {
                    reveal_with_fuel(term_text, 2);
                }
                negative_of(&number((-*n) as u64))
            }
        },
        IrExpr::Var(x) => instance_of(x, side),
        IrExpr::Add(a, b) => sum_of(&emit_expr(a, side), &emit_expr(b, side)),
        IrExpr::Sub(a, b) => {
            proof {
                reveal_with_fuel(term_text, 2);
            }
            sum_of(&emit_expr(a, side), &negative_of(&emit_expr(b, side)))
        },
        IrExpr::Mul(a, b) => product_of(&emit_expr(a, side), &emit_expr(b, side)),
        IrExpr::Div(a, b) => product_of(&emit_expr(a, side), &emit_expr(b, side)),
    }
}

/// Writes that a variable is a bit.
fn bit_text(x: &str) -> (r: String)
    ensures
        r@ == formula_text(bit_formula(FfTerm::Var(x@))),
{
    proof {
        reveal_with_fuel(term_text, 4);
    }
    equation_of(&product_of(x, &sum_of(x, &negative_of(&number(1)))), &number(0))
}

/// Writes that a variable is 0, 1, 2 or 3.
fn twit_text(x: &str) -> (r: String)
    ensures
        r@ == formula_text(twit_formula(FfTerm::Var(x@))),
{
    proof {
        reveal_with_fuel(term_text, 6);
    }
    let one = number(1);
    let two = sum_of(&one, &one);
    let three = sum_of(&one, &two);
    let first = product_of(x, &sum_of(x, &negative_of(&one)));
    let second = product_of(&first, &sum_of(x, &negative_of(&two)));
    let third = product_of(&second, &sum_of(x, &negative_of(&three)));
    equation_of(&third, &number(0))
}

/// Appends that a variable has a number of bits.
fn emit_range_bits(s: &mut String, x: &str, bits: u32)
    requires
        0 < bits <= 32,
    ensures
        final(s)@ == old(s)@ + script_text(has_bits(x@, bits as nat)),
{
    let ghost start = s@;
    let mut sum = String::new();
    let mut weight: u64 = 1;
    let mut i: u32 = 0;
    proof {
        lemma2_to64();
        assert(start + script_text(range_bits(x@, 0)) =~= start);
    }
    while i < bits
        invariant
            i <= bits <= 32,
            weight == pow2(i as nat),
            i > 0 ==> sum@ == term_text(range_sum(x@, i as nat)),
            s@ == start + script_text(range_bits(x@, i as nat)),
        decreases bits - i,
    {
        let bit = cat3(x, "_rb", &decimal(i as u64));
        let ghost before = range_bits(x@, i as nat);
        emit_declaration(s, &bit);
        let formula = bit_text(&bit);
        emit_assert(s, &formula, Ghost(bit_formula(FfTerm::Var(bit@))));
        proof {
            let d = FfCommand::DeclareConst(bit@);
            let a = FfCommand::Assert(bit_formula(FfTerm::Var(bit@)));
            lemma_script_push(before, d);
            lemma_script_push(before.push(d), a);
            assert(s@ =~= start + script_text(range_bits(x@, (i + 1) as nat)));
            reveal_with_fuel(term_text, 3);
            lemma_pow2_unfold((i + 1) as nat);
            lemma_pow2_strictly_increases(i as nat, 33);
            lemma2_to64_rest();
        }
        let part = product_of(&bit, &number(weight));
        assert(part@ == term_text(weighted_bit(x@, i as nat)));
        sum = if i == 0 {
            part
        } else {
            sum_of(&sum, &part)
        };
        weight = weight * 2;
        i += 1;
    }
    let formula = equation_of(x, &sum);
    let ghost f = FfFormula::Equal(FfTerm::Var(x@), range_sum(x@, bits as nat));
    emit_assert(s, &formula, Ghost(f));
    proof {
        lemma_script_push(range_bits(x@, bits as nat), FfCommand::Assert(f));
        assert(s@ =~= start + script_text(has_bits(x@, bits as nat)));
    }
}

/// Appends the range of a variable in one of the runs.
fn emit_range(s: &mut String, v: &Var, internal: bool, side: Side)
    ensures
        final(s)@ == old(s)@ + script_text(ff_range(v@, internal, side)),
{
    let x = instance_of(&v.name, side);
    proof {
        let none = Seq::<FfCommand>::empty();
        assert(s@ + script_text(none) =~= s@);
        let b = FfCommand::Assert(bit_formula(FfTerm::Var(x@)));
        let t = FfCommand::Assert(twit_formula(FfTerm::Var(x@)));
        lemma_script_push(none, b);
        lemma_script_push(none, t);
        assert(none.push(b) =~= seq![b]);
        assert(none.push(t) =~= seq![t]);
        assert(script_text(none) + command_text(b) =~= command_text(b));
        assert(script_text(none) + command_text(t) =~= command_text(t));
    }
    match v.vtype {
        VarType::Bit => {
            let formula = bit_text(&x);
            emit_assert(s, &formula, Ghost(bit_formula(FfTerm::Var(x@))));
        },
        VarType::Twit => {
            let formula = twit_text(&x);
            emit_assert(s, &formula, Ghost(twit_formula(FfTerm::Var(x@))));
        },
        VarType::U8 => {
            if internal {
                emit_range_bits(s, &x, 8);
            }
        },
        VarType::U16 => {
            if internal {
                emit_range_bits(s, &x, 16);
            }
        },
        _ => {},
    }
}

/// Whether one of the variables has a name.
pub(crate) fn has_name(vs: &Vec<Var>, name: &str) -> (r: bool)
    ensures
        r == declared(vars(vs@), name@),
{
    let mut i: usize = 0;
    while i < vs.len()
        invariant
            i <= vs.len(),
            forall|j: int| 0 <= j < i ==> (#[trigger] vars(vs@)[j]).name != name@,
        decreases vs.len() - i,
    {
        if same(&vs[i].name, name) {
            assert(vars(vs@)[i as int].name == name@);
            return true;
        }
        i += 1;
    }
    false
}

/// Appends a constraint in one of the runs.
fn emit_constraint(s: &mut String, c: &IrConstraint, side: Side) -> (r: Result<(), String>)
    requires
        negatable_constraint(c@),
    ensures
        r is Ok,
        final(s)@ == old(s)@ + script_text(ff_constraint(c@, side)),
{
    let ghost start = s@;
    let ghost none = Seq::<FfCommand>::empty();
    match c {
        IrConstraint::Eq { lhs, rhs, tag: _ } => {
            let ghost f = FfFormula::Equal(ff_expr(lhs@, side), ff_expr(rhs@, side));
            let formula = equation_of(&emit_expr(lhs, side), &emit_expr(rhs, side));
            emit_assert(s, &formula, Ghost(f));
            proof {
                lemma_script_push(none, FfCommand::Assert(f));
                assert(none.push(FfCommand::Assert(f)) =~= ff_constraint(c@, side));
                assert(s@ =~= start + script_text(ff_constraint(c@, side)));
            }
            Ok(())
        },
        IrConstraint::IsZero { result, expr } => {
            let r = instance_of(result, side);
            let e = emit_expr(expr, side);
            let zero = number(0);
            let is_zero = equation_of(&e, &zero);
            let yes = cat5("(and ", &is_zero, " ", &equation_of(&r, &number(1)), ")");
            let not_zero = cat3("(not ", &is_zero, ")");
            let no = cat5("(and ", &not_zero, " ", &equation_of(&r, &zero), ")");
            let formula = cat5("(or ", &yes, " ", &no, ")");
            let ghost f = ff_is_zero(ff_expr(expr@, side), ff_var(result@, side));
            proof {
                reveal_with_fuel(formula_text, 4);
            }
            emit_assert(s, &formula, Ghost(f));
            proof {
                lemma_script_push(none, FfCommand::Assert(f));
                assert(none.push(FfCommand::Assert(f)) =~= ff_constraint(c@, side));
                assert(s@ =~= start + script_text(ff_constraint(c@, side)));
            }
            Ok(())
        },
        IrConstraint::Call { component, args, outputs } => {
            let ghost terms = ff_exprs(ir_exprs(args@), side);
            let ghost outs = pairs(outputs@);
            let mut written: Vec<String> = Vec::new();
            let mut i: usize = 0;
            while i < args.len()
                invariant
                    i <= args.len(),
                    negatable_constraint(c@),
                    c@ is Call,
                    c@->args == ir_exprs(args@),
                    terms == ff_exprs(ir_exprs(args@), side),
                    written@.len() == i,
                    forall|j: int| 0 <= j < i ==> (#[trigger] written@[j])@ == term_text(terms[j]),
                decreases args.len() - i,
            {
                assert(negatable(ir_exprs(args@)[i as int]));
                written.push(emit_expr(&args[i], side));
                i += 1;
            }
            let joint = join(&written, " ");
            proof {
                assert(texts(written@) =~= term_texts(terms));
                assert(start + script_text(ff_outputs(component@, terms, outs, side, 0)) =~= start);
            }
            let mut i: usize = 0;
            while i < outputs.len()
                invariant
                    i <= outputs.len(),
                    outs == pairs(outputs@),
                    joint@ == joined(term_texts(terms), " "@),
                    s@ == start + script_text(
                        ff_outputs(component@, terms, outs, side, i as nat),
                    ),
                decreases outputs.len() - i,
            {
                let symbol = cat3(component, "_", &replace_dots(&outputs[i].0));
                let x = instance_of(&outputs[i].1, side);
                let call = cat5("(", &symbol, " ", &joint, ")");
                assert(outs[i as int] == (outputs@[i as int].0@, outputs@[i as int].1@));
                let ghost f = FfFormula::Equal(
                    ff_var(outs[i as int].1, side),
                    FfTerm::Call(ff_symbol(component@, outs[i as int].0), terms),
                );
                proof {
                    reveal_with_fuel(term_text, 2);
                }
                let formula = equation_of(&x, &call);
                emit_assert(s, &formula, Ghost(f));
                proof {
                    lemma_script_push(
                        ff_outputs(component@, terms, outs, side, i as nat),
                        FfCommand::Assert(f),
                    );
                    assert(s@ =~= start + script_text(
                        ff_outputs(component@, terms, outs, side, (i + 1) as nat),
                    ));
                }
                i += 1;
            }
            Ok(())
        },
    }
}

/// Appends the variables in both runs.
fn emit_declarations(s: &mut String, all: &Vec<&Var>, Ghost(vs): Ghost<Seq<VarV>>)
    requires
        all@.len() == vs.len(),
        forall|i: int| 0 <= i < all@.len() ==> (#[trigger] all@[i])@ == vs[i],
    ensures
        final(s)@ == old(s)@ + script_text(ff_declarations(vs, vs.len())),
{
    let ghost start = s@;
    let mut i: usize = 0;
    assert(start + script_text(ff_declarations(vs, 0)) =~= start);
    while i < all.len()
        invariant
            i <= all.len(),
            all@.len() == vs.len(),
            forall|j: int| 0 <= j < all@.len() ==> (#[trigger] all@[j])@ == vs[j],
            s@ == start + script_text(ff_declarations(vs, i as nat)),
        decreases all.len() - i,
    {
        let v: &Var = all[i];
        assert(v@ == vs[i as int]);
        let ghost before = ff_declarations(vs, i as nat);
        emit_declaration(s, &instance_of(&v.name, Side::First));
        emit_declaration(s, &instance_of(&v.name, Side::Second));
        proof {
            let a = FfCommand::DeclareConst(instance(v@.name, Side::First));
            let b = FfCommand::DeclareConst(instance(v@.name, Side::Second));
            lemma_script_push(before, a);
            lemma_script_push(before.push(a), b);
            assert(s@ =~= start + script_text(ff_declarations(vs, (i + 1) as nat)));
        }
        i += 1;
    }
}

/// Appends the ranges of the variables in both runs.
fn emit_ranges(
    s: &mut String,
    all: &Vec<&Var>,
    internals: &Vec<Var>,
    Ghost(vs): Ghost<Seq<VarV>>,
)
    requires
        all@.len() == vs.len(),
        forall|i: int| 0 <= i < all@.len() ==> (#[trigger] all@[i])@ == vs[i],
    ensures
        final(s)@ == old(s)@ + script_text(ff_ranges(vs, vars(internals@), vs.len())),
{
    let ghost start = s@;
    let ghost ins = vars(internals@);
    let mut i: usize = 0;
    assert(start + script_text(ff_ranges(vs, ins, 0)) =~= start);
    while i < all.len()
        invariant
            i <= all.len(),
            ins == vars(internals@),
            all@.len() == vs.len(),
            forall|j: int| 0 <= j < all@.len() ==> (#[trigger] all@[j])@ == vs[j],
            s@ == start + script_text(ff_ranges(vs, ins, i as nat)),
        decreases all.len() - i,
    {
        let v: &Var = all[i];
        assert(v@ == vs[i as int]);
        let internal = has_name(internals, &v.name);
        emit_range(s, v, internal, Side::First);
        emit_range(s, v, internal, Side::Second);
        proof {
            let before = ff_ranges(vs, ins, i as nat);
            let a = ff_range(v@, internal, Side::First);
            let b = ff_range(v@, internal, Side::Second);
            lemma_script_add(before, a);
            lemma_script_add(before + a, b);
            assert(s@ =~= start + script_text(ff_ranges(vs, ins, (i + 1) as nat)));
        }
        i += 1;
    }
}

/// Writes that a variable is the same in both runs.
fn same_text(name: &str) -> (r: String)
    ensures
        r@ == formula_text(ff_same(name@)),
{
    equation_of(&instance_of(name, Side::First), &instance_of(name, Side::Second))
}

/// Appends that the inputs are the same in both runs.
fn emit_same_inputs(s: &mut String, inputs: &Vec<Var>)
    ensures
        final(s)@ == old(s)@ + script_text(ff_same_inputs(vars(inputs@), inputs@.len())),
{
    let ghost start = s@;
    let ghost vs = vars(inputs@);
    let mut i: usize = 0;
    assert(start + script_text(ff_same_inputs(vs, 0)) =~= start);
    while i < inputs.len()
        invariant
            i <= inputs.len(),
            vs == vars(inputs@),
            s@ == start + script_text(ff_same_inputs(vs, i as nat)),
        decreases inputs.len() - i,
    {
        let ghost f = ff_same(vs[i as int].name);
        let formula = same_text(&inputs[i].name);
        emit_assert(s, &formula, Ghost(f));
        proof {
            lemma_script_push(ff_same_inputs(vs, i as nat), FfCommand::Assert(f));
            assert(s@ =~= start + script_text(ff_same_inputs(vs, (i + 1) as nat)));
        }
        i += 1;
    }
}

/// Whether `v` holds the function symbols `fs`.
spec fn holds_symbols(v: Seq<(String, usize)>, fs: Seq<(Seq<char>, nat)>) -> bool {
    &&& v.len() == fs.len()
    &&& forall|i: int|
        0 <= i < v.len() ==> (#[trigger] v[i]).0@ == fs[i].0 && v[i].1 as nat == fs[i].1
}

/// The function symbols that the constraints need, each once.
fn all_symbols(spec: &InstructionSpec) -> (r: Vec<(String, usize)>)
    ensures
        holds_symbols(r@, ff_symbols(spec@.constraints, spec@.constraints.len())),
{
    let ghost cs = spec@.constraints;
    let mut out: Vec<(String, usize)> = Vec::new();
    let mut i: usize = 0;
    while i < spec.constraints.len()
        invariant
            i <= spec.constraints.len(),
            cs == spec@.constraints,
            holds_symbols(out@, ff_symbols(cs, i as nat)),
        decreases spec.constraints.len() - i,
    {
        assert(cs[i as int] == spec.constraints@[i as int]@);
        match &spec.constraints[i] {
            IrConstraint::Call { component, args, outputs } => {
                let ghost before = ff_symbols(cs, i as nat);
                let ghost outs = pairs(outputs@);
                let mut j: usize = 0;
                while j < outputs.len()
                    invariant
                        j <= outputs.len(),
                        outs == pairs(outputs@),
                        holds_symbols(
                            out@,
                            ff_with_outputs(before, component@, args@.len(), outs, j as nat),
                        ),
                    decreases outputs.len() - j,
                {
                    let ghost fs = ff_with_outputs(
                        before,
                        component@,
                        args@.len(),
                        outs,
                        j as nat,
                    );
                    let symbol = cat3(component, "_", &replace_dots(&outputs[j].0));
                    assert(outs[j as int].0 == outputs@[j as int].0@);
                    if !known_symbol(&out, &symbol, Ghost(fs)) {
                        out.push((symbol, args.len()));
                    }
                    j += 1;
                }
            },
            _ => {},
        }
        i += 1;
    }
    out
}

/// Whether a function symbol is among others.
fn known_symbol(v: &Vec<(String, usize)>, symbol: &str, Ghost(fs): Ghost<Seq<(Seq<char>, nat)>>) -> (r:
    bool)
    requires
        holds_symbols(v@, fs),
    ensures
        r == has_symbol(fs, symbol@),
{
    let mut i: usize = 0;
    while i < v.len()
        invariant
            i <= v.len(),
            holds_symbols(v@, fs),
            forall|j: int| 0 <= j < i ==> (#[trigger] fs[j]).0 != symbol@,
        decreases v.len() - i,
    {
        assert(v@[i as int].0@ == fs[i as int].0);
        if same(&v[i].0, symbol) {
            return true;
        }
        i += 1;
    }
    false
}

/// Appends the declarations of function symbols.
fn emit_functions(s: &mut String, v: &Vec<(String, usize)>, Ghost(fs): Ghost<Seq<(Seq<char>, nat)>>)
    requires
        holds_symbols(v@, fs),
    ensures
        final(s)@ == old(s)@ + script_text(ff_functions(fs)),
{
    let ghost start = s@;
    let mut i: usize = 0;
    assert(start + script_text(ff_functions(fs.take(0))) =~= start);
    while i < v.len()
        invariant
            i <= v.len(),
            holds_symbols(v@, fs),
            s@ == start + script_text(ff_functions(fs.take(i as int))),
        decreases v.len() - i,
    {
        assert(v@[i as int].0@ == fs[i as int].0);
        let sorts = join(&copies("F", v[i].1), " ");
        s.append("(declare-fun ");
        s.append(&v[i].0);
        s.append(" (");
        s.append(&sorts);
        s.append(") F)\n");
        proof {
            let before = ff_functions(fs.take(i as int));
            let c = FfCommand::DeclareFun(fs[i as int].0, fs[i as int].1);
            lemma_script_push(before, c);
            assert(ff_functions(fs.take(i + 1)) =~= before.push(c));
            assert(s@ =~= start + script_text(ff_functions(fs.take(i + 1))));
        }
        i += 1;
    }
    assert(fs.take(i as int) =~= fs);
}

/// Several copies of a text.
fn copies(t: &str, n: usize) -> (r: Vec<String>)
    ensures
        texts(r@) == Seq::new(n as nat, |i: int| t@),
{
    let mut out: Vec<String> = Vec::new();
    let mut i: usize = 0;
    while i < n
        invariant
            i <= n,
            texts(out@) =~= Seq::new(i as nat, |j: int| t@),
        decreases n - i,
    {
        let ghost was = texts(out@);
        out.push(t.to_owned());
        assert(texts(out@) =~= was.push(t@));
        i += 1;
    }
    out
}

/// Whether one of the constraints is a call.
pub(crate) fn any_call(cs: &Vec<IrConstraint>) -> (r: bool)
    ensures
        r == has_calls(constraints(cs@)),
{
    let mut i: usize = 0;
    while i < cs.len()
        invariant
            i <= cs.len(),
            forall|j: int| 0 <= j < i ==> !((#[trigger] constraints(cs@)[j]) is Call),
        decreases cs.len() - i,
    {
        assert(constraints(cs@)[i as int] == cs@[i as int]@);
        match &cs[i] {
            IrConstraint::Call { .. } => {
                return true;
            },
            _ => {},
        }
        i += 1;
    }
    false
}

/// Writes that one of the outputs differs between the runs.
fn difference(outputs: &Vec<Var>) -> (r: String)
    ensures
        r@ == formula_text(ff_differ(vars(outputs@))),
{
    let ghost vs = vars(outputs@);
    if outputs.len() == 1 {
        proof {
            reveal_with_fuel(formula_text, 2);
            assert(vs[0].name == outputs@[0].name@);
        }
        return cat3("(not ", &same_text(&outputs[0].name), ")");
    }
    let ghost all = vs.map_values(|v: VarV| ff_differs(v.name));
    let mut r = "(or\n".to_owned();
    let mut i: usize = 0;
    assert(r@ =~= "(or\n"@ + lines_text(all, 0));
    while i < outputs.len()
        invariant
            i <= outputs.len(),
            vs == vars(outputs@),
            all == vs.map_values(|v: VarV| ff_differs(v.name)),
            r@ == "(or\n"@ + lines_text(all, i as nat),
        decreases outputs.len() - i,
    {
        let line = cat3("(not ", &same_text(&outputs[i].name), ")");
        proof {
            reveal_with_fuel(formula_text, 2);
            assert(line@ == formula_text(all[i as int]));
        }
        let ghost was = r@;
        r.append("  ");
        r.append(&line);
        r.append("\n");
        assert(r@ =~= "(or\n"@ + lines_text(all, (i + 1) as nat));
        i += 1;
    }
    r.append(")");
    r
}

/// Whether the negative of each constant of an expression is an integer of 64 bits.
fn is_negatable(e: &IrExpr) -> (r: bool)
    ensures
        r == negatable(e@),
    decreases e,
{
    reveal_with_fuel(IrExpr::view, 2);
    match e {
        IrExpr::Const(n) => *n > i64::MIN,
        IrExpr::Var(_) => true,
        IrExpr::Add(a, b) => is_negatable(a) && is_negatable(b),
        IrExpr::Sub(a, b) => is_negatable(a) && is_negatable(b),
        IrExpr::Mul(a, b) => is_negatable(a) && is_negatable(b),
        IrExpr::Div(a, b) => is_negatable(a) && is_negatable(b),
    }
}

/// Whether the script of an instruction can be written: no constant is the smallest
/// integer of 64 bits, which has no negative.
pub fn can_write(spec: &InstructionSpec) -> (r: bool)
    ensures
        r == all_negatable(spec@.constraints),
{
    let ghost cs = spec@.constraints;
    let mut i: usize = 0;
    while i < spec.constraints.len()
        invariant
            i <= spec.constraints.len(),
            cs == spec@.constraints,
            forall|k: int| 0 <= k < i ==> negatable_constraint(#[trigger] cs[k]),
        decreases spec.constraints.len() - i,
    {
        let c = &spec.constraints[i];
        assert(cs[i as int] == c@);
        let fine = match c {
            IrConstraint::Eq { lhs, rhs, .. } => is_negatable(lhs) && is_negatable(rhs),
            IrConstraint::IsZero { expr, .. } => is_negatable(expr),
            IrConstraint::Call { args, .. } => are_negatable(args),
        };
        assert(fine == negatable_constraint(cs[i as int]));
        if !fine {
            return false;
        }
        i += 1;
    }
    true
}

/// Whether the negative of each constant of expressions is an integer of 64 bits.
fn are_negatable(args: &Vec<IrExpr>) -> (r: bool)
    ensures
        r == negatable_exprs(ir_exprs(args@)),
{
    let ghost v = ir_exprs(args@);
    let mut i: usize = 0;
    while i < args.len()
        invariant
            i <= args.len(),
            v == ir_exprs(args@),
            forall|k: int| 0 <= k < i ==> negatable(#[trigger] v[k]),
        decreases args.len() - i,
    {
        assert(v[i as int] == args@[i as int]@);
        if !is_negatable(&args[i]) {
            return false;
        }
        i += 1;
    }
    true
}

/// Writes the script that asks whether two runs with the same inputs can have different
/// outputs.
pub fn generate_smt2(spec: &InstructionSpec) -> (r: Result<String, String>)
    requires
        all_negatable(spec@.constraints),
    ensures
        r is Ok,
        r->Ok_0@ == script_text(ff_script(spec@)),
{
    let ghost cs = spec@.constraints;
    let ghost vs = spec@.all_vars();
    let all = all_variables(spec);
    let mut s = String::new();
    s.append("(set-logic ");
    s.append(if any_call(&spec.constraints) { "QF_UFFF" } else { "QF_FF" });
    s.append(")\n");
    s.append("(define-sort F () (_ FiniteField ");
    s.append(&decimal(BABYBEAR_P));
    s.append("))\n");
    let ghost s0 = seq![FfCommand::SetLogic(ff_logic(cs)), FfCommand::DefineField];
    proof {
        let none = Seq::<FfCommand>::empty();
        let a = FfCommand::SetLogic(ff_logic(cs));
        lemma_script_push(none, a);
        lemma_script_push(none.push(a), FfCommand::DefineField);
        assert(none.push(a).push(FfCommand::DefineField) =~= s0);
        assert(s@ =~= script_text(s0));
    }
    emit_declarations(&mut s, &all, Ghost(vs));
    let ghost s1 = s0 + ff_declarations(vs, vs.len());
    proof {
        lemma_script_add(s0, ff_declarations(vs, vs.len()));
    }
    emit_ranges(&mut s, &all, &spec.internals, Ghost(vs));
    let ghost s2 = s1 + ff_ranges(vs, spec@.internals, vs.len());
    proof {
        lemma_script_add(s1, ff_ranges(vs, spec@.internals, vs.len()));
    }
    emit_same_inputs(&mut s, &spec.inputs);
    let ghost s3 = s2 + ff_same_inputs(spec@.inputs, spec@.inputs.len());
    proof {
        lemma_script_add(s2, ff_same_inputs(spec@.inputs, spec@.inputs.len()));
    }
    let symbols = all_symbols(spec);
    let ghost fs = ff_symbols(cs, cs.len());
    emit_functions(&mut s, &symbols, Ghost(fs));
    let ghost s4 = s3 + ff_functions(fs);
    proof {
        lemma_script_add(s3, ff_functions(fs));
        assert(s4 + ff_constraints(cs, 0) =~= s4);
    }
    let mut i: usize = 0;
    while i < spec.constraints.len()
        invariant
            i <= spec.constraints.len(),
            cs == spec@.constraints,
            all_negatable(cs),
            s@ == script_text(s4 + ff_constraints(cs, i as nat)),
        decreases spec.constraints.len() - i,
    {
        let c = &spec.constraints[i];
        assert(cs[i as int] == c@);
        assert(negatable_constraint(cs[i as int]));
        emit_constraint(&mut s, c, Side::First)?;
        emit_constraint(&mut s, c, Side::Second)?;
        proof {
            let before = s4 + ff_constraints(cs, i as nat);
            let a = ff_constraint(c@, Side::First);
            let b = ff_constraint(c@, Side::Second);
            lemma_script_add(before, a);
            lemma_script_add(before + a, b);
            assert(s4 + ff_constraints(cs, (i + 1) as nat) =~= before + a + b);
        }
        i += 1;
    }
    let ghost s5 = s4 + ff_constraints(cs, cs.len());
    let formula = difference(&spec.outputs);
    let ghost f = ff_differ(spec@.outputs);
    emit_assert(&mut s, &formula, Ghost(f));
    s.append("(check-sat)\n");
    proof {
        let d = FfCommand::Assert(f);
        lemma_script_push(s5, d);
        lemma_script_push(s5.push(d), FfCommand::CheckSat);
        assert(s5.push(d).push(FfCommand::CheckSat) =~= s5 + seq![d, FfCommand::CheckSat]);
    }
    Ok(s)
}

// ---------------------------------------------------------------------------
// The result
// ---------------------------------------------------------------------------

/// What a run of the solver tells: what it wrote to its output and to its error output,
/// or the error in its place.
pub open spec fn ff_verdict(
    outputs: nat,
    run: Result<(Seq<char>, Seq<char>), Seq<char>>,
) -> Result<bool, Seq<char>> {
    if outputs == 0 {
        Err("No outputs to check"@)
    } else {
        match run {
            Ok((out, err)) => if trimmed(out) == "unsat"@ {
                Ok(true)
            } else if trimmed(out) == "sat"@ {
                Ok(false)
            } else if trimmed(out) == "unknown"@ {
                Err("Unknown (timeout or incomplete)"@)
            } else {
                Err("cvc5: "@ + trimmed(out) + " "@ + trimmed(err))
            },
            Err(e) => Err(e),
        }
    }
}

/// A run of the solver as a mathematical value.
pub open spec fn run_of(run: Result<(String, String), String>) -> Result<
    (Seq<char>, Seq<char>),
    Seq<char>,
> {
    match run {
        Ok((out, err)) => Ok((out@, err@)),
        Err(e) => Err(e@),
    }
}

/// Whether an instruction is deterministic, by what the solver wrote for the script, or
/// the error in its place.
pub fn verify_determinism(
    spec: &InstructionSpec,
    run: Result<(String, String), String>,
    time_ms: u128,
) -> (r: VerifyResult)
    requires
        spec@.all_vars().len() <= usize::MAX,
    ensures
        tells(r, spec@, ff_verdict(spec@.outputs.len(), run_of(run)), time_ms),
{
    let found = if spec.outputs.len() == 0 {
        Err("No outputs to check".to_owned())
    } else {
        match run {
            Ok((out, err)) => {
                let result = trim(&out);
                if same(&result, "unsat") {
                    Ok(true)
                } else if same(&result, "sat") {
                    Ok(false)
                } else if same(&result, "unknown") {
                    Err("Unknown (timeout or incomplete)".to_owned())
                } else {
                    Err(cat4("cvc5: ", &result, " ", &trim(&err)))
                }
            },
            Err(e) => Err(e),
        }
    };
    report(spec, found, time_ms)
}

} // verus!
