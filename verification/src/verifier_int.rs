//! The question whether an instruction is deterministic, over the integers.
//!
//! Products of bytes are better decided by nonlinear arithmetic over intervals than bit
//! by bit. Calls that are not expanded are functions of which nothing is known but
//! that the same arguments give the same result.

use smtlib::funs::Fun;
use smtlib::{Bool, Int, Storage};
use vstd::prelude::*;
use crate::ir::rules::magnitude;
use crate::ir::value::{find, keys, lemma_place};
use crate::ir::{
    ir_exprs, max_value, ConstraintV, InstructionSpec, IrConstraint, IrExpr, IrExprV, SpecV, Var,
    VarV,
};
use crate::model::{
    all_variables, declared, instance, instance_of, unknown_text, unknown_warning, unknowns, Side,
};
use crate::parser::ast::pairs;
use crate::smt::{
    all_say, app2, assertion, bool_and, bool_or, bool_text, call_text, const_text, followed_by,
    fun_parts, int_add, int_call, int_const, int_div, int_eq, int_function, int_function_parts,
    int_ge, int_le, int_mul, int_neq, int_number, int_sub, int_text, int_texts, lemma_push_says,
    lemma_warnings, number_text, plan_says, push_assert, warnings, Answer, Plan, PlanV, Step, StepV,
};
use crate::text::{cat3, same};
use crate::verifier_bv::{judge, report, tells, text_of, verdict, VerifyResult};

verus! {

// ---------------------------------------------------------------------------
// Terms and formulas
// ---------------------------------------------------------------------------

/// A term over the integers.
pub enum IntTerm {
    Var(Seq<char>),
    Number(int),
    Add(Box<IntTerm>, Box<IntTerm>),
    Sub(Box<IntTerm>, Box<IntTerm>),
    Mul(Box<IntTerm>, Box<IntTerm>),
    Div(Box<IntTerm>, Box<IntTerm>),
    /// The call of a function symbol.
    Call(Seq<char>, Seq<IntTerm>),
}

/// A formula over the integers.
pub enum IntFormula {
    AtLeast(IntTerm, IntTerm),
    AtMost(IntTerm, IntTerm),
    Equal(IntTerm, IntTerm),
    Distinct(IntTerm, IntTerm),
    And(Box<IntFormula>, Box<IntFormula>),
    Or(Box<IntFormula>, Box<IntFormula>),
}

/// The text of a term.
pub open spec fn term_text(t: IntTerm) -> Seq<char>
    decreases t,
{
    match t {
        IntTerm::Var(x) => const_text(x, "Int"@),
        IntTerm::Number(n) => number_text(n),
        IntTerm::Add(a, b) => app2("+"@, term_text(*a), term_text(*b)),
        IntTerm::Sub(a, b) => app2("-"@, term_text(*a), term_text(*b)),
        IntTerm::Mul(a, b) => app2("*"@, term_text(*a), term_text(*b)),
        IntTerm::Div(a, b) => app2("div"@, term_text(*a), term_text(*b)),
        IntTerm::Call(f, args) => call_text(f, term_texts(args)),
    }
}

/// The texts of terms.
pub open spec fn term_texts(v: Seq<IntTerm>) -> Seq<Seq<char>>
    decreases v,
{
    Seq::new(
        v.len(),
        |i: int|
            if 0 <= i < v.len() {
                term_text(v[i])
            } else {
                arbitrary()
            },
    )
}

/// The text of a formula.
pub open spec fn formula_text(f: IntFormula) -> Seq<char>
    decreases f,
{
    match f {
        IntFormula::AtLeast(a, b) => app2(">="@, term_text(a), term_text(b)),
        IntFormula::AtMost(a, b) => app2("<="@, term_text(a), term_text(b)),
        IntFormula::Equal(a, b) => app2("="@, term_text(a), term_text(b)),
        IntFormula::Distinct(a, b) => app2("distinct"@, term_text(a), term_text(b)),
        IntFormula::And(a, b) => app2("and"@, formula_text(*a), formula_text(*b)),
        IntFormula::Or(a, b) => app2("or"@, formula_text(*a), formula_text(*b)),
    }
}

/// A variable in one of the runs.
pub open spec fn int_var(x: Seq<char>, side: Side) -> IntTerm {
    IntTerm::Var(instance(x, side))
}

/// A variable to subtract from itself: the first of `vs`, or one of its own.
pub open spec fn some_var(vs: Seq<VarV>, side: Side) -> IntTerm {
    if vs.len() > 0 {
        int_var(vs[0].name, side)
    } else {
        IntTerm::Var("__zero"@)
    }
}

/// The difference of a variable with itself.
pub open spec fn int_zero(vs: Seq<VarV>, side: Side) -> IntTerm {
    IntTerm::Sub(Box::new(some_var(vs, side)), Box::new(some_var(vs, side)))
}

/// An expression in one of the runs; a variable that is not known counts as 0.
pub open spec fn int_expr(e: IrExprV, vs: Seq<VarV>, side: Side) -> IntTerm
    decreases e,
{
    match e {
        IrExprV::Const(n) => IntTerm::Add(
            Box::new(int_zero(vs, side)),
            Box::new(IntTerm::Number(n as int)),
        ),
        IrExprV::Var(x) => if declared(vs, x) {
            int_var(x, side)
        } else if vs.len() > 0 {
            int_zero(vs, side)
        } else {
            some_var(vs, side)
        },
        IrExprV::Add(a, b) => IntTerm::Add(
            Box::new(int_expr(*a, vs, side)),
            Box::new(int_expr(*b, vs, side)),
        ),
        IrExprV::Sub(a, b) => IntTerm::Sub(
            Box::new(int_expr(*a, vs, side)),
            Box::new(int_expr(*b, vs, side)),
        ),
        IrExprV::Mul(a, b) => IntTerm::Mul(
            Box::new(int_expr(*a, vs, side)),
            Box::new(int_expr(*b, vs, side)),
        ),
        IrExprV::Div(a, b) => IntTerm::Div(
            Box::new(int_expr(*a, vs, side)),
            Box::new(int_expr(*b, vs, side)),
        ),
    }
}

/// Expressions in one of the runs.
pub open spec fn int_exprs(v: Seq<IrExprV>, vs: Seq<VarV>, side: Side) -> Seq<IntTerm> {
    v.map_values(|e: IrExprV| int_expr(e, vs, side))
}

/// `r` is 1 where `e` is 0, and 0 elsewhere.
pub open spec fn int_is_zero(e: IntTerm, r: IntTerm) -> IntFormula {
    let zero = IntTerm::Number(0);
    let one = IntTerm::Number(1);
    IntFormula::Or(
        Box::new(
            IntFormula::And(
                Box::new(IntFormula::Equal(e, zero)),
                Box::new(IntFormula::Equal(r, one)),
            ),
        ),
        Box::new(
            IntFormula::And(
                Box::new(IntFormula::Distinct(e, zero)),
                Box::new(IntFormula::Equal(r, zero)),
            ),
        ),
    )
}

/// The function symbol of a field of a component.
pub open spec fn symbol(component: Seq<char>, field: Seq<char>) -> Seq<char> {
    component + "__"@ + field
}

// ---------------------------------------------------------------------------
// The plan
// ---------------------------------------------------------------------------

/// A variable lies in its range.
pub open spec fn int_range(v: VarV, side: Side) -> IntFormula {
    IntFormula::And(
        Box::new(IntFormula::AtLeast(int_var(v.name, side), IntTerm::Number(0))),
        Box::new(IntFormula::AtMost(int_var(v.name, side), IntTerm::Number(max_value(v.vtype)))),
    )
}

/// The variables lie in their ranges, in both runs: the first `n` of them.
pub open spec fn int_ranges(vs: Seq<VarV>, n: nat) -> Seq<StepV<IntFormula>>
    decreases n,
{
    if n == 0 || n > vs.len() {
        Seq::empty()
    } else {
        int_ranges(vs, (n - 1) as nat).push(
            assertion("range"@, int_range(vs[n - 1], Side::First)),
        ).push(assertion("range"@, int_range(vs[n - 1], Side::Second)))
    }
}

/// The first `n` inputs are the same in both runs.
pub open spec fn int_same_inputs(vs: Seq<VarV>, n: nat) -> Seq<StepV<IntFormula>>
    decreases n,
{
    if n == 0 || n > vs.len() {
        Seq::empty()
    } else {
        let x = vs[n - 1].name;
        int_same_inputs(vs, (n - 1) as nat).push(
            assertion("eq"@, IntFormula::Equal(int_var(x, Side::First), int_var(x, Side::Second))),
        )
    }
}

/// A function that stands for a field of a component.
pub struct Uf {
    pub component: Seq<char>,
    pub field: Seq<char>,
    pub arity: nat,
}

/// Whether a function stands for a field of a component.
pub open spec fn stands_for(u: Uf, component: Seq<char>, field: Seq<char>) -> bool {
    u.component == component && u.field == field
}

/// Whether a field of a component has a function.
pub open spec fn has_uf(ufs: Seq<Uf>, component: Seq<char>, field: Seq<char>) -> bool {
    exists|i: int| 0 <= i < ufs.len() && stands_for(#[trigger] ufs[i], component, field)
}

/// The functions with those for the first `n` outputs of a call.
pub open spec fn with_outputs(
    ufs: Seq<Uf>,
    component: Seq<char>,
    arity: nat,
    outputs: Seq<(Seq<char>, Seq<char>)>,
    n: nat,
) -> Seq<Uf>
    decreases n,
{
    if n == 0 || n > outputs.len() {
        ufs
    } else {
        let before = with_outputs(ufs, component, arity, outputs, (n - 1) as nat);
        let field = outputs[n - 1].0;
        if has_uf(before, component, field) {
            before
        } else {
            before.push(Uf { component, field, arity })
        }
    }
}

/// The functions that the first `n` constraints need, each once.
pub open spec fn functions(cs: Seq<ConstraintV>, n: nat) -> Seq<Uf>
    decreases n,
{
    if n == 0 || n > cs.len() {
        Seq::empty()
    } else {
        let before = functions(cs, (n - 1) as nat);
        match cs[n - 1] {
            ConstraintV::Call { component, args, outputs } => with_outputs(
                before,
                component,
                args.len(),
                outputs,
                outputs.len(),
            ),
            _ => before,
        }
    }
}

/// The declaration of a function.
pub open spec fn int_declaration(u: Uf) -> StepV<IntFormula> {
    StepV::Declare {
        label: "declare_fun"@,
        name: symbol(u.component, u.field),
        arity: u.arity,
    }
}

/// The declarations of functions.
pub open spec fn int_declarations(ufs: Seq<Uf>) -> Seq<StepV<IntFormula>> {
    ufs.map_values(|u: Uf| int_declaration(u))
}

/// The warnings of the first `n` of some expressions.
pub open spec fn args_warnings(args: Seq<IrExprV>, vs: Seq<VarV>, n: nat) -> Seq<StepV<IntFormula>>
    decreases n,
{
    if n == 0 || n > args.len() {
        Seq::empty()
    } else {
        args_warnings(args, vs, (n - 1) as nat) + warnings(unknowns(args[n - 1], vs))
    }
}

/// The outputs of a call from `i` on, after `p`: each equals its function of the
/// arguments.
pub open spec fn int_outputs(
    p: PlanV<IntFormula>,
    component: Seq<char>,
    args: Seq<IntTerm>,
    outputs: Seq<(Seq<char>, Seq<char>)>,
    vs: Seq<VarV>,
    side: Side,
    i: int,
) -> PlanV<IntFormula>
    decreases outputs.len() - i,
{
    if 0 <= i < outputs.len() {
        let (field, x) = outputs[i];
        if declared(vs, x) {
            int_outputs(
                PlanV {
                    steps: p.steps.push(
                        assertion(
                            "UF eq"@,
                            IntFormula::Equal(
                                int_var(x, side),
                                IntTerm::Call(symbol(component, field), args),
                            ),
                        ),
                    ),
                    stop: None,
                },
                component,
                args,
                outputs,
                vs,
                side,
                i + 1,
            )
        } else {
            PlanV { steps: p.steps, stop: Some("output var '"@ + x + "' not found"@) }
        }
    } else {
        p
    }
}

/// A constraint in one of the runs, after the steps `said`.
pub open spec fn int_constraint(
    said: Seq<StepV<IntFormula>>,
    c: ConstraintV,
    vs: Seq<VarV>,
    side: Side,
) -> PlanV<IntFormula> {
    match c {
        ConstraintV::Eq { lhs, rhs, .. } => PlanV {
            steps: (said + warnings(unknowns(lhs, vs)) + warnings(unknowns(rhs, vs))).push(
                assertion(
                    "eq"@,
                    IntFormula::Equal(int_expr(lhs, vs, side), int_expr(rhs, vs, side)),
                ),
            ),
            stop: None,
        },
        ConstraintV::IsZero { result, expr } => if declared(vs, result) {
            PlanV {
                steps: (said + warnings(unknowns(expr, vs))).push(
                    assertion(
                        "iszero"@,
                        int_is_zero(int_expr(expr, vs, side), int_var(result, side)),
                    ),
                ),
                stop: None,
            }
        } else {
            PlanV { steps: said, stop: Some("IsZero var '"@ + result + "' not found"@) }
        },
        ConstraintV::Call { component, args, outputs } => int_outputs(
            PlanV { steps: said + args_warnings(args, vs, args.len()), stop: None },
            component,
            int_exprs(args, vs, side),
            outputs,
            vs,
            side,
            0,
        ),
    }
}

/// A constraint in both runs, after the steps `said`.
pub open spec fn int_both(
    said: Seq<StepV<IntFormula>>,
    c: ConstraintV,
    vs: Seq<VarV>,
) -> PlanV<IntFormula> {
    let p = int_constraint(said, c, vs, Side::First);
    if p.stop is Some {
        p
    } else {
        int_constraint(p.steps, c, vs, Side::Second)
    }
}

/// The constraints from `i` on in both runs, after `p`.
pub open spec fn int_constraints(
    p: PlanV<IntFormula>,
    cs: Seq<ConstraintV>,
    vs: Seq<VarV>,
    i: int,
) -> PlanV<IntFormula>
    decreases cs.len() - i,
{
    if 0 <= i < cs.len() && p.stop is None {
        int_constraints(int_both(p.steps, cs[i], vs), cs, vs, i + 1)
    } else {
        p
    }
}

/// One of the first `n` outputs differs between the runs.
pub open spec fn int_differ(vs: Seq<VarV>, n: nat) -> IntFormula
    recommends
        0 < n <= vs.len(),
    decreases n,
{
    let x = vs[n - 1].name;
    let d = IntFormula::Distinct(int_var(x, Side::First), int_var(x, Side::Second));
    if n <= 1 {
        d
    } else {
        IntFormula::Or(Box::new(int_differ(vs, (n - 1) as nat)), Box::new(d))
    }
}

/// The steps before the constraints.
pub open spec fn int_start(s: SpecV) -> PlanV<IntFormula> {
    let vs = s.all_vars();
    PlanV {
        steps: int_ranges(vs, vs.len()) + int_same_inputs(s.inputs, s.inputs.len())
            + int_declarations(functions(s.constraints, s.constraints.len())),
        stop: None,
    }
}

/// What to ask a solver: whether two runs with the same inputs can have different
/// outputs.
pub open spec fn int_plan(s: SpecV) -> PlanV<IntFormula> {
    if s.outputs.len() == 0 {
        PlanV { steps: Seq::empty(), stop: Some("No outputs to check"@) }
    } else {
        followed_by(
            int_constraints(int_start(s), s.constraints, s.all_vars(), 0),
            PlanV {
                steps: seq![assertion("diff"@, int_differ(s.outputs, s.outputs.len()))],
                stop: None,
            },
        )
    }
}

/// The text of a formula, as a function.
pub open spec fn int_formula_texts() -> spec_fn(IntFormula) -> Seq<char> {
    |f: IntFormula| formula_text(f)
}

// ---------------------------------------------------------------------------
// What can be asked
// ---------------------------------------------------------------------------

/// Whether the constants of an expression fit into machine words.
pub open spec fn word_sized(e: IrExprV) -> bool
    decreases e,
{
    match e {
        IrExprV::Const(n) => magnitude(n as int) <= usize::MAX,
        IrExprV::Var(_) => true,
        IrExprV::Add(a, b) => word_sized(*a) && word_sized(*b),
        IrExprV::Sub(a, b) => word_sized(*a) && word_sized(*b),
        IrExprV::Mul(a, b) => word_sized(*a) && word_sized(*b),
        IrExprV::Div(a, b) => word_sized(*a) && word_sized(*b),
    }
}

/// Whether the constants of a constraint fit into machine words.
pub open spec fn word_sized_constraint(c: ConstraintV) -> bool {
    match c {
        ConstraintV::Eq { lhs, rhs, .. } => word_sized(lhs) && word_sized(rhs),
        ConstraintV::IsZero { expr, .. } => word_sized(expr),
        ConstraintV::Call { args, .. } => forall|i: int|
            0 <= i < args.len() ==> word_sized(#[trigger] args[i]),
    }
}

/// Whether two lists of outputs share a field.
pub open spec fn share(o: Seq<(Seq<char>, Seq<char>)>, p: Seq<(Seq<char>, Seq<char>)>) -> bool {
    exists|i: int, j: int|
        0 <= i < o.len() && 0 <= j < p.len() && (#[trigger] o[i]).0 == (#[trigger] p[j]).0
}

/// Whether two calls that share a function give it the same number of arguments.
pub open spec fn calls_agree(c: ConstraintV, d: ConstraintV) -> bool {
    match (c, d) {
        (
            ConstraintV::Call { component: f, args: a, outputs: o },
            ConstraintV::Call { component: g, args: b, outputs: p },
        ) => f == g && share(o, p) ==> a.len() == b.len(),
        _ => true,
    }
}

/// Whether the constraints can be put to a solver over the integers: their constants
/// fit into machine words, and a function is always given the same number of arguments.
pub open spec fn askable(cs: Seq<ConstraintV>) -> bool {
    &&& forall|i: int| 0 <= i < cs.len() ==> word_sized_constraint(#[trigger] cs[i])
    &&& forall|i: int, j: int|
        0 <= i < cs.len() && 0 <= j < cs.len() ==> calls_agree(#[trigger] cs[i], #[trigger] cs[j])
}

/// Whether the constants of an expression fit into machine words.
fn fits(e: &IrExpr) -> (r: bool)
    ensures
        r == word_sized(e@),
    decreases e,
{
    match e {
        IrExpr::Const(n) => {
            let m: i128 = if *n < 0 {
                -(*n as i128)
            } else {
                *n as i128
            };
            m <= usize::MAX as i128
        },
        IrExpr::Var(_) => true,
        IrExpr::Add(a, b) => fits(a) && fits(b),
        IrExpr::Sub(a, b) => fits(a) && fits(b),
        IrExpr::Mul(a, b) => fits(a) && fits(b),
        IrExpr::Div(a, b) => fits(a) && fits(b),
    }
}

/// Whether the constants of a constraint fit into machine words.
fn constraint_fits(c: &IrConstraint) -> (r: bool)
    ensures
        r == word_sized_constraint(c@),
{
    match c {
        IrConstraint::Eq { lhs, rhs, tag: _ } => fits(lhs) && fits(rhs),
        IrConstraint::IsZero { result: _, expr } => fits(expr),
        IrConstraint::Call { component: _, args, outputs: _ } => {
            let mut i: usize = 0;
            while i < args.len()
                invariant
                    i <= args.len(),
                    c@ is Call,
                    c@->args == ir_exprs(args@),
                    forall|j: int| 0 <= j < i ==> word_sized(#[trigger] ir_exprs(args@)[j]),
                decreases args.len() - i,
            {
                if !fits(&args[i]) {
                    assert(!word_sized(ir_exprs(args@)[i as int]));
                    return false;
                }
                i += 1;
            }
            true
        },
    }
}

/// Whether two lists of outputs share a field.
fn share_field(o: &Vec<(String, String)>, p: &Vec<(String, String)>) -> (r: bool)
    ensures
        r == share(pairs(o@), pairs(p@)),
{
    let mut i: usize = 0;
    while i < o.len()
        invariant
            i <= o.len(),
            forall|a: int, b: int|
                0 <= a < i && 0 <= b < pairs(p@).len() ==> (#[trigger] pairs(o@)[a]).0 != (
                #[trigger] pairs(p@)[b]).0,
        decreases o.len() - i,
    {
        let mut j: usize = 0;
        while j < p.len()
            invariant
                i < o.len(),
                j <= p.len(),
                forall|b: int| 0 <= b < j ==> pairs(o@)[i as int].0 != (#[trigger] pairs(p@)[b]).0,
            decreases p.len() - j,
        {
            if same(&o[i].0, &p[j].0) {
                assert(pairs(o@)[i as int].0 == pairs(p@)[j as int].0);
                return true;
            }
            assert(pairs(o@)[i as int].0 != pairs(p@)[j as int].0);
            j += 1;
        }
        i += 1;
    }
    false
}

/// Whether two calls that share a function give it the same number of arguments.
fn agree(c: &IrConstraint, d: &IrConstraint) -> (r: bool)
    ensures
        r == calls_agree(c@, d@),
{
    match c {
        IrConstraint::Call { component: f, args: a, outputs: o } => match d {
            IrConstraint::Call { component: g, args: b, outputs: p } => {
                assert(ir_exprs(a@).len() == a@.len() && ir_exprs(b@).len() == b@.len());
                if same(f, g) && a.len() != b.len() {
                    !share_field(o, p)
                } else {
                    true
                }
            },
            _ => true,
        },
        _ => true,
    }
}

/// Whether the constraints of an instruction can be put to a solver over the integers.
pub fn can_ask(spec: &InstructionSpec) -> (r: bool)
    ensures
        r == askable(spec@.constraints),
{
    let ghost cs = spec@.constraints;
    let v = &spec.constraints;
    let mut i: usize = 0;
    while i < v.len()
        invariant
            i <= v.len(),
            v == &spec.constraints,
            cs == spec@.constraints,
            forall|k: int| 0 <= k < i ==> word_sized_constraint(#[trigger] cs[k]),
            forall|k: int, m: int|
                0 <= k < i && 0 <= m < cs.len() ==> calls_agree(#[trigger] cs[k], #[trigger] cs[m]),
        decreases v.len() - i,
    {
        assert(cs[i as int] == v@[i as int]@);
        if !constraint_fits(&v[i]) {
            return false;
        }
        let mut j: usize = 0;
        while j < v.len()
            invariant
                i < v.len(),
                j <= v.len(),
                v == &spec.constraints,
                cs == spec@.constraints,
                cs[i as int] == v@[i as int]@,
                forall|m: int| 0 <= m < j ==> calls_agree(cs[i as int], #[trigger] cs[m]),
            decreases v.len() - j,
        {
            assert(cs[j as int] == v@[j as int]@);
            if !agree(&v[i], &v[j]) {
                assert(!calls_agree(cs[i as int], cs[j as int]));
                return false;
            }
            j += 1;
        }
        i += 1;
    }
    true
}

// ---------------------------------------------------------------------------
// Building the plan
// ---------------------------------------------------------------------------

/// Whether `v` holds the variables `vs` in one of the runs.
spec fn holds_vars(v: Seq<(String, Int)>, vs: Seq<VarV>, side: Side) -> bool {
    &&& v.len() == vs.len()
    &&& forall|i: int|
        0 <= i < v.len() ==> (#[trigger] v[i]).0@ == vs[i].name && int_text(v[i].1) == term_text(
            int_var(vs[i].name, side),
        )
}

/// The variables in one of the runs.
fn variables<'st>(spec: &InstructionSpec, st: &'st Storage, side: Side) -> (r: Vec<
    (String, Int<'st>),
>)
    ensures
        holds_vars(r@, spec@.all_vars(), side),
{
    let all = all_variables(spec);
    let mut out: Vec<(String, Int<'st>)> = Vec::new();
    let mut i: usize = 0;
    while i < all.len()
        invariant
            i <= all.len(),
            all@.len() == spec@.all_vars().len(),
            forall|j: int| 0 <= j < all@.len() ==> (#[trigger] all@[j])@ == spec@.all_vars()[j],
            holds_vars(out@, spec@.all_vars().take(i as int), side),
        decreases all.len() - i,
    {
        let v: &Var = all[i];
        assert(v@ == spec@.all_vars()[i as int]);
        out.push((v.name.clone(), int_const(st, &instance_of(&v.name, side))));
        i += 1;
    }
    assert(spec@.all_vars().take(i as int) =~= spec@.all_vars());
    out
}

/// The variable of a name, where it is known.
fn variable<'st>(
    v: &Vec<(String, Int<'st>)>,
    name: &str,
    Ghost(vs): Ghost<Seq<VarV>>,
    side: Side,
) -> (r: Option<Int<'st>>)
    requires
        holds_vars(v@, vs, side),
    ensures
        r is Some <==> declared(vs, name@),
        r is Some ==> int_text(r->Some_0) == term_text(int_var(name@, side)),
{
    proof {
        lemma_place(keys(v@), name@, 0);
    }
    match find(v, name) {
        Some(i) => {
            assert(v@[i as int].0@ == vs[i as int].name);
            Some(v[i].1)
        },
        None => {
            assert forall|i: int| 0 <= i < vs.len() implies (#[trigger] vs[i]).name != name@ by {
                assert(v@[i].0@ == vs[i].name);
                assert(keys(v@)[i] == v@[i].0@);
            }
            None
        },
    }
}

/// A variable to subtract from itself.
fn any_variable<'st>(
    v: &Vec<(String, Int<'st>)>,
    st: &'st Storage,
    Ghost(vs): Ghost<Seq<VarV>>,
    side: Side,
) -> (r: Int<'st>)
    requires
        holds_vars(v@, vs, side),
    ensures
        int_text(r) == term_text(some_var(vs, side)),
{
    if v.len() > 0 {
        assert(v@[0].0@ == vs[0].name);
        v[0].1
    } else {
        int_const(st, "__zero")
    }
}

/// An expression in one of the runs. Names that are not known are warned of.
fn build_expr<'st>(
    e: &IrExpr,
    v: &Vec<(String, Int<'st>)>,
    st: &'st Storage,
    steps: &mut Vec<Step<'st>>,
    Ghost(vs): Ghost<Seq<VarV>>,
    side: Side,
    Ghost(said): Ghost<Seq<StepV<IntFormula>>>,
) -> (r: Int<'st>)
    requires
        holds_vars(v@, vs, side),
        word_sized(e@),
        all_say(old(steps)@, said, int_formula_texts()),
    ensures
        int_text(r) == term_text(int_expr(e@, vs, side)),
        all_say(final(steps)@, said + warnings(unknowns(e@, vs)), int_formula_texts()),
    decreases e,
{
    match e {
        IrExpr::Const(n) => {
            let any = any_variable(v, st, Ghost(vs), side);
            proof {
                assert(said + warnings(unknowns(e@, vs)) =~= said);
                reveal_with_fuel(term_text, 3);
            }
            int_add(int_sub(any, any), int_number(st, *n))
        },
        IrExpr::Var(x) => match variable(v, x, Ghost(vs), side) {
            Some(t) => {
                assert(said + warnings(unknowns(e@, vs)) =~= said);
                t
            },
            None => {
                steps.push(Step::Warn(unknown_warning(x)));
                assert(said + warnings(unknowns(e@, vs)) =~= said.push(
                    StepV::Warn(unknown_text(x@)),
                ));
                let any = any_variable(v, st, Ghost(vs), side);
                proof {
                    reveal_with_fuel(term_text, 2);
                }
                if v.len() > 0 {
                    int_sub(any, any)
                } else {
                    any
                }
            },
        },
        IrExpr::Add(a, b) => {
            let x = build_expr(a, v, st, steps, Ghost(vs), side, Ghost(said));
            let ghost mid = said + warnings(unknowns(a@, vs));
            let y = build_expr(b, v, st, steps, Ghost(vs), side, Ghost(mid));
            proof {
                lemma_warnings::<IntFormula>(unknowns(a@, vs), unknowns(b@, vs));
                assert(said + warnings(unknowns(e@, vs)) =~= mid + warnings(unknowns(b@, vs)));
            }
            int_add(x, y)
        },
        IrExpr::Sub(a, b) => {
            let x = build_expr(a, v, st, steps, Ghost(vs), side, Ghost(said));
            let ghost mid = said + warnings(unknowns(a@, vs));
            let y = build_expr(b, v, st, steps, Ghost(vs), side, Ghost(mid));
            proof {
                lemma_warnings::<IntFormula>(unknowns(a@, vs), unknowns(b@, vs));
                assert(said + warnings(unknowns(e@, vs)) =~= mid + warnings(unknowns(b@, vs)));
            }
            int_sub(x, y)
        },
        IrExpr::Mul(a, b) => {
            let x = build_expr(a, v, st, steps, Ghost(vs), side, Ghost(said));
            let ghost mid = said + warnings(unknowns(a@, vs));
            let y = build_expr(b, v, st, steps, Ghost(vs), side, Ghost(mid));
            proof {
                lemma_warnings::<IntFormula>(unknowns(a@, vs), unknowns(b@, vs));
                assert(said + warnings(unknowns(e@, vs)) =~= mid + warnings(unknowns(b@, vs)));
            }
            int_mul(x, y)
        },
        IrExpr::Div(a, b) => {
            let x = build_expr(a, v, st, steps, Ghost(vs), side, Ghost(said));
            let ghost mid = said + warnings(unknowns(a@, vs));
            let y = build_expr(b, v, st, steps, Ghost(vs), side, Ghost(mid));
            proof {
                lemma_warnings::<IntFormula>(unknowns(a@, vs), unknowns(b@, vs));
                assert(said + warnings(unknowns(e@, vs)) =~= mid + warnings(unknowns(b@, vs)));
            }
            int_div(x, y)
        },
    }
}

/// A function symbol that stands for a field of a component.
struct Function<'st> {
    component: String,
    field: String,
    arity: usize,
    function: Fun<'st>,
}

/// Whether `v` holds the functions `ufs`.
spec fn holds_functions(v: Seq<Function>, ufs: Seq<Uf>) -> bool {
    &&& v.len() == ufs.len()
    &&& forall|i: int|
        #![trigger v[i]]
        0 <= i < v.len() ==> {
            &&& v[i].component@ == ufs[i].component
            &&& v[i].field@ == ufs[i].field
            &&& v[i].arity == ufs[i].arity
            &&& fun_parts(v[i].function) == int_function_parts(
                symbol(ufs[i].component, ufs[i].field),
                ufs[i].arity,
            )
        }
}

/// The function that stands for a field of a component.
fn function_of<'st>(
    v: &Vec<Function<'st>>,
    component: &str,
    field: &str,
    Ghost(ufs): Ghost<Seq<Uf>>,
) -> (r: Option<usize>)
    requires
        holds_functions(v@, ufs),
    ensures
        r is Some <==> has_uf(ufs, component@, field@),
        r is Some ==> r->Some_0 < v@.len() && stands_for(
            ufs[r->Some_0 as int],
            component@,
            field@,
        ),
{
    let mut i: usize = 0;
    while i < v.len()
        invariant
            i <= v.len(),
            holds_functions(v@, ufs),
            forall|j: int| 0 <= j < i ==> !stands_for(#[trigger] ufs[j], component@, field@),
        decreases v.len() - i,
    {
        assert(v@[i as int].component@ == ufs[i as int].component);
        if same(&v[i].component, component) && same(&v[i].field, field) {
            assert(stands_for(ufs[i as int], component@, field@));
            return Some(i);
        }
        i += 1;
    }
    None
}

/// The functions that the constraints need.
fn all_functions<'st>(spec: &InstructionSpec, st: &'st Storage) -> (r: Vec<Function<'st>>)
    ensures
        holds_functions(r@, functions(spec@.constraints, spec@.constraints.len())),
{
    let ghost cs = spec@.constraints;
    let mut out: Vec<Function<'st>> = Vec::new();
    let mut i: usize = 0;
    while i < spec.constraints.len()
        invariant
            i <= spec.constraints.len(),
            cs == spec@.constraints,
            holds_functions(out@, functions(cs, i as nat)),
        decreases spec.constraints.len() - i,
    {
        assert(cs[i as int] == spec.constraints@[i as int]@);
        match &spec.constraints[i] {
            IrConstraint::Call { component, args, outputs } => {
                let ghost before = functions(cs, i as nat);
                let ghost outs = pairs(outputs@);
                let mut j: usize = 0;
                while j < outputs.len()
                    invariant
                        j <= outputs.len(),
                        outs == pairs(outputs@),
                        holds_functions(
                            out@,
                            with_outputs(before, component@, args@.len(), outs, j as nat),
                        ),
                    decreases outputs.len() - j,
                {
                    let ghost ufs = with_outputs(before, component@, args@.len(), outs, j as nat);
                    let field = &outputs[j].0;
                    assert(outs[j as int].0 == field@);
                    if function_of(&out, component, field, Ghost(ufs)).is_none() {
                        out.push(
                            Function {
                                component: component.clone(),
                                field: field.clone(),
                                arity: args.len(),
                                function: int_function(
                                    st,
                                    cat3(component, "__", field),
                                    args.len(),
                                ),
                            },
                        );
                    }
                    j += 1;
                }
            },
            _ => {},
        }
        i += 1;
    }
    out
}

/// A function once needed stays among the functions.
proof fn lemma_with_outputs(
    ufs: Seq<Uf>,
    component: Seq<char>,
    arity: nat,
    outputs: Seq<(Seq<char>, Seq<char>)>,
    n: nat,
)
    requires
        n <= outputs.len(),
    ensures
        with_outputs(ufs, component, arity, outputs, n).len() >= ufs.len(),
        forall|i: int|
            0 <= i < ufs.len() ==> #[trigger] with_outputs(ufs, component, arity, outputs, n)[i]
                == ufs[i],
        forall|i: int|
            ufs.len() <= i < with_outputs(ufs, component, arity, outputs, n).len() ==> {
                let u = #[trigger] with_outputs(ufs, component, arity, outputs, n)[i];
                u.component == component && u.arity == arity && exists|k: int|
                    0 <= k < n && (#[trigger] outputs[k]).0 == u.field
            },
        forall|k: int|
            0 <= k < n ==> has_uf(
                with_outputs(ufs, component, arity, outputs, n),
                component,
                (#[trigger] outputs[k]).0,
            ),
    decreases n,
{
    if n > 0 {
        lemma_with_outputs(ufs, component, arity, outputs, (n - 1) as nat);
        let before = with_outputs(ufs, component, arity, outputs, (n - 1) as nat);
        let now = with_outputs(ufs, component, arity, outputs, n);
        let field = outputs[n - 1].0;
        assert forall|f: Seq<char>| has_uf(before, component, f) implies has_uf(
            now,
            component,
            f,
        ) by {
            let i = choose|i: int|
                0 <= i < before.len() && stands_for(#[trigger] before[i], component, f);
            assert(stands_for(now[i], component, f));
        }
        if !has_uf(before, component, field) {
            assert(stands_for(now[before.len() as int], component, field));
        }
    }
}

/// Each function that is needed comes from a call with its arguments, and each call has
/// its functions.
proof fn lemma_functions(cs: Seq<ConstraintV>, n: nat)
    requires
        n <= cs.len(),
    ensures
        forall|i: int|
            0 <= i < functions(cs, n).len() ==> {
                let u = #[trigger] functions(cs, n)[i];
                exists|k: int| 0 <= k < n && needs(#[trigger] cs[k], u)
            },
        forall|k: int, j: int|
            0 <= k < n && cs[k] is Call && 0 <= j < cs[k]->outputs.len() ==> has_uf(
                functions(cs, n),
                cs[k]->component,
                #[trigger] cs[k]->outputs[j].0,
            ),
    decreases n,
{
    if n > 0 {
        lemma_functions(cs, (n - 1) as nat);
        let before = functions(cs, (n - 1) as nat);
        let now = functions(cs, n);
        match cs[n - 1] {
            ConstraintV::Call { component, args, outputs } => {
                lemma_with_outputs(before, component, args.len(), outputs, outputs.len());
                assert forall|i: int| 0 <= i < now.len() implies {
                    let u = #[trigger] now[i];
                    exists|k: int| 0 <= k < n && needs(#[trigger] cs[k], u)
                } by {
                    if i < before.len() {
                        let u = before[i];
                        let k = choose|k: int| 0 <= k < n - 1 && needs(#[trigger] cs[k], u);
                        assert(needs(cs[k], now[i]));
                    } else {
                        assert(needs(cs[n - 1], now[i]));
                    }
                }
                assert forall|k: int, j: int|
                    0 <= k < n && cs[k] is Call && 0 <= j < cs[k]->outputs.len() implies has_uf(
                    now,
                    cs[k]->component,
                    #[trigger] cs[k]->outputs[j].0,
                ) by {
                    if k < n - 1 {
                        let f = cs[k]->outputs[j].0;
                        let i = choose|i: int|
                            0 <= i < before.len() && stands_for(
                                #[trigger] before[i],
                                cs[k]->component,
                                f,
                            );
                        assert(stands_for(now[i], cs[k]->component, f));
                    }
                }
            },
            _ => {
                assert forall|i: int| 0 <= i < now.len() implies {
                    let u = #[trigger] now[i];
                    exists|k: int| 0 <= k < n && needs(#[trigger] cs[k], u)
                } by {
                    let k = choose|k: int| 0 <= k < n - 1 && needs(#[trigger] cs[k], before[i]);
                    assert(needs(cs[k], now[i]));
                }
            },
        }
    }
}

/// Whether a constraint is a call that gives a function its arguments.
spec fn needs(c: ConstraintV, u: Uf) -> bool {
    match c {
        ConstraintV::Call { component, args, outputs } => {
            &&& component == u.component
            &&& args.len() == u.arity
            &&& exists|k: int| 0 <= k < outputs.len() && (#[trigger] outputs[k]).0 == u.field
        },
        _ => false,
    }
}

/// The function of a field that a call has as an output takes its arguments.
proof fn lemma_arity(cs: Seq<ConstraintV>, k: int, j: int, i: int)
    requires
        askable(cs),
        0 <= k < cs.len(),
        cs[k] is Call,
        0 <= j < cs[k]->outputs.len(),
        0 <= i < functions(cs, cs.len()).len(),
        stands_for(functions(cs, cs.len())[i], cs[k]->component, cs[k]->outputs[j].0),
    ensures
        functions(cs, cs.len())[i].arity == cs[k]->args.len(),
{
    lemma_functions(cs, cs.len());
    let u = functions(cs, cs.len())[i];
    let m = choose|m: int| 0 <= m < cs.len() && needs(#[trigger] cs[m], u);
    assert(calls_agree(cs[m], cs[k]));
    let q = choose|q: int| 0 <= q < cs[m]->outputs.len() && (#[trigger] cs[m]->outputs[q]).0
        == u.field;
    assert(cs[m]->outputs[q].0 == cs[k]->outputs[j].0);
}

/// Expressions in one of the runs.
fn build_exprs<'st>(
    args: &Vec<IrExpr>,
    v: &Vec<(String, Int<'st>)>,
    st: &'st Storage,
    steps: &mut Vec<Step<'st>>,
    Ghost(vs): Ghost<Seq<VarV>>,
    side: Side,
    Ghost(said): Ghost<Seq<StepV<IntFormula>>>,
) -> (r: Vec<Int<'st>>)
    requires
        holds_vars(v@, vs, side),
        forall|i: int| 0 <= i < args@.len() ==> word_sized(#[trigger] ir_exprs(args@)[i]),
        all_say(old(steps)@, said, int_formula_texts()),
    ensures
        r@.len() == args@.len(),
        int_texts(r@) == term_texts(int_exprs(ir_exprs(args@), vs, side)),
        all_say(
            final(steps)@,
            said + args_warnings(ir_exprs(args@), vs, args@.len()),
            int_formula_texts(),
        ),
{
    let ghost all = ir_exprs(args@);
    let mut out: Vec<Int<'st>> = Vec::new();
    let mut i: usize = 0;
    assert(said + args_warnings(all, vs, 0) =~= said);
    while i < args.len()
        invariant
            i <= args.len(),
            all == ir_exprs(args@),
            holds_vars(v@, vs, side),
            forall|j: int| 0 <= j < args@.len() ==> word_sized(#[trigger] all[j]),
            out@.len() == i,
            forall|j: int|
                0 <= j < i ==> int_text(#[trigger] out@[j]) == term_text(
                    int_expr(all[j], vs, side),
                ),
            all_say(steps@, said + args_warnings(all, vs, i as nat), int_formula_texts()),
        decreases args.len() - i,
    {
        let ghost now = said + args_warnings(all, vs, i as nat);
        assert(all[i as int] == args@[i as int]@);
        let t = build_expr(&args[i], v, st, steps, Ghost(vs), side, Ghost(now));
        out.push(t);
        i += 1;
        assert(said + args_warnings(all, vs, i as nat) =~= now + warnings(
            unknowns(all[i - 1], vs),
        ));
    }
    assert(int_texts(out@) =~= term_texts(int_exprs(all, vs, side)));
    out
}

/// Appends the outputs of a call: each equals its function of the arguments.
fn add_outputs<'st>(
    component: &str,
    args: &Vec<Int<'st>>,
    outputs: &Vec<(String, String)>,
    v: &Vec<(String, Int<'st>)>,
    functions: &Vec<Function<'st>>,
    steps: &mut Vec<Step<'st>>,
    Ghost(ufs): Ghost<Seq<Uf>>,
    Ghost(terms): Ghost<Seq<IntTerm>>,
    Ghost(vs): Ghost<Seq<VarV>>,
    side: Side,
    Ghost(said): Ghost<Seq<StepV<IntFormula>>>,
) -> (r: Result<(), String>)
    requires
        holds_vars(v@, vs, side),
        holds_functions(functions@, ufs),
        int_texts(args@) == term_texts(terms),
        forall|j: int|
            0 <= j < outputs@.len() ==> has_uf(
                ufs,
                component@,
                (#[trigger] pairs(outputs@)[j]).0,
            ),
        forall|i: int, j: int|
            0 <= i < ufs.len() && 0 <= j < outputs@.len() && stands_for(
                #[trigger] ufs[i],
                component@,
                (#[trigger] pairs(outputs@)[j]).0,
            ) ==> ufs[i].arity == args@.len(),
        all_say(old(steps)@, said, int_formula_texts()),
    ensures
        ({
            let p = int_outputs(
                PlanV { steps: said, stop: None },
                component@,
                terms,
                pairs(outputs@),
                vs,
                side,
                0,
            );
            &&& all_say(final(steps)@, p.steps, int_formula_texts())
            &&& match p.stop {
                Some(m) => r is Err && r->Err_0@ == m,
                None => r is Ok,
            }
        }),
{
    let ghost outs = pairs(outputs@);
    let ghost mut p: PlanV<IntFormula> = PlanV { steps: said, stop: None };
    let mut i: usize = 0;
    while i < outputs.len()
        invariant
            i <= outputs.len(),
            outs == pairs(outputs@),
            holds_vars(v@, vs, side),
            holds_functions(functions@, ufs),
            int_texts(args@) == term_texts(terms),
            forall|j: int|
                0 <= j < outputs@.len() ==> has_uf(ufs, component@, (#[trigger] outs[j]).0),
            forall|i: int, j: int|
                0 <= i < ufs.len() && 0 <= j < outputs@.len() && stands_for(
                    #[trigger] ufs[i],
                    component@,
                    (#[trigger] outs[j]).0,
                ) ==> ufs[i].arity == args@.len(),
            p.stop is None,
            all_say(steps@, p.steps, int_formula_texts()),
            int_outputs(
                PlanV { steps: said, stop: None },
                component@,
                terms,
                outs,
                vs,
                side,
                0,
            ) == int_outputs(p, component@, terms, outs, vs, side, i as int),
        decreases outputs.len() - i,
    {
        let field = &outputs[i].0;
        let name = &outputs[i].1;
        assert(outs[i as int] == (field@, name@));
        match function_of(functions, component, field, Ghost(ufs)) {
            Some(k) => {
                assert(functions@[k as int].component@ == ufs[k as int].component);
                let f = &functions[k].function;
                proof {
                    assert(stands_for(ufs[k as int], component@, outs[i as int].0));
                    assert(fun_parts(*f)[0] == symbol(component@, field@));
                }
                match int_call(f, args) {
                    Ok(t) => {
                        match variable(v, name, Ghost(vs), side) {
                            Some(x) => {
                                let ghost before = steps@;
                                push_assert(steps, "UF eq", int_eq(x, t));
                                proof {
                                    let w = assertion(
                                        "UF eq"@,
                                        IntFormula::Equal(
                                            int_var(name@, side),
                                            IntTerm::Call(symbol(component@, field@), terms),
                                        ),
                                    );
                                    reveal_with_fuel(term_text, 2);
                                    lemma_push_says(
                                        before,
                                        steps@,
                                        p.steps,
                                        w,
                                        int_formula_texts(),
                                    );
                                    p = PlanV { steps: p.steps.push(w), stop: None };
                                }
                            },
                            None => {
                                return Err(cat3("output var '", name, "' not found"));
                            },
                        }
                    },
                    Err(_) => {},
                }
            },
            None => {},
        }
        i += 1;
    }
    Ok(())
}

/// Appends a constraint in one of the runs.
fn add_constraint<'st>(
    c: &IrConstraint,
    v: &Vec<(String, Int<'st>)>,
    st: &'st Storage,
    functions: &Vec<Function<'st>>,
    steps: &mut Vec<Step<'st>>,
    Ghost(cs): Ghost<Seq<ConstraintV>>,
    Ghost(at): Ghost<int>,
    Ghost(vs): Ghost<Seq<VarV>>,
    side: Side,
    Ghost(said): Ghost<Seq<StepV<IntFormula>>>,
) -> (r: Result<(), String>)
    requires
        holds_vars(v@, vs, side),
        askable(cs),
        0 <= at < cs.len(),
        cs[at] == c@,
        holds_functions(functions@, self::functions(cs, cs.len())),
        all_say(old(steps)@, said, int_formula_texts()),
    ensures
        all_say(
            final(steps)@,
            int_constraint(said, c@, vs, side).steps,
            int_formula_texts(),
        ),
        match int_constraint(said, c@, vs, side).stop {
            Some(m) => r is Err && r->Err_0@ == m,
            None => r is Ok,
        },
{
    assert(word_sized_constraint(cs[at]));
    match c {
        IrConstraint::Eq { lhs, rhs, tag: _ } => {
            let l = build_expr(lhs, v, st, steps, Ghost(vs), side, Ghost(said));
            let ghost mid = said + warnings(unknowns(lhs@, vs));
            let r = build_expr(rhs, v, st, steps, Ghost(vs), side, Ghost(mid));
            let ghost now = mid + warnings(unknowns(rhs@, vs));
            let ghost before = steps@;
            push_assert(steps, "eq", int_eq(l, r));
            proof {
                let w = assertion(
                    "eq"@,
                    IntFormula::Equal(int_expr(lhs@, vs, side), int_expr(rhs@, vs, side)),
                );
                lemma_push_says(before, steps@, now, w, int_formula_texts());
            }
            Ok(())
        },
        IrConstraint::IsZero { result, expr } => {
            let r = match variable(v, result, Ghost(vs), side) {
                Some(r) => r,
                None => {
                    return Err(cat3("IsZero var '", result, "' not found"));
                },
            };
            let e = build_expr(expr, v, st, steps, Ghost(vs), side, Ghost(said));
            let ghost now = said + warnings(unknowns(expr@, vs));
            let ghost before = steps@;
            let zero = int_number(st, 0);
            let one = int_number(st, 1);
            let formula = bool_or(
                bool_and(int_eq(e, zero), int_eq(r, one)),
                bool_and(int_neq(e, zero), int_eq(r, zero)),
            );
            push_assert(steps, "iszero", formula);
            proof {
                reveal_with_fuel(formula_text, 3);
                let f = int_is_zero(int_expr(expr@, vs, side), int_var(result@, side));
                assert(bool_text(formula) == formula_text(f));
                let w = assertion("iszero"@, f);
                lemma_push_says(before, steps@, now, w, int_formula_texts());
            }
            Ok(())
        },
        IrConstraint::Call { component, args, outputs } => {
            let ghost ufs = self::functions(cs, cs.len());
            let ghost all = ir_exprs(args@);
            let built = build_exprs(args, v, st, steps, Ghost(vs), side, Ghost(said));
            let ghost now = said + args_warnings(all, vs, all.len());
            proof {
                lemma_functions(cs, cs.len());
                assert forall|i: int, j: int|
                    0 <= i < ufs.len() && 0 <= j < outputs@.len() && stands_for(
                        #[trigger] ufs[i],
                        component@,
                        (#[trigger] pairs(outputs@)[j]).0,
                    ) implies ufs[i].arity == built@.len() by {
                    lemma_arity(cs, at, j, i);
                }
                assert forall|j: int| 0 <= j < outputs@.len() implies has_uf(
                    ufs,
                    component@,
                    (#[trigger] pairs(outputs@)[j]).0,
                ) by {
                    assert(cs[at]->outputs[j].0 == pairs(outputs@)[j].0);
                }
            }
            add_outputs(
                component,
                &built,
                outputs,
                v,
                functions,
                steps,
                Ghost(ufs),
                Ghost(int_exprs(all, vs, side)),
                Ghost(vs),
                side,
                Ghost(now),
            )
        },
    }
}

/// The formula that a variable lies in its range.
fn range<'st>(x: Int<'st>, v: &Var, st: &'st Storage, side: Side) -> (r: Bool<'st>)
    requires
        int_text(x) == term_text(int_var(v@.name, side)),
    ensures
        bool_text(r) == formula_text(int_range(v@, side)),
{
    let (min, max) = v.vtype.range();
    proof {
        reveal_with_fuel(formula_text, 2);
    }
    bool_and(int_ge(x, int_number(st, min)), int_le(x, int_number(st, max)))
}

/// Appends that the variables lie in their ranges, in both runs.
fn add_ranges<'st>(
    spec: &InstructionSpec,
    v1: &Vec<(String, Int<'st>)>,
    v2: &Vec<(String, Int<'st>)>,
    st: &'st Storage,
    steps: &mut Vec<Step<'st>>,
)
    requires
        old(steps)@.len() == 0,
        holds_vars(v1@, spec@.all_vars(), Side::First),
        holds_vars(v2@, spec@.all_vars(), Side::Second),
    ensures
        all_say(
            final(steps)@,
            int_ranges(spec@.all_vars(), spec@.all_vars().len()),
            int_formula_texts(),
        ),
{
    let all = all_variables(spec);
    let ghost vs = spec@.all_vars();
    let mut i: usize = 0;
    while i < all.len()
        invariant
            i <= all.len(),
            vs == spec@.all_vars(),
            all@.len() == vs.len(),
            forall|j: int| 0 <= j < all@.len() ==> (#[trigger] all@[j])@ == vs[j],
            holds_vars(v1@, vs, Side::First),
            holds_vars(v2@, vs, Side::Second),
            all_say(steps@, int_ranges(vs, i as nat), int_formula_texts()),
        decreases all.len() - i,
    {
        let v: &Var = all[i];
        let ghost said = int_ranges(vs, i as nat);
        let ghost w1 = assertion("range"@, int_range(vs[i as int], Side::First));
        let ghost w2 = assertion("range"@, int_range(vs[i as int], Side::Second));
        proof {
            assert(v@ == vs[i as int]);
            assert(v1@[i as int].0@ == vs[i as int].name);
            assert(v2@[i as int].0@ == vs[i as int].name);
        }
        let ghost before = steps@;
        push_assert(steps, "range", range(v1[i].1, v, st, Side::First));
        proof {
            lemma_push_says(before, steps@, said, w1, int_formula_texts());
        }
        let ghost before = steps@;
        push_assert(steps, "range", range(v2[i].1, v, st, Side::Second));
        proof {
            lemma_push_says(before, steps@, said.push(w1), w2, int_formula_texts());
        }
        i += 1;
    }
}

/// Appends that the inputs are the same in both runs.
fn add_same_inputs<'st>(
    spec: &InstructionSpec,
    v1: &Vec<(String, Int<'st>)>,
    v2: &Vec<(String, Int<'st>)>,
    steps: &mut Vec<Step<'st>>,
    Ghost(said): Ghost<Seq<StepV<IntFormula>>>,
)
    requires
        holds_vars(v1@, spec@.all_vars(), Side::First),
        holds_vars(v2@, spec@.all_vars(), Side::Second),
        all_say(old(steps)@, said, int_formula_texts()),
    ensures
        all_say(
            final(steps)@,
            said + int_same_inputs(spec@.inputs, spec@.inputs.len()),
            int_formula_texts(),
        ),
{
    let ghost vs = spec@.all_vars();
    let mut i: usize = 0;
    assert(said + int_same_inputs(spec@.inputs, 0) =~= said);
    while i < spec.inputs.len()
        invariant
            i <= spec.inputs.len(),
            vs == spec@.all_vars(),
            holds_vars(v1@, vs, Side::First),
            holds_vars(v2@, vs, Side::Second),
            all_say(
                steps@,
                said + int_same_inputs(spec@.inputs, i as nat),
                int_formula_texts(),
            ),
        decreases spec.inputs.len() - i,
    {
        let ghost now = said + int_same_inputs(spec@.inputs, i as nat);
        let ghost before = steps@;
        proof {
            assert(vs[i as int] == spec@.inputs[i as int]);
            assert(v1@[i as int].0@ == vs[i as int].name);
            assert(v2@[i as int].0@ == vs[i as int].name);
        }
        push_assert(steps, "eq", int_eq(v1[i].1, v2[i].1));
        proof {
            let x = vs[i as int].name;
            let w = assertion(
                "eq"@,
                IntFormula::Equal(int_var(x, Side::First), int_var(x, Side::Second)),
            );
            lemma_push_says(before, steps@, now, w, int_formula_texts());
            assert(said + int_same_inputs(spec@.inputs, (i + 1) as nat) =~= now.push(w));
        }
        i += 1;
    }
}

/// Appends the declarations of functions.
fn add_declarations<'st>(
    functions: &Vec<Function<'st>>,
    st: &'st Storage,
    steps: &mut Vec<Step<'st>>,
    Ghost(ufs): Ghost<Seq<Uf>>,
    Ghost(said): Ghost<Seq<StepV<IntFormula>>>,
)
    requires
        holds_functions(functions@, ufs),
        all_say(old(steps)@, said, int_formula_texts()),
    ensures
        all_say(final(steps)@, said + int_declarations(ufs), int_formula_texts()),
{
    let mut i: usize = 0;
    assert(said + int_declarations(ufs.take(0)) =~= said);
    while i < functions.len()
        invariant
            i <= functions.len(),
            holds_functions(functions@, ufs),
            all_say(steps@, said + int_declarations(ufs.take(i as int)), int_formula_texts()),
        decreases functions.len() - i,
    {
        let ghost now = said + int_declarations(ufs.take(i as int));
        let ghost before = steps@;
        assert(functions@[i as int].component@ == ufs[i as int].component);
        let f = &functions[i];
        steps.push(
            Step::Declare {
                label: "declare_fun".to_owned(),
                function: int_function(st, cat3(&f.component, "__", &f.field), f.arity),
            },
        );
        proof {
            let w = int_declaration(ufs[i as int]);
            assert(steps@.drop_last() =~= before);
            lemma_push_says(before, steps@, now, w, int_formula_texts());
            assert(said + int_declarations(ufs.take(i + 1)) =~= now.push(w));
        }
        i += 1;
    }
    assert(ufs.take(i as int) =~= ufs);
}

/// The formula that one of the outputs differs between the runs.
fn difference<'st>(
    spec: &InstructionSpec,
    v1: &Vec<(String, Int<'st>)>,
    v2: &Vec<(String, Int<'st>)>,
) -> (r: Bool<'st>)
    requires
        spec@.outputs.len() > 0,
        holds_vars(v1@, spec@.all_vars(), Side::First),
        holds_vars(v2@, spec@.all_vars(), Side::Second),
    ensures
        bool_text(r) == formula_text(int_differ(spec@.outputs, spec@.outputs.len())),
{
    let ghost vs = spec@.all_vars();
    let base = spec.inputs.len();
    proof {
        assert(vs[base as int] == spec@.outputs[0]);
        assert(v1@[base as int].0@ == vs[base as int].name);
        assert(v2@[base as int].0@ == vs[base as int].name);
    }
    let mut d = int_neq(v1[base].1, v2[base].1);
    let mut i: usize = 1;
    while i < spec.outputs.len()
        invariant
            1 <= i <= spec.outputs.len(),
            base == spec@.inputs.len(),
            vs == spec@.all_vars(),
            holds_vars(v1@, vs, Side::First),
            holds_vars(v2@, vs, Side::Second),
            bool_text(d) == formula_text(int_differ(spec@.outputs, i as nat)),
        decreases spec.outputs.len() - i,
    {
        proof {
            assert(v1@.len() == vs.len());
            assert(vs[base + i] == spec@.outputs[i as int]);
            assert(v1@[base + i].0@ == vs[base + i].name);
            assert(v2@[base + i].0@ == vs[base + i].name);
            reveal_with_fuel(formula_text, 2);
        }
        assert(base + i < v1.len());
        d = bool_or(d, int_neq(v1[base + i].1, v2[base + i].1));
        i += 1;
    }
    d
}

/// What to ask a solver: whether two runs with the same inputs can have different
/// outputs.
pub fn plan<'st>(spec: &InstructionSpec, st: &'st Storage) -> (r: Plan<'st>)
    requires
        askable(spec@.constraints),
    ensures
        plan_says(r, int_plan(spec@), int_formula_texts()),
{
    let mut steps: Vec<Step<'st>> = Vec::new();
    if spec.outputs.len() == 0 {
        return Plan { steps, stop: Some("No outputs to check".to_owned()) };
    }
    let ghost vs = spec@.all_vars();
    let ghost cs = spec@.constraints;
    let v1 = variables(spec, st, Side::First);
    let v2 = variables(spec, st, Side::Second);
    add_ranges(spec, &v1, &v2, st, &mut steps);
    let ghost ranges = int_ranges(vs, vs.len());
    add_same_inputs(spec, &v1, &v2, &mut steps, Ghost(ranges));
    let ghost inputs = ranges + int_same_inputs(spec@.inputs, spec@.inputs.len());
    let needed = all_functions(spec, st);
    let ghost ufs = functions(cs, cs.len());
    add_declarations(&needed, st, &mut steps, Ghost(ufs), Ghost(inputs));
    let ghost start = int_start(spec@);
    let ghost mut p: PlanV<IntFormula> = start;
    let mut i: usize = 0;
    while i < spec.constraints.len()
        invariant
            i <= spec.constraints.len(),
            spec@.outputs.len() > 0,
            vs == spec@.all_vars(),
            cs == spec@.constraints,
            askable(cs),
            start == int_start(spec@),
            holds_vars(v1@, vs, Side::First),
            holds_vars(v2@, vs, Side::Second),
            holds_functions(needed@, functions(cs, cs.len())),
            p.stop is None,
            all_say(steps@, p.steps, int_formula_texts()),
            int_constraints(start, cs, vs, 0) == int_constraints(p, cs, vs, i as int),
        decreases spec.constraints.len() - i,
    {
        assert(cs[i as int] == spec.constraints@[i as int]@);
        let ghost p1 = int_constraint(p.steps, cs[i as int], vs, Side::First);
        let ghost p2 = int_both(p.steps, cs[i as int], vs);
        match add_constraint(
            &spec.constraints[i],
            &v1,
            st,
            &needed,
            &mut steps,
            Ghost(cs),
            Ghost(i as int),
            Ghost(vs),
            Side::First,
            Ghost(p.steps),
        ) {
            Ok(()) => {},
            Err(m) => {
                assert(int_constraints(p2, cs, vs, i + 1) == p1);
                return Plan { steps, stop: Some(m) };
            },
        }
        match add_constraint(
            &spec.constraints[i],
            &v2,
            st,
            &needed,
            &mut steps,
            Ghost(cs),
            Ghost(i as int),
            Ghost(vs),
            Side::Second,
            Ghost(p1.steps),
        ) {
            Ok(()) => {},
            Err(m) => {
                assert(int_constraints(p2, cs, vs, i + 1) == p2);
                return Plan { steps, stop: Some(m) };
            },
        }
        proof {
            p = p2;
        }
        i += 1;
    }
    let ghost before = steps@;
    push_assert(&mut steps, "diff", difference(spec, &v1, &v2));
    proof {
        let w = assertion("diff"@, int_differ(spec@.outputs, spec@.outputs.len()));
        lemma_push_says(before, steps@, p.steps, w, int_formula_texts());
        assert(p.steps + seq![w] =~= p.steps.push(w));
    }
    Plan { steps, stop: None }
}

/// Whether an instruction is deterministic, by the answer of a solver to the plan, or
/// the error in its place.
pub fn verify_determinism(
    spec: &InstructionSpec,
    answer: Result<Answer, String>,
    time_ms: u128,
) -> (r: VerifyResult)
    requires
        spec@.all_vars().len() <= usize::MAX,
    ensures
        tells(r, spec@, verdict(spec@.outputs.len(), text_of(answer)), time_ms),
{
    report(spec, judge(spec, answer), time_ms)
}

} // verus!
