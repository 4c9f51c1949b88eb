//! The question whether an instruction is deterministic, over 32-bit words.
//!
//! All values fit into 32 bits: a bit, two bits, 16 bits, and elements of the field of
//! 2013265921 elements. A solver that works on the bits of words decides well whether
//! a number has been taken apart into bits in one way only.

use smtlib::{BitVec, Bool, Storage};
use vstd::prelude::*;
use crate::ir::value::{find, keys, lemma_place};
use crate::ir::{
    max_value, ConstraintV, InstructionSpec, IrConstraint, IrExpr, IrExprV, SpecV, Var, VarV,
};
use crate::model::{
    all_variables, declared, instance, instance_of, unknown_text, unknown_warning, unknowns, Side,
};
use crate::smt::{
    all_say, app1, app2, assertion, bool_and, bool_or, bool_text, bv_add, bv_const, bv_div, bv_eq,
    bv_mul, bv_neg, bv_neq, bv_number, bv_text, bv_ule, const_text, followed_by, lemma_push_says,
    lemma_warnings, plan_says, push_assert, warnings, word_text, Answer, Plan, PlanV, Step, StepV,
};
use crate::text::cat3;

verus! {

/// The outcome of a check.
#[derive(Debug)]
pub struct VerifyResult {
    pub name: String,
    pub deterministic: Option<bool>,
    pub time_ms: u128,
    pub error: Option<String>,
    pub num_vars: usize,
    pub num_constraints: usize,
}

// ---------------------------------------------------------------------------
// Terms and formulas
// ---------------------------------------------------------------------------

/// A term over 32-bit words.
pub enum BvTerm {
    Var(Seq<char>),
    /// The low 32 bits of an integer.
    Number(int),
    Add(Box<BvTerm>, Box<BvTerm>),
    Neg(Box<BvTerm>),
    Mul(Box<BvTerm>, Box<BvTerm>),
    Div(Box<BvTerm>, Box<BvTerm>),
}

/// A formula over 32-bit words.
pub enum BvFormula {
    AtMost(BvTerm, BvTerm),
    Equal(BvTerm, BvTerm),
    Distinct(BvTerm, BvTerm),
    And(Box<BvFormula>, Box<BvFormula>),
    Or(Box<BvFormula>, Box<BvFormula>),
}

/// The text of a term.
pub open spec fn term_text(t: BvTerm) -> Seq<char>
    decreases t,
{
    match t {
        BvTerm::Var(x) => const_text(x, "(_ BitVec 32)"@),
        BvTerm::Number(n) => word_text(n),
        BvTerm::Add(a, b) => app2("bvadd"@, term_text(*a), term_text(*b)),
        BvTerm::Neg(a) => app1("bvneg"@, term_text(*a)),
        BvTerm::Mul(a, b) => app2("bvmul"@, term_text(*a), term_text(*b)),
        BvTerm::Div(a, b) => app2("bvudiv"@, term_text(*a), term_text(*b)),
    }
}

/// The text of a formula.
pub open spec fn formula_text(f: BvFormula) -> Seq<char>
    decreases f,
{
    match f {
        BvFormula::AtMost(a, b) => app2("bvule"@, term_text(a), term_text(b)),
        BvFormula::Equal(a, b) => app2("="@, term_text(a), term_text(b)),
        BvFormula::Distinct(a, b) => app2("distinct"@, term_text(a), term_text(b)),
        BvFormula::And(a, b) => app2("and"@, formula_text(*a), formula_text(*b)),
        BvFormula::Or(a, b) => app2("or"@, formula_text(*a), formula_text(*b)),
    }
}

/// A variable in one of the runs.
pub open spec fn bv_var(x: Seq<char>, side: Side) -> BvTerm {
    BvTerm::Var(instance(x, side))
}

/// An expression in one of the runs; a variable that is not known counts as 0.
pub open spec fn bv_expr(e: IrExprV, vs: Seq<VarV>, side: Side) -> BvTerm
    decreases e,
{
    match e {
        IrExprV::Const(n) => BvTerm::Number(n as int),
        IrExprV::Var(x) => if declared(vs, x) {
            bv_var(x, side)
        } else {
            BvTerm::Number(0)
        },
        IrExprV::Add(a, b) => BvTerm::Add(
            Box::new(bv_expr(*a, vs, side)),
            Box::new(bv_expr(*b, vs, side)),
        ),
        IrExprV::Sub(a, b) => BvTerm::Add(
            Box::new(bv_expr(*a, vs, side)),
            Box::new(BvTerm::Neg(Box::new(bv_expr(*b, vs, side)))),
        ),
        IrExprV::Mul(a, b) => BvTerm::Mul(
            Box::new(bv_expr(*a, vs, side)),
            Box::new(bv_expr(*b, vs, side)),
        ),
        IrExprV::Div(a, b) => BvTerm::Div(
            Box::new(bv_expr(*a, vs, side)),
            Box::new(bv_expr(*b, vs, side)),
        ),
    }
}

/// `r` is 1 where `e` is 0, and 0 elsewhere.
pub open spec fn bv_is_zero(e: BvTerm, r: BvTerm) -> BvFormula {
    let zero = BvTerm::Number(0);
    let one = BvTerm::Number(1);
    BvFormula::Or(
        Box::new(
            BvFormula::And(
                Box::new(BvFormula::Equal(e, zero)),
                Box::new(BvFormula::Equal(r, one)),
            ),
        ),
        Box::new(
            BvFormula::And(
                Box::new(BvFormula::Distinct(e, zero)),
                Box::new(BvFormula::Equal(r, zero)),
            ),
        ),
    )
}

// ---------------------------------------------------------------------------
// The plan
// ---------------------------------------------------------------------------

/// The variables lie in their ranges, in both runs: the first `n` of them.
pub open spec fn bv_ranges(vs: Seq<VarV>, n: nat) -> Seq<StepV<BvFormula>>
    decreases n,
{
    if n == 0 || n > vs.len() {
        Seq::empty()
    } else {
        let v = vs[n - 1];
        let max = BvTerm::Number(max_value(v.vtype));
        bv_ranges(vs, (n - 1) as nat).push(
            assertion("range"@, BvFormula::AtMost(bv_var(v.name, Side::First), max)),
        ).push(assertion("range"@, BvFormula::AtMost(bv_var(v.name, Side::Second), max)))
    }
}

/// The first `n` inputs are the same in both runs.
pub open spec fn bv_same_inputs(vs: Seq<VarV>, n: nat) -> Seq<StepV<BvFormula>>
    decreases n,
{
    if n == 0 || n > vs.len() {
        Seq::empty()
    } else {
        let x = vs[n - 1].name;
        bv_same_inputs(vs, (n - 1) as nat).push(
            assertion("eq"@, BvFormula::Equal(bv_var(x, Side::First), bv_var(x, Side::Second))),
        )
    }
}

/// A constraint in one of the runs.
pub open spec fn bv_constraint(c: ConstraintV, vs: Seq<VarV>, side: Side) -> PlanV<BvFormula> {
    match c {
        ConstraintV::Eq { lhs, rhs, .. } => PlanV {
            steps: (warnings(unknowns(lhs, vs)) + warnings(unknowns(rhs, vs))).push(
                assertion(
                    "eq"@,
                    BvFormula::Equal(bv_expr(lhs, vs, side), bv_expr(rhs, vs, side)),
                ),
            ),
            stop: None,
        },
        ConstraintV::IsZero { result, expr } => if declared(vs, result) {
            PlanV {
                steps: warnings(unknowns(expr, vs)).push(
                    assertion("iszero"@, bv_is_zero(bv_expr(expr, vs, side), bv_var(result, side))),
                ),
                stop: None,
            }
        } else {
            PlanV {
                steps: Seq::empty(),
                stop: Some("IsZero var '"@ + result + "' not found"@),
            }
        },
        ConstraintV::Call { .. } => PlanV {
            steps: Seq::empty(),
            stop: Some("Call constraint not supported in BV verifier (use verify-int)"@),
        },
    }
}

/// The constraints from `i` on in both runs, after `p`.
pub open spec fn bv_constraints(
    p: PlanV<BvFormula>,
    cs: Seq<ConstraintV>,
    vs: Seq<VarV>,
    i: int,
) -> PlanV<BvFormula>
    decreases cs.len() - i,
{
    if 0 <= i < cs.len() && p.stop is None {
        bv_constraints(
            followed_by(
                followed_by(p, bv_constraint(cs[i], vs, Side::First)),
                bv_constraint(cs[i], vs, Side::Second),
            ),
            cs,
            vs,
            i + 1,
        )
    } else {
        p
    }
}

/// One of the first `n` outputs differs between the runs.
pub open spec fn bv_differ(vs: Seq<VarV>, n: nat) -> BvFormula
    recommends
        0 < n <= vs.len(),
    decreases n,
{
    let x = vs[n - 1].name;
    let d = BvFormula::Distinct(bv_var(x, Side::First), bv_var(x, Side::Second));
    if n <= 1 {
        d
    } else {
        BvFormula::Or(Box::new(bv_differ(vs, (n - 1) as nat)), Box::new(d))
    }
}

/// What to ask a solver: whether two runs with the same inputs can have different
/// outputs.
pub open spec fn bv_plan(s: SpecV) -> PlanV<BvFormula> {
    if s.outputs.len() == 0 {
        PlanV { steps: Seq::empty(), stop: Some("No outputs to check"@) }
    } else {
        let vs = s.all_vars();
        let start = PlanV {
            steps: bv_ranges(vs, vs.len()) + bv_same_inputs(s.inputs, s.inputs.len()),
            stop: None,
        };
        followed_by(
            bv_constraints(start, s.constraints, vs, 0),
            PlanV {
                steps: seq![assertion("diff"@, bv_differ(s.outputs, s.outputs.len()))],
                stop: None,
            },
        )
    }
}

/// The text of a formula, as a function.
pub open spec fn bv_texts() -> spec_fn(BvFormula) -> Seq<char> {
    |f: BvFormula| formula_text(f)
}

// ---------------------------------------------------------------------------
// Building the plan
// ---------------------------------------------------------------------------

/// Whether `v` holds the variables `vs` in one of the runs.
spec fn holds_vars(v: Seq<(String, BitVec<32>)>, vs: Seq<VarV>, side: Side) -> bool {
    &&& v.len() == vs.len()
    &&& forall|i: int|
        0 <= i < v.len() ==> (#[trigger] v[i]).0@ == vs[i].name && bv_text(v[i].1) == term_text(
            bv_var(vs[i].name, side),
        )
}

/// The variables in one of the runs.
fn variables<'st>(spec: &InstructionSpec, st: &'st Storage, side: Side) -> (r: Vec<
    (String, BitVec<'st, 32>),
>)
    ensures
        holds_vars(r@, spec@.all_vars(), side),
{
    let all = all_variables(spec);
    let mut out: Vec<(String, BitVec<'st, 32>)> = Vec::new();
    let mut i: usize = 0;
    while i < all.len()
        invariant
            i <= all.len(),
            all@.len() == spec@.all_vars().len(),
            forall|j: int| 0 <= j < all@.len() ==> (#[trigger] all@[j])@ == spec@.all_vars()[j],
            holds_vars(out@, spec@.all_vars().take(i as int), side),
        decreases all.len() - i,
    {
        let v: &Var = all[i];
        assert(v@ == spec@.all_vars()[i as int]);
        out.push((v.name.clone(), bv_const(st, &instance_of(&v.name, side))));
        i += 1;
    }
    assert(spec@.all_vars().take(i as int) =~= spec@.all_vars());
    out
}

/// The variable of a name, where it is known.
fn variable<'st>(
    v: &Vec<(String, BitVec<'st, 32>)>,
    name: &str,
    Ghost(vs): Ghost<Seq<VarV>>,
    side: Side,
) -> (r: Option<BitVec<'st, 32>>)
    requires
        holds_vars(v@, vs, side),
    ensures
        r is Some <==> declared(vs, name@),
        r is Some ==> bv_text(r->Some_0) == term_text(bv_var(name@, side)),
{
    proof {
        lemma_place(keys(v@), name@, 0);
    }
    match find(v, name) {
        Some(i) => {
            assert(v@[i as int].0@ == vs[i as int].name);
            Some(v[i].1)
        },
        None => {
            assert forall|i: int| 0 <= i < vs.len() implies (#[trigger] vs[i]).name != name@ by {
                assert(v@[i].0@ == vs[i].name);
                assert(keys(v@)[i] == v@[i].0@);
            }
            None
        },
    }
}

/// An expression in one of the runs. Names that are not known are warned of.
fn build_expr<'st>(
    e: &IrExpr,
    v: &Vec<(String, BitVec<'st, 32>)>,
    st: &'st Storage,
    steps: &mut Vec<Step<'st>>,
    Ghost(vs): Ghost<Seq<VarV>>,
    side: Side,
    Ghost(said): Ghost<Seq<StepV<BvFormula>>>,
) -> (r: BitVec<'st, 32>)
    requires
        holds_vars(v@, vs, side),
        all_say(old(steps)@, said, bv_texts()),
    ensures
        bv_text(r) == term_text(bv_expr(e@, vs, side)),
        all_say(final(steps)@, said + warnings(unknowns(e@, vs)), bv_texts()),
    decreases e,
{
    match e {
        IrExpr::Const(n) => {
            assert(said + warnings(unknowns(e@, vs)) =~= said);
            bv_number(st, *n)
        },
        IrExpr::Var(x) => match variable(v, x, Ghost(vs), side) {
            Some(t) => {
                assert(said + warnings(unknowns(e@, vs)) =~= said);
                t
            },
            None => {
                steps.push(Step::Warn(unknown_warning(x)));
                assert(said + warnings(unknowns(e@, vs)) =~= said.push(
                    StepV::Warn(unknown_text(x@)),
                ));
                bv_number(st, 0)
            },
        },
        IrExpr::Add(a, b) => {
            let x = build_expr(a, v, st, steps, Ghost(vs), side, Ghost(said));
            let ghost mid = said + warnings(unknowns(a@, vs));
            let y = build_expr(b, v, st, steps, Ghost(vs), side, Ghost(mid));
            proof {
                lemma_warnings::<BvFormula>(unknowns(a@, vs), unknowns(b@, vs));
                assert(said + warnings(unknowns(e@, vs)) =~= mid + warnings(unknowns(b@, vs)));
            }
            bv_add(x, y)
        },
        IrExpr::Sub(a, b) => {
            let x = build_expr(a, v, st, steps, Ghost(vs), side, Ghost(said));
            let ghost mid = said + warnings(unknowns(a@, vs));
            let y = build_expr(b, v, st, steps, Ghost(vs), side, Ghost(mid));
            proof {
                lemma_warnings::<BvFormula>(unknowns(a@, vs), unknowns(b@, vs));
                assert(said + warnings(unknowns(e@, vs)) =~= mid + warnings(unknowns(b@, vs)));
                assert(term_text(BvTerm::Neg(Box::new(bv_expr(b@, vs, side)))) == app1(
                    "bvneg"@,
                    bv_text(y),
                ));
            }
            bv_add(x, bv_neg(y))
        },
        IrExpr::Mul(a, b) => {
            let x = build_expr(a, v, st, steps, Ghost(vs), side, Ghost(said));
            let ghost mid = said + warnings(unknowns(a@, vs));
            let y = build_expr(b, v, st, steps, Ghost(vs), side, Ghost(mid));
            proof {
                lemma_warnings::<BvFormula>(unknowns(a@, vs), unknowns(b@, vs));
                assert(said + warnings(unknowns(e@, vs)) =~= mid + warnings(unknowns(b@, vs)));
            }
            bv_mul(x, y)
        },
        IrExpr::Div(a, b) => {
            let x = build_expr(a, v, st, steps, Ghost(vs), side, Ghost(said));
            let ghost mid = said + warnings(unknowns(a@, vs));
            let y = build_expr(b, v, st, steps, Ghost(vs), side, Ghost(mid));
            proof {
                lemma_warnings::<BvFormula>(unknowns(a@, vs), unknowns(b@, vs));
                assert(said + warnings(unknowns(e@, vs)) =~= mid + warnings(unknowns(b@, vs)));
            }
            bv_div(x, y)
        },
    }
}

/// Appends a constraint in one of the runs.
fn add_constraint<'st>(
    c: &IrConstraint,
    v: &Vec<(String, BitVec<'st, 32>)>,
    st: &'st Storage,
    steps: &mut Vec<Step<'st>>,
    Ghost(vs): Ghost<Seq<VarV>>,
    side: Side,
    Ghost(said): Ghost<Seq<StepV<BvFormula>>>,
) -> (r: Result<(), String>)
    requires
        holds_vars(v@, vs, side),
        all_say(old(steps)@, said, bv_texts()),
    ensures
        all_say(final(steps)@, said + bv_constraint(c@, vs, side).steps, bv_texts()),
        match bv_constraint(c@, vs, side).stop {
            Some(m) => r is Err && r->Err_0@ == m,
            None => r is Ok,
        },
{
    match c {
        IrConstraint::Eq { lhs, rhs, tag: _ } => {
            let l = build_expr(lhs, v, st, steps, Ghost(vs), side, Ghost(said));
            let ghost mid = said + warnings(unknowns(lhs@, vs));
            let r = build_expr(rhs, v, st, steps, Ghost(vs), side, Ghost(mid));
            let ghost now = mid + warnings(unknowns(rhs@, vs));
            let ghost before = steps@;
            let formula = bv_eq(l, r);
            push_assert(steps, "eq", formula);
            proof {
                let w = assertion(
                    "eq"@,
                    BvFormula::Equal(bv_expr(lhs@, vs, side), bv_expr(rhs@, vs, side)),
                );
                lemma_push_says(before, steps@, now, w, bv_texts());
                assert(said + bv_constraint(c@, vs, side).steps =~= now.push(w));
            }
            Ok(())
        },
        IrConstraint::IsZero { result, expr } => {
            let r = match variable(v, result, Ghost(vs), side) {
                Some(r) => r,
                None => {
                    assert(said + bv_constraint(c@, vs, side).steps =~= said);
                    return Err(cat3("IsZero var '", result, "' not found"));
                },
            };
            let e = build_expr(expr, v, st, steps, Ghost(vs), side, Ghost(said));
            let ghost now = said + warnings(unknowns(expr@, vs));
            let ghost before = steps@;
            let zero = bv_number(st, 0);
            let one = bv_number(st, 1);
            let formula = bool_or(
                bool_and(bv_eq(e, zero), bv_eq(r, one)),
                bool_and(bv_neq(e, zero), bv_eq(r, zero)),
            );
            push_assert(steps, "iszero", formula);
            proof {
                reveal_with_fuel(formula_text, 3);
                let f = bv_is_zero(bv_expr(expr@, vs, side), bv_var(result@, side));
                assert(bool_text(formula) == formula_text(f));
                let w = assertion("iszero"@, f);
                lemma_push_says(before, steps@, now, w, bv_texts());
                assert(said + bv_constraint(c@, vs, side).steps =~= now.push(w));
            }
            Ok(())
        },
        IrConstraint::Call { .. } => {
            assert(said + bv_constraint(c@, vs, side).steps =~= said);
            Err("Call constraint not supported in BV verifier (use verify-int)".to_owned())
        },
    }
}

/// Appends that the variables lie in their ranges, in both runs.
fn add_ranges<'st>(
    spec: &InstructionSpec,
    v1: &Vec<(String, BitVec<'st, 32>)>,
    v2: &Vec<(String, BitVec<'st, 32>)>,
    st: &'st Storage,
    steps: &mut Vec<Step<'st>>,
)
    requires
        old(steps)@.len() == 0,
        holds_vars(v1@, spec@.all_vars(), Side::First),
        holds_vars(v2@, spec@.all_vars(), Side::Second),
    ensures
        all_say(
            final(steps)@,
            bv_ranges(spec@.all_vars(), spec@.all_vars().len()),
            bv_texts(),
        ),
{
    let all = all_variables(spec);
    let ghost vs = spec@.all_vars();
    let mut i: usize = 0;
    while i < all.len()
        invariant
            i <= all.len(),
            vs == spec@.all_vars(),
            all@.len() == vs.len(),
            forall|j: int| 0 <= j < all@.len() ==> (#[trigger] all@[j])@ == vs[j],
            holds_vars(v1@, vs, Side::First),
            holds_vars(v2@, vs, Side::Second),
            all_say(steps@, bv_ranges(vs, i as nat), bv_texts()),
        decreases all.len() - i,
    {
        let v: &Var = all[i];
        assert(v@ == vs[i as int]);
        let (_, max) = v.vtype.range();
        let limit = bv_number(st, max);
        let ghost said = bv_ranges(vs, i as nat);
        let ghost before = steps@;
        assert(v1@[i as int].0@ == vs[i as int].name);
        push_assert(steps, "range", bv_ule(v1[i].1, limit));
        let ghost w1 = assertion(
            "range"@,
            BvFormula::AtMost(
                bv_var(vs[i as int].name, Side::First),
                BvTerm::Number(max as int),
            ),
        );
        proof {
            lemma_push_says(before, steps@, said, w1, bv_texts());
        }
        let ghost before = steps@;
        assert(v2@[i as int].0@ == vs[i as int].name);
        push_assert(steps, "range", bv_ule(v2[i].1, limit));
        proof {
            let w2 = assertion(
                "range"@,
                BvFormula::AtMost(
                    bv_var(vs[i as int].name, Side::Second),
                    BvTerm::Number(max as int),
                ),
            );
            lemma_push_says(before, steps@, said.push(w1), w2, bv_texts());
        }
        i += 1;
    }
}

/// Appends that the inputs are the same in both runs.
fn add_same_inputs<'st>(
    spec: &InstructionSpec,
    v1: &Vec<(String, BitVec<'st, 32>)>,
    v2: &Vec<(String, BitVec<'st, 32>)>,
    steps: &mut Vec<Step<'st>>,
    Ghost(said): Ghost<Seq<StepV<BvFormula>>>,
)
    requires
        holds_vars(v1@, spec@.all_vars(), Side::First),
        holds_vars(v2@, spec@.all_vars(), Side::Second),
        all_say(old(steps)@, said, bv_texts()),
    ensures
        all_say(
            final(steps)@,
            said + bv_same_inputs(spec@.inputs, spec@.inputs.len()),
            bv_texts(),
        ),
{
    let ghost vs = spec@.all_vars();
    let mut i: usize = 0;
    assert(said + bv_same_inputs(spec@.inputs, 0) =~= said);
    while i < spec.inputs.len()
        invariant
            i <= spec.inputs.len(),
            vs == spec@.all_vars(),
            holds_vars(v1@, vs, Side::First),
            holds_vars(v2@, vs, Side::Second),
            all_say(steps@, said + bv_same_inputs(spec@.inputs, i as nat), bv_texts()),
        decreases spec.inputs.len() - i,
    {
        let ghost now = said + bv_same_inputs(spec@.inputs, i as nat);
        let ghost before = steps@;
        proof {
            assert(vs[i as int] == spec@.inputs[i as int]);
            assert(v1@[i as int].0@ == vs[i as int].name);
            assert(v2@[i as int].0@ == vs[i as int].name);
        }
        push_assert(steps, "eq", bv_eq(v1[i].1, v2[i].1));
        proof {
            let x = vs[i as int].name;
            let w = assertion(
                "eq"@,
                BvFormula::Equal(bv_var(x, Side::First), bv_var(x, Side::Second)),
            );
            lemma_push_says(before, steps@, now, w, bv_texts());
            assert(said + bv_same_inputs(spec@.inputs, (i + 1) as nat) =~= now.push(w));
        }
        i += 1;
    }
}

/// The formula that one of the outputs differs between the runs.
fn difference<'st>(
    spec: &InstructionSpec,
    v1: &Vec<(String, BitVec<'st, 32>)>,
    v2: &Vec<(String, BitVec<'st, 32>)>,
) -> (r: Bool<'st>)
    requires
        spec@.outputs.len() > 0,
        holds_vars(v1@, spec@.all_vars(), Side::First),
        holds_vars(v2@, spec@.all_vars(), Side::Second),
    ensures
        bool_text(r) == formula_text(bv_differ(spec@.outputs, spec@.outputs.len())),
{
    let ghost vs = spec@.all_vars();
    let base = spec.inputs.len();
    proof {
        assert(vs[base as int] == spec@.outputs[0]);
        assert(v1@[base as int].0@ == vs[base as int].name);
        assert(v2@[base as int].0@ == vs[base as int].name);
    }
    let mut d = bv_neq(v1[base].1, v2[base].1);
    let mut i: usize = 1;
    while i < spec.outputs.len()
        invariant
            1 <= i <= spec.outputs.len(),
            base == spec@.inputs.len(),
            vs == spec@.all_vars(),
            holds_vars(v1@, vs, Side::First),
            holds_vars(v2@, vs, Side::Second),
            bool_text(d) == formula_text(bv_differ(spec@.outputs, i as nat)),
        decreases spec.outputs.len() - i,
    {
        proof {
            assert(v1@.len() == vs.len());
            assert(vs[base + i] == spec@.outputs[i as int]);
            assert(v1@[base + i].0@ == vs[base + i].name);
            assert(v2@[base + i].0@ == vs[base + i].name);
            reveal_with_fuel(formula_text, 2);
        }
        assert(base + i < v1.len());
        d = bool_or(d, bv_neq(v1[base + i].1, v2[base + i].1));
        i += 1;
    }
    d
}

/// What to ask a solver: whether two runs with the same inputs can have different
/// outputs.
pub fn plan<'st>(spec: &InstructionSpec, st: &'st Storage) -> (r: Plan<'st>)
    ensures
        plan_says(r, bv_plan(spec@), bv_texts()),
{
    let mut steps: Vec<Step<'st>> = Vec::new();
    if spec.outputs.len() == 0 {
        return Plan { steps, stop: Some("No outputs to check".to_owned()) };
    }
    let ghost vs = spec@.all_vars();
    let v1 = variables(spec, st, Side::First);
    let v2 = variables(spec, st, Side::Second);
    add_ranges(spec, &v1, &v2, st, &mut steps);
    let ghost ranges = bv_ranges(vs, vs.len());
    add_same_inputs(spec, &v1, &v2, &mut steps, Ghost(ranges));
    let ghost start = PlanV {
        steps: ranges + bv_same_inputs(spec@.inputs, spec@.inputs.len()),
        stop: None,
    };
    let ghost mut p: PlanV<BvFormula> = start;
    let mut i: usize = 0;
    while i < spec.constraints.len()
        invariant
            i <= spec.constraints.len(),
            spec@.outputs.len() > 0,
            vs == spec@.all_vars(),
            start == (PlanV {
                steps: bv_ranges(vs, vs.len()) + bv_same_inputs(spec@.inputs, spec@.inputs.len()),
                stop: None,
            }),
            holds_vars(v1@, vs, Side::First),
            holds_vars(v2@, vs, Side::Second),
            p.stop is None,
            all_say(steps@, p.steps, bv_texts()),
            bv_constraints(start, spec@.constraints, vs, 0) == bv_constraints(
                p,
                spec@.constraints,
                vs,
                i as int,
            ),
        decreases spec.constraints.len() - i,
    {
        let ghost c = spec@.constraints[i as int];
        assert(c == spec.constraints@[i as int]@);
        let ghost p1 = followed_by(p, bv_constraint(c, vs, Side::First));
        let ghost p2 = followed_by(p1, bv_constraint(c, vs, Side::Second));
        match add_constraint(
            &spec.constraints[i],
            &v1,
            st,
            &mut steps,
            Ghost(vs),
            Side::First,
            Ghost(p.steps),
        ) {
            Ok(()) => {},
            Err(m) => {
                assert(p2 == p1);
                assert(bv_constraints(p2, spec@.constraints, vs, i + 1) == p1);
                return Plan { steps, stop: Some(m) };
            },
        }
        match add_constraint(
            &spec.constraints[i],
            &v2,
            st,
            &mut steps,
            Ghost(vs),
            Side::Second,
            Ghost(p1.steps),
        ) {
            Ok(()) => {},
            Err(m) => {
                assert(bv_constraints(p2, spec@.constraints, vs, i + 1) == p2);
                return Plan { steps, stop: Some(m) };
            },
        }
        proof {
            p = p2;
        }
        i += 1;
    }
    let ghost before = steps@;
    push_assert(&mut steps, "diff", difference(spec, &v1, &v2));
    proof {
        let w = assertion("diff"@, bv_differ(spec@.outputs, spec@.outputs.len()));
        lemma_push_says(before, steps@, p.steps, w, bv_texts());
        assert(p.steps + seq![w] =~= p.steps.push(w));
    }
    Plan { steps, stop: None }
}

// ---------------------------------------------------------------------------
// The result
// ---------------------------------------------------------------------------

/// What the answer of a solver, or the error in its place, tells of an instruction.
pub open spec fn verdict(outputs: nat, answer: Result<Answer, Seq<char>>) -> Result<bool, Seq<char>> {
    if outputs == 0 {
        Err("No outputs to check"@)
    } else {
        match answer {
            Ok(Answer::Unsat) => Ok(true),
            Ok(Answer::Sat) => Ok(false),
            Ok(Answer::Unknown) => Err("Unknown"@),
            Err(e) => Err(e),
        }
    }
}

/// Whether a result tells what was found of an instruction.
pub open spec fn tells(
    r: VerifyResult,
    s: SpecV,
    found: Result<bool, Seq<char>>,
    time_ms: u128,
) -> bool {
    &&& r.name@ == s.name
    &&& r.time_ms == time_ms
    &&& r.num_vars == s.all_vars().len()
    &&& r.num_constraints == s.constraints.len()
    &&& match found {
        Ok(d) => r.deterministic == Some(d) && r.error is None,
        Err(e) => r.deterministic is None && r.error is Some && r.error->Some_0@ == e,
    }
}

/// The result of a check of an instruction.
pub(crate) fn report(spec: &InstructionSpec, found: Result<bool, String>, time_ms: u128) -> (r:
    VerifyResult)
    requires
        spec@.all_vars().len() <= usize::MAX,
    ensures
        tells(r, spec@, text_of(found), time_ms),
{
    let (deterministic, error) = match found {
        Ok(d) => (Some(d), None),
        Err(e) => (None, Some(e)),
    };
    VerifyResult {
        name: spec.name.clone(),
        deterministic,
        time_ms,
        error,
        num_vars: spec.inputs.len() + spec.outputs.len() + spec.internals.len(),
        num_constraints: spec.constraints.len(),
    }
}

/// A result with the text of its error.
pub open spec fn text_of<T>(r: Result<T, String>) -> Result<T, Seq<char>> {
    match r {
        Ok(t) => Ok(t),
        Err(e) => Err(e@),
    }
}

/// What the answer of a solver, or the error in its place, tells of an instruction.
pub(crate) fn judge(spec: &InstructionSpec, answer: Result<Answer, String>) -> (r: Result<
    bool,
    String,
>)
    ensures
        text_of(r) == verdict(spec@.outputs.len(), text_of(answer)),
{
    if spec.outputs.len() == 0 {
        Err("No outputs to check".to_owned())
    } else {
        match answer {
            Ok(Answer::Unsat) => Ok(true),
            Ok(Answer::Sat) => Ok(false),
            Ok(Answer::Unknown) => Err("Unknown".to_owned()),
            Err(e) => Err(e),
        }
    }
}

/// Whether an instruction is deterministic, by the answer of a solver to the plan, or
/// the error in its place.
pub fn verify_determinism(
    spec: &InstructionSpec,
    answer: Result<Answer, String>,
    time_ms: u128,
) -> (r: VerifyResult)
    requires
        spec@.all_vars().len() <= usize::MAX,
    ensures
        tells(r, spec@, verdict(spec@.outputs.len(), text_of(answer)), time_ms),
{
    report(spec, judge(spec, answer), time_ms)
}

} // verus!
