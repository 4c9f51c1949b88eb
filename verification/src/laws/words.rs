//! What a solver's answer over 32-bit words means.

use vstd::arithmetic::div_mod::{lemma_add_mod_noop, lemma_mod_twice};
use vstd::prelude::*;
use crate::ir::{max_value, ConstraintV, IrExprV, SpecV, VarV};
use crate::laws::determinism::{
    agree_on, all_divisionless, deterministic, divisionless, divisionless_constraint, holds,
    in_ranges, is_counterexample, lemma_holds_agrees, lemma_merged, lemma_same_on_vars, merged,
    names_apart, results_known, same_values, side_values, value, Numbers,
};
use crate::model::{declared, instance, unknowns, Side};
use crate::smt::{assertion, followed_by, warnings, PlanV, StepV};
use crate::verifier_bv::{
    bv_constraint, bv_constraints, bv_differ, bv_expr, bv_is_zero, bv_plan, bv_ranges,
    bv_same_inputs, bv_var, BvFormula, BvTerm,
};

verus! {

/// How many words of 32 bits there are.
pub open spec fn words() -> int {
    0x1_0000_0000
}

/// The value of a term, by the values of its variables. A division has no value here.
pub open spec fn bv_value(m: spec_fn(Seq<char>) -> int, t: BvTerm) -> int
    decreases t,
{
    match t {
        BvTerm::Var(x) => m(x),
        BvTerm::Number(n) => n % words(),
        BvTerm::Add(a, b) => (bv_value(m, *a) + bv_value(m, *b)) % words(),
        BvTerm::Neg(a) => (-bv_value(m, *a)) % words(),
        BvTerm::Mul(a, b) => (bv_value(m, *a) * bv_value(m, *b)) % words(),
        BvTerm::Div(a, b) => arbitrary(),
    }
}

/// Whether a formula is true.
pub open spec fn bv_true(m: spec_fn(Seq<char>) -> int, f: BvFormula) -> bool
    decreases f,
{
    match f {
        BvFormula::AtMost(a, b) => bv_value(m, a) <= bv_value(m, b),
        BvFormula::Equal(a, b) => bv_value(m, a) == bv_value(m, b),
        BvFormula::Distinct(a, b) => bv_value(m, a) != bv_value(m, b),
        BvFormula::And(a, b) => bv_true(m, *a) && bv_true(m, *b),
        BvFormula::Or(a, b) => bv_true(m, *a) || bv_true(m, *b),
    }
}

/// Whether all that is asserted is true.
pub open spec fn bv_all_true(
    m: spec_fn(Seq<char>) -> int,
    steps: Seq<StepV<BvFormula>>,
) -> bool {
    forall|i: int|
        0 <= i < steps.len() && (#[trigger] steps[i]) is Assert ==> bv_true(m, steps[i]->formula)
}

/// Whether values are words.
pub open spec fn are_words(m: spec_fn(Seq<char>) -> int) -> bool {
    forall|x: Seq<char>| 0 <= #[trigger] m(x) < words()
}

/// Whether all that is asserted can be true.
pub open spec fn bv_satisfiable(steps: Seq<StepV<BvFormula>>) -> bool {
    exists|m: spec_fn(Seq<char>) -> int| #[trigger] are_words(m) && bv_all_true(m, steps)
}

/// Functions that no call stands for.
pub open spec fn no_functions() -> spec_fn(Seq<char>, Seq<char>, Seq<int>) -> int {
    |component: Seq<char>, field: Seq<char>, v: Seq<int>| 0
}

proof fn lemma_true_add(
    m: spec_fn(Seq<char>) -> int,
    a: Seq<StepV<BvFormula>>,
    b: Seq<StepV<BvFormula>>,
)
    ensures
        bv_all_true(m, a + b) <==> bv_all_true(m, a) && bv_all_true(m, b),
{
    if bv_all_true(m, a + b) {
        assert forall|i: int| 0 <= i < a.len() && (#[trigger] a[i]) is Assert implies bv_true(
            m,
            a[i]->formula,
        ) by {
            assert((a + b)[i] == a[i]);
        }
        assert forall|i: int| 0 <= i < b.len() && (#[trigger] b[i]) is Assert implies bv_true(
            m,
            b[i]->formula,
        ) by {
            assert((a + b)[i + a.len()] == b[i]);
        }
    }
}

proof fn lemma_true_push(
    m: spec_fn(Seq<char>) -> int,
    a: Seq<StepV<BvFormula>>,
    label: Seq<char>,
    f: BvFormula,
)
    ensures
        bv_all_true(m, a.push(assertion(label, f))) <==> bv_all_true(m, a) && bv_true(m, f),
{
    let w = assertion(label, f);
    assert(a.push(w) =~= a + seq![w]);
    lemma_true_add(m, a, seq![w]);
    if bv_all_true(m, seq![w]) {
        assert(seq![w][0] is Assert);
    }
}

/// The term of an expression has the value of the expression.
proof fn lemma_bv_expr(m: spec_fn(Seq<char>) -> int, e: IrExprV, vs: Seq<VarV>, side: Side)
    requires
        divisionless(e),
    ensures
        bv_value(m, bv_expr(e, vs, side)) == value(
            Numbers::Modulo(words()),
            vs,
            side_values(m, side),
            e,
        ),
    decreases e,
{
    match e {
        IrExprV::Add(a, b) => {
            lemma_bv_expr(m, *a, vs, side);
            lemma_bv_expr(m, *b, vs, side);
        },
        IrExprV::Sub(a, b) => {
            lemma_bv_expr(m, *a, vs, side);
            lemma_bv_expr(m, *b, vs, side);
            let x = bv_value(m, bv_expr(*a, vs, side));
            let y = bv_value(m, bv_expr(*b, vs, side));
            reveal_with_fuel(bv_value, 3);
            lemma_add_mod_noop(x, -y, words());
            lemma_add_mod_noop(x, (-y) % words(), words());
            lemma_mod_twice(-y, words());
        },
        IrExprV::Mul(a, b) => {
            lemma_bv_expr(m, *a, vs, side);
            lemma_bv_expr(m, *b, vs, side);
        },
        _ => {},
    }
}

/// A constraint is true in one of the runs where it holds there.
proof fn lemma_bv_constraint(
    m: spec_fn(Seq<char>) -> int,
    c: ConstraintV,
    vs: Seq<VarV>,
    side: Side,
)
    requires
        divisionless_constraint(c),
        bv_constraint(c, vs, side).stop is None,
    ensures
        bv_all_true(m, bv_constraint(c, vs, side).steps) <==> holds(
            Numbers::Modulo(words()),
            vs,
            side_values(m, side),
            no_functions(),
            c,
        ),
        results_known(vs, c),
{
    let a = side_values(m, side);
    match c {
        ConstraintV::Eq { lhs, rhs, .. } => {
            lemma_bv_expr(m, lhs, vs, side);
            lemma_bv_expr(m, rhs, vs, side);
            let w1 = warnings::<BvFormula>(unknowns(lhs, vs));
            let w2 = warnings::<BvFormula>(unknowns(rhs, vs));
            lemma_true_add(m, w1, w2);
            lemma_true_push(
                m,
                w1 + w2,
                "eq"@,
                BvFormula::Equal(bv_expr(lhs, vs, side), bv_expr(rhs, vs, side)),
            );
        },
        ConstraintV::IsZero { result, expr } => {
            lemma_bv_expr(m, expr, vs, side);
            let f = bv_is_zero(bv_expr(expr, vs, side), bv_var(result, side));
            lemma_true_push(m, warnings(unknowns(expr, vs)), "iszero"@, f);
            reveal_with_fuel(bv_true, 3);
            assert(bv_value(m, bv_var(result, side)) == a(result));
        },
        ConstraintV::Call { .. } => {},
    }
}

/// The constraints from `i` on are true where they hold in both runs.
proof fn lemma_bv_constraints(
    m: spec_fn(Seq<char>) -> int,
    p: PlanV<BvFormula>,
    cs: Seq<ConstraintV>,
    vs: Seq<VarV>,
    i: int,
)
    requires
        0 <= i,
        p.stop is None,
        all_divisionless(cs),
        bv_constraints(p, cs, vs, i).stop is None,
    ensures
        bv_all_true(m, bv_constraints(p, cs, vs, i).steps) <==> (bv_all_true(m, p.steps) && (
        forall|j: int|
            i <= j < cs.len() ==> holds(
                Numbers::Modulo(words()),
                vs,
                side_values(m, Side::First),
                no_functions(),
                #[trigger] cs[j],
            )) && (forall|j: int|
            i <= j < cs.len() ==> holds(
                Numbers::Modulo(words()),
                vs,
                side_values(m, Side::Second),
                no_functions(),
                #[trigger] cs[j],
            ))),
        forall|j: int| i <= j < cs.len() ==> results_known(vs, #[trigger] cs[j]),
    decreases cs.len() - i,
{
    if i < cs.len() {
        let c = cs[i];
        assert(divisionless_constraint(c));
        let q1 = bv_constraint(c, vs, Side::First);
        let q2 = bv_constraint(c, vs, Side::Second);
        let p1 = followed_by(p, q1);
        let p2 = followed_by(p1, q2);
        if p2.stop is Some {
            assert(bv_constraints(p2, cs, vs, i + 1) == p2);
        }
        lemma_bv_constraint(m, c, vs, Side::First);
        lemma_bv_constraint(m, c, vs, Side::Second);
        lemma_true_add(m, p.steps, q1.steps);
        lemma_true_add(m, p1.steps, q2.steps);
        lemma_bv_constraints(m, p2, cs, vs, i + 1);
        if bv_all_true(m, bv_constraints(p, cs, vs, i).steps) {
            assert forall|j: int| i <= j < cs.len() implies holds(
                Numbers::Modulo(words()),
                vs,
                side_values(m, Side::First),
                no_functions(),
                #[trigger] cs[j],
            ) by {}
            assert forall|j: int| i <= j < cs.len() implies holds(
                Numbers::Modulo(words()),
                vs,
                side_values(m, Side::Second),
                no_functions(),
                #[trigger] cs[j],
            ) by {}
        }
    }
}

/// The ranges are true where the variables lie in them in both runs.
proof fn lemma_bv_ranges(m: spec_fn(Seq<char>) -> int, vs: Seq<VarV>, n: nat)
    requires
        n <= vs.len(),
        are_words(m),
    ensures
        bv_all_true(m, bv_ranges(vs, n)) <==> in_ranges(
            vs.take(n as int),
            side_values(m, Side::First),
        ) && in_ranges(vs.take(n as int), side_values(m, Side::Second)),
    decreases n,
{
    if n > 0 {
        lemma_bv_ranges(m, vs, (n - 1) as nat);
        let v = vs[n - 1];
        let before = bv_ranges(vs, (n - 1) as nat);
        let max = BvTerm::Number(max_value(v.vtype));
        let f1 = BvFormula::AtMost(bv_var(v.name, Side::First), max);
        let f2 = BvFormula::AtMost(bv_var(v.name, Side::Second), max);
        lemma_true_push(m, before, "range"@, f1);
        lemma_true_push(m, before.push(assertion("range"@, f1)), "range"@, f2);
        let a = side_values(m, Side::First);
        let b = side_values(m, Side::Second);
        assert(0 <= m(instance(v.name, Side::First)) && 0 <= m(instance(v.name, Side::Second)));
        assert(bv_true(m, f1) <==> 0 <= a(v.name) <= max_value(v.vtype));
        assert(bv_true(m, f2) <==> 0 <= b(v.name) <= max_value(v.vtype));
        let now = vs.take(n as int);
        let was = vs.take(n - 1);
        assert(now =~= was.push(v));
        if in_ranges(now, a) {
            assert forall|i: int| 0 <= i < was.len() implies 0 <= a((#[trigger] was[i]).name)
                <= max_value(was[i].vtype) by {
                assert(now[i] == was[i]);
            }
            assert(now[n - 1] == v);
        }
        if in_ranges(now, b) {
            assert forall|i: int| 0 <= i < was.len() implies 0 <= b((#[trigger] was[i]).name)
                <= max_value(was[i].vtype) by {
                assert(now[i] == was[i]);
            }
            assert(now[n - 1] == v);
        }
    }
}

/// That inputs are the same is true where they have the same values in both runs.
proof fn lemma_bv_same_inputs(m: spec_fn(Seq<char>) -> int, vs: Seq<VarV>, n: nat)
    requires
        n <= vs.len(),
    ensures
        bv_all_true(m, bv_same_inputs(vs, n)) <==> same_values(
            vs.take(n as int),
            side_values(m, Side::First),
            side_values(m, Side::Second),
        ),
    decreases n,
{
    if n > 0 {
        lemma_bv_same_inputs(m, vs, (n - 1) as nat);
        let v = vs[n - 1];
        let f = BvFormula::Equal(bv_var(v.name, Side::First), bv_var(v.name, Side::Second));
        lemma_true_push(m, bv_same_inputs(vs, (n - 1) as nat), "eq"@, f);
        let a = side_values(m, Side::First);
        let b = side_values(m, Side::Second);
        assert(bv_true(m, f) <==> a(v.name) == b(v.name));
        let now = vs.take(n as int);
        let was = vs.take(n - 1);
        assert(now =~= was.push(v));
        if same_values(now, a, b) {
            assert forall|i: int| 0 <= i < was.len() implies a((#[trigger] was[i]).name) == b(
                was[i].name,
            ) by {
                assert(now[i] == was[i]);
            }
            assert(now[n - 1] == v);
        }
    }
}

/// That one of the outputs differs is true where they do not all have the same values in
/// both runs.
proof fn lemma_bv_differ(m: spec_fn(Seq<char>) -> int, vs: Seq<VarV>, n: nat)
    requires
        0 < n <= vs.len(),
    ensures
        bv_true(m, bv_differ(vs, n)) <==> !same_values(
            vs.take(n as int),
            side_values(m, Side::First),
            side_values(m, Side::Second),
        ),
    decreases n,
{
    let v = vs[n - 1];
    let d = BvFormula::Distinct(bv_var(v.name, Side::First), bv_var(v.name, Side::Second));
    let a = side_values(m, Side::First);
    let b = side_values(m, Side::Second);
    assert(bv_true(m, d) <==> a(v.name) != b(v.name));
    let now = vs.take(n as int);
    let was = vs.take(n - 1);
    assert(now =~= was.push(v));
    assert(now[n - 1] == v);
    if n > 1 {
        lemma_bv_differ(m, vs, (n - 1) as nat);
        if same_values(now, a, b) {
            assert forall|i: int| 0 <= i < was.len() implies a((#[trigger] was[i]).name) == b(
                was[i].name,
            ) by {
                assert(now[i] == was[i]);
            }
        }
    } else {
        assert(was =~= Seq::empty());
    }
}

/// What a solver is asked is true for some words where they are those of two runs that
/// show that the instruction is not deterministic.
proof fn lemma_bv_plan(m: spec_fn(Seq<char>) -> int, s: SpecV)
    requires
        are_words(m),
        bv_plan(s).stop is None,
        all_divisionless(s.constraints),
    ensures
        bv_all_true(m, bv_plan(s).steps) <==> is_counterexample(
            Numbers::Modulo(words()),
            s,
            side_values(m, Side::First),
            side_values(m, Side::Second),
            no_functions(),
        ),
        forall|j: int|
            0 <= j < s.constraints.len() ==> results_known(
                s.all_vars(),
                #[trigger] s.constraints[j],
            ),
{
    let vs = s.all_vars();
    let ranges = bv_ranges(vs, vs.len());
    let inputs = bv_same_inputs(s.inputs, s.inputs.len());
    let start = PlanV { steps: ranges + inputs, stop: None };
    lemma_bv_ranges(m, vs, vs.len());
    lemma_bv_same_inputs(m, s.inputs, s.inputs.len());
    lemma_bv_differ(m, s.outputs, s.outputs.len());
    assert(vs.take(vs.len() as int) =~= vs);
    assert(s.inputs.take(s.inputs.len() as int) =~= s.inputs);
    assert(s.outputs.take(s.outputs.len() as int) =~= s.outputs);
    lemma_true_add(m, ranges, inputs);
    lemma_bv_constraints(m, start, s.constraints, vs, 0);
    let p = bv_constraints(start, s.constraints, vs, 0);
    let d = bv_differ(s.outputs, s.outputs.len());
    assert(bv_plan(s).steps =~= p.steps.push(assertion("diff"@, d)));
    lemma_true_push(m, p.steps, "diff"@, d);
}

/// Where an instruction is deterministic over 32-bit words, what the solver is asked
/// cannot be true.
pub proof fn lemma_deterministic_is_unsat(s: SpecV)
    requires
        bv_plan(s).stop is None,
        all_divisionless(s.constraints),
        deterministic(Numbers::Modulo(words()), s),
    ensures
        !bv_satisfiable(bv_plan(s).steps),
{
    if bv_satisfiable(bv_plan(s).steps) {
        let m = choose|m: spec_fn(Seq<char>) -> int| #[trigger]
            are_words(m) && bv_all_true(m, bv_plan(s).steps);
        lemma_bv_plan(m, s);
    }
}

/// Where the names of an instruction stay apart, what the solver is asked can be true
/// exactly where the instruction is not deterministic over 32-bit words: the answer that
/// it cannot be true means that the instruction is deterministic, and the answer that it
/// can, that it is not.
pub proof fn lemma_bv_answer(s: SpecV)
    requires
        bv_plan(s).stop is None,
        all_divisionless(s.constraints),
        names_apart(s.all_vars()),
    ensures
        bv_satisfiable(bv_plan(s).steps) <==> !deterministic(Numbers::Modulo(words()), s),
{
    if deterministic(Numbers::Modulo(words()), s) {
        lemma_deterministic_is_unsat(s);
    } else {
        let vs = s.all_vars();
        let cs = s.constraints;
        let k = Numbers::Modulo(words());
        let (a, b, f) = choose|
            a: spec_fn(Seq<char>) -> int,
            b: spec_fn(Seq<char>) -> int,
            f: spec_fn(Seq<char>, Seq<char>, Seq<int>) -> int,
        | is_counterexample(k, s, a, b, f);
        let a1 = clipped(a);
        let b1 = clipped(b);
        let m = merged(vs, a1, b1);
        assert forall|x: Seq<char>| 0 <= #[trigger] m(x) < words() by {}
        let a2 = side_values(m, Side::First);
        let b2 = side_values(m, Side::Second);
        let f2 = no_functions();
        lemma_merged(vs, a1, b1);
        assert forall|x: Seq<char>| declared(vs, x) implies #[trigger] a2(x) == a(x) && b2(x) == b(
            x,
        ) by {
            let i = choose|i: int| 0 <= i < vs.len() && (#[trigger] vs[i]).name == x;
            assert(0 <= a(vs[i].name) <= max_value(vs[i].vtype));
            assert(0 <= b(vs[i].name) <= max_value(vs[i].vtype));
            assert(a2(x) == a1(x) && b2(x) == b1(x));
        }
        assert(agree_on(vs, a2, a) && agree_on(vs, b2, b));
        lemma_bv_plan(m, s);
        lemma_no_calls(s);
        assert forall|i: int| 0 <= i < cs.len() implies holds(
            k,
            vs,
            a2,
            f2,
            #[trigger] cs[i],
        ) && holds(k, vs, b2, f2, cs[i]) by {
            assert(holds(k, vs, a, f, cs[i]) && holds(k, vs, b, f, cs[i]));
            assert(divisionless_constraint(cs[i]));
            assert(results_known(vs, cs[i]));
            lemma_holds_agrees(k, vs, a2, a, f2, f, cs[i]);
            lemma_holds_agrees(k, vs, b2, b, f2, f, cs[i]);
        }
        lemma_same_on_vars(s, a, b, a2, b2);
        assert(is_counterexample(k, s, a2, b2, f2));
        assert(are_words(m));
    }
}

/// Values with 0 in the place of those that are no words.
spec fn clipped(a: spec_fn(Seq<char>) -> int) -> spec_fn(Seq<char>) -> int {
    |x: Seq<char>|
        if 0 <= a(x) < words() {
            a(x)
        } else {
            0
        }
}

/// A plan over words that does not stop is one for an instruction without calls.
proof fn lemma_no_calls(s: SpecV)
    requires
        bv_plan(s).stop is None,
    ensures
        forall|i: int| 0 <= i < s.constraints.len() ==> !((#[trigger] s.constraints[i]) is Call),
{
    let vs = s.all_vars();
    let start = PlanV {
        steps: bv_ranges(vs, vs.len()) + bv_same_inputs(s.inputs, s.inputs.len()),
        stop: None,
    };
    lemma_no_calls_from(start, s.constraints, vs, 0);
}

proof fn lemma_no_calls_from(
    p: PlanV<BvFormula>,
    cs: Seq<ConstraintV>,
    vs: Seq<VarV>,
    i: int,
)
    requires
        0 <= i,
        p.stop is None,
        bv_constraints(p, cs, vs, i).stop is None,
    ensures
        forall|j: int| i <= j < cs.len() ==> !((#[trigger] cs[j]) is Call),
    decreases cs.len() - i,
{
    if i < cs.len() {
        let p1 = followed_by(p, bv_constraint(cs[i], vs, Side::First));
        let p2 = followed_by(p1, bv_constraint(cs[i], vs, Side::Second));
        if p2.stop is Some {
            assert(bv_constraints(p2, cs, vs, i + 1) == p2);
        }
        lemma_no_calls_from(p2, cs, vs, i + 1);
    }
}

} // verus!
