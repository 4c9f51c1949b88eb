//! What an answer of a solver means for a component.

use vstd::prelude::*;
use crate::ir::rules::{lowered, Env, Lowered};
use crate::ir::{ConstraintV, IrExprV, SpecV, VarV};
use crate::laws::determinism::{deterministic, names_apart, results_known, Numbers};
use crate::laws::field::prime;
use crate::laws::finite::{
    all_known, constraint_known, ff_satisfiable, field_deterministic, fits_field, lemma_ff_answer,
    lemma_field_deterministic,
};
use crate::laws::integers::{int_satisfiable, lemma_int_answer};
use crate::laws::lowering::{all_settled, lemma_lowered};
use crate::laws::polynomials::{lemma_ms_answer, solvable};
use crate::laws::scope::{all_bound, lemma_variables_are_declared};
use crate::laws::words::{bv_satisfiable, lemma_bv_answer, words};
use crate::laws::{finite, integers, scope};
use crate::model::{declared, Side};
use crate::smt::{assertion, followed_by, PlanV};
use crate::verifier_bv::{
    bv_constraint, bv_constraints, bv_plan, bv_ranges, bv_same_inputs, BvFormula,
};
use crate::verifier_ff::{ff_script, has_calls};
use crate::verifier_int::{
    args_warnings, int_both, int_constraint, int_constraints, int_exprs, int_outputs, int_plan,
    int_start, int_var, symbol, IntFormula, IntTerm,
};
use crate::verifier_msolve::ms_system;

verus! {

/// What is declared among the variables that are neither input nor output is declared among
/// all.
proof fn lemma_settled_all(s: SpecV)
    requires
        all_settled(s.internals, s.constraints),
    ensures
        all_settled(s.all_vars(), s.constraints),
{
    let vs = s.all_vars();
    let cs = s.constraints;
    let n = s.inputs.len() + s.outputs.len();
    assert forall|x: Seq<char>| declared(s.internals, x) implies #[trigger] declared(vs, x) by {
        let i = choose|i: int| 0 <= i < s.internals.len() && (#[trigger] s.internals[i]).name == x;
        assert(vs[n + i] == s.internals[i]);
    }
    assert forall|i: int| 0 <= i < cs.len() implies results_known(vs, #[trigger] cs[i]) by {
        assert(results_known(s.internals, cs[i]));
    }
}

proof fn lemma_int_outputs_go_on(
    p: PlanV<IntFormula>,
    component: Seq<char>,
    args: Seq<IntTerm>,
    outputs: Seq<(Seq<char>, Seq<char>)>,
    vs: Seq<VarV>,
    side: Side,
    i: int,
)
    requires
        0 <= i,
        p.stop is None,
        forall|j: int| 0 <= j < outputs.len() ==> declared(vs, (#[trigger] outputs[j]).1),
    ensures
        int_outputs(p, component, args, outputs, vs, side, i).stop is None,
    decreases outputs.len() - i,
{
    if i < outputs.len() {
        assert(declared(vs, outputs[i].1));
        let rest = int_outputs(p, component, args, outputs, vs, side, i);
        let q = PlanV {
            steps: p.steps.push(
                assertion(
                    "UF eq"@,
                    IntFormula::Equal(
                        int_var(outputs[i].1, side),
                        IntTerm::Call(
                            symbol(component, outputs[i].0),
                            args,
                        ),
                    ),
                ),
            ),
            stop: None,
        };
        lemma_int_outputs_go_on(q, component, args, outputs, vs, side, i + 1);
        assert(rest == int_outputs(q, component, args, outputs, vs, side, i + 1));
    }
}

proof fn lemma_int_constraints_go_on(
    p: PlanV<IntFormula>,
    cs: Seq<ConstraintV>,
    vs: Seq<VarV>,
    i: int,
)
    requires
        0 <= i,
        p.stop is None,
        all_settled(vs, cs),
    ensures
        int_constraints(p, cs, vs, i).stop is None,
    decreases cs.len() - i,
{
    if i < cs.len() {
        let c = cs[i];
        assert(results_known(vs, c));
        lemma_int_constraint_goes_on(p, c, vs, Side::First);
        let p1 = int_constraint(p.steps, c, vs, Side::First);
        lemma_int_constraint_goes_on(p1, c, vs, Side::Second);
        lemma_int_constraints_go_on(int_both(p.steps, c, vs), cs, vs, i + 1);
    }
}

proof fn lemma_int_constraint_goes_on(
    p: PlanV<IntFormula>,
    c: ConstraintV,
    vs: Seq<VarV>,
    side: Side,
)
    requires
        results_known(vs, c),
    ensures
        int_constraint(p.steps, c, vs, side).stop is None,
{
    match c {
        ConstraintV::Call { component, args, outputs } => {
            let q = PlanV {
                steps: p.steps + args_warnings(args, vs, args.len()),
                stop: None,
            };
            lemma_int_outputs_go_on(
                q,
                component,
                int_exprs(args, vs, side),
                outputs,
                vs,
                side,
                0,
            );
        },
        _ => {},
    }
}

proof fn lemma_bv_constraints_go_on(
    p: PlanV<BvFormula>,
    cs: Seq<ConstraintV>,
    vs: Seq<VarV>,
    i: int,
)
    requires
        0 <= i,
        p.stop is None,
        all_settled(vs, cs),
        !has_calls(cs),
    ensures
        bv_constraints(p, cs, vs, i).stop is None,
    decreases cs.len() - i,
{
    if i < cs.len() {
        let c = cs[i];
        assert(results_known(vs, c));
        assert(!(c is Call));
        let p1 = followed_by(p, bv_constraint(c, vs, Side::First));
        let p2 = followed_by(p1, bv_constraint(c, vs, Side::Second));
        lemma_bv_constraints_go_on(p2, cs, vs, i + 1);
    }
}

/// A component that is lowered to an instruction with outputs can be asked about over the
/// integers. Where names stay apart, what the solver is asked can be true exactly where the
/// instruction is not deterministic.
pub proof fn lemma_component_over_integers(env: Env, name: Seq<char>, depth: nat, s: SpecV)
    requires
        lowered(env, name, depth) == Lowered::Done(s),
        s.outputs.len() > 0,
    ensures
        int_plan(s).stop is None,
        names_apart(s.all_vars()) && integers::symbols_apart(s.constraints) ==> (int_satisfiable(
            int_plan(s).steps,
        ) <==> !deterministic(Numbers::Integers, s)),
{
    lemma_lowered(env, name, depth);
    lemma_settled_all(s);
    lemma_int_constraints_go_on(int_start(s), s.constraints, s.all_vars(), 0);
    if names_apart(s.all_vars()) && integers::symbols_apart(s.constraints) {
        lemma_int_answer(s);
    }
}

/// A component that is lowered to an instruction with outputs and without calls can be asked
/// about over 32-bit words. Where names stay apart, what the solver is asked can be true
/// exactly where the instruction is not deterministic.
pub proof fn lemma_component_over_words(env: Env, name: Seq<char>, depth: nat, s: SpecV)
    requires
        lowered(env, name, depth) == Lowered::Done(s),
        s.outputs.len() > 0,
        !has_calls(s.constraints),
    ensures
        bv_plan(s).stop is None,
        names_apart(s.all_vars()) ==> (bv_satisfiable(bv_plan(s).steps) <==> !deterministic(
            Numbers::Modulo(words()),
            s,
        )),
{
    lemma_lowered(env, name, depth);
    lemma_settled_all(s);
    let vs = s.all_vars();
    let start = PlanV {
        steps: bv_ranges(vs, vs.len()) + bv_same_inputs(s.inputs, s.inputs.len()),
        stop: None,
    };
    lemma_bv_constraints_go_on(start, s.constraints, vs, 0);
    if names_apart(vs) {
        lemma_bv_answer(s);
    }
}

proof fn lemma_none_unknown(vs: Seq<VarV>, e: IrExprV, d: Set<Seq<char>>)
    requires
        forall|x: Seq<char>| #[trigger] d.contains(x) ==> declared(vs, x),
        scope::known(d, e),
    ensures
        finite::known(vs, e),
    decreases e,
{
    match e {
        IrExprV::Add(l, r) => {
            lemma_none_unknown(vs, *l, d);
            lemma_none_unknown(vs, *r, d);
        },
        IrExprV::Sub(l, r) => {
            lemma_none_unknown(vs, *l, d);
            lemma_none_unknown(vs, *r, d);
        },
        IrExprV::Mul(l, r) => {
            lemma_none_unknown(vs, *l, d);
            lemma_none_unknown(vs, *r, d);
        },
        IrExprV::Div(l, r) => {
            lemma_none_unknown(vs, *l, d);
            lemma_none_unknown(vs, *r, d);
        },
        _ => {},
    }
}

/// Where every name that a component reads is bound when it is read, all variables of its
/// instruction are known to the solvers.
pub proof fn lemma_bound_component_is_known(env: Env, name: Seq<char>, depth: nat, s: SpecV)
    requires
        lowered(env, name, depth) == Lowered::Done(s),
        all_bound(env, name, depth),
    ensures
        all_known(s.all_vars(), s.constraints),
{
    let vs = s.all_vars();
    let d = scope::names(s);
    let cs = s.constraints;
    lemma_variables_are_declared(env, name, depth, s);
    lemma_lowered(env, name, depth);
    lemma_settled_all(s);
    assert forall|i: int| 0 <= i < cs.len() implies constraint_known(vs, #[trigger] cs[i]) by {
        assert(scope::known_constraint(d, cs[i]));
        assert(results_known(vs, cs[i]));
        match cs[i] {
            ConstraintV::Eq { lhs, rhs, .. } => {
                lemma_none_unknown(vs, lhs, d);
                lemma_none_unknown(vs, rhs, d);
            },
            ConstraintV::IsZero { expr, .. } => {
                lemma_none_unknown(vs, expr, d);
            },
            ConstraintV::Call { args, .. } => {
                assert forall|j: int| 0 <= j < args.len() implies finite::known(
                    vs,
                    #[trigger] args[j],
                ) by {
                    lemma_none_unknown(vs, args[j], d);
                }
            },
        }
    }
}

/// For a component that is lowered to an instruction whose variables are all known and whose
/// names stay apart, the script can be true exactly where the instruction is not
/// deterministic over the field; where no variable has 32 bits and the script cannot be
/// true, it is deterministic with all variables in their ranges.
pub proof fn lemma_component_over_field(env: Env, name: Seq<char>, depth: nat, s: SpecV)
    requires
        lowered(env, name, depth) == Lowered::Done(s),
        all_known(s.all_vars(), s.constraints),
        names_apart(s.all_vars()),
        finite::symbols_apart(s.constraints),
    ensures
        ff_satisfiable(ff_script(s)) <==> !field_deterministic(s),
        fits_field(s.all_vars()) && !ff_satisfiable(ff_script(s)) ==> deterministic(
            Numbers::Modulo(prime()),
            s,
        ),
{
    lemma_lowered(env, name, depth);
    lemma_ff_answer(s);
    if fits_field(s.all_vars()) && field_deterministic(s) {
        lemma_field_deterministic(s);
    }
}

/// The same for polynomials, where there are no calls: a system without a solution means
/// that the instruction is deterministic.
pub proof fn lemma_component_as_polynomials(env: Env, name: Seq<char>, depth: nat, s: SpecV)
    requires
        lowered(env, name, depth) == Lowered::Done(s),
        !has_calls(s.constraints),
        all_known(s.all_vars(), s.constraints),
        names_apart(s.all_vars()),
        !solvable(ms_system(s)),
    ensures
        field_deterministic(s),
        fits_field(s.all_vars()) ==> deterministic(Numbers::Modulo(prime()), s),
{
    lemma_lowered(env, name, depth);
    lemma_ms_answer(s);
    if fits_field(s.all_vars()) {
        lemma_field_deterministic(s);
    }
}

} // verus!
