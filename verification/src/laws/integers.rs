//! What a solver's answer over the integers means.

use vstd::prelude::*;
use crate::ir::{max_value, ConstraintV, IrExprV, SpecV, VarV};
use crate::laws::determinism::{
    agree_for, all_divisionless, all_values, deterministic, divisionless, divisionless_constraint,
    holds, in_ranges, is_counterexample, lemma_holds_agrees, lemma_merged, lemma_same_on_vars,
    merged, names_apart, results_known, same_values, side_values, value, Numbers,
};
use crate::model::{declared, unknowns, Side};
use crate::smt::{assertion, warnings, PlanV, StepV};
use crate::verifier_int::{
    args_warnings, functions, int_both, int_constraint, int_constraints, int_declarations,
    int_differ, int_expr, int_exprs, int_is_zero, int_outputs, int_plan, int_range, int_ranges,
    int_same_inputs, int_start, int_var, symbol, IntFormula, IntTerm,
};

verus! {

/// The value of a term, by the values of its variables and by what its function symbols
/// stand for. A division has no value here.
pub open spec fn int_value(
    m: spec_fn(Seq<char>) -> int,
    g: spec_fn(Seq<char>, Seq<int>) -> int,
    t: IntTerm,
) -> int
    decreases t,
{
    match t {
        IntTerm::Var(x) => m(x),
        IntTerm::Number(n) => n,
        IntTerm::Add(a, b) => int_value(m, g, *a) + int_value(m, g, *b),
        IntTerm::Sub(a, b) => int_value(m, g, *a) - int_value(m, g, *b),
        IntTerm::Mul(a, b) => int_value(m, g, *a) * int_value(m, g, *b),
        IntTerm::Div(a, b) => arbitrary(),
        IntTerm::Call(f, args) => g(f, int_values(m, g, args)),
    }
}

/// The values of terms.
pub open spec fn int_values(
    m: spec_fn(Seq<char>) -> int,
    g: spec_fn(Seq<char>, Seq<int>) -> int,
    v: Seq<IntTerm>,
) -> Seq<int>
    decreases v,
{
    Seq::new(
        v.len(),
        |i: int|
            if 0 <= i < v.len() {
                int_value(m, g, v[i])
            } else {
                0
            },
    )
}

/// Whether a formula is true.
pub open spec fn int_true(
    m: spec_fn(Seq<char>) -> int,
    g: spec_fn(Seq<char>, Seq<int>) -> int,
    f: IntFormula,
) -> bool
    decreases f,
{
    match f {
        IntFormula::AtLeast(a, b) => int_value(m, g, a) >= int_value(m, g, b),
        IntFormula::AtMost(a, b) => int_value(m, g, a) <= int_value(m, g, b),
        IntFormula::Equal(a, b) => int_value(m, g, a) == int_value(m, g, b),
        IntFormula::Distinct(a, b) => int_value(m, g, a) != int_value(m, g, b),
        IntFormula::And(a, b) => int_true(m, g, *a) && int_true(m, g, *b),
        IntFormula::Or(a, b) => int_true(m, g, *a) || int_true(m, g, *b),
    }
}

/// Whether all that is asserted is true.
pub open spec fn int_all_true(
    m: spec_fn(Seq<char>) -> int,
    g: spec_fn(Seq<char>, Seq<int>) -> int,
    steps: Seq<StepV<IntFormula>>,
) -> bool {
    forall|i: int|
        0 <= i < steps.len() && (#[trigger] steps[i]) is Assert ==> int_true(
            m,
            g,
            steps[i]->formula,
        )
}

/// Whether all that is asserted can be true.
pub open spec fn int_satisfiable(steps: Seq<StepV<IntFormula>>) -> bool {
    exists|m: spec_fn(Seq<char>) -> int, g: spec_fn(Seq<char>, Seq<int>) -> int|
        int_all_true(m, g, steps)
}

/// What calls stand for, by what function symbols stand for.
pub open spec fn call_functions(g: spec_fn(Seq<char>, Seq<int>) -> int) -> spec_fn(
    Seq<char>,
    Seq<char>,
    Seq<int>,
) -> int {
    |component: Seq<char>, field: Seq<char>, v: Seq<int>| g(symbol(component, field), v)
}

proof fn lemma_true_add(
    m: spec_fn(Seq<char>) -> int,
    g: spec_fn(Seq<char>, Seq<int>) -> int,
    a: Seq<StepV<IntFormula>>,
    b: Seq<StepV<IntFormula>>,
)
    ensures
        int_all_true(m, g, a + b) <==> int_all_true(m, g, a) && int_all_true(m, g, b),
{
    if int_all_true(m, g, a + b) {
        assert forall|i: int| 0 <= i < a.len() && (#[trigger] a[i]) is Assert implies int_true(
            m,
            g,
            a[i]->formula,
        ) by {
            assert((a + b)[i] == a[i]);
        }
        assert forall|i: int| 0 <= i < b.len() && (#[trigger] b[i]) is Assert implies int_true(
            m,
            g,
            b[i]->formula,
        ) by {
            assert((a + b)[i + a.len()] == b[i]);
        }
    }
}

proof fn lemma_true_push(
    m: spec_fn(Seq<char>) -> int,
    g: spec_fn(Seq<char>, Seq<int>) -> int,
    a: Seq<StepV<IntFormula>>,
    label: Seq<char>,
    f: IntFormula,
)
    ensures
        int_all_true(m, g, a.push(assertion(label, f))) <==> int_all_true(m, g, a) && int_true(
            m,
            g,
            f,
        ),
{
    let w = assertion(label, f);
    assert(a.push(w) =~= a + seq![w]);
    lemma_true_add(m, g, a, seq![w]);
    if int_all_true(m, g, seq![w]) {
        assert(seq![w][0] is Assert);
    }
}

proof fn lemma_true_warnings(
    m: spec_fn(Seq<char>) -> int,
    g: spec_fn(Seq<char>, Seq<int>) -> int,
    a: Seq<StepV<IntFormula>>,
    names: Seq<Seq<char>>,
)
    ensures
        int_all_true(m, g, a + warnings(names)) <==> int_all_true(m, g, a),
{
    lemma_true_add(m, g, a, warnings(names));
}

/// The term of an expression has the value of the expression.
proof fn lemma_int_expr(
    m: spec_fn(Seq<char>) -> int,
    g: spec_fn(Seq<char>, Seq<int>) -> int,
    e: IrExprV,
    vs: Seq<VarV>,
    side: Side,
)
    requires
        vs.len() > 0,
        divisionless(e),
    ensures
        int_value(m, g, int_expr(e, vs, side)) == value(
            Numbers::Integers,
            vs,
            side_values(m, side),
            e,
        ),
    decreases e,
{
    reveal_with_fuel(int_value, 3);
    match e {
        IrExprV::Add(a, b) => {
            lemma_int_expr(m, g, *a, vs, side);
            lemma_int_expr(m, g, *b, vs, side);
        },
        IrExprV::Sub(a, b) => {
            lemma_int_expr(m, g, *a, vs, side);
            lemma_int_expr(m, g, *b, vs, side);
        },
        IrExprV::Mul(a, b) => {
            lemma_int_expr(m, g, *a, vs, side);
            lemma_int_expr(m, g, *b, vs, side);
        },
        _ => {},
    }
}

/// The outputs of a call from `i` on are true where the call holds for them.
proof fn lemma_int_outputs(
    m: spec_fn(Seq<char>) -> int,
    g: spec_fn(Seq<char>, Seq<int>) -> int,
    p: PlanV<IntFormula>,
    component: Seq<char>,
    args: Seq<IntTerm>,
    outputs: Seq<(Seq<char>, Seq<char>)>,
    vs: Seq<VarV>,
    side: Side,
    i: int,
)
    requires
        0 <= i,
        p.stop is None,
        int_outputs(p, component, args, outputs, vs, side, i).stop is None,
    ensures
        int_all_true(m, g, int_outputs(p, component, args, outputs, vs, side, i).steps) <==> (
        int_all_true(m, g, p.steps) && forall|j: int|
            i <= j < outputs.len() ==> side_values(m, side)((#[trigger] outputs[j]).1)
                == call_functions(g)(component, outputs[j].0, int_values(m, g, args))),
        forall|j: int| i <= j < outputs.len() ==> declared(vs, (#[trigger] outputs[j]).1),
    decreases outputs.len() - i,
{
    if i < outputs.len() {
        let (field, x) = outputs[i];
        let f = IntFormula::Equal(
            int_var(x, side),
            IntTerm::Call(symbol(component, field), args),
        );
        let q = PlanV { steps: p.steps.push(assertion("UF eq"@, f)), stop: None };
        lemma_int_outputs(m, g, q, component, args, outputs, vs, side, i + 1);
        lemma_true_push(m, g, p.steps, "UF eq"@, f);
        let a = side_values(m, side);
        let h = call_functions(g);
        let v = int_values(m, g, args);
        assert(int_true(m, g, f) <==> a(x) == h(component, field, v));
        if int_all_true(m, g, int_outputs(p, component, args, outputs, vs, side, i).steps) {
            assert forall|j: int| i <= j < outputs.len() implies a((#[trigger] outputs[j]).1) == h(
                component,
                outputs[j].0,
                v,
            ) by {}
        }
    }
}

/// A constraint is true in one of the runs where it holds there.
proof fn lemma_int_constraint(
    m: spec_fn(Seq<char>) -> int,
    g: spec_fn(Seq<char>, Seq<int>) -> int,
    said: Seq<StepV<IntFormula>>,
    c: ConstraintV,
    vs: Seq<VarV>,
    side: Side,
)
    requires
        vs.len() > 0,
        divisionless_constraint(c),
        int_constraint(said, c, vs, side).stop is None,
    ensures
        int_all_true(m, g, int_constraint(said, c, vs, side).steps) <==> int_all_true(m, g, said)
            && holds(Numbers::Integers, vs, side_values(m, side), call_functions(g), c),
        results_known(vs, c),
{
    let a = side_values(m, side);
    match c {
        ConstraintV::Eq { lhs, rhs, .. } => {
            lemma_int_expr(m, g, lhs, vs, side);
            lemma_int_expr(m, g, rhs, vs, side);
            let w1 = said + warnings(unknowns(lhs, vs));
            lemma_true_warnings(m, g, said, unknowns(lhs, vs));
            lemma_true_warnings(m, g, w1, unknowns(rhs, vs));
            lemma_true_push(
                m,
                g,
                w1 + warnings(unknowns(rhs, vs)),
                "eq"@,
                IntFormula::Equal(int_expr(lhs, vs, side), int_expr(rhs, vs, side)),
            );
        },
        ConstraintV::IsZero { result, expr } => {
            lemma_int_expr(m, g, expr, vs, side);
            lemma_true_warnings(m, g, said, unknowns(expr, vs));
            let f = int_is_zero(int_expr(expr, vs, side), int_var(result, side));
            lemma_true_push(m, g, said + warnings(unknowns(expr, vs)), "iszero"@, f);
            reveal_with_fuel(int_true, 3);
            assert(int_value(m, g, int_var(result, side)) == a(result));
        },
        ConstraintV::Call { component, args, outputs } => {
            let p = PlanV { steps: said + args_warnings(args, vs, args.len()), stop: None };
            let terms = int_exprs(args, vs, side);
            lemma_int_outputs(m, g, p, component, terms, outputs, vs, side, 0);
            lemma_args_warnings(m, g, said, args, vs, args.len());
            assert forall|i: int| 0 <= i < args.len() implies int_value(
                m,
                g,
                #[trigger] terms[i],
            ) == value(Numbers::Integers, vs, a, args[i]) by {
                assert(divisionless(args[i]));
                lemma_int_expr(m, g, args[i], vs, side);
            }
            assert(int_values(m, g, terms) =~= all_values(Numbers::Integers, vs, a, args));
        },
    }
}

proof fn lemma_args_warnings(
    m: spec_fn(Seq<char>) -> int,
    g: spec_fn(Seq<char>, Seq<int>) -> int,
    said: Seq<StepV<IntFormula>>,
    args: Seq<IrExprV>,
    vs: Seq<VarV>,
    n: nat,
)
    requires
        n <= args.len(),
    ensures
        int_all_true(m, g, said + args_warnings(args, vs, n)) <==> int_all_true(m, g, said),
    decreases n,
{
    if n == 0 {
        assert(said + args_warnings(args, vs, 0) =~= said);
    } else {
        lemma_args_warnings(m, g, said, args, vs, (n - 1) as nat);
        let before = said + args_warnings(args, vs, (n - 1) as nat);
        lemma_true_warnings(m, g, before, unknowns(args[n - 1], vs));
        assert(said + args_warnings(args, vs, n) =~= before + warnings(
            unknowns(args[n - 1], vs),
        ));
    }
}

/// The constraints from `i` on are true where they hold in both runs.
proof fn lemma_int_constraints(
    m: spec_fn(Seq<char>) -> int,
    g: spec_fn(Seq<char>, Seq<int>) -> int,
    p: PlanV<IntFormula>,
    cs: Seq<ConstraintV>,
    vs: Seq<VarV>,
    i: int,
)
    requires
        vs.len() > 0,
        0 <= i,
        p.stop is None,
        all_divisionless(cs),
        int_constraints(p, cs, vs, i).stop is None,
    ensures
        int_all_true(m, g, int_constraints(p, cs, vs, i).steps) <==> (int_all_true(m, g, p.steps)
            && (forall|j: int|
            i <= j < cs.len() ==> holds(
                Numbers::Integers,
                vs,
                side_values(m, Side::First),
                call_functions(g),
                #[trigger] cs[j],
            )) && (forall|j: int|
            i <= j < cs.len() ==> holds(
                Numbers::Integers,
                vs,
                side_values(m, Side::Second),
                call_functions(g),
                #[trigger] cs[j],
            ))),
        forall|j: int| i <= j < cs.len() ==> results_known(vs, #[trigger] cs[j]),
    decreases cs.len() - i,
{
    if i < cs.len() {
        let c = cs[i];
        assert(divisionless_constraint(c));
        let p1 = int_constraint(p.steps, c, vs, Side::First);
        let p2 = int_both(p.steps, c, vs);
        if p1.stop is Some {
            assert(p2 == p1);
            assert(int_constraints(p2, cs, vs, i + 1) == p2);
        }
        if p2.stop is Some {
            assert(int_constraints(p2, cs, vs, i + 1) == p2);
        }
        lemma_int_constraint(m, g, p.steps, c, vs, Side::First);
        lemma_int_constraint(m, g, p1.steps, c, vs, Side::Second);
        lemma_int_constraints(m, g, p2, cs, vs, i + 1);
        if int_all_true(m, g, int_constraints(p, cs, vs, i).steps) {
            assert forall|j: int| i <= j < cs.len() implies holds(
                Numbers::Integers,
                vs,
                side_values(m, Side::First),
                call_functions(g),
                #[trigger] cs[j],
            ) by {}
            assert forall|j: int| i <= j < cs.len() implies holds(
                Numbers::Integers,
                vs,
                side_values(m, Side::Second),
                call_functions(g),
                #[trigger] cs[j],
            ) by {}
        }
    }
}

/// The ranges are true where the variables lie in them in both runs.
proof fn lemma_int_ranges(
    m: spec_fn(Seq<char>) -> int,
    g: spec_fn(Seq<char>, Seq<int>) -> int,
    vs: Seq<VarV>,
    n: nat,
)
    requires
        n <= vs.len(),
    ensures
        int_all_true(m, g, int_ranges(vs, n)) <==> in_ranges(
            vs.take(n as int),
            side_values(m, Side::First),
        ) && in_ranges(vs.take(n as int), side_values(m, Side::Second)),
    decreases n,
{
    if n > 0 {
        lemma_int_ranges(m, g, vs, (n - 1) as nat);
        let v = vs[n - 1];
        let before = int_ranges(vs, (n - 1) as nat);
        let f1 = int_range(v, Side::First);
        let f2 = int_range(v, Side::Second);
        lemma_true_push(m, g, before, "range"@, f1);
        lemma_true_push(m, g, before.push(assertion("range"@, f1)), "range"@, f2);
        reveal_with_fuel(int_true, 2);
        let a = side_values(m, Side::First);
        let b = side_values(m, Side::Second);
        assert(int_true(m, g, f1) <==> 0 <= a(v.name) <= max_value(v.vtype));
        assert(int_true(m, g, f2) <==> 0 <= b(v.name) <= max_value(v.vtype));
        let now = vs.take(n as int);
        let was = vs.take(n - 1);
        assert(now =~= was.push(v));
        if in_ranges(now, a) {
            assert forall|i: int| 0 <= i < was.len() implies 0 <= a((#[trigger] was[i]).name)
                <= max_value(was[i].vtype) by {
                assert(now[i] == was[i]);
            }
            assert(now[n - 1] == v);
        }
        if in_ranges(now, b) {
            assert forall|i: int| 0 <= i < was.len() implies 0 <= b((#[trigger] was[i]).name)
                <= max_value(was[i].vtype) by {
                assert(now[i] == was[i]);
            }
            assert(now[n - 1] == v);
        }
    }
}

/// That inputs are the same is true where they have the same values in both runs.
proof fn lemma_int_same_inputs(
    m: spec_fn(Seq<char>) -> int,
    g: spec_fn(Seq<char>, Seq<int>) -> int,
    vs: Seq<VarV>,
    n: nat,
)
    requires
        n <= vs.len(),
    ensures
        int_all_true(m, g, int_same_inputs(vs, n)) <==> same_values(
            vs.take(n as int),
            side_values(m, Side::First),
            side_values(m, Side::Second),
        ),
    decreases n,
{
    if n > 0 {
        lemma_int_same_inputs(m, g, vs, (n - 1) as nat);
        let v = vs[n - 1];
        let f = IntFormula::Equal(int_var(v.name, Side::First), int_var(v.name, Side::Second));
        lemma_true_push(m, g, int_same_inputs(vs, (n - 1) as nat), "eq"@, f);
        let a = side_values(m, Side::First);
        let b = side_values(m, Side::Second);
        assert(int_true(m, g, f) <==> a(v.name) == b(v.name));
        let now = vs.take(n as int);
        let was = vs.take(n - 1);
        assert(now =~= was.push(v));
        if same_values(now, a, b) {
            assert forall|i: int| 0 <= i < was.len() implies a((#[trigger] was[i]).name) == b(
                was[i].name,
            ) by {
                assert(now[i] == was[i]);
            }
            assert(now[n - 1] == v);
        }
    }
}

/// That one of the outputs differs is true where they do not all have the same values in
/// both runs.
proof fn lemma_int_differ(
    m: spec_fn(Seq<char>) -> int,
    g: spec_fn(Seq<char>, Seq<int>) -> int,
    vs: Seq<VarV>,
    n: nat,
)
    requires
        0 < n <= vs.len(),
    ensures
        int_true(m, g, int_differ(vs, n)) <==> !same_values(
            vs.take(n as int),
            side_values(m, Side::First),
            side_values(m, Side::Second),
        ),
    decreases n,
{
    let v = vs[n - 1];
    let d = IntFormula::Distinct(int_var(v.name, Side::First), int_var(v.name, Side::Second));
    let a = side_values(m, Side::First);
    let b = side_values(m, Side::Second);
    assert(int_true(m, g, d) <==> a(v.name) != b(v.name));
    let now = vs.take(n as int);
    let was = vs.take(n - 1);
    assert(now =~= was.push(v));
    assert(now[n - 1] == v);
    if n > 1 {
        lemma_int_differ(m, g, vs, (n - 1) as nat);
        if same_values(now, a, b) {
            assert forall|i: int| 0 <= i < was.len() implies a((#[trigger] was[i]).name) == b(
                was[i].name,
            ) by {
                assert(now[i] == was[i]);
            }
        }
    } else {
        assert(was =~= Seq::empty());
    }
}

/// What a solver is asked is true for some values where they are those of two runs that
/// show that the instruction is not deterministic.
proof fn lemma_int_plan(
    m: spec_fn(Seq<char>) -> int,
    g: spec_fn(Seq<char>, Seq<int>) -> int,
    s: SpecV,
)
    requires
        int_plan(s).stop is None,
        all_divisionless(s.constraints),
    ensures
        int_all_true(m, g, int_plan(s).steps) <==> is_counterexample(
            Numbers::Integers,
            s,
            side_values(m, Side::First),
            side_values(m, Side::Second),
            call_functions(g),
        ),
        forall|j: int|
            0 <= j < s.constraints.len() ==> results_known(
                s.all_vars(),
                #[trigger] s.constraints[j],
            ),
{
    let vs = s.all_vars();
    assert(vs.len() > 0);
    let start = int_start(s);
    let ranges = int_ranges(vs, vs.len());
    let inputs = int_same_inputs(s.inputs, s.inputs.len());
    let ufs = int_declarations(functions(s.constraints, s.constraints.len()));
    lemma_int_ranges(m, g, vs, vs.len());
    lemma_int_same_inputs(m, g, s.inputs, s.inputs.len());
    lemma_int_differ(m, g, s.outputs, s.outputs.len());
    assert(vs.take(vs.len() as int) =~= vs);
    assert(s.inputs.take(s.inputs.len() as int) =~= s.inputs);
    assert(s.outputs.take(s.outputs.len() as int) =~= s.outputs);
    lemma_true_add(m, g, ranges, inputs);
    lemma_true_add(m, g, ranges + inputs, ufs);
    assert(int_all_true(m, g, ufs));
    lemma_int_constraints(m, g, start, s.constraints, vs, 0);
    let p = int_constraints(start, s.constraints, vs, 0);
    let d = int_differ(s.outputs, s.outputs.len());
    assert(int_plan(s).steps =~= p.steps.push(assertion("diff"@, d)));
    lemma_true_push(m, g, p.steps, "diff"@, d);
}

/// Where an instruction is deterministic over the integers, what the solver is asked
/// cannot be true.
pub proof fn lemma_deterministic_is_unsat(s: SpecV)
    requires
        int_plan(s).stop is None,
        all_divisionless(s.constraints),
        deterministic(Numbers::Integers, s),
    ensures
        !int_satisfiable(int_plan(s).steps),
{
    if int_satisfiable(int_plan(s).steps) {
        let (m, g) = choose|
            m: spec_fn(Seq<char>) -> int,
            g: spec_fn(Seq<char>, Seq<int>) -> int,
        | int_all_true(m, g, int_plan(s).steps);
        lemma_int_plan(m, g, s);
    }
}

/// Whether the fields of components that calls have as outputs have different function
/// symbols.
pub open spec fn symbols_apart(cs: Seq<ConstraintV>) -> bool {
    forall|i: int, j: int, p: int, q: int|
        #![trigger cs[i]->outputs[p], cs[j]->outputs[q]]
        0 <= i < cs.len() && 0 <= j < cs.len() && cs[i] is Call && cs[j] is Call && 0 <= p
            < cs[i]->outputs.len() && 0 <= q < cs[j]->outputs.len() && symbol(
            cs[i]->component,
            cs[i]->outputs[p].0,
        ) == symbol(cs[j]->component, cs[j]->outputs[q].0) ==> cs[i]->component
            == cs[j]->component && cs[i]->outputs[p].0 == cs[j]->outputs[q].0
}

/// Whether output `p` of call `i` has a function symbol.
pub open spec fn is_symbol_of(cs: Seq<ConstraintV>, i: int, p: int, n: Seq<char>) -> bool {
    0 <= i < cs.len() && cs[i] is Call && 0 <= p < cs[i]->outputs.len() && symbol(
        cs[i]->component,
        cs[i]->outputs[p].0,
    ) == n
}

/// What function symbols stand for, by what calls stand for.
pub open spec fn symbol_functions(
    cs: Seq<ConstraintV>,
    f: spec_fn(Seq<char>, Seq<char>, Seq<int>) -> int,
) -> spec_fn(Seq<char>, Seq<int>) -> int {
    |n: Seq<char>, v: Seq<int>|
        {
            let (i, p) = choose|i: int, p: int| is_symbol_of(cs, i, p, n);
            f(cs[i]->component, cs[i]->outputs[p].0, v)
        }
}

/// Function symbols that are apart give back what calls stand for.
proof fn lemma_symbol_functions(
    cs: Seq<ConstraintV>,
    f: spec_fn(Seq<char>, Seq<char>, Seq<int>) -> int,
    j: int,
)
    requires
        symbols_apart(cs),
        0 <= j < cs.len(),
    ensures
        agree_for(call_functions(symbol_functions(cs, f)), f, cs[j]),
{
    let h = call_functions(symbol_functions(cs, f));
    match cs[j] {
        ConstraintV::Call { component, outputs, .. } => {
            assert forall|q: int, v: Seq<int>| 0 <= q < outputs.len() implies h(
                component,
                (#[trigger] outputs[q]).0,
                v,
            ) == #[trigger] f(component, outputs[q].0, v) by {
                let n = symbol(component, outputs[q].0);
                assert(is_symbol_of(cs, j, q, n));
                let (i, p) = choose|i: int, p: int| is_symbol_of(cs, i, p, n);
                assert(is_symbol_of(cs, i, p, n));
                assert(cs[i]->outputs[p].0 == cs[j]->outputs[q].0);
            }
        },
        _ => {},
    }
}

/// Where the names of an instruction stay apart, what the solver is asked can be true
/// exactly where the instruction is not deterministic over the integers: the answer that
/// it cannot be true means that the instruction is deterministic, and the answer that it
/// can, that it is not.
pub proof fn lemma_int_answer(s: SpecV)
    requires
        int_plan(s).stop is None,
        all_divisionless(s.constraints),
        names_apart(s.all_vars()),
        symbols_apart(s.constraints),
    ensures
        int_satisfiable(int_plan(s).steps) <==> !deterministic(Numbers::Integers, s),
{
    if deterministic(Numbers::Integers, s) {
        lemma_deterministic_is_unsat(s);
    } else {
        let vs = s.all_vars();
        let cs = s.constraints;
        let k = Numbers::Integers;
        let (a, b, f) = choose|
            a: spec_fn(Seq<char>) -> int,
            b: spec_fn(Seq<char>) -> int,
            f: spec_fn(Seq<char>, Seq<char>, Seq<int>) -> int,
        | is_counterexample(k, s, a, b, f);
        let m = merged(vs, a, b);
        let g = symbol_functions(cs, f);
        let a2 = side_values(m, Side::First);
        let b2 = side_values(m, Side::Second);
        let f2 = call_functions(g);
        lemma_merged(vs, a, b);
        lemma_int_plan(m, g, s);
        assert forall|i: int| 0 <= i < cs.len() implies holds(
            k,
            vs,
            a2,
            f2,
            #[trigger] cs[i],
        ) && holds(k, vs, b2, f2, cs[i]) by {
            assert(holds(k, vs, a, f, cs[i]) && holds(k, vs, b, f, cs[i]));
            assert(divisionless_constraint(cs[i]));
            assert(results_known(vs, cs[i]));
            lemma_symbol_functions(cs, f, i);
            lemma_holds_agrees(k, vs, a2, a, f2, f, cs[i]);
            lemma_holds_agrees(k, vs, b2, b, f2, f, cs[i]);
        }
        lemma_same_on_vars(s, a, b, a2, b2);
        assert(is_counterexample(k, s, a2, b2, f2));
        assert(int_all_true(m, g, int_plan(s).steps));
    }
}

} // verus!
