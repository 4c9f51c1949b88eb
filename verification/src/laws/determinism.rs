//! What it means that an instruction is deterministic.

use vstd::prelude::*;
use crate::ir::{max_value, ConstraintV, IrExprV, SpecV, VarV};
use crate::model::{declared, instance, suffix, Side};
use crate::text::undotted;

verus! {

/// The numbers that are computed with.
pub enum Numbers {
    Integers,
    /// The remainders modulo a positive number.
    Modulo(int),
}

/// A result as one of the numbers.
pub open spec fn norm(k: Numbers, x: int) -> int {
    match k {
        Numbers::Integers => x,
        Numbers::Modulo(m) => x % m,
    }
}

/// The value of an expression, by the values of the variables `vs`; another variable
/// counts as 0. Lowering leaves no division in an expression, and none has a value here.
pub open spec fn value(
    k: Numbers,
    vs: Seq<VarV>,
    a: spec_fn(Seq<char>) -> int,
    e: IrExprV,
) -> int
    decreases e,
{
    match e {
        IrExprV::Const(n) => norm(k, n as int),
        IrExprV::Var(x) => if declared(vs, x) {
            a(x)
        } else {
            0
        },
        IrExprV::Add(l, r) => norm(k, value(k, vs, a, *l) + value(k, vs, a, *r)),
        IrExprV::Sub(l, r) => norm(k, value(k, vs, a, *l) - value(k, vs, a, *r)),
        IrExprV::Mul(l, r) => norm(k, value(k, vs, a, *l) * value(k, vs, a, *r)),
        IrExprV::Div(l, r) => arbitrary(),
    }
}

/// The values of expressions.
pub open spec fn all_values(
    k: Numbers,
    vs: Seq<VarV>,
    a: spec_fn(Seq<char>) -> int,
    v: Seq<IrExprV>,
) -> Seq<int> {
    v.map_values(|e: IrExprV| value(k, vs, a, e))
}

/// Whether a constraint holds, by the values of the variables and by the functions that
/// calls stand for: of a component, a field, and arguments.
pub open spec fn holds(
    k: Numbers,
    vs: Seq<VarV>,
    a: spec_fn(Seq<char>) -> int,
    f: spec_fn(Seq<char>, Seq<char>, Seq<int>) -> int,
    c: ConstraintV,
) -> bool {
    match c {
        ConstraintV::Eq { lhs, rhs, .. } => value(k, vs, a, lhs) == value(k, vs, a, rhs),
        ConstraintV::IsZero { result, expr } => a(result) == if value(k, vs, a, expr) == 0 {
            1int
        } else {
            0int
        },
        ConstraintV::Call { component, args, outputs } => forall|i: int|
            0 <= i < outputs.len() ==> a((#[trigger] outputs[i]).1) == f(
                component,
                outputs[i].0,
                all_values(k, vs, a, args),
            ),
    }
}

/// Whether the variables lie in their ranges.
pub open spec fn in_ranges(vs: Seq<VarV>, a: spec_fn(Seq<char>) -> int) -> bool {
    forall|i: int| 0 <= i < vs.len() ==> 0 <= a((#[trigger] vs[i]).name) <= max_value(vs[i].vtype)
}

/// Whether constraints hold.
pub open spec fn all_hold(
    k: Numbers,
    vs: Seq<VarV>,
    a: spec_fn(Seq<char>) -> int,
    f: spec_fn(Seq<char>, Seq<char>, Seq<int>) -> int,
    cs: Seq<ConstraintV>,
) -> bool {
    forall|i: int| 0 <= i < cs.len() ==> holds(k, vs, a, f, #[trigger] cs[i])
}

/// Whether values are those of a run of an instruction.
pub open spec fn is_run(
    k: Numbers,
    s: SpecV,
    a: spec_fn(Seq<char>) -> int,
    f: spec_fn(Seq<char>, Seq<char>, Seq<int>) -> int,
) -> bool {
    &&& in_ranges(s.all_vars(), a)
    &&& all_hold(k, s.all_vars(), a, f, s.constraints)
}

/// Whether variables have the same values in two runs.
pub open spec fn same_values(
    vs: Seq<VarV>,
    a: spec_fn(Seq<char>) -> int,
    b: spec_fn(Seq<char>) -> int,
) -> bool {
    forall|i: int| 0 <= i < vs.len() ==> a((#[trigger] vs[i]).name) == b(vs[i].name)
}

/// Whether two runs show that an instruction is not deterministic.
pub open spec fn is_counterexample(
    k: Numbers,
    s: SpecV,
    a: spec_fn(Seq<char>) -> int,
    b: spec_fn(Seq<char>) -> int,
    f: spec_fn(Seq<char>, Seq<char>, Seq<int>) -> int,
) -> bool {
    &&& is_run(k, s, a, f)
    &&& is_run(k, s, b, f)
    &&& same_values(s.inputs, a, b)
    &&& !same_values(s.outputs, a, b)
}

/// Whether an instruction is deterministic: any two runs with the same inputs, in which
/// calls stand for the same functions, have the same outputs.
pub open spec fn deterministic(k: Numbers, s: SpecV) -> bool {
    forall|
        a: spec_fn(Seq<char>) -> int,
        b: spec_fn(Seq<char>) -> int,
        f: spec_fn(Seq<char>, Seq<char>, Seq<int>) -> int,
    |
        !is_counterexample(k, s, a, b, f)
}

/// More constraints leave a deterministic instruction deterministic.
pub proof fn lemma_more_constraints(k: Numbers, s: SpecV, t: SpecV)
    requires
        deterministic(k, s),
        t.inputs == s.inputs,
        t.outputs == s.outputs,
        t.internals == s.internals,
        forall|i: int|
            0 <= i < s.constraints.len() ==> t.constraints.contains(#[trigger] s.constraints[i]),
    ensures
        deterministic(k, t),
{
    assert forall|
        a: spec_fn(Seq<char>) -> int,
        b: spec_fn(Seq<char>) -> int,
        f: spec_fn(Seq<char>, Seq<char>, Seq<int>) -> int,
    |
        !is_counterexample(k, t, a, b, f) by {
        if is_counterexample(k, t, a, b, f) {
            lemma_fewer_hold(k, s.all_vars(), a, f, s.constraints, t.constraints);
            lemma_fewer_hold(k, s.all_vars(), b, f, s.constraints, t.constraints);
            assert(is_counterexample(k, s, a, b, f));
        }
    }
}

proof fn lemma_fewer_hold(
    k: Numbers,
    vs: Seq<VarV>,
    a: spec_fn(Seq<char>) -> int,
    f: spec_fn(Seq<char>, Seq<char>, Seq<int>) -> int,
    cs: Seq<ConstraintV>,
    ds: Seq<ConstraintV>,
)
    requires
        all_hold(k, vs, a, f, ds),
        forall|i: int| 0 <= i < cs.len() ==> ds.contains(#[trigger] cs[i]),
    ensures
        all_hold(k, vs, a, f, cs),
{
    assert forall|i: int| 0 <= i < cs.len() implies holds(k, vs, a, f, #[trigger] cs[i]) by {
        let j = choose|j: int| 0 <= j < ds.len() && ds[j] == cs[i];
        assert(holds(k, vs, a, f, ds[j]));
    }
}

/// Whether there is no division in an expression.
pub open spec fn divisionless(e: IrExprV) -> bool
    decreases e,
{
    match e {
        IrExprV::Const(_) => true,
        IrExprV::Var(_) => true,
        IrExprV::Add(l, r) => divisionless(*l) && divisionless(*r),
        IrExprV::Sub(l, r) => divisionless(*l) && divisionless(*r),
        IrExprV::Mul(l, r) => divisionless(*l) && divisionless(*r),
        IrExprV::Div(l, r) => false,
    }
}

/// Whether there is no division in a constraint.
pub open spec fn divisionless_constraint(c: ConstraintV) -> bool {
    match c {
        ConstraintV::Eq { lhs, rhs, .. } => divisionless(lhs) && divisionless(rhs),
        ConstraintV::IsZero { expr, .. } => divisionless(expr),
        ConstraintV::Call { args, .. } => forall|i: int|
            0 <= i < args.len() ==> divisionless(#[trigger] args[i]),
    }
}

/// Whether there is no division in constraints.
pub open spec fn all_divisionless(cs: Seq<ConstraintV>) -> bool {
    forall|i: int| 0 <= i < cs.len() ==> divisionless_constraint(#[trigger] cs[i])
}

/// Whether variables still have different names when dots are underscores.
pub open spec fn names_apart(vs: Seq<VarV>) -> bool {
    forall|i: int, j: int|
        0 <= i < vs.len() && 0 <= j < vs.len() && undotted((#[trigger] vs[i]).name) == undotted(
            (#[trigger] vs[j]).name,
        ) ==> vs[i].name == vs[j].name
}

/// The names of a variable in the two runs differ, and so do those of two variables whose
/// names do not only differ in dots.
pub proof fn lemma_instances_apart(x: Seq<char>, y: Seq<char>, s: Side, t: Side)
    ensures
        instance(x, s) == instance(y, t) <==> undotted(x) == undotted(y) && s == t,
{
    reveal_strlit("_1");
    reveal_strlit("_2");
    let a = instance(x, s);
    let b = instance(y, t);
    assert(a.len() == undotted(x).len() + 2 && b.len() == undotted(y).len() + 2);
    assert(a.last() == suffix(s)[1] && b.last() == suffix(t)[1]);
    if a == b {
        assert(undotted(x) =~= a.take(a.len() - 2));
        assert(undotted(y) =~= b.take(b.len() - 2));
    }
}

/// The values of the variables in one of the runs, by values of their names there.
pub open spec fn side_values(m: spec_fn(Seq<char>) -> int, s: Side) -> spec_fn(Seq<char>) -> int {
    |x: Seq<char>| m(instance(x, s))
}

/// Whether variable `i` has a name in one of the runs.
pub open spec fn is_name_of(vs: Seq<VarV>, i: int, n: Seq<char>, s: Side) -> bool {
    0 <= i < vs.len() && instance(vs[i].name, s) == n
}

/// The value of a name in one of the runs, by the values of the variables there.
pub open spec fn named_value(
    vs: Seq<VarV>,
    a: spec_fn(Seq<char>) -> int,
    n: Seq<char>,
    s: Side,
) -> int {
    a(vs[choose|i: int| is_name_of(vs, i, n, s)].name)
}

/// Values of the names in both runs, by the values of the variables in each.
pub open spec fn merged(
    vs: Seq<VarV>,
    a: spec_fn(Seq<char>) -> int,
    b: spec_fn(Seq<char>) -> int,
) -> spec_fn(Seq<char>) -> int {
    |n: Seq<char>|
        if exists|i: int| is_name_of(vs, i, n, Side::First) {
            named_value(vs, a, n, Side::First)
        } else if exists|i: int| is_name_of(vs, i, n, Side::Second) {
            named_value(vs, b, n, Side::Second)
        } else {
            0
        }
}

/// The value of the name of a variable is the value of the variable.
proof fn lemma_named_value(
    vs: Seq<VarV>,
    a: spec_fn(Seq<char>) -> int,
    x: Seq<char>,
    s: Side,
)
    requires
        names_apart(vs),
        declared(vs, x),
    ensures
        exists|i: int| is_name_of(vs, i, instance(x, s), s),
        named_value(vs, a, instance(x, s), s) == a(x),
{
    let n = instance(x, s);
    let k = choose|k: int| 0 <= k < vs.len() && (#[trigger] vs[k]).name == x;
    assert(is_name_of(vs, k, n, s));
    let i = choose|i: int| is_name_of(vs, i, n, s);
    lemma_instances_apart(vs[i].name, vs[k].name, s, s);
    assert(vs[i].name == vs[k].name);
}

/// Merged values give back the values in each run.
pub proof fn lemma_merged(
    vs: Seq<VarV>,
    a: spec_fn(Seq<char>) -> int,
    b: spec_fn(Seq<char>) -> int,
)
    requires
        names_apart(vs),
    ensures
        agree_on(vs, side_values(merged(vs, a, b), Side::First), a),
        agree_on(vs, side_values(merged(vs, a, b), Side::Second), b),
{
    let m = merged(vs, a, b);
    let m1 = side_values(m, Side::First);
    let m2 = side_values(m, Side::Second);
    assert forall|x: Seq<char>| declared(vs, x) implies #[trigger] m1(x) == a(x) by {
        lemma_named_value(vs, a, x, Side::First);
    }
    assert forall|x: Seq<char>| declared(vs, x) implies #[trigger] m2(x) == b(x) by {
        lemma_named_value(vs, b, x, Side::Second);
        let n = instance(x, Side::Second);
        assert forall|i: int| !is_name_of(vs, i, n, Side::First) by {
            if 0 <= i < vs.len() {
                lemma_instances_apart(vs[i].name, x, Side::First, Side::Second);
            }
        }
    }
}

/// Whether values agree on variables.
pub open spec fn agree_on(
    vs: Seq<VarV>,
    a: spec_fn(Seq<char>) -> int,
    b: spec_fn(Seq<char>) -> int,
) -> bool {
    forall|x: Seq<char>| declared(vs, x) ==> #[trigger] a(x) == b(x)
}

/// The value of an expression depends on the values of the variables alone.
pub proof fn lemma_value_agrees(
    k: Numbers,
    vs: Seq<VarV>,
    a: spec_fn(Seq<char>) -> int,
    b: spec_fn(Seq<char>) -> int,
    e: IrExprV,
)
    requires
        agree_on(vs, a, b),
        divisionless(e),
    ensures
        value(k, vs, a, e) == value(k, vs, b, e),
    decreases e,
{
    match e {
        IrExprV::Add(l, r) => {
            lemma_value_agrees(k, vs, a, b, *l);
            lemma_value_agrees(k, vs, a, b, *r);
        },
        IrExprV::Sub(l, r) => {
            lemma_value_agrees(k, vs, a, b, *l);
            lemma_value_agrees(k, vs, a, b, *r);
        },
        IrExprV::Mul(l, r) => {
            lemma_value_agrees(k, vs, a, b, *l);
            lemma_value_agrees(k, vs, a, b, *r);
        },
        _ => {},
    }
}

/// Whether the variables that a constraint determines are known.
pub open spec fn results_known(vs: Seq<VarV>, c: ConstraintV) -> bool {
    match c {
        ConstraintV::Eq { .. } => true,
        ConstraintV::IsZero { result, .. } => declared(vs, result),
        ConstraintV::Call { outputs, .. } => forall|i: int|
            0 <= i < outputs.len() ==> declared(vs, (#[trigger] outputs[i]).1),
    }
}

/// Whether functions agree on the outputs of a call.
pub open spec fn agree_for(
    f: spec_fn(Seq<char>, Seq<char>, Seq<int>) -> int,
    g: spec_fn(Seq<char>, Seq<char>, Seq<int>) -> int,
    c: ConstraintV,
) -> bool {
    match c {
        ConstraintV::Call { component, outputs, .. } => forall|i: int, v: Seq<int>|
            0 <= i < outputs.len() ==> f(component, (#[trigger] outputs[i]).0, v) == #[trigger] g(
                component,
                outputs[i].0,
                v,
            ),
        _ => true,
    }
}

/// Whether a constraint holds depends on the values of the variables and on the functions
/// of its outputs alone.
pub proof fn lemma_holds_agrees(
    k: Numbers,
    vs: Seq<VarV>,
    a: spec_fn(Seq<char>) -> int,
    b: spec_fn(Seq<char>) -> int,
    f: spec_fn(Seq<char>, Seq<char>, Seq<int>) -> int,
    g: spec_fn(Seq<char>, Seq<char>, Seq<int>) -> int,
    c: ConstraintV,
)
    requires
        agree_on(vs, a, b),
        agree_for(f, g, c),
        divisionless_constraint(c),
        results_known(vs, c),
    ensures
        holds(k, vs, a, f, c) == holds(k, vs, b, g, c),
{
    match c {
        ConstraintV::Eq { lhs, rhs, .. } => {
            lemma_value_agrees(k, vs, a, b, lhs);
            lemma_value_agrees(k, vs, a, b, rhs);
        },
        ConstraintV::IsZero { result, expr } => {
            lemma_value_agrees(k, vs, a, b, expr);
        },
        ConstraintV::Call { component, args, outputs } => {
            assert forall|i: int| 0 <= i < args.len() implies value(k, vs, a, args[i]) == value(
                k,
                vs,
                b,
                #[trigger] args[i],
            ) by {
                assert(divisionless(args[i]));
                lemma_value_agrees(k, vs, a, b, args[i]);
            }
            let v = all_values(k, vs, a, args);
            assert(v =~= all_values(k, vs, b, args));
            assert forall|i: int| 0 <= i < outputs.len() implies (a((#[trigger] outputs[i]).1) == f(
                component,
                outputs[i].0,
                v,
            )) == (b(outputs[i].1) == g(component, outputs[i].0, v)) by {
                assert(declared(vs, outputs[i].1));
                assert(a(outputs[i].1) == b(outputs[i].1));
                assert(f(component, outputs[i].0, v) == g(component, outputs[i].0, v));
            }
        },
    }
}

/// Values that agree on the variables lie in the same ranges and are the same for the same
/// variables.
pub proof fn lemma_same_on_vars(
    s: SpecV,
    a: spec_fn(Seq<char>) -> int,
    b: spec_fn(Seq<char>) -> int,
    a2: spec_fn(Seq<char>) -> int,
    b2: spec_fn(Seq<char>) -> int,
)
    requires
        agree_on(s.all_vars(), a2, a),
        agree_on(s.all_vars(), b2, b),
    ensures
        in_ranges(s.all_vars(), a) ==> in_ranges(s.all_vars(), a2),
        in_ranges(s.all_vars(), b) ==> in_ranges(s.all_vars(), b2),
        same_values(s.inputs, a, b) == same_values(s.inputs, a2, b2),
        same_values(s.outputs, a, b) == same_values(s.outputs, a2, b2),
{
    let vs = s.all_vars();
    assert forall|i: int| 0 <= i < vs.len() implies a2((#[trigger] vs[i]).name) == a(vs[i].name)
        && b2(vs[i].name) == b(vs[i].name) by {
        assert(declared(vs, vs[i].name));
    }
    assert forall|i: int| 0 <= i < s.inputs.len() implies a2((#[trigger] s.inputs[i]).name) == a(
        s.inputs[i].name,
    ) && b2(s.inputs[i].name) == b(s.inputs[i].name) by {
        assert(vs[i] == s.inputs[i]);
    }
    assert forall|i: int| 0 <= i < s.outputs.len() implies a2((#[trigger] s.outputs[i]).name) == a(
        s.outputs[i].name,
    ) && b2(s.outputs[i].name) == b(s.outputs[i].name) by {
        assert(vs[i + s.inputs.len()] == s.outputs[i]);
    }
}

/// Calls with the same arguments have the same outputs: in two runs in which calls stand
/// for the same functions, an output of a call has the same value where the arguments have.
pub proof fn lemma_same_args_same_outputs(
    k: Numbers,
    vs: Seq<VarV>,
    a: spec_fn(Seq<char>) -> int,
    b: spec_fn(Seq<char>) -> int,
    f: spec_fn(Seq<char>, Seq<char>, Seq<int>) -> int,
    c: ConstraintV,
    i: int,
)
    requires
        c is Call,
        0 <= i < c->outputs.len(),
        holds(k, vs, a, f, c),
        holds(k, vs, b, f, c),
        all_values(k, vs, a, c->args) == all_values(k, vs, b, c->args),
    ensures
        a(c->outputs[i].1) == b(c->outputs[i].1),
{
    match c {
        ConstraintV::Call { component, args, outputs } => {
            assert(a(outputs[i].1) == f(component, outputs[i].0, all_values(k, vs, a, args)));
            assert(b(outputs[i].1) == f(component, outputs[i].0, all_values(k, vs, b, args)));
        },
        _ => {},
    }
}

} // verus!
