//! What a script or a system speaks of is declared.

use vstd::prelude::*;
use crate::ir::{ConstraintV, IrExprV, SpecV, VarType, VarV};
use crate::laws::finite::{all_known, constraint_known, known};
use crate::model::{declared, instance, unknowns, Side};
use crate::smt::{int_function_parts, StepV};
use crate::verifier_bv::{bv_expr, bv_plan, BvTerm};
use crate::verifier_ff::{
    bit_formula, ff_constraint, ff_constraints, ff_declarations, ff_differ, ff_differs, ff_expr,
    ff_exprs, ff_functions, ff_is_zero, ff_logic, ff_outputs, ff_range, ff_ranges, ff_same,
    ff_same_inputs, ff_script, ff_symbol, ff_symbols, ff_var, ff_with_outputs, has_bits, has_calls,
    has_symbol, range_bit, range_bits, range_sum, twit_formula, weighted_bit, FfCommand, FfFormula,
    FfTerm,
};
use crate::verifier_int::{
    functions, has_uf, int_declaration, int_declarations, int_expr, int_plan, int_ranges,
    int_same_inputs, int_start, stands_for, symbol, with_outputs, IntTerm, Uf,
};
use crate::verifier_msolve::{
    factor, ms_bits, ms_constraint, ms_constraints, ms_differ, ms_expr, ms_has_bits, ms_names,
    ms_outputs, ms_range, ms_ranges, ms_same_inputs, ms_system, Poly, PolyExpr,
};

verus! {

/// Whether a variable stands in a term.
pub open spec fn term_uses(t: FfTerm, x: Seq<char>) -> bool
    decreases t,
{
    match t {
        FfTerm::Var(y) => y == x,
        FfTerm::Number(_) => false,
        FfTerm::Neg(a) => term_uses(*a, x),
        FfTerm::Add(a, b) => term_uses(*a, x) || term_uses(*b, x),
        FfTerm::Mul(a, b) => term_uses(*a, x) || term_uses(*b, x),
        FfTerm::Call(_, args) => exists|i: int|
            0 <= i < args.len() && term_uses(#[trigger] args[i], x),
    }
}

/// Whether a variable stands in a formula.
pub open spec fn formula_uses(f: FfFormula, x: Seq<char>) -> bool
    decreases f,
{
    match f {
        FfFormula::Equal(a, b) => term_uses(a, x) || term_uses(b, x),
        FfFormula::Not(a) => formula_uses(*a, x),
        FfFormula::And(a, b) => formula_uses(*a, x) || formula_uses(*b, x),
        FfFormula::Or(a, b) => formula_uses(*a, x) || formula_uses(*b, x),
        FfFormula::Any(v) => exists|i: int| 0 <= i < v.len() && formula_uses(#[trigger] v[i], x),
    }
}

/// Whether the command at `n` speaks of a variable.
pub open spec fn uses_at(s: Seq<FfCommand>, n: int, x: Seq<char>) -> bool {
    s[n] matches FfCommand::Assert(f) && formula_uses(f, x)
}

/// Whether one of the first `n` commands declares a variable.
pub open spec fn declares(s: Seq<FfCommand>, n: int, x: Seq<char>) -> bool {
    exists|j: int| 0 <= j < n && j < s.len() && #[trigger] s[j] == FfCommand::DeclareConst(x)
}

/// Whether each variable that a command speaks of is one of some others or is declared before it.
pub open spec fn closed(s: Seq<FfCommand>, others: spec_fn(Seq<char>) -> bool) -> bool {
    forall|n: int, x: Seq<char>|
        0 <= n < s.len() && #[trigger] uses_at(s, n, x) ==> others(x) || declares(s, n, x)
}

proof fn lemma_closed_add(a: Seq<FfCommand>, b: Seq<FfCommand>, k: spec_fn(Seq<char>) -> bool)
    requires
        closed(a, k),
        closed(b, k),
    ensures
        closed(a + b, k),
{
    let c = a + b;
    assert forall|n: int, x: Seq<char>| 0 <= n < c.len() && #[trigger] uses_at(c, n, x) implies k(
        x,
    ) || declares(c, n, x) by {
        if n < a.len() {
            assert(uses_at(a, n, x));
            if declares(a, n, x) {
                let j = choose|j: int|
                    0 <= j < n && j < a.len() && #[trigger] a[j] == FfCommand::DeclareConst(x);
                assert(c[j] == a[j]);
            }
        } else {
            let m = n - a.len();
            assert(uses_at(b, m, x));
            if declares(b, m, x) {
                let j = choose|j: int|
                    0 <= j < m && j < b.len() && #[trigger] b[j] == FfCommand::DeclareConst(x);
                assert(c[j + a.len()] == b[j]);
            }
        }
    }
}

proof fn lemma_closed_behind(a: Seq<FfCommand>, b: Seq<FfCommand>, k: spec_fn(Seq<char>) -> bool)
    requires
        closed(a, |x: Seq<char>| false),
        closed(b, k),
        forall|x: Seq<char>| #[trigger] k(x) ==> declares(a, a.len() as int, x),
    ensures
        closed(a + b, |x: Seq<char>| false),
{
    let c = a + b;
    let none = |x: Seq<char>| false;
    assert forall|n: int, x: Seq<char>| 0 <= n < c.len() && #[trigger] uses_at(
        c,
        n,
        x,
    ) implies declares(c, n, x) by {
        if n < a.len() {
            assert(uses_at(a, n, x));
            assert(none(x) || declares(a, n, x));
            let j = choose|j: int|
                0 <= j < n && j < a.len() && #[trigger] a[j] == FfCommand::DeclareConst(x);
            assert(c[j] == a[j]);
        } else {
            let m = n - a.len();
            assert(uses_at(b, m, x));
            if k(x) {
                let j = choose|j: int|
                    0 <= j < a.len() && j < a.len() && #[trigger] a[j] == FfCommand::DeclareConst(
                        x,
                    );
                assert(c[j] == a[j]);
            } else {
                let j = choose|j: int|
                    0 <= j < m && j < b.len() && #[trigger] b[j] == FfCommand::DeclareConst(x);
                assert(c[j + a.len()] == b[j]);
            }
        }
    }
}

proof fn lemma_closed_assert(a: Seq<FfCommand>, f: FfFormula, k: spec_fn(Seq<char>) -> bool)
    requires
        closed(a, k),
        forall|x: Seq<char>| #[trigger] formula_uses(f, x) ==> k(x) || declares(a, a.len() as int, x),
    ensures
        closed(a.push(FfCommand::Assert(f)), k),
{
    let c = a.push(FfCommand::Assert(f));
    assert forall|n: int, x: Seq<char>| 0 <= n < c.len() && #[trigger] uses_at(c, n, x) implies k(
        x,
    ) || declares(c, n, x) by {
        if n < a.len() {
            assert(uses_at(a, n, x));
            if declares(a, n, x) {
                let j = choose|j: int|
                    0 <= j < n && j < a.len() && #[trigger] a[j] == FfCommand::DeclareConst(x);
                assert(c[j] == a[j]);
            }
        } else {
            assert(formula_uses(f, x));
            if declares(a, a.len() as int, x) {
                let j = choose|j: int|
                    0 <= j < a.len() && j < a.len() && #[trigger] a[j] == FfCommand::DeclareConst(
                        x,
                    );
                assert(c[j] == a[j]);
            }
        }
    }
}

proof fn lemma_closed_declare(a: Seq<FfCommand>, y: Seq<char>, k: spec_fn(Seq<char>) -> bool)
    requires
        closed(a, k),
    ensures
        closed(a.push(FfCommand::DeclareConst(y)), k),
        declares(a.push(FfCommand::DeclareConst(y)), a.len() as int + 1, y),
        forall|x: Seq<char>| #[trigger]
            declares(a, a.len() as int, x) ==> declares(
                a.push(FfCommand::DeclareConst(y)),
                a.len() as int + 1,
                x,
            ),
{
    let c = a.push(FfCommand::DeclareConst(y));
    assert(c[a.len() as int] == FfCommand::DeclareConst(y));
    assert forall|x: Seq<char>| #[trigger] declares(a, a.len() as int, x) implies declares(
        c,
        a.len() as int + 1,
        x,
    ) by {
        let j = choose|j: int|
            0 <= j < a.len() && j < a.len() && #[trigger] a[j] == FfCommand::DeclareConst(x);
        assert(c[j] == a[j]);
    }
    assert forall|n: int, x: Seq<char>| 0 <= n < c.len() && #[trigger] uses_at(c, n, x) implies k(
        x,
    ) || declares(c, n, x) by {
        assert(n < a.len());
        assert(uses_at(a, n, x));
        if declares(a, n, x) {
            let j = choose|j: int|
                0 <= j < n && j < a.len() && #[trigger] a[j] == FfCommand::DeclareConst(x);
            assert(c[j] == a[j]);
        }
    }
}

/// Whether a name is that of one of some variables in one of the runs.
pub open spec fn is_instance(vs: Seq<VarV>, x: Seq<char>) -> bool {
    exists|i: int, side: Side| 0 <= i < vs.len() && x == #[trigger] instance(vs[i].name, side)
}

proof fn lemma_is_instance(vs: Seq<VarV>, y: Seq<char>, side: Side)
    requires
        declared(vs, y),
    ensures
        is_instance(vs, instance(y, side)),
{
    let i = choose|i: int| 0 <= i < vs.len() && (#[trigger] vs[i]).name == y;
    assert(instance(y, side) == instance(vs[i].name, side));
}

proof fn lemma_expr_uses(vs: Seq<VarV>, e: IrExprV, side: Side, x: Seq<char>)
    requires
        known(vs, e),
        term_uses(ff_expr(e, side), x),
    ensures
        is_instance(vs, x),
    decreases e,
{
    reveal_with_fuel(term_uses, 3);
    match e {
        IrExprV::Const(_) => {},
        IrExprV::Var(y) => {
            lemma_is_instance(vs, y, side);
        },
        IrExprV::Add(a, b) => {
            assert(unknowns(e, vs) == unknowns(*a, vs) + unknowns(*b, vs));
            if term_uses(ff_expr(*a, side), x) {
                lemma_expr_uses(vs, *a, side, x);
            } else {
                lemma_expr_uses(vs, *b, side, x);
            }
        },
        IrExprV::Sub(a, b) => {
            assert(unknowns(e, vs) == unknowns(*a, vs) + unknowns(*b, vs));
            if term_uses(ff_expr(*a, side), x) {
                lemma_expr_uses(vs, *a, side, x);
            } else {
                lemma_expr_uses(vs, *b, side, x);
            }
        },
        IrExprV::Mul(a, b) => {
            assert(unknowns(e, vs) == unknowns(*a, vs) + unknowns(*b, vs));
            if term_uses(ff_expr(*a, side), x) {
                lemma_expr_uses(vs, *a, side, x);
            } else {
                lemma_expr_uses(vs, *b, side, x);
            }
        },
        IrExprV::Div(a, b) => {
            assert(unknowns(e, vs) == unknowns(*a, vs) + unknowns(*b, vs));
            if term_uses(ff_expr(*a, side), x) {
                lemma_expr_uses(vs, *a, side, x);
            } else {
                lemma_expr_uses(vs, *b, side, x);
            }
        },
    }
}

proof fn lemma_bit_formula_uses(t: FfTerm, x: Seq<char>)
    requires
        formula_uses(bit_formula(t), x) || formula_uses(twit_formula(t), x),
    ensures
        term_uses(t, x),
{
    reveal_with_fuel(term_uses, 8);
}

proof fn lemma_sum_uses(y: Seq<char>, n: nat, x: Seq<char>)
    requires
        n > 0,
        term_uses(range_sum(y, n), x),
    ensures
        exists|i: nat| i < n && x == #[trigger] range_bit(y, i),
    decreases n,
{
    reveal_with_fuel(term_uses, 4);
    if n > 1 {
        let k = (n - 1) as nat;
        if term_uses(range_sum(y, k), x) {
            lemma_sum_uses(y, k, x);
            let i = choose|i: nat| i < k && x == #[trigger] range_bit(y, i);
            assert(i < n && x == range_bit(y, i));
        } else {
            assert(term_uses(weighted_bit(y, k), x));
            assert(x == range_bit(y, k));
        }
    } else {
        assert(x == range_bit(y, 0));
    }
}

proof fn lemma_range_bits_closed(y: Seq<char>, n: nat, k: spec_fn(Seq<char>) -> bool)
    ensures
        closed(range_bits(y, n), k),
        forall|i: nat|
            i < n ==> declares(
                range_bits(y, n),
                range_bits(y, n).len() as int,
                #[trigger] range_bit(y, i),
            ),
    decreases n,
{
    if n > 0 {
        let m = (n - 1) as nat;
        lemma_range_bits_closed(y, m, k);
        let b = range_bit(y, m);
        let before = range_bits(y, m);
        let mid = before.push(FfCommand::DeclareConst(b));
        let f = bit_formula(FfTerm::Var(b));
        lemma_closed_declare(before, b, k);
        assert forall|x: Seq<char>| #[trigger] formula_uses(f, x) implies k(x) || declares(
            mid,
            mid.len() as int,
            x,
        ) by {
            lemma_bit_formula_uses(FfTerm::Var(b), x);
        }
        lemma_closed_assert(mid, f, k);
        let all = range_bits(y, n);
        assert(all == mid.push(FfCommand::Assert(f)));
        assert forall|i: nat| i < n implies declares(
            all,
            all.len() as int,
            #[trigger] range_bit(y, i),
        ) by {
            let x = range_bit(y, i);
            if i < m {
                assert(declares(before, before.len() as int, x));
            }
            assert(declares(mid, mid.len() as int, x));
            let j = choose|j: int|
                0 <= j < mid.len() && j < mid.len() && #[trigger] mid[j]
                    == FfCommand::DeclareConst(x);
            assert(all[j] == mid[j]);
        }
    }
}

proof fn lemma_has_bits_closed(y: Seq<char>, n: nat, k: spec_fn(Seq<char>) -> bool)
    requires
        n > 0,
        k(y),
    ensures
        closed(has_bits(y, n), k),
{
    lemma_range_bits_closed(y, n, k);
    let before = range_bits(y, n);
    let f = FfFormula::Equal(FfTerm::Var(y), range_sum(y, n));
    assert forall|x: Seq<char>| #[trigger] formula_uses(f, x) implies k(x) || declares(
        before,
        before.len() as int,
        x,
    ) by {
        if x != y {
            lemma_sum_uses(y, n, x);
        }
    }
    lemma_closed_assert(before, f, k);
}

proof fn lemma_closed_empty(k: spec_fn(Seq<char>) -> bool)
    ensures
        closed(Seq::empty(), k),
{
}

proof fn lemma_closed_one(f: FfFormula, k: spec_fn(Seq<char>) -> bool)
    requires
        forall|x: Seq<char>| #[trigger] formula_uses(f, x) ==> k(x),
    ensures
        closed(seq![FfCommand::Assert(f)], k),
{
    lemma_closed_empty(k);
    lemma_closed_assert(Seq::empty(), f, k);
    assert(Seq::empty().push(FfCommand::Assert(f)) =~= seq![FfCommand::Assert(f)]);
}

proof fn lemma_range_closed(v: VarV, internal: bool, side: Side, k: spec_fn(Seq<char>) -> bool)
    requires
        k(instance(v.name, side)),
    ensures
        closed(ff_range(v, internal, side), k),
{
    let x = instance(v.name, side);
    lemma_closed_empty(k);
    match v.vtype {
        VarType::Bit => {
            assert forall|y: Seq<char>| #[trigger]
                formula_uses(bit_formula(FfTerm::Var(x)), y) implies k(y) by {
                lemma_bit_formula_uses(FfTerm::Var(x), y);
            }
            lemma_closed_one(bit_formula(FfTerm::Var(x)), k);
        },
        VarType::Twit => {
            assert forall|y: Seq<char>| #[trigger]
                formula_uses(twit_formula(FfTerm::Var(x)), y) implies k(y) by {
                lemma_bit_formula_uses(FfTerm::Var(x), y);
            }
            lemma_closed_one(twit_formula(FfTerm::Var(x)), k);
        },
        VarType::U8 => {
            if internal {
                lemma_has_bits_closed(x, 8, k);
            }
        },
        VarType::U16 => {
            if internal {
                lemma_has_bits_closed(x, 16, k);
            }
        },
        _ => {},
    }
}

proof fn lemma_ranges_closed(
    vs: Seq<VarV>,
    internals: Seq<VarV>,
    n: nat,
    k: spec_fn(Seq<char>) -> bool,
)
    requires
        n <= vs.len(),
        forall|x: Seq<char>| #[trigger] is_instance(vs, x) ==> k(x),
    ensures
        closed(ff_ranges(vs, internals, n), k),
    decreases n,
{
    lemma_closed_empty(k);
    if n > 0 {
        let m = (n - 1) as nat;
        lemma_ranges_closed(vs, internals, m, k);
        let v = vs[n - 1];
        let internal = declared(internals, v.name);
        assert(declared(vs, v.name));
        lemma_is_instance(vs, v.name, Side::First);
        lemma_is_instance(vs, v.name, Side::Second);
        lemma_range_closed(v, internal, Side::First, k);
        lemma_range_closed(v, internal, Side::Second, k);
        lemma_closed_add(ff_ranges(vs, internals, m), ff_range(v, internal, Side::First), k);
        lemma_closed_add(
            ff_ranges(vs, internals, m) + ff_range(v, internal, Side::First),
            ff_range(v, internal, Side::Second),
            k,
        );
    }
}

proof fn lemma_same_uses(vs: Seq<VarV>, y: Seq<char>, x: Seq<char>)
    requires
        declared(vs, y),
        formula_uses(ff_same(y), x) || formula_uses(ff_differs(y), x),
    ensures
        is_instance(vs, x),
{
    reveal_with_fuel(formula_uses, 3);
    reveal_with_fuel(term_uses, 2);
    lemma_is_instance(vs, y, Side::First);
    lemma_is_instance(vs, y, Side::Second);
}

proof fn lemma_same_inputs_closed(
    vs: Seq<VarV>,
    all: Seq<VarV>,
    n: nat,
    k: spec_fn(Seq<char>) -> bool,
)
    requires
        n <= vs.len(),
        forall|i: int| 0 <= i < vs.len() ==> declared(all, (#[trigger] vs[i]).name),
        forall|x: Seq<char>| #[trigger] is_instance(all, x) ==> k(x),
    ensures
        closed(ff_same_inputs(vs, n), k),
    decreases n,
{
    lemma_closed_empty(k);
    if n > 0 {
        let m = (n - 1) as nat;
        lemma_same_inputs_closed(vs, all, m, k);
        let y = vs[n - 1].name;
        assert forall|x: Seq<char>| #[trigger] formula_uses(ff_same(y), x) implies k(x)
            || declares(ff_same_inputs(vs, m), ff_same_inputs(vs, m).len() as int, x) by {
            lemma_same_uses(all, y, x);
        }
        lemma_closed_assert(ff_same_inputs(vs, m), ff_same(y), k);
    }
}

proof fn lemma_outputs_closed(
    vs: Seq<VarV>,
    c: ConstraintV,
    side: Side,
    n: nat,
    k: spec_fn(Seq<char>) -> bool,
)
    requires
        c is Call,
        n <= c->outputs.len(),
        constraint_known(vs, c),
        forall|x: Seq<char>| #[trigger] is_instance(vs, x) ==> k(x),
    ensures
        closed(ff_outputs(c->component, ff_exprs(c->args, side), c->outputs, side, n), k),
    decreases n,
{
    lemma_closed_empty(k);
    if n > 0 {
        let m = (n - 1) as nat;
        lemma_outputs_closed(vs, c, side, m, k);
        let args = ff_exprs(c->args, side);
        let before = ff_outputs(c->component, args, c->outputs, side, m);
        let call = FfTerm::Call(ff_symbol(c->component, c->outputs[n - 1].0), args);
        let f = FfFormula::Equal(ff_var(c->outputs[n - 1].1, side), call);
        assert forall|x: Seq<char>| #[trigger] formula_uses(f, x) implies k(x) || declares(
            before,
            before.len() as int,
            x,
        ) by {
            if term_uses(call, x) {
                let i = choose|i: int| 0 <= i < args.len() && term_uses(#[trigger] args[i], x);
                assert(args[i] == ff_expr(c->args[i], side));
                lemma_expr_uses(vs, c->args[i], side, x);
            } else {
                lemma_is_instance(vs, c->outputs[n - 1].1, side);
            }
        }
        lemma_closed_assert(before, f, k);
    }
}

proof fn lemma_constraint_closed(
    vs: Seq<VarV>,
    c: ConstraintV,
    side: Side,
    k: spec_fn(Seq<char>) -> bool,
)
    requires
        constraint_known(vs, c),
        forall|x: Seq<char>| #[trigger] is_instance(vs, x) ==> k(x),
    ensures
        closed(ff_constraint(c, side), k),
{
    match c {
        ConstraintV::Eq { lhs, rhs, .. } => {
            let f = FfFormula::Equal(ff_expr(lhs, side), ff_expr(rhs, side));
            assert forall|x: Seq<char>| #[trigger] formula_uses(f, x) implies k(x) by {
                if term_uses(ff_expr(lhs, side), x) {
                    lemma_expr_uses(vs, lhs, side, x);
                } else {
                    lemma_expr_uses(vs, rhs, side, x);
                }
            }
            lemma_closed_one(f, k);
        },
        ConstraintV::IsZero { result, expr } => {
            let f = ff_is_zero(ff_expr(expr, side), ff_var(result, side));
            assert forall|x: Seq<char>| #[trigger] formula_uses(f, x) implies k(x) by {
                reveal_with_fuel(formula_uses, 5);
                lemma_is_instance(vs, result, side);
                if term_uses(ff_expr(expr, side), x) {
                    lemma_expr_uses(vs, expr, side, x);
                }
            }
            lemma_closed_one(f, k);
        },
        ConstraintV::Call { component, args, outputs } => {
            lemma_outputs_closed(vs, c, side, outputs.len(), k);
        },
    }
}

proof fn lemma_constraints_closed(
    vs: Seq<VarV>,
    cs: Seq<ConstraintV>,
    n: nat,
    k: spec_fn(Seq<char>) -> bool,
)
    requires
        n <= cs.len(),
        all_known(vs, cs),
        forall|x: Seq<char>| #[trigger] is_instance(vs, x) ==> k(x),
    ensures
        closed(ff_constraints(cs, n), k),
    decreases n,
{
    lemma_closed_empty(k);
    if n > 0 {
        let m = (n - 1) as nat;
        lemma_constraints_closed(vs, cs, m, k);
        assert(constraint_known(vs, cs[n - 1]));
        let a = ff_constraint(cs[n - 1], Side::First);
        let b = ff_constraint(cs[n - 1], Side::Second);
        lemma_constraint_closed(vs, cs[n - 1], Side::First, k);
        lemma_constraint_closed(vs, cs[n - 1], Side::Second, k);
        lemma_closed_add(ff_constraints(cs, m), a, k);
        lemma_closed_add(ff_constraints(cs, m) + a, b, k);
    }
}

/// The declarations of variables stand in the order of the variables, each in both runs.
pub proof fn lemma_declarations(vs: Seq<VarV>, n: nat)
    requires
        n <= vs.len(),
    ensures
        ff_declarations(vs, n).len() == 2 * n,
        forall|i: int|
            0 <= i < n ==> ff_declarations(vs, n)[2 * i] == FfCommand::DeclareConst(
                instance((#[trigger] vs[i]).name, Side::First),
            ) && ff_declarations(vs, n)[2 * i + 1] == FfCommand::DeclareConst(
                instance(vs[i].name, Side::Second),
            ),
    decreases n,
{
    if n > 0 {
        lemma_declarations(vs, (n - 1) as nat);
    }
}

proof fn lemma_no_asserts(s: Seq<FfCommand>, k: spec_fn(Seq<char>) -> bool)
    requires
        forall|i: int| 0 <= i < s.len() ==> !((#[trigger] s[i]) is Assert),
    ensures
        closed(s, k),
{
    assert forall|n: int, x: Seq<char>| 0 <= n < s.len() && #[trigger] uses_at(s, n, x) implies k(
        x,
    ) || declares(s, n, x) by {
        assert(!(s[n] is Assert));
    }
}

proof fn lemma_differ_uses(outputs: Seq<VarV>, all: Seq<VarV>, x: Seq<char>)
    requires
        forall|i: int| 0 <= i < outputs.len() ==> declared(all, (#[trigger] outputs[i]).name),
        formula_uses(ff_differ(outputs), x),
    ensures
        is_instance(all, x),
{
    reveal_with_fuel(formula_uses, 3);
    if outputs.len() == 1 {
        lemma_same_uses(all, outputs[0].name, x);
    } else {
        let v = outputs.map_values(|v: VarV| ff_differs(v.name));
        let i = choose|i: int| 0 <= i < v.len() && formula_uses(#[trigger] v[i], x);
        assert(v[i] == ff_differs(outputs[i].name));
        lemma_same_uses(all, outputs[i].name, x);
    }
}

/// Each variable that a script speaks of is declared before.
pub proof fn lemma_declared_before_use(s: SpecV)
    requires
        all_known(s.all_vars(), s.constraints),
    ensures
        closed(ff_script(s), |x: Seq<char>| false),
{
    let vs = s.all_vars();
    let k = |x: Seq<char>| is_instance(vs, x);
    let all = ff_script(s);
    let start = seq![all[0], FfCommand::DefineField] + ff_declarations(vs, vs.len());
    lemma_declarations(vs, vs.len());
    assert forall|x: Seq<char>| #[trigger] k(x) implies declares(start, start.len() as int, x) by {
        let (i, side) = choose|i: int, side: Side|
            0 <= i < vs.len() && x == #[trigger] instance(vs[i].name, side);
        let j: int = if side == Side::First {
            2 + 2 * i
        } else {
            2 + 2 * i + 1
        };
        assert(vs[i] == vs[i]);
        assert(start[j] == FfCommand::DeclareConst(x));
    }
    assert forall|i: int| 0 <= i < start.len() implies !((#[trigger] start[i]) is Assert) by {
        if i >= 2 {
            let d = (i - 2) / 2;
            let declared_here = ff_declarations(vs, vs.len());
            assert(0 <= d < vs.len());
            assert(declared_here[2 * d] == FfCommand::DeclareConst(
                instance(vs[d].name, Side::First),
            ));
            assert(start[i] == declared_here[i - 2]);
            assert(i - 2 == 2 * d || i - 2 == 2 * d + 1);
        }
    }
    lemma_no_asserts(start, |x: Seq<char>| false);
    assert forall|i: int| 0 <= i < s.inputs.len() implies declared(
        vs,
        (#[trigger] s.inputs[i]).name,
    ) by {
        assert(vs[i] == s.inputs[i]);
    }
    assert forall|i: int| 0 <= i < s.outputs.len() implies declared(
        vs,
        (#[trigger] s.outputs[i]).name,
    ) by {
        assert(vs[i + s.inputs.len()] == s.outputs[i]);
    }
    let ranges = ff_ranges(vs, s.internals, vs.len());
    let same = ff_same_inputs(s.inputs, s.inputs.len());
    let funs = ff_functions(ff_symbols(s.constraints, s.constraints.len()));
    let cs = ff_constraints(s.constraints, s.constraints.len());
    lemma_ranges_closed(vs, s.internals, vs.len(), k);
    lemma_same_inputs_closed(s.inputs, vs, s.inputs.len(), k);
    lemma_no_asserts(funs, k);
    lemma_constraints_closed(vs, s.constraints, s.constraints.len(), k);
    let f = ff_differ(s.outputs);
    let tail = seq![FfCommand::Assert(f), FfCommand::CheckSat];
    assert forall|x: Seq<char>| #[trigger] formula_uses(f, x) implies k(x) by {
        lemma_differ_uses(s.outputs, vs, x);
    }
    lemma_closed_one(f, k);
    lemma_no_asserts(seq![FfCommand::CheckSat], k);
    lemma_closed_add(seq![FfCommand::Assert(f)], seq![FfCommand::CheckSat], k);
    assert(tail =~= seq![FfCommand::Assert(f)] + seq![FfCommand::CheckSat]);
    lemma_closed_add(ranges, same, k);
    lemma_closed_add(ranges + same, funs, k);
    lemma_closed_add(ranges + same + funs, cs, k);
    lemma_closed_add(ranges + same + funs + cs, tail, k);
    let rest = ranges + same + funs + cs + tail;
    assert(all =~= start + rest);
    lemma_closed_behind(start, rest, k);
}

// ---------------------------------------------------------------------------
// Functions
// ---------------------------------------------------------------------------

/// Whether a call has a function symbol among its outputs.
pub open spec fn call_needs(c: ConstraintV, f: Seq<char>) -> bool {
    c is Call && exists|j: int|
        0 <= j < c->outputs.len() && f == ff_symbol(c->component, (#[trigger] c->outputs[j]).0)
}

/// Whether no two function symbols have one name.
pub open spec fn once(fs: Seq<(Seq<char>, nat)>) -> bool {
    forall|a: int, b: int|
        0 <= a < b < fs.len() ==> (#[trigger] fs[a]).0 != (#[trigger] fs[b]).0
}

proof fn lemma_with_outputs(
    fs: Seq<(Seq<char>, nat)>,
    component: Seq<char>,
    arity: nat,
    outputs: Seq<(Seq<char>, Seq<char>)>,
    n: nat,
)
    requires
        n <= outputs.len(),
        once(fs),
    ensures
        once(ff_with_outputs(fs, component, arity, outputs, n)),
        fs.len() <= ff_with_outputs(fs, component, arity, outputs, n).len(),
        forall|a: int|
            0 <= a < fs.len() ==> #[trigger] ff_with_outputs(fs, component, arity, outputs, n)[a]
                == fs[a],
        forall|a: int|
            fs.len() <= a < ff_with_outputs(fs, component, arity, outputs, n).len() ==> ({
                let g = #[trigger] ff_with_outputs(fs, component, arity, outputs, n)[a];
                g.1 == arity && exists|j: int|
                    0 <= j < outputs.len() && g.0 == ff_symbol(
                        component,
                        (#[trigger] outputs[j]).0,
                    )
            }),
        forall|j: int|
            0 <= j < n ==> has_symbol(
                ff_with_outputs(fs, component, arity, outputs, n),
                ff_symbol(component, (#[trigger] outputs[j]).0),
            ),
    decreases n,
{
    if n > 0 {
        let k = (n - 1) as nat;
        lemma_with_outputs(fs, component, arity, outputs, k);
        let before = ff_with_outputs(fs, component, arity, outputs, k);
        let after = ff_with_outputs(fs, component, arity, outputs, n);
        let f = ff_symbol(component, outputs[n - 1].0);
        if !has_symbol(before, f) {
            assert(after == before.push((f, arity)));
            assert(after[before.len() as int].0 == f);
            assert forall|j: int| 0 <= j < n implies has_symbol(
                after,
                ff_symbol(component, (#[trigger] outputs[j]).0),
            ) by {
                if j < k {
                    let g = ff_symbol(component, outputs[j].0);
                    assert(has_symbol(before, g));
                    let a = choose|a: int| 0 <= a < before.len() && (#[trigger] before[a]).0 == g;
                    assert(after[a].0 == g);
                }
            }
        }
    }
}

/// Whether one of the first `n` constraints needs a function symbol with a number of arguments.
pub open spec fn needed_by(cs: Seq<ConstraintV>, n: int, f: Seq<char>, arity: nat) -> bool {
    exists|i: int| 0 <= i < n && #[trigger] call_needs(cs[i], f) && cs[i]->args.len() == arity
}

/// The function symbols of constraints are those that calls need, each once, with as many arguments
/// as such a call has.
pub proof fn lemma_symbols(cs: Seq<ConstraintV>, n: nat)
    requires
        n <= cs.len(),
    ensures
        once(ff_symbols(cs, n)),
        forall|i: int, f: Seq<char>|
            0 <= i < n && #[trigger] call_needs(cs[i], f) ==> has_symbol(ff_symbols(cs, n), f),
        forall|a: int|
            0 <= a < ff_symbols(cs, n).len() ==> needed_by(
                cs,
                n as int,
                (#[trigger] ff_symbols(cs, n)[a]).0,
                ff_symbols(cs, n)[a].1,
            ),
    decreases n,
{
    if n > 0 {
        let k = (n - 1) as nat;
        lemma_symbols(cs, k);
        let before = ff_symbols(cs, k);
        let after = ff_symbols(cs, n);
        let c = cs[n - 1];
        if c is Call {
            lemma_with_outputs(before, c->component, c->args.len(), c->outputs, c->outputs.len());
            assert forall|i: int, f: Seq<char>| 0 <= i < n && #[trigger] call_needs(
                cs[i],
                f,
            ) implies has_symbol(after, f) by {
                if i < k {
                    assert(has_symbol(before, f));
                    let a = choose|a: int| 0 <= a < before.len() && (#[trigger] before[a]).0 == f;
                    assert(after[a].0 == f);
                }
            }
        } else {
            assert(after == before);
        }
        assert forall|a: int| 0 <= a < after.len() implies needed_by(
            cs,
            n as int,
            (#[trigger] after[a]).0,
            after[a].1,
        ) by {
            if a < before.len() {
                assert(after[a] == before[a]);
                assert(needed_by(cs, k as int, before[a].0, before[a].1));
                let i = choose|i: int|
                    0 <= i < k && #[trigger] call_needs(cs[i], before[a].0) && cs[i]->args.len()
                        == before[a].1;
                assert(call_needs(cs[i], after[a].0));
            } else {
                assert(call_needs(cs[n - 1], after[a].0));
            }
        }
    }
}

/// A script names its logic, which has functions where there are calls, then the field, and asks
/// the question at its end and nowhere else. Each function symbol that calls need is declared in it,
/// with its number of arguments.
pub proof fn lemma_frame_of_script(s: SpecV)
    ensures
        ff_script(s).len() >= 4,
        ff_script(s)[0] is SetLogic,
        ff_script(s)[0]->SetLogic_0 == "QF_UFFF"@ <==> has_calls(s.constraints),
        ff_script(s)[0]->SetLogic_0 == "QF_FF"@ <==> !has_calls(s.constraints),
        ff_script(s)[1] is DefineField,
        ff_script(s).last() is CheckSat,
        forall|f: Seq<char>, n: nat|
            ff_symbols(s.constraints, s.constraints.len()).contains((f, n)) ==> #[trigger] ff_script(
                s,
            ).contains(FfCommand::DeclareFun(f, n)),
{
    reveal_strlit("QF_UFFF");
    reveal_strlit("QF_FF");
    assert("QF_UFFF"@.len() == 7 && "QF_FF"@.len() == 5);
    let vs = s.all_vars();
    let fs = ff_symbols(s.constraints, s.constraints.len());
    let head = seq![FfCommand::SetLogic(ff_logic(s.constraints)), FfCommand::DefineField];
    let pre = head + ff_declarations(vs, vs.len()) + ff_ranges(vs, s.internals, vs.len())
        + ff_same_inputs(s.inputs, s.inputs.len());
    let post = ff_constraints(s.constraints, s.constraints.len()) + seq![
        FfCommand::Assert(ff_differ(s.outputs)),
        FfCommand::CheckSat,
    ];
    let all = ff_script(s);
    assert(all =~= pre + ff_functions(fs) + post);
    assert(all[0] == head[0] && all[1] == head[1]);
    assert(all.last() == post.last());
    assert forall|f: Seq<char>, n: nat| fs.contains((f, n)) implies #[trigger] all.contains(
        FfCommand::DeclareFun(f, n),
    ) by {
        let a = choose|a: int| 0 <= a < fs.len() && fs[a] == (f, n);
        assert(ff_functions(fs)[a] == FfCommand::DeclareFun(f, n));
        assert(all[pre.len() + a] == ff_functions(fs)[a]);
    }
}

// ---------------------------------------------------------------------------
// Functions of integers
// ---------------------------------------------------------------------------

/// Whether a call has a field among its outputs.
pub open spec fn call_has(c: ConstraintV, component: Seq<char>, field: Seq<char>) -> bool {
    c is Call && c->component == component && exists|j: int|
        0 <= j < c->outputs.len() && (#[trigger] c->outputs[j]).0 == field
}

/// Whether no two functions stand for one field.
pub open spec fn each_once(ufs: Seq<Uf>) -> bool {
    forall|a: int, b: int|
        0 <= a < b < ufs.len() ==> !((#[trigger] ufs[a]).component == (#[trigger] ufs[b]).component
            && ufs[a].field == ufs[b].field)
}

proof fn lemma_int_with_outputs(
    ufs: Seq<Uf>,
    component: Seq<char>,
    arity: nat,
    outputs: Seq<(Seq<char>, Seq<char>)>,
    n: nat,
)
    requires
        n <= outputs.len(),
        each_once(ufs),
    ensures
        each_once(with_outputs(ufs, component, arity, outputs, n)),
        ufs.len() <= with_outputs(ufs, component, arity, outputs, n).len(),
        forall|a: int|
            0 <= a < ufs.len() ==> #[trigger] with_outputs(ufs, component, arity, outputs, n)[a]
                == ufs[a],
        forall|a: int|
            ufs.len() <= a < with_outputs(ufs, component, arity, outputs, n).len() ==> ({
                let g = #[trigger] with_outputs(ufs, component, arity, outputs, n)[a];
                g.arity == arity && g.component == component && exists|j: int|
                    0 <= j < outputs.len() && (#[trigger] outputs[j]).0 == g.field
            }),
        forall|j: int|
            0 <= j < n ==> has_uf(
                with_outputs(ufs, component, arity, outputs, n),
                component,
                (#[trigger] outputs[j]).0,
            ),
    decreases n,
{
    if n > 0 {
        let k = (n - 1) as nat;
        lemma_int_with_outputs(ufs, component, arity, outputs, k);
        let before = with_outputs(ufs, component, arity, outputs, k);
        let after = with_outputs(ufs, component, arity, outputs, n);
        let field = outputs[n - 1].0;
        if !has_uf(before, component, field) {
            assert(after == before.push(Uf { component, field, arity }));
            assert(stands_for(after[before.len() as int], component, field));
            assert forall|a: int| 0 <= a < before.len() implies !stands_for(
                #[trigger] before[a],
                component,
                field,
            ) by {}
            assert forall|j: int| 0 <= j < n implies has_uf(
                after,
                component,
                (#[trigger] outputs[j]).0,
            ) by {
                if j < k {
                    assert(has_uf(before, component, outputs[j].0));
                    let a = choose|a: int|
                        0 <= a < before.len() && stands_for(
                            #[trigger] before[a],
                            component,
                            outputs[j].0,
                        );
                    assert(stands_for(after[a], component, outputs[j].0));
                }
            }
            assert forall|a: int, b: int| 0 <= a < b < after.len() implies !((
            #[trigger] after[a]).component == (#[trigger] after[b]).component && after[a].field
                == after[b].field) by {
                if b == before.len() {
                    assert(after[a] == before[a]);
                    assert(!stands_for(before[a], component, field));
                } else {
                    assert(after[a] == before[a] && after[b] == before[b]);
                }
            }
        }
    }
}

/// Whether one of the first `n` constraints has the field and the number of arguments of a function.
pub open spec fn had_by(cs: Seq<ConstraintV>, n: int, u: Uf) -> bool {
    exists|i: int|
        0 <= i < n && #[trigger] call_has(cs[i], u.component, u.field) && cs[i]->args.len()
            == u.arity
}

/// The functions of constraints over the integers are those that calls need, each once, with as
/// many arguments as such a call has.
pub proof fn lemma_functions(cs: Seq<ConstraintV>, n: nat)
    requires
        n <= cs.len(),
    ensures
        each_once(functions(cs, n)),
        forall|i: int, component: Seq<char>, field: Seq<char>|
            0 <= i < n && #[trigger] call_has(cs[i], component, field) ==> has_uf(
                functions(cs, n),
                component,
                field,
            ),
        forall|a: int|
            0 <= a < functions(cs, n).len() ==> had_by(
                cs,
                n as int,
                #[trigger] functions(cs, n)[a],
            ),
    decreases n,
{
    if n > 0 {
        let k = (n - 1) as nat;
        lemma_functions(cs, k);
        let before = functions(cs, k);
        let after = functions(cs, n);
        let c = cs[n - 1];
        if c is Call {
            lemma_int_with_outputs(
                before,
                c->component,
                c->args.len(),
                c->outputs,
                c->outputs.len(),
            );
            assert forall|i: int, component: Seq<char>, field: Seq<char>|
                0 <= i < n && #[trigger] call_has(cs[i], component, field) implies has_uf(
                after,
                component,
                field,
            ) by {
                if i < k {
                    assert(has_uf(before, component, field));
                    let a = choose|a: int|
                        0 <= a < before.len() && stands_for(#[trigger] before[a], component, field);
                    assert(stands_for(after[a], component, field));
                }
            }
        } else {
            assert(after == before);
        }
        assert forall|a: int| 0 <= a < after.len() implies had_by(
            cs,
            n as int,
            #[trigger] after[a],
        ) by {
            if a < before.len() {
                assert(after[a] == before[a]);
                assert(had_by(cs, k as int, before[a]));
                let i = choose|i: int|
                    0 <= i < k && #[trigger] call_has(cs[i], before[a].component, before[a].field)
                        && cs[i]->args.len() == before[a].arity;
                assert(call_has(cs[i], after[a].component, after[a].field));
            } else {
                assert(after[a].arity == c->args.len());
                assert(call_has(cs[n - 1], after[a].component, after[a].field));
            }
        }
    }
}

/// Whether a step asserts something under a label.
pub open spec fn labelled<F>(s: StepV<F>, label: Seq<char>) -> bool {
    s is Assert && s->Assert_label == label
}

/// A function symbol of some integers is declared with its name, the sort of each of them, and that of
/// its result.
pub proof fn lemma_parts_of_function(name: Seq<char>, n: nat)
    ensures
        int_function_parts(name, n).len() == n + 2,
        int_function_parts(name, n)[0] == name,
        forall|i: int| 1 <= i < n + 2 ==> #[trigger] int_function_parts(name, n)[i] == "Int"@,
{
}

/// A plan ends with the question whether the outputs can differ.
pub proof fn lemma_end_of_plan(s: SpecV)
    ensures
        int_plan(s).stop is None ==> int_plan(s).steps.len() > 0 && labelled(
            int_plan(s).steps.last(),
            "diff"@,
        ),
        bv_plan(s).stop is None ==> bv_plan(s).steps.len() > 0 && labelled(
            bv_plan(s).steps.last(),
            "diff"@,
        ),
{
}

/// A plan over the integers starts with the ranges of all variables in both runs, goes on with the
/// inputs, and declares each function that calls need before any constraint.
pub proof fn lemma_start_of_plan(s: SpecV)
    ensures
        int_start(s).steps.len() == 2 * s.all_vars().len() + s.inputs.len() + functions(
            s.constraints,
            s.constraints.len(),
        ).len(),
        forall|a: int|
            0 <= a < functions(s.constraints, s.constraints.len()).len() ==> ({
                let u = #[trigger] functions(s.constraints, s.constraints.len())[a];
                let d = int_start(s).steps[2 * s.all_vars().len() + s.inputs.len() + a];
                d is Declare && d->arity == u.arity && d->name == symbol(u.component, u.field)
                    && d->Declare_label == "declare_fun"@
            }),
        forall|a: int|
            0 <= a < 2 * s.all_vars().len() + s.inputs.len() ==> labelled(
                #[trigger] int_start(s).steps[a],
                if a < 2 * s.all_vars().len() {
                    "range"@
                } else {
                    "eq"@
                },
            ),
{
    let vs = s.all_vars();
    lemma_int_ranges_len(vs, vs.len());
    lemma_int_inputs_len(s.inputs, s.inputs.len());
    let fs = functions(s.constraints, s.constraints.len());
    assert forall|a: int| 0 <= a < fs.len() implies ({
        let u = #[trigger] fs[a];
        let d = int_start(s).steps[2 * vs.len() + s.inputs.len() + a];
        d is Declare && d->arity == u.arity && d->name == symbol(u.component, u.field)
            && d->Declare_label == "declare_fun"@
    }) by {
        assert(int_declarations(fs)[a] == int_declaration(fs[a]));
    }
}

proof fn lemma_int_ranges_len(vs: Seq<VarV>, n: nat)
    requires
        n <= vs.len(),
    ensures
        int_ranges(vs, n).len() == 2 * n,
        forall|a: int| 0 <= a < 2 * n ==> labelled(#[trigger] int_ranges(vs, n)[a], "range"@),
    decreases n,
{
    if n > 0 {
        lemma_int_ranges_len(vs, (n - 1) as nat);
    }
}

proof fn lemma_int_inputs_len(vs: Seq<VarV>, n: nat)
    requires
        n <= vs.len(),
    ensures
        int_same_inputs(vs, n).len() == n,
        forall|a: int| 0 <= a < n ==> labelled(#[trigger] int_same_inputs(vs, n)[a], "eq"@),
    decreases n,
{
    if n > 0 {
        lemma_int_inputs_len(vs, (n - 1) as nat);
    }
}

// ---------------------------------------------------------------------------
// Variables of polynomials
// ---------------------------------------------------------------------------

/// Whether a variable stands in an expression in polynomials.
pub open spec fn poly_expr_uses(e: PolyExpr, x: Seq<char>) -> bool
    decreases e,
{
    match e {
        PolyExpr::Var(y) => y == x,
        PolyExpr::Number(_) => false,
        PolyExpr::Add(a, b) => poly_expr_uses(*a, x) || poly_expr_uses(*b, x),
        PolyExpr::Sub(a, b) => poly_expr_uses(*a, x) || poly_expr_uses(*b, x),
        PolyExpr::Mul(a, b) => poly_expr_uses(*a, x) || poly_expr_uses(*b, x),
    }
}

/// Whether a variable stands in a polynomial.
pub open spec fn poly_uses(p: Poly, x: Seq<char>) -> bool {
    match p {
        Poly::Bit(y) => y == x,
        Poly::Twit(y) => y == x,
        Poly::Bits(y, n) => y == x || exists|i: nat| i < n && x == #[trigger] range_bit(y, i),
        Poly::Same(a, b) => a == x || b == x,
        Poly::Equal(a, b) => poly_expr_uses(a, x) || poly_expr_uses(b, x),
        Poly::Product(y, e) => y == x || poly_expr_uses(e, x),
        Poly::Differ(a, b) => a == x || b == x || x == "rabin_t"@,
        Poly::DifferSome(v) => x == "rabin_t"@ || exists|i: int|
            0 <= i < v.len() && ((#[trigger] v[i]).0 == x || v[i].1 == x || x == factor(i as nat)),
    }
}

/// Whether each variable that stands in polynomials is one of some names or of some others.
pub open spec fn all_named(
    polys: Seq<Poly>,
    names: Seq<Seq<char>>,
    others: spec_fn(Seq<char>) -> bool,
) -> bool {
    forall|i: int, x: Seq<char>|
        0 <= i < polys.len() && #[trigger] poly_uses(polys[i], x) ==> others(x) || names.contains(x)
}

proof fn lemma_all_named_both(
    p: Seq<Poly>,
    v: Seq<Seq<char>>,
    q: Seq<Poly>,
    w: Seq<Seq<char>>,
    k: spec_fn(Seq<char>) -> bool,
)
    requires
        all_named(p, v, k),
        all_named(q, w, k),
    ensures
        all_named(p + q, v + w, k),
{
    let r = p + q;
    let u = v + w;
    assert forall|i: int, x: Seq<char>| 0 <= i < r.len() && #[trigger] poly_uses(r[i], x) implies k(
        x,
    ) || u.contains(x) by {
        if i < p.len() {
            assert(poly_uses(p[i], x));
            if v.contains(x) {
                let a = choose|a: int| 0 <= a < v.len() && v[a] == x;
                assert(u[a] == x);
            }
        } else {
            assert(poly_uses(q[i - p.len()], x));
            if w.contains(x) {
                let a = choose|a: int| 0 <= a < w.len() && w[a] == x;
                assert(u[v.len() + a] == x);
            }
        }
    }
}

proof fn lemma_ms_expr_uses(vs: Seq<VarV>, e: IrExprV, side: Side, x: Seq<char>)
    requires
        known(vs, e),
        poly_expr_uses(ms_expr(e, side), x),
    ensures
        is_instance(vs, x),
    decreases e,
{
    match e {
        IrExprV::Const(_) => {},
        IrExprV::Var(y) => {
            lemma_is_instance(vs, y, side);
        },
        IrExprV::Add(a, b) => {
            assert(unknowns(e, vs) == unknowns(*a, vs) + unknowns(*b, vs));
            if poly_expr_uses(ms_expr(*a, side), x) {
                lemma_ms_expr_uses(vs, *a, side, x);
            } else {
                lemma_ms_expr_uses(vs, *b, side, x);
            }
        },
        IrExprV::Sub(a, b) => {
            assert(unknowns(e, vs) == unknowns(*a, vs) + unknowns(*b, vs));
            if poly_expr_uses(ms_expr(*a, side), x) {
                lemma_ms_expr_uses(vs, *a, side, x);
            } else {
                lemma_ms_expr_uses(vs, *b, side, x);
            }
        },
        IrExprV::Mul(a, b) => {
            assert(unknowns(e, vs) == unknowns(*a, vs) + unknowns(*b, vs));
            if poly_expr_uses(ms_expr(*a, side), x) {
                lemma_ms_expr_uses(vs, *a, side, x);
            } else {
                lemma_ms_expr_uses(vs, *b, side, x);
            }
        },
        IrExprV::Div(a, b) => {
            assert(unknowns(e, vs) == unknowns(*a, vs) + unknowns(*b, vs));
            if poly_expr_uses(ms_expr(*a, side), x) {
                lemma_ms_expr_uses(vs, *a, side, x);
            } else {
                lemma_ms_expr_uses(vs, *b, side, x);
            }
        },
    }
}

proof fn lemma_ms_bits_named(y: Seq<char>, n: nat, k: spec_fn(Seq<char>) -> bool)
    ensures
        all_named(ms_bits(y, n).polys, ms_bits(y, n).variables, k),
        ms_bits(y, n).variables.len() == n,
        forall|i: nat| i < n ==> #[trigger] range_bit(y, i) == ms_bits(y, n).variables[i as int],
    decreases n,
{
    if n > 0 {
        let m = (n - 1) as nat;
        lemma_ms_bits_named(y, m, k);
        let before = ms_bits(y, m);
        let b = range_bit(y, m);
        assert(seq![b][0] == b);
        assert(all_named(seq![Poly::Bit(b)], seq![b], k)) by {
            assert forall|i: int, x: Seq<char>|
                0 <= i < 1 && #[trigger] poly_uses(seq![Poly::Bit(b)][i], x) implies k(x)
                || seq![b].contains(x) by {
                assert(seq![b][0] == x);
            }
        }
        lemma_all_named_both(before.polys, before.variables, seq![Poly::Bit(b)], seq![b], k);
        assert(before.polys + seq![Poly::Bit(b)] =~= before.polys.push(Poly::Bit(b)));
        assert(before.variables + seq![b] =~= before.variables.push(b));
    }
}

proof fn lemma_ms_range_named(v: VarV, internal: bool, side: Side, k: spec_fn(Seq<char>) -> bool)
    requires
        k(instance(v.name, side)),
    ensures
        all_named(ms_range(v, internal, side).polys, ms_range(v, internal, side).variables, k),
{
    let y = instance(v.name, side);
    if internal && (v.vtype == VarType::U8 || v.vtype == VarType::U16) {
        let n: nat = if v.vtype == VarType::U8 {
            8
        } else {
            16
        };
        lemma_ms_bits_named(y, n, k);
        let bits = ms_bits(y, n);
        let all = ms_has_bits(y, n);
        assert forall|i: int, x: Seq<char>| 0 <= i < all.polys.len() && #[trigger] poly_uses(
            all.polys[i],
            x,
        ) implies k(x) || all.variables.contains(x) by {
            if i < bits.polys.len() {
                assert(poly_uses(bits.polys[i], x));
            } else if x != y {
                let b = choose|b: nat| b < n && x == #[trigger] range_bit(y, b);
                assert(bits.variables[b as int] == x);
            }
        }
    }
}

proof fn lemma_ms_ranges_named(
    vs: Seq<VarV>,
    internals: Seq<VarV>,
    n: nat,
    k: spec_fn(Seq<char>) -> bool,
)
    requires
        n <= vs.len(),
        forall|x: Seq<char>| #[trigger] is_instance(vs, x) ==> k(x),
    ensures
        all_named(ms_ranges(vs, internals, n).polys, ms_ranges(vs, internals, n).variables, k),
    decreases n,
{
    if n > 0 {
        let m = (n - 1) as nat;
        lemma_ms_ranges_named(vs, internals, m, k);
        let v = vs[n - 1];
        let internal = declared(internals, v.name);
        assert(declared(vs, v.name));
        lemma_is_instance(vs, v.name, Side::First);
        lemma_is_instance(vs, v.name, Side::Second);
        lemma_ms_range_named(v, internal, Side::First, k);
        lemma_ms_range_named(v, internal, Side::Second, k);
        let a = ms_ranges(vs, internals, m);
        let b = ms_range(v, internal, Side::First);
        let c = ms_range(v, internal, Side::Second);
        lemma_all_named_both(a.polys, a.variables, b.polys, b.variables, k);
        lemma_all_named_both(
            a.polys + b.polys,
            a.variables + b.variables,
            c.polys,
            c.variables,
            k,
        );
    }
}

proof fn lemma_ms_inputs_named(
    vs: Seq<VarV>,
    all: Seq<VarV>,
    n: nat,
    k: spec_fn(Seq<char>) -> bool,
)
    requires
        n <= vs.len(),
        forall|i: int| 0 <= i < vs.len() ==> declared(all, (#[trigger] vs[i]).name),
        forall|x: Seq<char>| #[trigger] is_instance(all, x) ==> k(x),
    ensures
        all_named(ms_same_inputs(vs, n), Seq::empty(), k),
    decreases n,
{
    if n > 0 {
        let m = (n - 1) as nat;
        lemma_ms_inputs_named(vs, all, m, k);
        lemma_is_instance(all, vs[n - 1].name, Side::First);
        lemma_is_instance(all, vs[n - 1].name, Side::Second);
        let before = ms_same_inputs(vs, m);
        let after = ms_same_inputs(vs, n);
        assert forall|i: int, x: Seq<char>| 0 <= i < after.len() && #[trigger] poly_uses(
            after[i],
            x,
        ) implies k(x) || Seq::<Seq<char>>::empty().contains(x) by {
            if i < before.len() {
                assert(after[i] == before[i]);
                assert(poly_uses(before[i], x));
            }
        }
    }
}

proof fn lemma_ms_constraint_uses(vs: Seq<VarV>, c: ConstraintV, side: Side, x: Seq<char>)
    requires
        constraint_known(vs, c),
        ms_constraint(c, side) is Some,
        poly_uses(ms_constraint(c, side)->Some_0, x),
    ensures
        is_instance(vs, x),
{
    match c {
        ConstraintV::Eq { lhs, rhs, .. } => {
            if poly_expr_uses(ms_expr(lhs, side), x) {
                lemma_ms_expr_uses(vs, lhs, side, x);
            } else {
                lemma_ms_expr_uses(vs, rhs, side, x);
            }
        },
        ConstraintV::IsZero { result, expr } => {
            lemma_is_instance(vs, result, side);
            if poly_expr_uses(ms_expr(expr, side), x) {
                lemma_ms_expr_uses(vs, expr, side, x);
            }
        },
        _ => {},
    }
}

proof fn lemma_ms_constraints_named(
    vs: Seq<VarV>,
    cs: Seq<ConstraintV>,
    n: nat,
    k: spec_fn(Seq<char>) -> bool,
)
    requires
        n <= cs.len(),
        all_known(vs, cs),
        forall|x: Seq<char>| #[trigger] is_instance(vs, x) ==> k(x),
    ensures
        all_named(ms_constraints(cs, n), Seq::empty(), k),
    decreases n,
{
    if n > 0 {
        let m = (n - 1) as nat;
        lemma_ms_constraints_named(vs, cs, m, k);
        assert(constraint_known(vs, cs[n - 1]));
        let before = ms_constraints(cs, m);
        let after = ms_constraints(cs, n);
        assert forall|i: int, x: Seq<char>| 0 <= i < after.len() && #[trigger] poly_uses(
            after[i],
            x,
        ) implies k(x) || Seq::<Seq<char>>::empty().contains(x) by {
            if i < before.len() {
                assert(after[i] == before[i]);
                assert(poly_uses(before[i], x));
            } else if i == before.len() {
                lemma_ms_constraint_uses(vs, cs[n - 1], Side::First, x);
            } else {
                lemma_ms_constraint_uses(vs, cs[n - 1], Side::Second, x);
            }
        }
    }
}

/// The variables of a system start with those of the instruction, in their order, each in both
/// runs.
pub proof fn lemma_names_of_system(vs: Seq<VarV>, n: nat)
    requires
        n <= vs.len(),
    ensures
        ms_names(vs, n).len() == 2 * n,
        forall|i: int|
            0 <= i < n ==> ms_names(vs, n)[2 * i] == instance((#[trigger] vs[i]).name, Side::First)
                && ms_names(vs, n)[2 * i + 1] == instance(vs[i].name, Side::Second),
    decreases n,
{
    if n > 0 {
        lemma_names_of_system(vs, (n - 1) as nat);
    }
}

/// Each variable that stands in a polynomial of a system is one of the variables of the system.
pub proof fn lemma_variables_are_listed(s: SpecV)
    requires
        s.outputs.len() > 0,
        all_known(s.all_vars(), s.constraints),
    ensures
        all_named(ms_system(s).polys, ms_system(s).variables, |x: Seq<char>| false),
{
    let vs = s.all_vars();
    let k = |x: Seq<char>| is_instance(vs, x) || x == "rabin_t"@;
    let names = ms_names(vs, vs.len()).push("rabin_t"@);
    lemma_names_of_system(vs, vs.len());
    assert forall|i: int| 0 <= i < s.inputs.len() implies declared(
        vs,
        (#[trigger] s.inputs[i]).name,
    ) by {
        assert(vs[i] == s.inputs[i]);
    }
    let ranges = ms_ranges(vs, s.internals, vs.len());
    let same = ms_same_inputs(s.inputs, s.inputs.len());
    let cs = ms_constraints(s.constraints, s.constraints.len());
    let differ = ms_differ(s.outputs);
    lemma_ms_ranges_named(vs, s.internals, vs.len(), k);
    lemma_ms_inputs_named(s.inputs, vs, s.inputs.len(), k);
    lemma_ms_constraints_named(vs, s.constraints, s.constraints.len(), k);
    assert forall|i: int, x: Seq<char>| 0 <= i < differ.polys.len() && #[trigger] poly_uses(
        differ.polys[i],
        x,
    ) implies k(x) || differ.variables.contains(x) by {
        let pairs = ms_outputs(s.outputs);
        if x != "rabin_t"@ {
            let j: int = if s.outputs.len() == 1 {
                0
            } else {
                choose|j: int|
                    0 <= j < pairs.len() && ((#[trigger] pairs[j]).0 == x || pairs[j].1 == x || x
                        == factor(j as nat))
            };
            let y = s.outputs[j].name;
            assert(vs[j + s.inputs.len()] == s.outputs[j]);
            lemma_is_instance(vs, y, Side::First);
            lemma_is_instance(vs, y, Side::Second);
            assert(pairs[j] == (instance(y, Side::First), instance(y, Side::Second)));
            if !is_instance(vs, x) {
                assert(differ.variables[j] == factor(j as nat));
            }
        }
    }
    lemma_all_named_both(ranges.polys, ranges.variables, same, Seq::empty(), k);
    lemma_all_named_both(
        ranges.polys + same,
        ranges.variables + Seq::empty(),
        cs,
        Seq::empty(),
        k,
    );
    lemma_all_named_both(
        ranges.polys + same + cs,
        ranges.variables + Seq::empty() + Seq::empty(),
        differ.polys,
        differ.variables,
        k,
    );
    assert(ranges.variables + Seq::empty() + Seq::empty() =~= ranges.variables);
    let all = ms_system(s);
    let rest = ranges.variables + differ.variables;
    assert(all.variables =~= names + rest);
    assert forall|i: int, x: Seq<char>| 0 <= i < all.polys.len() && #[trigger] poly_uses(
        all.polys[i],
        x,
    ) implies all.variables.contains(x) by {
        if rest.contains(x) {
            let a = choose|a: int| 0 <= a < rest.len() && rest[a] == x;
            assert(all.variables[names.len() + a] == x);
        } else {
            assert(k(x));
            if x == "rabin_t"@ {
                assert(all.variables[names.len() - 1] == x);
            } else {
                let (j, side) = choose|j: int, side: Side|
                    0 <= j < vs.len() && x == #[trigger] instance(vs[j].name, side);
                assert(ms_names(vs, vs.len())[2 * j] == instance(vs[j].name, Side::First));
                if side == Side::First {
                    assert(all.variables[2 * j] == x);
                } else {
                    assert(all.variables[2 * j + 1] == x);
                }
            }
        }
    }
}

/// A division in an instruction is said to the solvers over the integers and over words as one, and
/// to those over the field as a product.
pub proof fn lemma_division_is_said(vs: Seq<VarV>, a: IrExprV, b: IrExprV, side: Side)
    ensures
        int_expr(IrExprV::Div(Box::new(a), Box::new(b)), vs, side) == IntTerm::Div(
            Box::new(int_expr(a, vs, side)),
            Box::new(int_expr(b, vs, side)),
        ),
        bv_expr(IrExprV::Div(Box::new(a), Box::new(b)), vs, side) == BvTerm::Div(
            Box::new(bv_expr(a, vs, side)),
            Box::new(bv_expr(b, vs, side)),
        ),
        ff_expr(IrExprV::Div(Box::new(a), Box::new(b)), side) == ff_expr(
            IrExprV::Mul(Box::new(a), Box::new(b)),
            side,
        ),
        ms_expr(IrExprV::Div(Box::new(a), Box::new(b)), side) == ms_expr(
            IrExprV::Mul(Box::new(a), Box::new(b)),
            side,
        ),
{
}

} // verus!
