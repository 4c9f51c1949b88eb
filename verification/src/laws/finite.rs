//! What a solver's answer over the field means.

use vstd::arithmetic::div_mod::{lemma_add_mod_noop_right, lemma_small_mod, lemma_sub_mod_noop};
use vstd::arithmetic::power2::{lemma2_to64, lemma_pow2_strictly_increases, pow2};
use vstd::prelude::*;
use crate::ir::{max_value, ConstraintV, IrExprV, SpecV, VarType, VarV};
use crate::laws::arithmetic::{are_bits, lemma_number_bounds, number};
use crate::laws::determinism::{
    agree_for, agree_on, all_divisionless, all_hold, all_values, deterministic, divisionless,
    divisionless_constraint, holds, is_counterexample, lemma_holds_agrees, lemma_merged,
    lemma_same_on_vars, merged, names_apart, results_known, same_values, side_values, value,
    Numbers,
};
use crate::laws::field::{
    bit_of, first_bits, lemma_bit_root, lemma_bits_make_up, lemma_twit_root, prime,
};
use crate::laws::naming::{lemma_digits_injective, lemma_digits_plain};
use crate::model::{declared, instance, unknowns, Side};
use crate::text::{digits, undotted};
use crate::verifier_ff::{
    bit_formula, ff_add, ff_constraint, ff_constraints, ff_declarations, ff_differ, ff_differs,
    ff_expr, ff_exprs, ff_functions, ff_is_zero, ff_logic, ff_mul, ff_neg, ff_one, ff_outputs,
    ff_range, ff_ranges, ff_same, ff_same_inputs, ff_script, ff_symbol, ff_symbols, ff_var, ff_zero,
    has_bits, range_bit, range_bits, range_sum, twit_formula, weighted_bit, FfCommand, FfFormula,
    FfTerm,
};

verus! {

// ---------------------------------------------------------------------------
// Runs over the field
// ---------------------------------------------------------------------------

/// The largest value of a variable over the field. A number of 8 or 16 bits that is input
/// or output, and one of 32 bits, may be any element of the field.
pub open spec fn field_max(v: VarV, internal: bool) -> int {
    match v.vtype {
        VarType::Bit => 1,
        VarType::Twit => 3,
        VarType::U8 => if internal {
            255
        } else {
            prime() - 1
        },
        VarType::U16 => if internal {
            65535
        } else {
            prime() - 1
        },
        _ => prime() - 1,
    }
}

/// Whether the variables lie in their ranges over the field.
pub open spec fn in_field(
    vs: Seq<VarV>,
    internals: Seq<VarV>,
    a: spec_fn(Seq<char>) -> int,
) -> bool {
    forall|i: int|
        0 <= i < vs.len() ==> 0 <= a((#[trigger] vs[i]).name) <= field_max(
            vs[i],
            declared(internals, vs[i].name),
        )
}

/// Whether values are those of a run of an instruction over the field.
pub open spec fn is_field_run(
    s: SpecV,
    a: spec_fn(Seq<char>) -> int,
    f: spec_fn(Seq<char>, Seq<char>, Seq<int>) -> int,
) -> bool {
    &&& in_field(s.all_vars(), s.internals, a)
    &&& all_hold(Numbers::Modulo(prime()), s.all_vars(), a, f, s.constraints)
}

/// Whether two runs show that an instruction is not deterministic over the field.
pub open spec fn is_field_counterexample(
    s: SpecV,
    a: spec_fn(Seq<char>) -> int,
    b: spec_fn(Seq<char>) -> int,
    f: spec_fn(Seq<char>, Seq<char>, Seq<int>) -> int,
) -> bool {
    &&& is_field_run(s, a, f)
    &&& is_field_run(s, b, f)
    &&& same_values(s.inputs, a, b)
    &&& !same_values(s.outputs, a, b)
}

/// Whether an instruction is deterministic over the field.
pub open spec fn field_deterministic(s: SpecV) -> bool {
    forall|
        a: spec_fn(Seq<char>) -> int,
        b: spec_fn(Seq<char>) -> int,
        f: spec_fn(Seq<char>, Seq<char>, Seq<int>) -> int,
    |
        !is_field_counterexample(s, a, b, f)
}

/// Whether no variable has 32 bits, so that each value is an element of the field.
pub open spec fn fits_field(vs: Seq<VarV>) -> bool {
    forall|i: int| 0 <= i < vs.len() ==> (#[trigger] vs[i]).vtype != VarType::U32
}

/// An instruction without numbers of 32 bits that is deterministic over the field, with
/// inputs and outputs of 8 and 16 bits in any range, is deterministic with all variables in
/// their ranges.
pub proof fn lemma_field_deterministic(s: SpecV)
    requires
        fits_field(s.all_vars()),
        field_deterministic(s),
    ensures
        deterministic(Numbers::Modulo(prime()), s),
{
    let k = Numbers::Modulo(prime());
    assert forall|
        a: spec_fn(Seq<char>) -> int,
        b: spec_fn(Seq<char>) -> int,
        f: spec_fn(Seq<char>, Seq<char>, Seq<int>) -> int,
    | !is_counterexample(k, s, a, b, f) by {
        if is_counterexample(k, s, a, b, f) {
            let vs = s.all_vars();
            assert forall|i: int| 0 <= i < vs.len() implies 0 <= a((#[trigger] vs[i]).name)
                <= field_max(vs[i], declared(s.internals, vs[i].name)) && 0 <= b(vs[i].name)
                <= field_max(vs[i], declared(s.internals, vs[i].name)) by {
                assert(0 <= a(vs[i].name) <= max_value(vs[i].vtype));
                assert(0 <= b(vs[i].name) <= max_value(vs[i].vtype));
            }
            assert(is_field_counterexample(s, a, b, f));
        }
    }
}

/// Whether all variables of an expression are among `vs`.
pub open spec fn known(vs: Seq<VarV>, e: IrExprV) -> bool {
    unknowns(e, vs).len() == 0
}

/// Whether all variables of a constraint are among `vs`.
pub open spec fn constraint_known(vs: Seq<VarV>, c: ConstraintV) -> bool {
    &&& results_known(vs, c)
    &&& match c {
        ConstraintV::Eq { lhs, rhs, .. } => known(vs, lhs) && known(vs, rhs),
        ConstraintV::IsZero { expr, .. } => known(vs, expr),
        ConstraintV::Call { args, .. } => forall|i: int|
            0 <= i < args.len() ==> known(vs, #[trigger] args[i]),
    }
}

/// Whether all variables of constraints are among `vs`.
pub open spec fn all_known(vs: Seq<VarV>, cs: Seq<ConstraintV>) -> bool {
    forall|i: int| 0 <= i < cs.len() ==> constraint_known(vs, #[trigger] cs[i])
}

// ---------------------------------------------------------------------------
// Names
// ---------------------------------------------------------------------------

/// What stands behind the last underscore of a name is determined by the name.
pub proof fn lemma_tail(p: Seq<char>, r: Seq<char>, q: Seq<char>, t: Seq<char>)
    requires
        p + "_"@ + r == q + "_"@ + t,
        forall|i: int| 0 <= i < r.len() ==> (#[trigger] r[i]) != '_',
        forall|i: int| 0 <= i < t.len() ==> (#[trigger] t[i]) != '_',
    ensures
        p == q,
        r == t,
{
    reveal_strlit("_");
    let a = p + "_"@ + r;
    let b = q + "_"@ + t;
    let i = p.len() as int;
    let j = q.len() as int;
    assert(a == b);
    assert(a.len() == i + 1 + r.len() && b.len() == j + 1 + t.len());
    assert(a[i] == '_' && b[j] == '_');
    if i < j {
        assert(a[j] == r[j - i - 1]);
    } else if j < i {
        assert(b[i] == t[i - j - 1]);
    }
    assert(p =~= a.take(i));
    assert(q =~= b.take(j));
    assert(r =~= a.skip(i + 1));
    assert(t =~= b.skip(j + 1));
}

/// What stands behind the last underscore of the name of a bit.
pub open spec fn bit_tail(i: nat) -> Seq<char> {
    "rb"@ + digits(i)
}

pub proof fn lemma_bit_tail(x: Seq<char>, i: nat)
    ensures
        range_bit(x, i) == x + "_"@ + bit_tail(i),
        forall|j: int| 0 <= j < bit_tail(i).len() ==> (#[trigger] bit_tail(i)[j]) != '_',
{
    reveal_strlit("_rb");
    reveal_strlit("_");
    reveal_strlit("rb");
    lemma_digits_plain(i);
    assert(range_bit(x, i) =~= x + "_"@ + bit_tail(i));
    assert forall|j: int| 0 <= j < bit_tail(i).len() implies (#[trigger] bit_tail(i)[j]) != '_' by {
        if j >= 2 {
            assert(bit_tail(i)[j] == digits(i)[j - 2]);
        }
    }
}

/// What stands behind the last underscore of the name of a variable in one of the runs.
pub open spec fn side_tail(s: Side) -> Seq<char> {
    match s {
        Side::First => "1"@,
        Side::Second => "2"@,
    }
}

pub proof fn lemma_side_tail(x: Seq<char>, s: Side)
    ensures
        instance(x, s) == undotted(x) + "_"@ + side_tail(s),
        side_tail(s).len() == 1,
        side_tail(s)[0] == '1' || side_tail(s)[0] == '2',
{
    reveal_strlit("_1");
    reveal_strlit("_2");
    reveal_strlit("_");
    reveal_strlit("1");
    reveal_strlit("2");
    assert(instance(x, s) =~= undotted(x) + "_"@ + side_tail(s));
}

/// The names of different bits differ.
pub proof fn lemma_bit_names_apart(x: Seq<char>, i: nat, y: Seq<char>, j: nat)
    ensures
        range_bit(x, i) == range_bit(y, j) <==> x == y && i == j,
{
    if range_bit(x, i) == range_bit(y, j) {
        lemma_bit_tail(x, i);
        lemma_bit_tail(y, j);
        lemma_tail(x, bit_tail(i), y, bit_tail(j));
        reveal_strlit("rb");
        assert(digits(i) =~= bit_tail(i).skip(2));
        assert(digits(j) =~= bit_tail(j).skip(2));
        lemma_digits_injective(i, j);
    }
}

/// The name of a bit is not that of a variable.
pub proof fn lemma_bit_is_no_variable(x: Seq<char>, i: nat, y: Seq<char>, s: Side)
    ensures
        range_bit(x, i) != instance(y, s),
{
    if range_bit(x, i) == instance(y, s) {
        lemma_bit_tail(x, i);
        lemma_side_tail(y, s);
        lemma_tail(x, bit_tail(i), undotted(y), side_tail(s));
        reveal_strlit("rb");
        assert(bit_tail(i)[0] == 'r');
    }
}

/// Whether a name is that of a bit.
pub open spec fn is_bit_name(n: Seq<char>, x: Seq<char>, i: nat) -> bool {
    n == range_bit(x, i)
}

/// Values of the names, with those of bits by the values that they are bits of.
pub open spec fn with_bits(m: spec_fn(Seq<char>) -> int) -> spec_fn(Seq<char>) -> int {
    |n: Seq<char>|
        if exists|x: Seq<char>, i: nat| is_bit_name(n, x, i) {
            let (x, i) = choose|x: Seq<char>, i: nat| is_bit_name(n, x, i);
            bit_of(m(x) % prime(), i)
        } else {
            m(n)
        }
}

pub proof fn lemma_with_bits(m: spec_fn(Seq<char>) -> int, x: Seq<char>, i: nat)
    ensures
        with_bits(m)(range_bit(x, i)) == bit_of(m(x) % prime(), i),
{
    let n = range_bit(x, i);
    assert(is_bit_name(n, x, i));
    let (y, j) = choose|y: Seq<char>, j: nat| is_bit_name(n, y, j);
    assert(is_bit_name(n, y, j));
    lemma_bit_names_apart(x, i, y, j);
}

pub proof fn lemma_with_bits_keeps(m: spec_fn(Seq<char>) -> int, y: Seq<char>, s: Side)
    ensures
        with_bits(m)(instance(y, s)) == m(instance(y, s)),
{
    let n = instance(y, s);
    assert forall|x: Seq<char>, i: nat| !is_bit_name(n, x, i) by {
        lemma_bit_is_no_variable(x, i, y, s);
    }
}

// ---------------------------------------------------------------------------
// Scripts
// ---------------------------------------------------------------------------

/// The value of a term, by the values of its variables and by what its function symbols
/// stand for.
pub open spec fn ff_value(
    m: spec_fn(Seq<char>) -> int,
    g: spec_fn(Seq<char>, Seq<int>) -> int,
    t: FfTerm,
) -> int
    decreases t,
{
    match t {
        FfTerm::Var(x) => m(x) % prime(),
        FfTerm::Number(n) => (n as int) % prime(),
        FfTerm::Neg(a) => (-ff_value(m, g, *a)) % prime(),
        FfTerm::Add(a, b) => (ff_value(m, g, *a) + ff_value(m, g, *b)) % prime(),
        FfTerm::Mul(a, b) => (ff_value(m, g, *a) * ff_value(m, g, *b)) % prime(),
        FfTerm::Call(f, args) => g(f, ff_values(m, g, args)) % prime(),
    }
}

/// The values of terms.
pub open spec fn ff_values(
    m: spec_fn(Seq<char>) -> int,
    g: spec_fn(Seq<char>, Seq<int>) -> int,
    v: Seq<FfTerm>,
) -> Seq<int>
    decreases v,
{
    Seq::new(
        v.len(),
        |i: int|
            if 0 <= i < v.len() {
                ff_value(m, g, v[i])
            } else {
                0
            },
    )
}

/// Whether a formula is true.
pub open spec fn ff_true(
    m: spec_fn(Seq<char>) -> int,
    g: spec_fn(Seq<char>, Seq<int>) -> int,
    f: FfFormula,
) -> bool
    decreases f,
{
    match f {
        FfFormula::Equal(a, b) => ff_value(m, g, a) == ff_value(m, g, b),
        FfFormula::Not(a) => !ff_true(m, g, *a),
        FfFormula::And(a, b) => ff_true(m, g, *a) && ff_true(m, g, *b),
        FfFormula::Or(a, b) => ff_true(m, g, *a) || ff_true(m, g, *b),
        FfFormula::Any(v) => exists|i: int| 0 <= i < v.len() && ff_true(m, g, #[trigger] v[i]),
    }
}

/// Whether all that a script asserts is true.
pub open spec fn ff_all_true(
    m: spec_fn(Seq<char>) -> int,
    g: spec_fn(Seq<char>, Seq<int>) -> int,
    s: Seq<FfCommand>,
) -> bool {
    forall|i: int|
        0 <= i < s.len() ==> ((#[trigger] s[i]) matches FfCommand::Assert(f) ==> ff_true(m, g, f))
}

/// Whether all that a script asserts can be true.
pub open spec fn ff_satisfiable(s: Seq<FfCommand>) -> bool {
    exists|m: spec_fn(Seq<char>) -> int, g: spec_fn(Seq<char>, Seq<int>) -> int|
        ff_all_true(m, g, s)
}

/// The values of the variables in one of the runs, by values of their names there.
pub open spec fn field_values(m: spec_fn(Seq<char>) -> int, s: Side) -> spec_fn(Seq<char>) -> int {
    |x: Seq<char>| m(instance(x, s)) % prime()
}

/// What calls stand for, by what function symbols stand for.
pub open spec fn field_functions(g: spec_fn(Seq<char>, Seq<int>) -> int) -> spec_fn(
    Seq<char>,
    Seq<char>,
    Seq<int>,
) -> int {
    |component: Seq<char>, field: Seq<char>, v: Seq<int>| g(ff_symbol(component, field), v)
        % prime()
}

proof fn lemma_true_add(
    m: spec_fn(Seq<char>) -> int,
    g: spec_fn(Seq<char>, Seq<int>) -> int,
    a: Seq<FfCommand>,
    b: Seq<FfCommand>,
)
    ensures
        ff_all_true(m, g, a + b) <==> ff_all_true(m, g, a) && ff_all_true(m, g, b),
{
    if ff_all_true(m, g, a + b) {
        assert forall|i: int| 0 <= i < a.len() implies ((#[trigger] a[i]) matches FfCommand::Assert(
            f,
        ) ==> ff_true(m, g, f)) by {
            assert((a + b)[i] == a[i]);
        }
        assert forall|i: int| 0 <= i < b.len() implies ((#[trigger] b[i]) matches FfCommand::Assert(
            f,
        ) ==> ff_true(m, g, f)) by {
            assert((a + b)[i + a.len()] == b[i]);
        }
    }
}

/// What is true of a script with one more command.
proof fn lemma_true_push(
    m: spec_fn(Seq<char>) -> int,
    g: spec_fn(Seq<char>, Seq<int>) -> int,
    a: Seq<FfCommand>,
    c: FfCommand,
)
    ensures
        ff_all_true(m, g, a.push(c)) <==> ff_all_true(m, g, a) && (c matches FfCommand::Assert(f)
            ==> ff_true(m, g, f)),
{
    assert(a.push(c) =~= a + seq![c]);
    lemma_true_add(m, g, a, seq![c]);
    if ff_all_true(m, g, seq![c]) {
        assert(seq![c][0] == c);
    }
}

/// What is true of a script of one command.
proof fn lemma_true_one(
    m: spec_fn(Seq<char>) -> int,
    g: spec_fn(Seq<char>, Seq<int>) -> int,
    f: FfFormula,
)
    ensures
        ff_all_true(m, g, seq![FfCommand::Assert(f)]) <==> ff_true(m, g, f),
{
    let c = FfCommand::Assert(f);
    lemma_true_push(m, g, Seq::empty(), c);
    assert(Seq::empty().push(c) =~= seq![c]);
}

/// The term of an expression has the value of the expression.
proof fn lemma_ff_expr(
    m: spec_fn(Seq<char>) -> int,
    g: spec_fn(Seq<char>, Seq<int>) -> int,
    e: IrExprV,
    vs: Seq<VarV>,
    side: Side,
)
    requires
        divisionless(e),
        known(vs, e),
    ensures
        ff_value(m, g, ff_expr(e, side)) == value(
            Numbers::Modulo(prime()),
            vs,
            field_values(m, side),
            e,
        ),
    decreases e,
{
    reveal_with_fuel(ff_value, 3);
    let p = prime();
    let a = field_values(m, side);
    let k = Numbers::Modulo(p);
    match e {
        IrExprV::Const(n) => {
            if n < 0 {
                let w = -(n as int);
                lemma_sub_mod_noop(0, w, p);
                assert(0int % p == 0);
                assert((-(w % p)) % p == (n as int) % p);
            }
        },
        IrExprV::Var(x) => {
            assert(declared(vs, x));
        },
        IrExprV::Add(l, r) => {
            assert(unknowns(e, vs).len() == unknowns(*l, vs).len() + unknowns(*r, vs).len());
            lemma_ff_expr(m, g, *l, vs, side);
            lemma_ff_expr(m, g, *r, vs, side);
        },
        IrExprV::Sub(l, r) => {
            assert(unknowns(e, vs).len() == unknowns(*l, vs).len() + unknowns(*r, vs).len());
            lemma_ff_expr(m, g, *l, vs, side);
            lemma_ff_expr(m, g, *r, vs, side);
            let x = value(k, vs, a, *l);
            let y = value(k, vs, a, *r);
            lemma_add_mod_noop_right(x, -y, p);
        },
        IrExprV::Mul(l, r) => {
            assert(unknowns(e, vs).len() == unknowns(*l, vs).len() + unknowns(*r, vs).len());
            lemma_ff_expr(m, g, *l, vs, side);
            lemma_ff_expr(m, g, *r, vs, side);
        },
        IrExprV::Div(l, r) => {},
    }
}

/// The first `n` outputs of a call are true where the call holds for them.
proof fn lemma_ff_outputs(
    m: spec_fn(Seq<char>) -> int,
    g: spec_fn(Seq<char>, Seq<int>) -> int,
    component: Seq<char>,
    args: Seq<FfTerm>,
    outputs: Seq<(Seq<char>, Seq<char>)>,
    side: Side,
    n: nat,
)
    requires
        n <= outputs.len(),
    ensures
        ff_all_true(m, g, ff_outputs(component, args, outputs, side, n)) <==> (forall|j: int|
            0 <= j < n ==> field_values(m, side)((#[trigger] outputs[j]).1) == field_functions(g)(
                component,
                outputs[j].0,
                ff_values(m, g, args),
            )),
    decreases n,
{
    if n > 0 {
        let k = (n - 1) as nat;
        lemma_ff_outputs(m, g, component, args, outputs, side, k);
        let before = ff_outputs(component, args, outputs, side, k);
        let f = FfFormula::Equal(
            ff_var(outputs[n - 1].1, side),
            FfTerm::Call(ff_symbol(component, outputs[n - 1].0), args),
        );
        lemma_true_push(m, g, before, FfCommand::Assert(f));
        let a = field_values(m, side);
        let h = field_functions(g);
        let v = ff_values(m, g, args);
        assert(ff_true(m, g, f) <==> a(outputs[n - 1].1) == h(component, outputs[n - 1].0, v));
    }
}

/// A constraint is true in one of the runs where it holds there.
proof fn lemma_ff_constraint(
    m: spec_fn(Seq<char>) -> int,
    g: spec_fn(Seq<char>, Seq<int>) -> int,
    c: ConstraintV,
    vs: Seq<VarV>,
    side: Side,
)
    requires
        divisionless_constraint(c),
        constraint_known(vs, c),
    ensures
        ff_all_true(m, g, ff_constraint(c, side)) <==> holds(
            Numbers::Modulo(prime()),
            vs,
            field_values(m, side),
            field_functions(g),
            c,
        ),
{
    let k = Numbers::Modulo(prime());
    let a = field_values(m, side);
    match c {
        ConstraintV::Eq { lhs, rhs, .. } => {
            lemma_ff_expr(m, g, lhs, vs, side);
            lemma_ff_expr(m, g, rhs, vs, side);
            lemma_true_one(m, g, FfFormula::Equal(ff_expr(lhs, side), ff_expr(rhs, side)));
        },
        ConstraintV::IsZero { result, expr } => {
            lemma_ff_expr(m, g, expr, vs, side);
            let f = ff_is_zero(ff_expr(expr, side), ff_var(result, side));
            lemma_true_one(m, g, f);
            reveal_with_fuel(ff_true, 4);
            assert(ff_value(m, g, ff_var(result, side)) == a(result));
            assert(ff_value(m, g, ff_zero()) == 0 && ff_value(m, g, ff_one()) == 1);
        },
        ConstraintV::Call { component, args, outputs } => {
            let terms = ff_exprs(args, side);
            lemma_ff_outputs(m, g, component, terms, outputs, side, outputs.len());
            assert forall|i: int| 0 <= i < args.len() implies ff_value(m, g, #[trigger] terms[i])
                == value(k, vs, a, args[i]) by {
                assert(divisionless(args[i]));
                assert(known(vs, args[i]));
                lemma_ff_expr(m, g, args[i], vs, side);
            }
            assert(ff_values(m, g, terms) =~= all_values(k, vs, a, args));
        },
    }
}

/// The first `n` constraints are true where they hold in both runs.
proof fn lemma_ff_constraints(
    m: spec_fn(Seq<char>) -> int,
    g: spec_fn(Seq<char>, Seq<int>) -> int,
    cs: Seq<ConstraintV>,
    vs: Seq<VarV>,
    n: nat,
)
    requires
        n <= cs.len(),
        all_divisionless(cs),
        all_known(vs, cs),
    ensures
        ff_all_true(m, g, ff_constraints(cs, n)) <==> (forall|j: int|
            0 <= j < n ==> holds(
                Numbers::Modulo(prime()),
                vs,
                field_values(m, Side::First),
                field_functions(g),
                #[trigger] cs[j],
            )) && (forall|j: int|
            0 <= j < n ==> holds(
                Numbers::Modulo(prime()),
                vs,
                field_values(m, Side::Second),
                field_functions(g),
                #[trigger] cs[j],
            )),
    decreases n,
{
    if n > 0 {
        let k = (n - 1) as nat;
        let c = cs[n - 1];
        lemma_ff_constraints(m, g, cs, vs, k);
        assert(divisionless_constraint(c));
        assert(constraint_known(vs, c));
        lemma_ff_constraint(m, g, c, vs, Side::First);
        lemma_ff_constraint(m, g, c, vs, Side::Second);
        let before = ff_constraints(cs, k);
        let first = ff_constraint(c, Side::First);
        lemma_true_add(m, g, before, first);
        lemma_true_add(m, g, before + first, ff_constraint(c, Side::Second));
    }
}

/// That the first `n` inputs are the same is true where they have the same values in both
/// runs.
proof fn lemma_ff_same_inputs(
    m: spec_fn(Seq<char>) -> int,
    g: spec_fn(Seq<char>, Seq<int>) -> int,
    vs: Seq<VarV>,
    n: nat,
)
    requires
        n <= vs.len(),
    ensures
        ff_all_true(m, g, ff_same_inputs(vs, n)) <==> same_values(
            vs.take(n as int),
            field_values(m, Side::First),
            field_values(m, Side::Second),
        ),
    decreases n,
{
    if n > 0 {
        let k = (n - 1) as nat;
        lemma_ff_same_inputs(m, g, vs, k);
        let v = vs[n - 1];
        lemma_true_push(m, g, ff_same_inputs(vs, k), FfCommand::Assert(ff_same(v.name)));
        let a = field_values(m, Side::First);
        let b = field_values(m, Side::Second);
        assert(ff_true(m, g, ff_same(v.name)) <==> a(v.name) == b(v.name));
        let now = vs.take(n as int);
        let was = vs.take(n - 1);
        assert(now =~= was.push(v));
        if same_values(now, a, b) {
            assert forall|i: int| 0 <= i < was.len() implies a((#[trigger] was[i]).name) == b(
                was[i].name,
            ) by {
                assert(now[i] == was[i]);
            }
            assert(now[n - 1] == v);
        }
    }
}

/// That one of the outputs differs is true where they do not all have the same values in
/// both runs.
proof fn lemma_ff_differ(
    m: spec_fn(Seq<char>) -> int,
    g: spec_fn(Seq<char>, Seq<int>) -> int,
    vs: Seq<VarV>,
)
    ensures
        ff_true(m, g, ff_differ(vs)) <==> !same_values(
            vs,
            field_values(m, Side::First),
            field_values(m, Side::Second),
        ),
{
    reveal_with_fuel(ff_true, 3);
    let a = field_values(m, Side::First);
    let b = field_values(m, Side::Second);
    let fs = vs.map_values(|v: VarV| ff_differs(v.name));
    assert forall|i: int| 0 <= i < vs.len() implies (ff_true(m, g, #[trigger] fs[i]) <==> a(
        vs[i].name,
    ) != b(vs[i].name)) by {
        assert(ff_true(m, g, ff_same(vs[i].name)) <==> a(vs[i].name) == b(vs[i].name));
    }
    if vs.len() == 1 {
        assert(fs[0] == ff_differ(vs));
        assert(ff_true(m, g, ff_differ(vs)) <==> a(vs[0].name) != b(vs[0].name));
    } else {
        if !same_values(vs, a, b) {
            let i = choose|i: int|
                0 <= i < vs.len() && a((#[trigger] vs[i]).name) != b(vs[i].name);
            assert(ff_true(m, g, fs[i]));
        }
        if ff_true(m, g, FfFormula::Any(fs)) {
            let i = choose|i: int| 0 <= i < fs.len() && ff_true(m, g, #[trigger] fs[i]);
            assert(a(vs[i].name) != b(vs[i].name));
        }
    }
}

// ---------------------------------------------------------------------------
// Ranges
// ---------------------------------------------------------------------------

/// The values of the first `n` bits of a variable.
pub open spec fn bit_values(m: spec_fn(Seq<char>) -> int, x: Seq<char>, n: nat) -> Seq<int> {
    Seq::new(n, |i: int| m(range_bit(x, i as nat)) % prime())
}

/// That a variable is a bit is true where its value is.
proof fn lemma_ff_bit(
    m: spec_fn(Seq<char>) -> int,
    g: spec_fn(Seq<char>, Seq<int>) -> int,
    x: Seq<char>,
)
    ensures
        ff_true(m, g, bit_formula(FfTerm::Var(x))) <==> m(x) % prime() == 0 || m(x) % prime() == 1,
{
    reveal_with_fuel(ff_value, 5);
    let p = prime();
    let v = m(x) % p;
    lemma_add_mod_noop_right(v, -1, p);
    assert(ff_value(m, g, ff_one()) == 1);
    assert(ff_value(m, g, ff_neg(ff_one())) == (-1int) % p);
    lemma_bit_root(v);
}

/// That a variable is a number up to 3 is true where its value is.
proof fn lemma_ff_twit(
    m: spec_fn(Seq<char>) -> int,
    g: spec_fn(Seq<char>, Seq<int>) -> int,
    x: Seq<char>,
)
    ensures
        ff_true(m, g, twit_formula(FfTerm::Var(x))) <==> m(x) % prime() <= 3,
{
    let p = prime();
    let v = m(x) % p;
    let t = FfTerm::Var(x);
    let two = ff_add(ff_one(), ff_one());
    let three = ff_add(ff_one(), ff_add(ff_one(), ff_one()));
    assert(ff_value(m, g, t) == v);
    assert(ff_value(m, g, ff_one()) == 1);
    assert(ff_value(m, g, two) == 2);
    assert(ff_value(m, g, three) == 3);
    let t1 = ff_add(t, ff_neg(ff_one()));
    let t2 = ff_add(t, ff_neg(two));
    let t3 = ff_add(t, ff_neg(three));
    lemma_add_mod_noop_right(v, -1, p);
    lemma_add_mod_noop_right(v, -2, p);
    lemma_add_mod_noop_right(v, -3, p);
    assert(ff_value(m, g, ff_neg(ff_one())) == (-1int) % p);
    assert(ff_value(m, g, ff_neg(two)) == (-2int) % p);
    assert(ff_value(m, g, ff_neg(three)) == (-3int) % p);
    assert(ff_value(m, g, t1) == (v - 1) % p);
    assert(ff_value(m, g, t2) == (v - 2) % p);
    assert(ff_value(m, g, t3) == (v - 3) % p);
    assert(ff_value(m, g, ff_mul(t, t1)) == (v * ((v - 1) % p)) % p);
    let a = (v * ((v - 1) % p)) % p;
    assert(ff_value(m, g, ff_mul(ff_mul(t, t1), t2)) == (a * ((v - 2) % p)) % p);
    let b = (a * ((v - 2) % p)) % p;
    assert(ff_value(m, g, ff_mul(ff_mul(ff_mul(t, t1), t2), t3)) == (b * ((v - 3) % p)) % p);
    assert(ff_value(m, g, ff_zero()) == 0);
    lemma_twit_root(v);
}

/// That the first `n` bits of a variable are bits is true where their values are.
proof fn lemma_ff_range_bits(
    m: spec_fn(Seq<char>) -> int,
    g: spec_fn(Seq<char>, Seq<int>) -> int,
    x: Seq<char>,
    n: nat,
)
    ensures
        ff_all_true(m, g, range_bits(x, n)) <==> are_bits(bit_values(m, x, n)),
    decreases n,
{
    if n > 0 {
        let k = (n - 1) as nat;
        lemma_ff_range_bits(m, g, x, k);
        let b = range_bit(x, k);
        let before = range_bits(x, k);
        let f = bit_formula(FfTerm::Var(b));
        lemma_true_push(m, g, before, FfCommand::DeclareConst(b));
        lemma_true_push(
            m,
            g,
            before.push(FfCommand::DeclareConst(b)),
            FfCommand::Assert(f),
        );
        lemma_ff_bit(m, g, b);
        let now = bit_values(m, x, n);
        let was = bit_values(m, x, k);
        if are_bits(now) {
            assert forall|i: int| 0 <= i < was.len() implies (#[trigger] was[i] == 0 || was[i]
                == 1) by {
                assert(now[i] == was[i]);
            }
            assert(now[k as int] == m(b) % prime());
        }
        if are_bits(was) && ff_true(m, g, f) {
            assert forall|i: int| 0 <= i < now.len() implies (#[trigger] now[i] == 0 || now[i]
                == 1) by {
                if i < k {
                    assert(was[i] == now[i]);
                }
            }
        }
    }
}

/// The sum of the first bits of a variable, each times its weight, has the value of the
/// number that they make up.
proof fn lemma_ff_range_sum(
    m: spec_fn(Seq<char>) -> int,
    g: spec_fn(Seq<char>, Seq<int>) -> int,
    x: Seq<char>,
    n: nat,
)
    requires
        0 < n <= 16,
        are_bits(bit_values(m, x, n)),
    ensures
        ff_value(m, g, range_sum(x, n)) == number(bit_values(m, x, n)),
    decreases n,
{
    lemma2_to64();
    let p = prime();
    let k = (n - 1) as nat;
    let now = bit_values(m, x, n);
    let was = bit_values(m, x, k);
    assert(now.drop_last() =~= was);
    assert(are_bits(was)) by {
        assert forall|i: int| 0 <= i < was.len() implies (#[trigger] was[i] == 0 || was[i] == 1) by {
            assert(now[i] == was[i]);
        }
    }
    let b = now.last();
    assert(b == m(range_bit(x, k)) % p);
    assert(b == 0 || b == 1) by {
        assert(now[k as int] == b);
    }
    if n < 16 {
        lemma_pow2_strictly_increases(n, 16);
    }
    lemma_pow2_strictly_increases(k, 16);
    assert(pow2(k) < 65536 && pow2(n) <= 65536);
    let t = FfTerm::Var(range_bit(x, k));
    let w = FfTerm::Number(pow2(k));
    lemma_small_mod(pow2(k), p as nat);
    assert(ff_value(m, g, t) == b);
    assert(ff_value(m, g, w) == pow2(k));
    assert(weighted_bit(x, k) == ff_mul(t, w));
    assert(b * (pow2(k) as int) == if b == 0 {
        0
    } else {
        pow2(k) as int
    });
    assert(ff_value(m, g, weighted_bit(x, k)) == b * pow2(k));
    lemma_number_bounds(now);
    if n == 1 {
        assert(was =~= Seq::empty());
        assert(number(was) == 0);
    } else {
        lemma_ff_range_sum(m, g, x, k);
        lemma_small_mod(number(now) as nat, p as nat);
    }
}

/// That a variable has `n` bits is true where its value is the number that their values
/// make up.
proof fn lemma_ff_has_bits(
    m: spec_fn(Seq<char>) -> int,
    g: spec_fn(Seq<char>, Seq<int>) -> int,
    x: Seq<char>,
    n: nat,
)
    requires
        0 < n <= 16,
    ensures
        ff_all_true(m, g, has_bits(x, n)) <==> are_bits(bit_values(m, x, n)) && m(x) % prime()
            == number(bit_values(m, x, n)),
{
    let f = FfFormula::Equal(FfTerm::Var(x), range_sum(x, n));
    lemma_ff_range_bits(m, g, x, n);
    lemma_true_push(m, g, range_bits(x, n), FfCommand::Assert(f));
    if are_bits(bit_values(m, x, n)) {
        lemma_ff_range_sum(m, g, x, n);
    }
}

/// Where the range of a variable is true in one of the runs, its value lies in it.
proof fn lemma_ff_range_means(
    m: spec_fn(Seq<char>) -> int,
    g: spec_fn(Seq<char>, Seq<int>) -> int,
    v: VarV,
    internal: bool,
    side: Side,
)
    requires
        ff_all_true(m, g, ff_range(v, internal, side)),
    ensures
        0 <= field_values(m, side)(v.name) <= field_max(v, internal),
{
    lemma2_to64();
    let x = instance(v.name, side);
    match v.vtype {
        VarType::Bit => {
            lemma_true_one(m, g, bit_formula(FfTerm::Var(x)));
            lemma_ff_bit(m, g, x);
        },
        VarType::Twit => {
            lemma_true_one(m, g, twit_formula(FfTerm::Var(x)));
            lemma_ff_twit(m, g, x);
        },
        VarType::U8 => {
            if internal {
                lemma_ff_has_bits(m, g, x, 8);
                lemma_number_bounds(bit_values(m, x, 8));
            }
        },
        VarType::U16 => {
            if internal {
                lemma_ff_has_bits(m, g, x, 16);
                lemma_number_bounds(bit_values(m, x, 16));
            }
        },
        _ => {},
    }
}

/// Where the value of a variable lies in its range, the bits of that value make the range
/// true.
proof fn lemma_ff_range_made(
    m: spec_fn(Seq<char>) -> int,
    g: spec_fn(Seq<char>, Seq<int>) -> int,
    v: VarV,
    internal: bool,
    side: Side,
)
    requires
        0 <= field_values(m, side)(v.name) <= field_max(v, internal),
    ensures
        ff_all_true(with_bits(m), g, ff_range(v, internal, side)),
{
    lemma2_to64();
    let x = instance(v.name, side);
    let mb = with_bits(m);
    lemma_with_bits_keeps(m, v.name, side);
    match v.vtype {
        VarType::Bit => {
            lemma_true_one(mb, g, bit_formula(FfTerm::Var(x)));
            lemma_ff_bit(mb, g, x);
        },
        VarType::Twit => {
            lemma_true_one(mb, g, twit_formula(FfTerm::Var(x)));
            lemma_ff_twit(mb, g, x);
        },
        VarType::U8 => {
            if internal {
                lemma_made_bits(m, x, 8);
                lemma_ff_has_bits(mb, g, x, 8);
                lemma_bits_make_up(m(x) % prime(), 8);
            }
        },
        VarType::U16 => {
            if internal {
                lemma_made_bits(m, x, 16);
                lemma_ff_has_bits(mb, g, x, 16);
                lemma_bits_make_up(m(x) % prime(), 16);
            }
        },
        _ => {},
    }
}

/// The values of the bits of a variable are the bits of its value.
pub proof fn lemma_made_bits(m: spec_fn(Seq<char>) -> int, x: Seq<char>, n: nat)
    ensures
        bit_values(with_bits(m), x, n) == first_bits(m(x) % prime(), n),
{
    assert forall|i: int| 0 <= i < n implies #[trigger] bit_values(with_bits(m), x, n)[i] == bit_of(
        m(x) % prime(),
        i as nat,
    ) by {
        lemma_with_bits(m, x, i as nat);
        let b = bit_of(m(x) % prime(), i as nat);
        assert(0 <= b < 2);
        lemma_small_mod(b as nat, prime() as nat);
    }
    assert(bit_values(with_bits(m), x, n) =~= first_bits(m(x) % prime(), n));
}

/// Where the ranges of the first `n` variables are true, their values lie in them in both
/// runs.
proof fn lemma_ff_ranges_mean(
    m: spec_fn(Seq<char>) -> int,
    g: spec_fn(Seq<char>, Seq<int>) -> int,
    vs: Seq<VarV>,
    internals: Seq<VarV>,
    n: nat,
)
    requires
        n <= vs.len(),
        ff_all_true(m, g, ff_ranges(vs, internals, n)),
    ensures
        in_field(vs.take(n as int), internals, field_values(m, Side::First)),
        in_field(vs.take(n as int), internals, field_values(m, Side::Second)),
    decreases n,
{
    if n > 0 {
        let k = (n - 1) as nat;
        let v = vs[n - 1];
        let internal = declared(internals, v.name);
        let before = ff_ranges(vs, internals, k);
        let first = ff_range(v, internal, Side::First);
        lemma_true_add(m, g, before, first);
        lemma_true_add(m, g, before + first, ff_range(v, internal, Side::Second));
        lemma_ff_ranges_mean(m, g, vs, internals, k);
        lemma_ff_range_means(m, g, v, internal, Side::First);
        lemma_ff_range_means(m, g, v, internal, Side::Second);
        let now = vs.take(n as int);
        let was = vs.take(n - 1);
        assert forall|i: int| 0 <= i < now.len() implies 0 <= field_values(m, Side::First)(
            (#[trigger] now[i]).name,
        ) <= field_max(now[i], declared(internals, now[i].name)) && 0 <= field_values(
            m,
            Side::Second,
        )(now[i].name) <= field_max(now[i], declared(internals, now[i].name)) by {
            if i < n - 1 {
                assert(now[i] == was[i]);
            } else {
                assert(now[i] == v);
            }
        }
    }
}

/// Where the values of the variables lie in their ranges in both runs, their bits make the
/// ranges of the first `n` true.
proof fn lemma_ff_ranges_made(
    m: spec_fn(Seq<char>) -> int,
    g: spec_fn(Seq<char>, Seq<int>) -> int,
    vs: Seq<VarV>,
    internals: Seq<VarV>,
    n: nat,
)
    requires
        n <= vs.len(),
        in_field(vs, internals, field_values(m, Side::First)),
        in_field(vs, internals, field_values(m, Side::Second)),
    ensures
        ff_all_true(with_bits(m), g, ff_ranges(vs, internals, n)),
    decreases n,
{
    if n > 0 {
        let k = (n - 1) as nat;
        let v = vs[n - 1];
        let internal = declared(internals, v.name);
        let before = ff_ranges(vs, internals, k);
        let first = ff_range(v, internal, Side::First);
        let mb = with_bits(m);
        lemma_ff_ranges_made(m, g, vs, internals, k);
        lemma_ff_range_made(m, g, v, internal, Side::First);
        lemma_ff_range_made(m, g, v, internal, Side::Second);
        lemma_true_add(mb, g, before, first);
        lemma_true_add(mb, g, before + first, ff_range(v, internal, Side::Second));
    }
}

// ---------------------------------------------------------------------------
// The answer
// ---------------------------------------------------------------------------

/// Declarations assert nothing.
proof fn lemma_ff_declarations(
    m: spec_fn(Seq<char>) -> int,
    g: spec_fn(Seq<char>, Seq<int>) -> int,
    vs: Seq<VarV>,
    n: nat,
)
    ensures
        ff_all_true(m, g, ff_declarations(vs, n)),
    decreases n,
{
    if 0 < n <= vs.len() {
        lemma_ff_declarations(m, g, vs, (n - 1) as nat);
    }
}

/// What a script asserts is true for values that make the ranges true and are those of two
/// runs with the same inputs and different outputs.
proof fn lemma_ff_script(
    m: spec_fn(Seq<char>) -> int,
    g: spec_fn(Seq<char>, Seq<int>) -> int,
    s: SpecV,
)
    requires
        all_divisionless(s.constraints),
        all_known(s.all_vars(), s.constraints),
    ensures
        ff_all_true(m, g, ff_script(s)) <==> {
            let k = Numbers::Modulo(prime());
            let vs = s.all_vars();
            let a = field_values(m, Side::First);
            let b = field_values(m, Side::Second);
            &&& ff_all_true(m, g, ff_ranges(vs, s.internals, vs.len()))
            &&& all_hold(k, vs, a, field_functions(g), s.constraints)
            &&& all_hold(k, vs, b, field_functions(g), s.constraints)
            &&& same_values(s.inputs, a, b)
            &&& !same_values(s.outputs, a, b)
        },
{
    let vs = s.all_vars();
    let cs = s.constraints;
    let s0 = seq![FfCommand::SetLogic(ff_logic(cs)), FfCommand::DefineField];
    let s1 = s0 + ff_declarations(vs, vs.len());
    let s2 = s1 + ff_ranges(vs, s.internals, vs.len());
    let s3 = s2 + ff_same_inputs(s.inputs, s.inputs.len());
    let fs = ff_functions(ff_symbols(cs, cs.len()));
    let s4 = s3 + fs;
    let s5 = s4 + ff_constraints(cs, cs.len());
    let f = ff_differ(s.outputs);
    let end = seq![FfCommand::Assert(f), FfCommand::CheckSat];
    assert(ff_all_true(m, g, s0));
    assert(ff_all_true(m, g, fs));
    lemma_ff_declarations(m, g, vs, vs.len());
    lemma_true_add(m, g, s0, ff_declarations(vs, vs.len()));
    lemma_true_add(m, g, s1, ff_ranges(vs, s.internals, vs.len()));
    lemma_true_add(m, g, s2, ff_same_inputs(s.inputs, s.inputs.len()));
    lemma_true_add(m, g, s3, fs);
    lemma_true_add(m, g, s4, ff_constraints(cs, cs.len()));
    lemma_true_add(m, g, s5, end);
    lemma_true_one(m, g, f);
    lemma_true_push(m, g, seq![FfCommand::Assert(f)], FfCommand::CheckSat);
    assert(seq![FfCommand::Assert(f)].push(FfCommand::CheckSat) =~= end);
    lemma_ff_same_inputs(m, g, s.inputs, s.inputs.len());
    assert(s.inputs.take(s.inputs.len() as int) =~= s.inputs);
    lemma_ff_constraints(m, g, cs, vs, cs.len());
    lemma_ff_differ(m, g, s.outputs);
}

/// Where an instruction is deterministic over the field, what its script asserts cannot be
/// true.
pub proof fn lemma_deterministic_is_unsat(s: SpecV)
    requires
        all_divisionless(s.constraints),
        all_known(s.all_vars(), s.constraints),
        field_deterministic(s),
    ensures
        !ff_satisfiable(ff_script(s)),
{
    if ff_satisfiable(ff_script(s)) {
        let (m, g) = choose|
            m: spec_fn(Seq<char>) -> int,
            g: spec_fn(Seq<char>, Seq<int>) -> int,
        | ff_all_true(m, g, ff_script(s));
        let vs = s.all_vars();
        lemma_ff_script(m, g, s);
        lemma_ff_ranges_mean(m, g, vs, s.internals, vs.len());
        assert(vs.take(vs.len() as int) =~= vs);
        assert(is_field_counterexample(
            s,
            field_values(m, Side::First),
            field_values(m, Side::Second),
            field_functions(g),
        ));
    }
}

/// Whether the fields of components that calls have as outputs have different function
/// symbols.
pub open spec fn symbols_apart(cs: Seq<ConstraintV>) -> bool {
    forall|i: int, j: int, p: int, q: int|
        #![trigger cs[i]->outputs[p], cs[j]->outputs[q]]
        0 <= i < cs.len() && 0 <= j < cs.len() && cs[i] is Call && cs[j] is Call && 0 <= p
            < cs[i]->outputs.len() && 0 <= q < cs[j]->outputs.len() && ff_symbol(
            cs[i]->component,
            cs[i]->outputs[p].0,
        ) == ff_symbol(cs[j]->component, cs[j]->outputs[q].0) ==> cs[i]->component
            == cs[j]->component && cs[i]->outputs[p].0 == cs[j]->outputs[q].0
}

/// Whether output `p` of call `i` has a function symbol.
pub open spec fn is_symbol_of(cs: Seq<ConstraintV>, i: int, p: int, n: Seq<char>) -> bool {
    0 <= i < cs.len() && cs[i] is Call && 0 <= p < cs[i]->outputs.len() && ff_symbol(
        cs[i]->component,
        cs[i]->outputs[p].0,
    ) == n
}

/// What function symbols stand for, by what calls stand for.
pub open spec fn symbol_functions(
    cs: Seq<ConstraintV>,
    f: spec_fn(Seq<char>, Seq<char>, Seq<int>) -> int,
) -> spec_fn(Seq<char>, Seq<int>) -> int {
    |n: Seq<char>, v: Seq<int>|
        {
            let (i, p) = choose|i: int, p: int| is_symbol_of(cs, i, p, n);
            f(cs[i]->component, cs[i]->outputs[p].0, v)
        }
}

/// What calls stand for, as elements of the field.
pub open spec fn reduced(f: spec_fn(Seq<char>, Seq<char>, Seq<int>) -> int) -> spec_fn(
    Seq<char>,
    Seq<char>,
    Seq<int>,
) -> int {
    |component: Seq<char>, field: Seq<char>, v: Seq<int>| f(component, field, v) % prime()
}

/// Function symbols that are apart give back what calls stand for.
proof fn lemma_symbol_functions(
    cs: Seq<ConstraintV>,
    f: spec_fn(Seq<char>, Seq<char>, Seq<int>) -> int,
    j: int,
)
    requires
        symbols_apart(cs),
        0 <= j < cs.len(),
    ensures
        agree_for(field_functions(symbol_functions(cs, f)), reduced(f), cs[j]),
{
    let h = field_functions(symbol_functions(cs, f));
    let r = reduced(f);
    match cs[j] {
        ConstraintV::Call { component, outputs, .. } => {
            assert forall|q: int, v: Seq<int>| 0 <= q < outputs.len() implies h(
                component,
                (#[trigger] outputs[q]).0,
                v,
            ) == #[trigger] r(component, outputs[q].0, v) by {
                let n = ff_symbol(component, outputs[q].0);
                assert(is_symbol_of(cs, j, q, n));
                let (i, p) = choose|i: int, p: int| is_symbol_of(cs, i, p, n);
                assert(is_symbol_of(cs, i, p, n));
                assert(cs[i]->outputs[p].0 == cs[j]->outputs[q].0);
            }
        },
        _ => {},
    }
}

/// A constraint that holds for elements of the field holds with calls that stand for
/// elements of the field.
proof fn lemma_holds_reduced(
    vs: Seq<VarV>,
    internals: Seq<VarV>,
    a: spec_fn(Seq<char>) -> int,
    f: spec_fn(Seq<char>, Seq<char>, Seq<int>) -> int,
    c: ConstraintV,
)
    requires
        in_field(vs, internals, a),
        results_known(vs, c),
        holds(Numbers::Modulo(prime()), vs, a, f, c),
    ensures
        holds(Numbers::Modulo(prime()), vs, a, reduced(f), c),
{
    let k = Numbers::Modulo(prime());
    match c {
        ConstraintV::Call { component, args, outputs } => {
            let v = all_values(k, vs, a, args);
            assert forall|i: int| 0 <= i < outputs.len() implies a((#[trigger] outputs[i]).1)
                == reduced(f)(component, outputs[i].0, v) by {
                let x = outputs[i].1;
                assert(declared(vs, x));
                let j = choose|j: int| 0 <= j < vs.len() && (#[trigger] vs[j]).name == x;
                assert(0 <= a(vs[j].name) <= field_max(vs[j], declared(internals, vs[j].name)));
                lemma_small_mod(a(x) as nat, prime() as nat);
            }
        },
        _ => {},
    }
}

/// Values that agree on the variables are those of the same run over the field.
pub proof fn lemma_field_run_agrees(
    s: SpecV,
    a: spec_fn(Seq<char>) -> int,
    b: spec_fn(Seq<char>) -> int,
)
    requires
        agree_on(s.all_vars(), b, a),
        in_field(s.all_vars(), s.internals, a),
    ensures
        in_field(s.all_vars(), s.internals, b),
{
    let vs = s.all_vars();
    assert forall|i: int| 0 <= i < vs.len() implies 0 <= b((#[trigger] vs[i]).name) <= field_max(
        vs[i],
        declared(s.internals, vs[i].name),
    ) by {
        assert(declared(vs, vs[i].name));
        assert(b(vs[i].name) == a(vs[i].name));
    }
}

/// Values of the names in both runs give back the values of the variables in each.
pub proof fn lemma_field_merged(
    s: SpecV,
    a: spec_fn(Seq<char>) -> int,
    b: spec_fn(Seq<char>) -> int,
)
    requires
        names_apart(s.all_vars()),
        in_field(s.all_vars(), s.internals, a),
        in_field(s.all_vars(), s.internals, b),
    ensures
        agree_on(s.all_vars(), field_values(merged(s.all_vars(), a, b), Side::First), a),
        agree_on(s.all_vars(), field_values(merged(s.all_vars(), a, b), Side::Second), b),
{
    let vs = s.all_vars();
    let m = merged(vs, a, b);
    lemma_merged(vs, a, b);
    let a1 = side_values(m, Side::First);
    let b1 = side_values(m, Side::Second);
    let a2 = field_values(m, Side::First);
    let b2 = field_values(m, Side::Second);
    assert forall|x: Seq<char>| declared(vs, x) implies #[trigger] a2(x) == a(x) by {
        let j = choose|j: int| 0 <= j < vs.len() && (#[trigger] vs[j]).name == x;
        assert(0 <= a(vs[j].name) <= field_max(vs[j], declared(s.internals, vs[j].name)));
        assert(a1(x) == a(x));
        lemma_small_mod(a(x) as nat, prime() as nat);
    }
    assert forall|x: Seq<char>| declared(vs, x) implies #[trigger] b2(x) == b(x) by {
        let j = choose|j: int| 0 <= j < vs.len() && (#[trigger] vs[j]).name == x;
        assert(0 <= b(vs[j].name) <= field_max(vs[j], declared(s.internals, vs[j].name)));
        assert(b1(x) == b(x));
        lemma_small_mod(b(x) as nat, prime() as nat);
    }
}

/// Values with bits give the same values of the variables.
pub proof fn lemma_field_values_keep(m: spec_fn(Seq<char>) -> int, side: Side)
    ensures
        field_values(with_bits(m), side) == field_values(m, side),
{
    assert forall|x: Seq<char>| #[trigger] field_values(with_bits(m), side)(x) == field_values(
        m,
        side,
    )(x) by {
        lemma_with_bits_keeps(m, x, side);
    }
    assert(field_values(with_bits(m), side) =~= field_values(m, side));
}

/// Where the names of an instruction stay apart and all its variables are known, what its
/// script asserts can be true exactly where the instruction is not deterministic over the
/// field: the answer `unsat` means that the instruction is deterministic, and the answer
/// `sat` that it is not.
pub proof fn lemma_ff_answer(s: SpecV)
    requires
        all_divisionless(s.constraints),
        all_known(s.all_vars(), s.constraints),
        names_apart(s.all_vars()),
        symbols_apart(s.constraints),
    ensures
        ff_satisfiable(ff_script(s)) <==> !field_deterministic(s),
{
    if field_deterministic(s) {
        lemma_deterministic_is_unsat(s);
    } else {
        let vs = s.all_vars();
        let cs = s.constraints;
        let k = Numbers::Modulo(prime());
        let (a, b, f) = choose|
            a: spec_fn(Seq<char>) -> int,
            b: spec_fn(Seq<char>) -> int,
            f: spec_fn(Seq<char>, Seq<char>, Seq<int>) -> int,
        | is_field_counterexample(s, a, b, f);
        let m0 = merged(vs, a, b);
        let m = with_bits(m0);
        let g = symbol_functions(cs, f);
        lemma_field_values_keep(m0, Side::First);
        lemma_field_values_keep(m0, Side::Second);
        let a2 = field_values(m, Side::First);
        let b2 = field_values(m, Side::Second);
        let f2 = field_functions(g);
        lemma_field_merged(s, a, b);
        lemma_field_run_agrees(s, a, a2);
        lemma_field_run_agrees(s, b, b2);
        lemma_ff_ranges_made(m0, g, vs, s.internals, vs.len());
        assert forall|i: int| 0 <= i < cs.len() implies holds(
            k,
            vs,
            a2,
            f2,
            #[trigger] cs[i],
        ) && holds(k, vs, b2, f2, cs[i]) by {
            assert(holds(k, vs, a, f, cs[i]) && holds(k, vs, b, f, cs[i]));
            assert(divisionless_constraint(cs[i]));
            assert(constraint_known(vs, cs[i]));
            lemma_holds_reduced(vs, s.internals, a, f, cs[i]);
            lemma_holds_reduced(vs, s.internals, b, f, cs[i]);
            lemma_symbol_functions(cs, f, i);
            lemma_holds_agrees(k, vs, a2, a, f2, reduced(f), cs[i]);
            lemma_holds_agrees(k, vs, b2, b, f2, reduced(f), cs[i]);
        }
        lemma_same_on_vars(s, a, b, a2, b2);
        lemma_ff_script(m, g, s);
        assert(ff_all_true(m, g, ff_script(s)));
    }
}

} // verus!
