//! What it means that a system of polynomials has no solution.

use vstd::arithmetic::div_mod::{
    lemma_mod_add_multiples_vanish, lemma_mul_mod_noop_right, lemma_small_mod, lemma_sub_mod_noop,
};
use vstd::arithmetic::power2::{lemma2_to64, lemma_pow2_strictly_increases};
use vstd::prelude::*;
use crate::ir::{ConstraintV, IrExprV, SpecV, VarType, VarV};
use crate::laws::arithmetic::{are_bits, lemma_number_bounds, number};
use crate::laws::determinism::{
    all_divisionless, all_hold, divisionless, divisionless_constraint, holds, lemma_holds_agrees,
    lemma_same_on_vars, merged, names_apart, same_values, value, Numbers,
};
use crate::laws::field::{
    lemma_bit_root, lemma_bits_make_up, lemma_difference, lemma_inverse, lemma_no_zero_divisors,
    lemma_twit_root, prime,
};
use crate::laws::finite::{
    all_known, bit_tail, bit_values, constraint_known, field_deterministic, field_max, field_values,
    in_field, is_field_counterexample, known, lemma_bit_tail, lemma_field_merged,
    lemma_field_run_agrees, lemma_field_values_keep, lemma_made_bits, lemma_side_tail, lemma_tail,
    lemma_with_bits_keeps, side_tail, with_bits,
};
use crate::laws::naming::{lemma_digits_injective, lemma_digits_plain};
use crate::model::{declared, instance, unknowns, Side};
use crate::text::{digits, undotted};
use crate::verifier_ff::{has_calls, range_bit};
use crate::verifier_msolve::{
    factor, ms_bits, ms_constraint, ms_constraints, ms_differ, ms_expr, ms_has_bits, ms_outputs,
    ms_range, ms_ranges, ms_same_inputs, ms_system, Poly, PolyExpr, System,
};

verus! {

// ---------------------------------------------------------------------------
// Solutions
// ---------------------------------------------------------------------------

/// The value of an expression, by the values of its variables.
pub open spec fn poly_value(m: spec_fn(Seq<char>) -> int, e: PolyExpr) -> int
    decreases e,
{
    match e {
        PolyExpr::Var(x) => m(x) % prime(),
        PolyExpr::Number(n) => n % prime(),
        PolyExpr::Add(a, b) => (poly_value(m, *a) + poly_value(m, *b)) % prime(),
        PolyExpr::Sub(a, b) => (poly_value(m, *a) - poly_value(m, *b)) % prime(),
        PolyExpr::Mul(a, b) => (poly_value(m, *a) * poly_value(m, *b)) % prime(),
    }
}

/// The sum of the differences of the first `n` pairs, each times its factor.
pub open spec fn difference_sum(
    m: spec_fn(Seq<char>) -> int,
    v: Seq<(Seq<char>, Seq<char>)>,
    n: nat,
) -> int
    decreases n,
{
    if n == 0 || n > v.len() {
        0
    } else {
        (difference_sum(m, v, (n - 1) as nat) + (m(factor((n - 1) as nat)) % prime()) * ((m(
            v[n - 1].0,
        ) - m(v[n - 1].1)) % prime())) % prime()
    }
}

/// Whether a polynomial is 0.
pub open spec fn poly_zero(m: spec_fn(Seq<char>) -> int, p: Poly) -> bool {
    match p {
        Poly::Bit(x) => ((m(x) % prime()) * (m(x) % prime()) - m(x) % prime()) % prime() == 0,
        Poly::Twit(x) => {
            let v = m(x) % prime();
            let a = (v * ((v - 1) % prime())) % prime();
            let b = (a * ((v - 2) % prime())) % prime();
            (b * ((v - 3) % prime())) % prime() == 0
        },
        Poly::Bits(x, n) => (m(x) % prime() - number(bit_values(m, x, n))) % prime() == 0,
        Poly::Same(a, b) => (m(a) % prime() - m(b) % prime()) % prime() == 0,
        Poly::Equal(a, b) => (poly_value(m, a) - poly_value(m, b)) % prime() == 0,
        Poly::Product(x, e) => ((m(x) % prime()) * poly_value(m, e)) % prime() == 0,
        Poly::Differ(a, b) => ((m("rabin_t"@) % prime()) * ((m(a) - m(b)) % prime()) - 1) % prime()
            == 0,
        Poly::DifferSome(v) => ((m("rabin_t"@) % prime()) * difference_sum(m, v, v.len()) - 1)
            % prime() == 0,
    }
}

/// Whether values are a solution of polynomials.
pub open spec fn solves(m: spec_fn(Seq<char>) -> int, v: Seq<Poly>) -> bool {
    forall|i: int| 0 <= i < v.len() ==> poly_zero(m, #[trigger] v[i])
}

/// Whether a system has a solution.
pub open spec fn solvable(s: System) -> bool {
    exists|m: spec_fn(Seq<char>) -> int| solves(m, s.polys)
}

proof fn lemma_solves_add(m: spec_fn(Seq<char>) -> int, a: Seq<Poly>, b: Seq<Poly>)
    ensures
        solves(m, a + b) <==> solves(m, a) && solves(m, b),
{
    if solves(m, a + b) {
        assert forall|i: int| 0 <= i < a.len() implies poly_zero(m, #[trigger] a[i]) by {
            assert((a + b)[i] == a[i]);
        }
        assert forall|i: int| 0 <= i < b.len() implies poly_zero(m, #[trigger] b[i]) by {
            assert((a + b)[i + a.len()] == b[i]);
        }
    }
}

proof fn lemma_solves_push(m: spec_fn(Seq<char>) -> int, a: Seq<Poly>, p: Poly)
    ensures
        solves(m, a.push(p)) <==> solves(m, a) && poly_zero(m, p),
{
    assert(a.push(p) =~= a + seq![p]);
    lemma_solves_add(m, a, seq![p]);
    if solves(m, seq![p]) {
        assert(seq![p][0] == p);
    }
}

proof fn lemma_solves_one(m: spec_fn(Seq<char>) -> int, p: Poly)
    ensures
        solves(m, seq![p]) <==> poly_zero(m, p),
{
    lemma_solves_push(m, Seq::empty(), p);
    assert(Seq::empty().push(p) =~= seq![p]);
}

// ---------------------------------------------------------------------------
// Constraints
// ---------------------------------------------------------------------------

/// A value is an element of the field.
proof fn lemma_poly_value(m: spec_fn(Seq<char>) -> int, e: PolyExpr)
    ensures
        0 <= poly_value(m, e) < prime(),
{
}

/// An expression in one of the runs has its value there.
proof fn lemma_ms_expr(m: spec_fn(Seq<char>) -> int, e: IrExprV, vs: Seq<VarV>, side: Side)
    requires
        divisionless(e),
        known(vs, e),
    ensures
        poly_value(m, ms_expr(e, side)) == value(
            Numbers::Modulo(prime()),
            vs,
            field_values(m, side),
            e,
        ),
    decreases e,
{
    match e {
        IrExprV::Const(n) => {
            if n < 0 {
                lemma_mod_add_multiples_vanish(n as int, prime());
            }
        },
        IrExprV::Var(x) => {
            assert(declared(vs, x));
        },
        IrExprV::Add(l, r) => {
            assert(unknowns(e, vs).len() == unknowns(*l, vs).len() + unknowns(*r, vs).len());
            lemma_ms_expr(m, *l, vs, side);
            lemma_ms_expr(m, *r, vs, side);
        },
        IrExprV::Sub(l, r) => {
            assert(unknowns(e, vs).len() == unknowns(*l, vs).len() + unknowns(*r, vs).len());
            lemma_ms_expr(m, *l, vs, side);
            lemma_ms_expr(m, *r, vs, side);
        },
        IrExprV::Mul(l, r) => {
            assert(unknowns(e, vs).len() == unknowns(*l, vs).len() + unknowns(*r, vs).len());
            lemma_ms_expr(m, *l, vs, side);
            lemma_ms_expr(m, *r, vs, side);
        },
        IrExprV::Div(l, r) => {},
    }
}

/// Functions that calls stand for, where there are none.
pub open spec fn no_calls() -> spec_fn(Seq<char>, Seq<char>, Seq<int>) -> int {
    |component: Seq<char>, field: Seq<char>, v: Seq<int>| 0int
}

/// The polynomial of a constraint that holds in one of the runs is 0 there; that of an
/// equation only where it holds.
proof fn lemma_ms_constraint(
    m: spec_fn(Seq<char>) -> int,
    c: ConstraintV,
    vs: Seq<VarV>,
    side: Side,
)
    requires
        !(c is Call),
        divisionless_constraint(c),
        constraint_known(vs, c),
    ensures
        ms_constraint(c, side) is Some,
        holds(Numbers::Modulo(prime()), vs, field_values(m, side), no_calls(), c) ==> poly_zero(
            m,
            ms_constraint(c, side)->0,
        ),
        c is Eq && poly_zero(m, ms_constraint(c, side)->0) ==> holds(
            Numbers::Modulo(prime()),
            vs,
            field_values(m, side),
            no_calls(),
            c,
        ),
{
    match c {
        ConstraintV::Eq { lhs, rhs, .. } => {
            lemma_ms_expr(m, lhs, vs, side);
            lemma_ms_expr(m, rhs, vs, side);
            lemma_poly_value(m, ms_expr(lhs, side));
            lemma_poly_value(m, ms_expr(rhs, side));
            lemma_difference(
                poly_value(m, ms_expr(lhs, side)),
                poly_value(m, ms_expr(rhs, side)),
            );
        },
        ConstraintV::IsZero { result, expr } => {
            lemma_ms_expr(m, expr, vs, side);
            let e = ms_expr(expr, side);
            lemma_poly_value(m, e);
            let r = m(instance(result, side)) % prime();
            assert(field_values(m, side)(result) == r);
            lemma_no_zero_divisors(r, poly_value(m, e));
        },
        _ => {},
    }
}

/// Whether all constraints are equations.
pub open spec fn only_equations(cs: Seq<ConstraintV>) -> bool {
    forall|i: int| 0 <= i < cs.len() ==> (#[trigger] cs[i]) is Eq
}

/// The first `n` constraints.
proof fn lemma_ms_constraints(
    m: spec_fn(Seq<char>) -> int,
    cs: Seq<ConstraintV>,
    vs: Seq<VarV>,
    n: nat,
)
    requires
        n <= cs.len(),
        !has_calls(cs),
        all_divisionless(cs),
        all_known(vs, cs),
    ensures
        all_hold(
            Numbers::Modulo(prime()),
            vs,
            field_values(m, Side::First),
            no_calls(),
            cs.take(n as int),
        ) && all_hold(
            Numbers::Modulo(prime()),
            vs,
            field_values(m, Side::Second),
            no_calls(),
            cs.take(n as int),
        ) ==> solves(m, ms_constraints(cs, n)),
        only_equations(cs) && solves(m, ms_constraints(cs, n)) ==> all_hold(
            Numbers::Modulo(prime()),
            vs,
            field_values(m, Side::First),
            no_calls(),
            cs.take(n as int),
        ) && all_hold(
            Numbers::Modulo(prime()),
            vs,
            field_values(m, Side::Second),
            no_calls(),
            cs.take(n as int),
        ),
    decreases n,
{
    if n > 0 {
        let k = (n - 1) as nat;
        let c = cs[n - 1];
        lemma_ms_constraints(m, cs, vs, k);
        assert(!(c is Call));
        assert(divisionless_constraint(c));
        assert(constraint_known(vs, c));
        lemma_ms_constraint(m, c, vs, Side::First);
        lemma_ms_constraint(m, c, vs, Side::Second);
        let before = ms_constraints(cs, k);
        let a = ms_constraint(c, Side::First)->0;
        let b = ms_constraint(c, Side::Second)->0;
        assert(ms_constraints(cs, n) == before.push(a).push(b));
        lemma_solves_push(m, before, a);
        lemma_solves_push(m, before.push(a), b);
        lemma_all_hold_push(m, vs, cs, n, Side::First);
        lemma_all_hold_push(m, vs, cs, n, Side::Second);
    }
}

proof fn lemma_all_hold_push(
    m: spec_fn(Seq<char>) -> int,
    vs: Seq<VarV>,
    cs: Seq<ConstraintV>,
    n: nat,
    side: Side,
)
    requires
        0 < n <= cs.len(),
    ensures
        all_hold(
            Numbers::Modulo(prime()),
            vs,
            field_values(m, side),
            no_calls(),
            cs.take(n as int),
        ) <==> all_hold(
            Numbers::Modulo(prime()),
            vs,
            field_values(m, side),
            no_calls(),
            cs.take(n - 1),
        ) && holds(Numbers::Modulo(prime()), vs, field_values(m, side), no_calls(), cs[n - 1]),
{
    let k = Numbers::Modulo(prime());
    let a = field_values(m, side);
    let now = cs.take(n as int);
    let was = cs.take(n - 1);
    if all_hold(k, vs, a, no_calls(), now) {
        assert forall|i: int| 0 <= i < was.len() implies holds(
            k,
            vs,
            a,
            no_calls(),
            #[trigger] was[i],
        ) by {
            assert(now[i] == was[i]);
        }
        assert(now[n - 1] == cs[n - 1]);
    }
    if all_hold(k, vs, a, no_calls(), was) && holds(k, vs, a, no_calls(), cs[n - 1]) {
        assert forall|i: int| 0 <= i < now.len() implies holds(
            k,
            vs,
            a,
            no_calls(),
            #[trigger] now[i],
        ) by {
            if i < n - 1 {
                assert(now[i] == was[i]);
            } else {
                assert(now[i] == cs[n - 1]);
            }
        }
    }
}

/// The first `n` inputs.
proof fn lemma_ms_same_inputs(m: spec_fn(Seq<char>) -> int, vs: Seq<VarV>, n: nat)
    requires
        n <= vs.len(),
    ensures
        solves(m, ms_same_inputs(vs, n)) <==> same_values(
            vs.take(n as int),
            field_values(m, Side::First),
            field_values(m, Side::Second),
        ),
    decreases n,
{
    if n > 0 {
        let k = (n - 1) as nat;
        lemma_ms_same_inputs(m, vs, k);
        let v = vs[n - 1];
        let x = instance(v.name, Side::First);
        let y = instance(v.name, Side::Second);
        lemma_solves_push(m, ms_same_inputs(vs, k), Poly::Same(x, y));
        lemma_difference(m(x) % prime(), m(y) % prime());
        let a = field_values(m, Side::First);
        let b = field_values(m, Side::Second);
        assert(poly_zero(m, Poly::Same(x, y)) <==> a(v.name) == b(v.name));
        let now = vs.take(n as int);
        let was = vs.take(n - 1);
        assert(now =~= was.push(v));
        if same_values(now, a, b) {
            assert forall|i: int| 0 <= i < was.len() implies a((#[trigger] was[i]).name) == b(
                was[i].name,
            ) by {
                assert(now[i] == was[i]);
            }
            assert(now[n - 1] == v);
        }
    }
}

// ---------------------------------------------------------------------------
// Ranges
// ---------------------------------------------------------------------------

/// `x * x - x` is 0 for bits alone.
proof fn lemma_bit_zero(m: spec_fn(Seq<char>) -> int, x: Seq<char>)
    ensures
        poly_zero(m, Poly::Bit(x)) <==> m(x) % prime() == 0 || m(x) % prime() == 1,
{
    let p = prime();
    let v = m(x) % p;
    assert(v * v - v == v * (v - 1)) by (nonlinear_arith);
    lemma_mul_mod_noop_right(v, v - 1, p);
    lemma_bit_root(v);
}

/// The first `n` bits of a variable are bits where their polynomials are 0.
proof fn lemma_ms_bits(m: spec_fn(Seq<char>) -> int, x: Seq<char>, n: nat)
    ensures
        solves(m, ms_bits(x, n).polys) <==> are_bits(bit_values(m, x, n)),
    decreases n,
{
    if n > 0 {
        let k = (n - 1) as nat;
        lemma_ms_bits(m, x, k);
        let b = range_bit(x, k);
        lemma_solves_push(m, ms_bits(x, k).polys, Poly::Bit(b));
        lemma_bit_zero(m, b);
        let now = bit_values(m, x, n);
        let was = bit_values(m, x, k);
        if are_bits(now) {
            assert forall|i: int| 0 <= i < was.len() implies (#[trigger] was[i] == 0 || was[i]
                == 1) by {
                assert(now[i] == was[i]);
            }
            assert(now[k as int] == m(b) % prime());
        }
        if are_bits(was) && poly_zero(m, Poly::Bit(b)) {
            assert forall|i: int| 0 <= i < now.len() implies (#[trigger] now[i] == 0 || now[i]
                == 1) by {
                if i < k {
                    assert(was[i] == now[i]);
                }
            }
        }
    }
}

/// A variable has `n` bits where the polynomials that say so are 0.
proof fn lemma_ms_has_bits(m: spec_fn(Seq<char>) -> int, x: Seq<char>, n: nat)
    requires
        n <= 16,
    ensures
        solves(m, ms_has_bits(x, n).polys) <==> are_bits(bit_values(m, x, n)) && m(x) % prime()
            == number(bit_values(m, x, n)),
{
    lemma2_to64();
    lemma_ms_bits(m, x, n);
    lemma_solves_push(m, ms_bits(x, n).polys, Poly::Bits(x, n));
    if are_bits(bit_values(m, x, n)) {
        lemma_number_bounds(bit_values(m, x, n));
        if n < 16 {
            lemma_pow2_strictly_increases(n, 16);
        }
        lemma_difference(m(x) % prime(), number(bit_values(m, x, n)));
    }
}

/// The value of a variable lies in its range where the polynomials of the range are 0.
proof fn lemma_ms_range_means(
    m: spec_fn(Seq<char>) -> int,
    v: VarV,
    internal: bool,
    side: Side,
)
    requires
        solves(m, ms_range(v, internal, side).polys),
    ensures
        0 <= field_values(m, side)(v.name) <= field_max(v, internal),
{
    lemma2_to64();
    let x = instance(v.name, side);
    match v.vtype {
        VarType::Bit => {
            lemma_solves_one(m, Poly::Bit(x));
            lemma_bit_zero(m, x);
        },
        VarType::Twit => {
            lemma_solves_one(m, Poly::Twit(x));
            lemma_twit_root(m(x) % prime());
        },
        VarType::U8 => {
            if internal {
                lemma_ms_has_bits(m, x, 8);
                lemma_number_bounds(bit_values(m, x, 8));
            }
        },
        VarType::U16 => {
            if internal {
                lemma_ms_has_bits(m, x, 16);
                lemma_number_bounds(bit_values(m, x, 16));
            }
        },
        _ => {},
    }
}

/// Whether values give the bits of the variables their values.
pub open spec fn gives_bits(m: spec_fn(Seq<char>) -> int, m0: spec_fn(Seq<char>) -> int) -> bool {
    &&& forall|x: Seq<char>, i: nat| #[trigger] m(range_bit(x, i)) == with_bits(m0)(range_bit(x, i))
    &&& forall|x: Seq<char>, s: Side| #[trigger] m(instance(x, s)) == m0(instance(x, s))
}

/// Where the value of a variable lies in its range, the bits of that value make the
/// polynomials of the range 0.
proof fn lemma_ms_range_made(
    m: spec_fn(Seq<char>) -> int,
    m0: spec_fn(Seq<char>) -> int,
    v: VarV,
    internal: bool,
    side: Side,
)
    requires
        gives_bits(m, m0),
        0 <= field_values(m, side)(v.name) <= field_max(v, internal),
    ensures
        solves(m, ms_range(v, internal, side).polys),
{
    lemma2_to64();
    let x = instance(v.name, side);
    assert(m(x) == m0(x));
    match v.vtype {
        VarType::Bit => {
            lemma_solves_one(m, Poly::Bit(x));
            lemma_bit_zero(m, x);
        },
        VarType::Twit => {
            lemma_solves_one(m, Poly::Twit(x));
            lemma_twit_root(m(x) % prime());
        },
        VarType::U8 => {
            if internal {
                lemma_made_bits(m0, x, 8);
                assert(bit_values(m, x, 8) =~= bit_values(with_bits(m0), x, 8));
                lemma_ms_has_bits(m, x, 8);
                lemma_bits_make_up(m(x) % prime(), 8);
            }
        },
        VarType::U16 => {
            if internal {
                lemma_made_bits(m0, x, 16);
                assert(bit_values(m, x, 16) =~= bit_values(with_bits(m0), x, 16));
                lemma_ms_has_bits(m, x, 16);
                lemma_bits_make_up(m(x) % prime(), 16);
            }
        },
        _ => {},
    }
}

/// The values of the first `n` variables lie in their ranges in both runs where the
/// polynomials of the ranges are 0.
proof fn lemma_ms_ranges_mean(
    m: spec_fn(Seq<char>) -> int,
    vs: Seq<VarV>,
    internals: Seq<VarV>,
    n: nat,
)
    requires
        n <= vs.len(),
        solves(m, ms_ranges(vs, internals, n).polys),
    ensures
        in_field(vs.take(n as int), internals, field_values(m, Side::First)),
        in_field(vs.take(n as int), internals, field_values(m, Side::Second)),
    decreases n,
{
    if n > 0 {
        let k = (n - 1) as nat;
        let v = vs[n - 1];
        let internal = declared(internals, v.name);
        let before = ms_ranges(vs, internals, k);
        let first = ms_range(v, internal, Side::First);
        let second = ms_range(v, internal, Side::Second);
        lemma_solves_add(m, before.polys, first.polys);
        lemma_solves_add(m, before.polys + first.polys, second.polys);
        lemma_ms_ranges_mean(m, vs, internals, k);
        lemma_ms_range_means(m, v, internal, Side::First);
        lemma_ms_range_means(m, v, internal, Side::Second);
        let now = vs.take(n as int);
        let was = vs.take(n - 1);
        assert forall|i: int| 0 <= i < now.len() implies 0 <= field_values(m, Side::First)(
            (#[trigger] now[i]).name,
        ) <= field_max(now[i], declared(internals, now[i].name)) && 0 <= field_values(
            m,
            Side::Second,
        )(now[i].name) <= field_max(now[i], declared(internals, now[i].name)) by {
            if i < n - 1 {
                assert(now[i] == was[i]);
            } else {
                assert(now[i] == v);
            }
        }
    }
}

/// Where the values of the variables lie in their ranges in both runs, their bits make the
/// polynomials of the ranges of the first `n` 0.
proof fn lemma_ms_ranges_made(
    m: spec_fn(Seq<char>) -> int,
    m0: spec_fn(Seq<char>) -> int,
    vs: Seq<VarV>,
    internals: Seq<VarV>,
    n: nat,
)
    requires
        n <= vs.len(),
        gives_bits(m, m0),
        in_field(vs, internals, field_values(m, Side::First)),
        in_field(vs, internals, field_values(m, Side::Second)),
    ensures
        solves(m, ms_ranges(vs, internals, n).polys),
    decreases n,
{
    if n > 0 {
        let k = (n - 1) as nat;
        let v = vs[n - 1];
        let internal = declared(internals, v.name);
        let before = ms_ranges(vs, internals, k);
        let first = ms_range(v, internal, Side::First);
        let second = ms_range(v, internal, Side::Second);
        lemma_ms_ranges_made(m, m0, vs, internals, k);
        lemma_ms_range_made(m, m0, v, internal, Side::First);
        lemma_ms_range_made(m, m0, v, internal, Side::Second);
        lemma_solves_add(m, before.polys, first.polys);
        lemma_solves_add(m, before.polys + first.polys, second.polys);
    }
}

// ---------------------------------------------------------------------------
// Outputs that differ
// ---------------------------------------------------------------------------

/// What stands behind the underscore of the name of a factor.
pub open spec fn factor_tail(i: nat) -> Seq<char> {
    "w"@ + digits(i)
}

proof fn lemma_factor_tail(i: nat)
    ensures
        factor(i) == "rabin"@ + "_"@ + factor_tail(i),
        factor_tail(i).len() > 0,
        factor_tail(i)[0] == 'w',
        forall|j: int| 0 <= j < factor_tail(i).len() ==> (#[trigger] factor_tail(i)[j]) != '_',
{
    reveal_strlit("rabin_w");
    reveal_strlit("rabin");
    reveal_strlit("_");
    reveal_strlit("w");
    lemma_digits_plain(i);
    assert(factor(i) =~= "rabin"@ + "_"@ + factor_tail(i));
    assert forall|j: int| 0 <= j < factor_tail(i).len() implies (#[trigger] factor_tail(i)[j])
        != '_' by {
        if j >= 1 {
            assert(factor_tail(i)[j] == digits(i)[j - 1]);
        }
    }
}

proof fn lemma_rabin_tail()
    ensures
        "rabin_t"@ == "rabin"@ + "_"@ + "t"@,
        "t"@.len() == 1,
        "t"@[0] == 't',
{
    reveal_strlit("rabin_t");
    reveal_strlit("rabin");
    reveal_strlit("_");
    reveal_strlit("t");
    assert("rabin_t"@ =~= "rabin"@ + "_"@ + "t"@);
}

/// The names of different factors differ, and the new variable is none.
proof fn lemma_factors_apart(i: nat, j: nat)
    ensures
        factor(i) == factor(j) <==> i == j,
        factor(i) != "rabin_t"@,
{
    lemma_factor_tail(i);
    lemma_factor_tail(j);
    lemma_rabin_tail();
    if factor(i) == factor(j) {
        lemma_tail("rabin"@, factor_tail(i), "rabin"@, factor_tail(j));
        reveal_strlit("w");
        assert(digits(i) =~= factor_tail(i).skip(1));
        assert(digits(j) =~= factor_tail(j).skip(1));
        lemma_digits_injective(i, j);
    }
    if factor(i) == "rabin_t"@ {
        lemma_tail("rabin"@, factor_tail(i), "rabin"@, "t"@);
    }
}

/// Whether a name is that of a factor.
pub open spec fn is_factor(n: Seq<char>, i: nat) -> bool {
    n == factor(i)
}

/// Values of the names, with the value `t` of the new variable, 1 for factor `j`, and 0 for
/// the others.
pub open spec fn with_differ(m: spec_fn(Seq<char>) -> int, t: int, j: nat) -> spec_fn(
    Seq<char>,
) -> int {
    |n: Seq<char>|
        if n == "rabin_t"@ {
            t
        } else if n == factor(j) {
            1
        } else if exists|i: nat| is_factor(n, i) {
            0
        } else {
            m(n)
        }
}

proof fn lemma_with_differ(m: spec_fn(Seq<char>) -> int, t: int, j: nat)
    ensures
        with_differ(m, t, j)("rabin_t"@) == t,
        forall|i: nat|
            #[trigger] with_differ(m, t, j)(factor(i)) == if i == j {
                1int
            } else {
                0int
            },
        forall|x: Seq<char>, s: Side|
            #[trigger] with_differ(m, t, j)(instance(x, s)) == m(instance(x, s)),
        forall|x: Seq<char>, i: nat|
            #[trigger] with_differ(m, t, j)(range_bit(x, i)) == m(range_bit(x, i)),
{
    let w = with_differ(m, t, j);
    assert forall|i: nat| #[trigger] w(factor(i)) == if i == j {
        1int
    } else {
        0int
    } by {
        lemma_factors_apart(i, j);
        assert(is_factor(factor(i), i));
    }
    assert forall|x: Seq<char>, s: Side| #[trigger] w(instance(x, s)) == m(instance(x, s)) by {
        let n = instance(x, s);
        lemma_side_tail(x, s);
        lemma_rabin_tail();
        if n == "rabin_t"@ {
            lemma_tail(undotted(x), side_tail(s), "rabin"@, "t"@);
        }
        assert forall|i: nat| n != #[trigger] factor(i) by {
            lemma_factor_tail(i);
            if n == factor(i) {
                lemma_tail(undotted(x), side_tail(s), "rabin"@, factor_tail(i));
            }
        }
        assert forall|i: nat| !is_factor(n, i) by {
            assert(n != factor(i));
        }
    }
    assert forall|x: Seq<char>, k: nat| #[trigger] w(range_bit(x, k)) == m(range_bit(x, k)) by {
        let n = range_bit(x, k);
        lemma_bit_tail(x, k);
        lemma_rabin_tail();
        reveal_strlit("rb");
        assert(bit_tail(k)[0] == 'r');
        if n == "rabin_t"@ {
            lemma_tail(x, bit_tail(k), "rabin"@, "t"@);
        }
        assert forall|i: nat| n != #[trigger] factor(i) by {
            lemma_factor_tail(i);
            if n == factor(i) {
                lemma_tail(x, bit_tail(k), "rabin"@, factor_tail(i));
            }
        }
        assert forall|i: nat| !is_factor(n, i) by {
            assert(n != factor(i));
        }
    }
}

/// A number times one whose product with it is 1 leaves 0 behind 1.
proof fn lemma_inverse_zero(t: int, d: int)
    requires
        (t * d) % prime() == 1,
    ensures
        (t * d - 1) % prime() == 0,
{
    lemma_sub_mod_noop(t * d, 1, prime());
    assert(1int % prime() == 1);
}

/// The sum of differences that are all 0 is 0.
proof fn lemma_no_difference(
    m: spec_fn(Seq<char>) -> int,
    v: Seq<(Seq<char>, Seq<char>)>,
    n: nat,
)
    requires
        n <= v.len(),
        forall|i: int| 0 <= i < v.len() ==> m((#[trigger] v[i]).0) % prime() == m(v[i].1) % prime(),
    ensures
        difference_sum(m, v, n) == 0,
    decreases n,
{
    if n > 0 {
        let k = (n - 1) as nat;
        lemma_no_difference(m, v, k);
        let x = m(v[n - 1].0);
        let y = m(v[n - 1].1);
        assert(x % prime() == y % prime());
        lemma_sub_mod_noop(x, y, prime());
        assert((x - y) % prime() == 0);
        let w = m(factor(k)) % prime();
        assert(w * 0 == 0);
    }
}

/// The sum of differences of which one counts is that one.
proof fn lemma_one_difference(
    m: spec_fn(Seq<char>) -> int,
    v: Seq<(Seq<char>, Seq<char>)>,
    n: nat,
    j: nat,
)
    requires
        n <= v.len(),
        j < v.len(),
        forall|i: nat|
            i < v.len() ==> #[trigger] m(factor(i)) == if i == j {
                1int
            } else {
                0int
            },
    ensures
        difference_sum(m, v, n) == if j < n {
            (m(v[j as int].0) - m(v[j as int].1)) % prime()
        } else {
            0
        },
    decreases n,
{
    if n > 0 {
        let k = (n - 1) as nat;
        lemma_one_difference(m, v, k, j);
        let w = m(factor(k)) % prime();
        let d = (m(v[n - 1].0) - m(v[n - 1].1)) % prime();
        assert(m(factor(k)) == if k == j {
            1int
        } else {
            0int
        });
        lemma_small_mod(1, prime() as nat);
        lemma_small_mod(0, prime() as nat);
        if k == j {
            assert(w == 1);
            assert(1 * d == d);
            lemma_small_mod(d as nat, prime() as nat);
        } else {
            assert(w == 0);
            assert(0 * d == 0);
            let before = difference_sum(m, v, k);
            lemma_small_mod(before as nat, prime() as nat);
        }
    }
}

/// Where the polynomial that says that outputs differ is 0, they do.
proof fn lemma_ms_differ_means(m: spec_fn(Seq<char>) -> int, vs: Seq<VarV>)
    requires
        solves(m, ms_differ(vs).polys),
    ensures
        !same_values(vs, field_values(m, Side::First), field_values(m, Side::Second)),
{
    let a = field_values(m, Side::First);
    let b = field_values(m, Side::Second);
    let pairs = ms_outputs(vs);
    let p = prime();
    if same_values(vs, a, b) {
        let t = m("rabin_t"@) % p;
        assert(t * 0 == 0);
        assert((-1int) % p == p - 1);
        assert forall|i: int| 0 <= i < pairs.len() implies m((#[trigger] pairs[i]).0) % p == m(
            pairs[i].1,
        ) % p by {
            assert(a(vs[i].name) == b(vs[i].name));
        }
        if vs.len() == 1 {
            lemma_solves_one(m, Poly::Differ(pairs[0].0, pairs[0].1));
            lemma_sub_mod_noop(m(pairs[0].0), m(pairs[0].1), p);
            assert((m(pairs[0].0) - m(pairs[0].1)) % p == 0);
        } else {
            lemma_solves_one(m, Poly::DifferSome(pairs));
            lemma_no_difference(m, pairs, pairs.len());
        }
    }
}

/// Where outputs differ, values of the new variable and of the factors make the polynomial
/// that says so 0.
proof fn lemma_ms_differ_made(m: spec_fn(Seq<char>) -> int, vs: Seq<VarV>) -> (r: (int, nat))
    requires
        !same_values(vs, field_values(m, Side::First), field_values(m, Side::Second)),
    ensures
        solves(with_differ(m, r.0, r.1), ms_differ(vs).polys),
{
    let a = field_values(m, Side::First);
    let b = field_values(m, Side::Second);
    let pairs = ms_outputs(vs);
    let p = prime();
    let j = choose|j: int| 0 <= j < vs.len() && a((#[trigger] vs[j]).name) != b(vs[j].name);
    let x = pairs[j].0;
    let y = pairs[j].1;
    lemma_sub_mod_noop(m(x), m(y), p);
    lemma_difference(m(x) % p, m(y) % p);
    let d = (m(x) - m(y)) % p;
    let t = lemma_inverse(d);
    let w = with_differ(m, t, j as nat);
    lemma_with_differ(m, t, j as nat);
    lemma_small_mod(t as nat, p as nat);
    lemma_inverse_zero(t, d);
    assert(w(x) == m(x) && w(y) == m(y));
    if vs.len() == 1 {
        lemma_solves_one(w, Poly::Differ(x, y));
    } else {
        lemma_solves_one(w, Poly::DifferSome(pairs));
        lemma_one_difference(w, pairs, pairs.len(), j as nat);
    }
    (t, j as nat)
}

// ---------------------------------------------------------------------------
// The answer
// ---------------------------------------------------------------------------

/// Where the names of an instruction without calls stay apart and all its variables are
/// known, it is deterministic over the field if its system has no solution, as is the case
/// where the reduced Gröbner basis is `[1]`. If all its constraints are equations, the
/// system has a solution in the field exactly where it is not deterministic.
pub proof fn lemma_ms_answer(s: SpecV)
    requires
        !has_calls(s.constraints),
        all_divisionless(s.constraints),
        all_known(s.all_vars(), s.constraints),
        names_apart(s.all_vars()),
    ensures
        !solvable(ms_system(s)) ==> field_deterministic(s),
        only_equations(s.constraints) ==> (solvable(ms_system(s)) <==> !field_deterministic(s)),
{
    if !field_deterministic(s) {
        lemma_counterexample_solves(s);
    }
    if only_equations(s.constraints) && solvable(ms_system(s)) {
        lemma_solution_is_counterexample(s);
    }
}

/// The parts of a system.
proof fn lemma_ms_system(m: spec_fn(Seq<char>) -> int, s: SpecV)
    ensures
        solves(m, ms_system(s).polys) <==> {
            &&& solves(m, ms_ranges(s.all_vars(), s.internals, s.all_vars().len()).polys)
            &&& solves(m, ms_same_inputs(s.inputs, s.inputs.len()))
            &&& solves(m, ms_constraints(s.constraints, s.constraints.len()))
            &&& solves(m, ms_differ(s.outputs).polys)
        },
{
    let vs = s.all_vars();
    let p1 = ms_ranges(vs, s.internals, vs.len()).polys;
    let p2 = ms_same_inputs(s.inputs, s.inputs.len());
    let p3 = ms_constraints(s.constraints, s.constraints.len());
    lemma_solves_add(m, p1, p2);
    lemma_solves_add(m, p1 + p2, p3);
    lemma_solves_add(m, p1 + p2 + p3, ms_differ(s.outputs).polys);
}

proof fn lemma_solution_is_counterexample(s: SpecV)
    requires
        !has_calls(s.constraints),
        all_divisionless(s.constraints),
        all_known(s.all_vars(), s.constraints),
        only_equations(s.constraints),
        solvable(ms_system(s)),
    ensures
        !field_deterministic(s),
{
    let m = choose|m: spec_fn(Seq<char>) -> int| solves(m, ms_system(s).polys);
    let vs = s.all_vars();
    let cs = s.constraints;
    lemma_ms_system(m, s);
    lemma_ms_ranges_mean(m, vs, s.internals, vs.len());
    assert(vs.take(vs.len() as int) =~= vs);
    lemma_ms_same_inputs(m, s.inputs, s.inputs.len());
    assert(s.inputs.take(s.inputs.len() as int) =~= s.inputs);
    lemma_ms_constraints(m, cs, vs, cs.len());
    assert(cs.take(cs.len() as int) =~= cs);
    lemma_ms_differ_means(m, s.outputs);
    assert(is_field_counterexample(
        s,
        field_values(m, Side::First),
        field_values(m, Side::Second),
        no_calls(),
    ));
}

proof fn lemma_counterexample_solves(s: SpecV)
    requires
        !has_calls(s.constraints),
        all_divisionless(s.constraints),
        all_known(s.all_vars(), s.constraints),
        names_apart(s.all_vars()),
        !field_deterministic(s),
    ensures
        solvable(ms_system(s)),
{
    let vs = s.all_vars();
    let cs = s.constraints;
    let k = Numbers::Modulo(prime());
    let (a, b, f) = choose|
        a: spec_fn(Seq<char>) -> int,
        b: spec_fn(Seq<char>) -> int,
        f: spec_fn(Seq<char>, Seq<char>, Seq<int>) -> int,
    | is_field_counterexample(s, a, b, f);
    let m0 = merged(vs, a, b);
    let m1 = with_bits(m0);
    lemma_field_values_keep(m0, Side::First);
    lemma_field_values_keep(m0, Side::Second);
    lemma_field_merged(s, a, b);
    let a2 = field_values(m1, Side::First);
    let b2 = field_values(m1, Side::Second);
    lemma_field_run_agrees(s, a, a2);
    lemma_field_run_agrees(s, b, b2);
    lemma_same_on_vars(s, a, b, a2, b2);
    let r = lemma_ms_differ_made(m1, s.outputs);
    let m = with_differ(m1, r.0, r.1);
    lemma_with_differ(m1, r.0, r.1);
    assert(field_values(m, Side::First) =~= a2) by {
        assert forall|x: Seq<char>| #[trigger] field_values(m, Side::First)(x) == a2(x) by {
            assert(m(instance(x, Side::First)) == m1(instance(x, Side::First)));
        }
    }
    assert(field_values(m, Side::Second) =~= b2) by {
        assert forall|x: Seq<char>| #[trigger] field_values(m, Side::Second)(x) == b2(x) by {
            assert(m(instance(x, Side::Second)) == m1(instance(x, Side::Second)));
        }
    }
    assert(gives_bits(m, m0)) by {
        assert forall|x: Seq<char>, t: Side| #[trigger] m(instance(x, t)) == m0(
            instance(x, t),
        ) by {
            lemma_with_bits_keeps(m0, x, t);
        }
    }
    lemma_ms_ranges_made(m, m0, vs, s.internals, vs.len());
    lemma_ms_same_inputs(m, s.inputs, s.inputs.len());
    assert(s.inputs.take(s.inputs.len() as int) =~= s.inputs);
    assert forall|i: int| 0 <= i < cs.len() implies holds(
        k,
        vs,
        a2,
        no_calls(),
        #[trigger] cs[i],
    ) && holds(k, vs, b2, no_calls(), cs[i]) by {
        assert(holds(k, vs, a, f, cs[i]) && holds(k, vs, b, f, cs[i]));
        assert(divisionless_constraint(cs[i]));
        assert(constraint_known(vs, cs[i]));
        assert(!(cs[i] is Call));
        lemma_holds_agrees(k, vs, a2, a, no_calls(), f, cs[i]);
        lemma_holds_agrees(k, vs, b2, b, no_calls(), f, cs[i]);
    }
    lemma_ms_constraints(m, cs, vs, cs.len());
    assert(cs.take(cs.len() as int) =~= cs);
    lemma_ms_system(m, s);
    assert(solves(m, ms_system(s).polys));
}

proof fn lemma_products_from(m: spec_fn(Seq<char>) -> int, cs: Seq<ConstraintV>, n: nat, i: int)
    requires
        0 <= i < n <= cs.len(),
        !(cs[i] is Call),
        solves(m, ms_constraints(cs, n)),
    ensures
        poly_zero(m, ms_constraint(cs[i], Side::First)->Some_0),
        poly_zero(m, ms_constraint(cs[i], Side::Second)->Some_0),
    decreases n,
{
    let k = (n - 1) as nat;
    let before = ms_constraints(cs, k);
    if !(cs[n - 1] is Call) {
        let a = ms_constraint(cs[n - 1], Side::First)->Some_0;
        let b = ms_constraint(cs[n - 1], Side::Second)->Some_0;
        lemma_solves_push(m, before.push(a), b);
        lemma_solves_push(m, before, a);
    }
    if i < k {
        lemma_products_from(m, cs, k, i);
    }
}

/// In a solution of the system of an instruction, a result that tells whether an expression is 0 is
/// 0 in each run in which the expression is not.
pub proof fn lemma_results_vanish(m: spec_fn(Seq<char>) -> int, s: SpecV, i: int, side: Side)
    requires
        0 <= i < s.constraints.len(),
        s.constraints[i] is IsZero,
        all_divisionless(s.constraints),
        all_known(s.all_vars(), s.constraints),
        solves(m, ms_system(s).polys),
    ensures
        value(
            Numbers::Modulo(prime()),
            s.all_vars(),
            field_values(m, side),
            s.constraints[i]->expr,
        ) != 0 ==> field_values(m, side)(s.constraints[i]->result) == 0,
{
    let c = s.constraints[i];
    lemma_ms_system(m, s);
    lemma_products_from(m, s.constraints, s.constraints.len(), i);
    assert(constraint_known(s.all_vars(), c));
    assert(divisionless_constraint(c));
    lemma_ms_expr(m, c->expr, s.all_vars(), side);
    lemma_poly_value(m, ms_expr(c->expr, side));
    lemma_no_zero_divisors(
        m(instance(c->result, side)) % prime(),
        poly_value(m, ms_expr(c->expr, side)),
    );
}

} // verus!
