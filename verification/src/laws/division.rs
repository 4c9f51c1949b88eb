//! Laws of quotients.

use vstd::arithmetic::div_mod::{
    lemma_mul_mod_noop_left, lemma_mul_mod_noop_right, lemma_small_mod, lemma_sub_mod_noop,
};
use vstd::prelude::*;
use crate::ir::rules::{divides_evenly, division, next_name, times, var, Run, State};
use crate::ir::value::ValueV;
use crate::laws::arithmetic::{in_force, lemma_equation, lemma_equation_in_field};
use crate::ir::{ConstraintV, IrExprV, VarV};
use crate::laws::determinism::{holds, value, Numbers};
use crate::laws::field::{lemma_difference, lemma_inverse, lemma_no_zero_divisors, prime};
use crate::model::declared;

verus! {

/// Whether a division is said with a new variable.
pub open spec fn divides(st: State, l: IrExprV, r: IrExprV, prefix: Seq<char>) -> bool {
    division(st, l, r, prefix) matches Run::Done(s, _) && s.spec.constraints.len()
        > st.spec.constraints.len()
}

/// The constraint of a division that is said with a new variable.
pub open spec fn quotient_constraint(
    st: State,
    l: IrExprV,
    r: IrExprV,
    prefix: Seq<char>,
) -> ConstraintV {
    division(st, l, r, prefix)->Done_0.spec.constraints.last()
}

/// A division is said without a new variable where the number divided is the constant 0, or
/// where both are constants and the division comes out even. It is then the constant quotient,
/// and nothing else changes.
pub proof fn lemma_division_of_constants(st: State, l: IrExprV, r: IrExprV, prefix: Seq<char>)
    requires
        division(st, l, r, prefix) is Done,
    ensures
        divides(st, l, r, prefix) <==> !(l == IrExprV::Const(0) || (l is Const && r is Const
            && divides_evenly(l->Const_0 as int, r->Const_0 as int))),
        !divides(st, l, r, prefix) ==> division(st, l, r, prefix)->Done_0 == st && (division(
            st,
            l,
            r,
            prefix,
        )->Done_1 matches ValueV::Expr(q) && q is Const),
{
}

/// A division is exact, whether it is said with a new variable or not: over the integers, where
/// the guard is in force and every constraint that the division adds holds, the quotient times
/// the number divided by is the number divided.
pub proof fn lemma_quotient_is_exact(
    vs: Seq<VarV>,
    a: spec_fn(Seq<char>) -> int,
    f: spec_fn(Seq<char>, Seq<char>, Seq<int>) -> int,
    st: State,
    l: IrExprV,
    r: IrExprV,
    prefix: Seq<char>,
)
    requires
        division(st, l, r, prefix) is Done,
        in_force(Numbers::Integers, vs, a, st.guard),
        divides(st, l, r, prefix) ==> holds(
            Numbers::Integers,
            vs,
            a,
            f,
            quotient_constraint(st, l, r, prefix),
        ),
    ensures
        ({
            let k = Numbers::Integers;
            let q = division(st, l, r, prefix)->Done_1;
            &&& q is Expr
            &&& value(k, vs, a, q->Expr_0) * value(k, vs, a, r) == value(k, vs, a, l)
        }),
{
    let k = Numbers::Integers;
    let q = next_name(st, prefix, "div"@);
    reveal_with_fuel(value, 2);
    lemma_equation(vs, a, f, st, times(var(q), r), l, "exact_div"@);
    if l == IrExprV::Const(0) {
        assert(0 * value(k, vs, a, r) == 0);
    }
}

/// Over the integers the constraint of a division by a number that is not 0, where it is in
/// force, holds exactly where the division comes out even and the new variable is the quotient.
pub proof fn lemma_exact_division(
    vs: Seq<VarV>,
    a: spec_fn(Seq<char>) -> int,
    f: spec_fn(Seq<char>, Seq<char>, Seq<int>) -> int,
    st: State,
    l: IrExprV,
    r: IrExprV,
    prefix: Seq<char>,
)
    requires
        divides(st, l, r, prefix),
        in_force(Numbers::Integers, vs, a, st.guard),
        declared(vs, next_name(st, prefix, "div"@)),
        value(Numbers::Integers, vs, a, r) != 0,
    ensures
        ({
            let k = Numbers::Integers;
            let n = value(k, vs, a, l);
            let d = value(k, vs, a, r);
            holds(k, vs, a, f, quotient_constraint(st, l, r, prefix)) <==> n % d == 0 && a(
                next_name(st, prefix, "div"@),
            ) == n / d
        }),
{
    let k = Numbers::Integers;
    let q = next_name(st, prefix, "div"@);
    lemma_equation(vs, a, f, st, times(var(q), r), l, "exact_div"@);
    let n = value(k, vs, a, l);
    let d = value(k, vs, a, r);
    let x = a(q);
    reveal_with_fuel(value, 2);
    assert(value(k, vs, a, times(var(q), r)) == x * d);
    assert(x * d == n ==> n % d == 0 && x == n / d) by (nonlinear_arith)
        requires
            d != 0,
    ;
    assert(n % d == 0 && x == n / d ==> x * d == n) by (nonlinear_arith)
        requires
            d != 0,
    ;
}

/// Over the field a division by a number that is not 0 has one quotient: there is an element
/// with which its constraint holds, and no other.
pub proof fn lemma_field_division(n: int, d: int) -> (q: int)
    requires
        0 <= n < prime(),
        0 < d < prime(),
    ensures
        0 <= q < prime(),
        (q * d) % prime() == n,
        forall|x: int| 0 <= x < prime() && #[trigger] ((x * d) % prime()) == n ==> x == q,
{
    let p = prime();
    let i = lemma_inverse(d);
    let w = n * i;
    let q = w % p;
    assert((q * d) % p == n) by {
        lemma_mul_mod_noop_left(w, d, p);
        assert(w * d == n * (i * d)) by (nonlinear_arith)
            requires
                w == n * i,
        ;
        lemma_mul_mod_noop_right(n, i * d, p);
        assert(n * 1 == n);
        lemma_small_mod(n as nat, p as nat);
    }
    assert forall|x: int| 0 <= x < p && #[trigger] ((x * d) % p) == n implies x == q by {
        lemma_sub_mod_noop(x * d, q * d, p);
        assert((x * d - q * d) % p == 0);
        assert(x * d - q * d == (x - q) * d) by (nonlinear_arith);
        lemma_mul_mod_noop_left(x - q, d, p);
        lemma_no_zero_divisors((x - q) % p, d);
        lemma_difference(x, q);
    }
    q
}

/// Over the field the new variable of a division by a number that is not 0, under a guard that is
/// not 0, is determined by the numbers that are divided.
pub proof fn lemma_field_quotient(
    vs: Seq<VarV>,
    a: spec_fn(Seq<char>) -> int,
    b: spec_fn(Seq<char>) -> int,
    f: spec_fn(Seq<char>, Seq<char>, Seq<int>) -> int,
    st: State,
    l: IrExprV,
    r: IrExprV,
    prefix: Seq<char>,
)
    requires
        divides(st, l, r, prefix),
        st.guard is Some ==> 0 < value(
            Numbers::Modulo(prime()),
            vs,
            a,
            st.guard->Some_0,
        ) < prime(),
        st.guard is Some ==> 0 < value(
            Numbers::Modulo(prime()),
            vs,
            b,
            st.guard->Some_0,
        ) < prime(),
        declared(vs, next_name(st, prefix, "div"@)),
        0 <= a(next_name(st, prefix, "div"@)) < prime(),
        0 <= b(next_name(st, prefix, "div"@)) < prime(),
        0 < value(Numbers::Modulo(prime()), vs, a, r) < prime(),
        value(Numbers::Modulo(prime()), vs, b, r) == value(Numbers::Modulo(prime()), vs, a, r),
        0 <= value(Numbers::Modulo(prime()), vs, a, l) < prime(),
        value(Numbers::Modulo(prime()), vs, b, l) == value(Numbers::Modulo(prime()), vs, a, l),
        holds(Numbers::Modulo(prime()), vs, a, f, quotient_constraint(st, l, r, prefix)),
        holds(Numbers::Modulo(prime()), vs, b, f, quotient_constraint(st, l, r, prefix)),
    ensures
        a(next_name(st, prefix, "div"@)) == b(next_name(st, prefix, "div"@)),
{
    let k = Numbers::Modulo(prime());
    let q = next_name(st, prefix, "div"@);
    let n = value(k, vs, a, l);
    let d = value(k, vs, a, r);
    reveal_with_fuel(value, 2);
    assert(value(k, vs, a, times(var(q), r)) == (a(q) * d) % prime());
    assert(value(k, vs, b, times(var(q), r)) == (b(q) * d) % prime());
    lemma_equation_in_field(vs, a, f, st, times(var(q), r), l, "exact_div"@);
    lemma_equation_in_field(vs, b, f, st, times(var(q), r), l, "exact_div"@);
    let x = lemma_field_division(n, d);
}

} // verus!
