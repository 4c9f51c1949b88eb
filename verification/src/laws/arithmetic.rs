//! Laws of guards and bits.

use vstd::arithmetic::div_mod::{lemma_mul_mod_noop_left, lemma_small_mod, lemma_sub_mod_noop};
use vstd::arithmetic::power2::{
    lemma2_to64, lemma2_to64_rest, lemma_pow2_pos, lemma_pow2_strictly_increases, lemma_pow2_unfold,
    pow2,
};
use vstd::bits::lemma_u32_shl_is_mul;
use vstd::prelude::*;
use crate::ir::rules::{
    and_bits, and_call, bit_count, bit_name, bit_sum, bit_vars, call, declare_bits, declare_pairs,
    equation, fresh_name, from_bits_call, guarded, inner_guard, scalar_arg, times, to_bits_call,
    var, weight, x_bit, x_bits, y_bit, y_bits, Env, Run, State,
};
use crate::ir::value::ValueV;
use crate::ir::{IrExprV, VarType, VarV};
use crate::laws::determinism::{all_values, holds, value, Numbers};
use crate::laws::field::{
    bit_of, first_bits, lemma_bits_make_up, lemma_difference, lemma_no_zero_divisors, prime,
};
use crate::laws::naming::{lemma_fresh_is_tagged, lemma_fresh_names_differ, lemma_tag_unique};
use crate::laws::scope::known;
use crate::model::declared;
use crate::text::digits;

verus! {

// ---------------------------------------------------------------------------
// Guards
// ---------------------------------------------------------------------------

/// Whether the equations under a guard are in force: where there is none, or it is not 0.
pub open spec fn in_force(
    k: Numbers,
    vs: Seq<VarV>,
    a: spec_fn(Seq<char>) -> int,
    guard: Option<IrExprV>,
) -> bool {
    guard is Some ==> value(k, vs, a, guard->Some_0) != 0
}

/// An equation holds over the integers where its guard is 0, and else exactly where the two
/// sides are equal.
pub proof fn lemma_equation(
    vs: Seq<VarV>,
    a: spec_fn(Seq<char>) -> int,
    f: spec_fn(Seq<char>, Seq<char>, Seq<int>) -> int,
    st: State,
    l: IrExprV,
    r: IrExprV,
    tag: Seq<char>,
)
    ensures
        ({
            let k = Numbers::Integers;
            holds(k, vs, a, f, equation(st, l, r, tag)) <==> (in_force(k, vs, a, st.guard)
                ==> value(k, vs, a, l) == value(k, vs, a, r))
        }),
{
    let k = Numbers::Integers;
    let x = value(k, vs, a, l);
    let y = value(k, vs, a, r);
    match st.guard {
        Some(g) => {
            let z = value(k, vs, a, g);
            assert(value(k, vs, a, times(g, l)) == z * x);
            assert(value(k, vs, a, times(g, r)) == z * y);
            assert((z * x == z * y) <==> (z == 0 || x == y)) by (nonlinear_arith);
        },
        None => {},
    }
}

/// The same over the field, for a guard and sides that are elements of it.
pub proof fn lemma_equation_in_field(
    vs: Seq<VarV>,
    a: spec_fn(Seq<char>) -> int,
    f: spec_fn(Seq<char>, Seq<char>, Seq<int>) -> int,
    st: State,
    l: IrExprV,
    r: IrExprV,
    tag: Seq<char>,
)
    requires
        0 <= value(Numbers::Modulo(prime()), vs, a, l) < prime(),
        0 <= value(Numbers::Modulo(prime()), vs, a, r) < prime(),
        st.guard is Some ==> 0 <= value(
            Numbers::Modulo(prime()),
            vs,
            a,
            st.guard->Some_0,
        ) < prime(),
    ensures
        ({
            let k = Numbers::Modulo(prime());
            holds(k, vs, a, f, equation(st, l, r, tag)) <==> (in_force(k, vs, a, st.guard)
                ==> value(k, vs, a, l) == value(k, vs, a, r))
        }),
{
    let p = prime();
    let k = Numbers::Modulo(p);
    let x = value(k, vs, a, l);
    let y = value(k, vs, a, r);
    match st.guard {
        Some(g) => {
            let z = value(k, vs, a, g);
            assert(value(k, vs, a, times(g, l)) == (z * x) % p);
            assert(value(k, vs, a, times(g, r)) == (z * y) % p);
            if z == 0 {
                assert(0 * x == 0 && 0 * y == 0);
            } else if (z * x) % p == (z * y) % p {
                lemma_sub_mod_noop(z * x, z * y, p);
                assert(z * x - z * y == (x - y) * z) by (nonlinear_arith);
                lemma_mul_mod_noop_left(x - y, z, p);
                lemma_no_zero_divisors((x - y) % p, z);
                lemma_difference(x, y);
            }
        },
        None => {},
    }
}

/// Over remainders, for sides that are remainders, an equation holds under a guard that is 0,
/// and under a guard that is 1 it holds where it does without it.
pub proof fn lemma_guard_modulo(
    m: int,
    vs: Seq<VarV>,
    a: spec_fn(Seq<char>) -> int,
    g: IrExprV,
    l: IrExprV,
    r: IrExprV,
)
    requires
        0 <= value(Numbers::Modulo(m), vs, a, l) < m,
        0 <= value(Numbers::Modulo(m), vs, a, r) < m,
    ensures
        ({
            let k = Numbers::Modulo(m);
            let gl = value(k, vs, a, guarded(Some(g), l));
            let gr = value(k, vs, a, guarded(Some(g), r));
            &&& value(k, vs, a, g) == 0 ==> gl == gr
            &&& value(k, vs, a, g) == 1 ==> (gl == gr <==> value(k, vs, a, l) == value(
                k,
                vs,
                a,
                r,
            ))
        }),
{
    let x = value(Numbers::Modulo(m), vs, a, l);
    let y = value(Numbers::Modulo(m), vs, a, r);
    assert(0 * x == 0 && 0 * y == 0 && 1 * x == x && 1 * y == y);
    lemma_small_mod(x as nat, m as nat);
    lemma_small_mod(y as nat, m as nat);
}

/// A branch inside a branch is under a guard that is 1 where both guards are 1, and 0
/// where one of them is 0.
pub proof fn lemma_inner_guard(
    vs: Seq<VarV>,
    a: spec_fn(Seq<char>) -> int,
    outer: IrExprV,
    g: IrExprV,
)
    ensures
        ({
            let k = Numbers::Integers;
            let both = value(k, vs, a, inner_guard(Some(outer), g));
            let x = value(k, vs, a, outer);
            let y = value(k, vs, a, g);
            &&& x == 1 && y == 1 ==> both == 1
            &&& x == 0 || y == 0 ==> both == 0
        }),
{
    let x = value(Numbers::Integers, vs, a, outer);
    let y = value(Numbers::Integers, vs, a, g);
    assert(0 * y == 0 && x * 0 == 0 && 1 * y == y);
}

// ---------------------------------------------------------------------------
// Bits
// ---------------------------------------------------------------------------

/// The number that has some bits, the lowest first.
pub open spec fn number(bits: Seq<int>) -> int
    decreases bits.len(),
{
    if bits.len() == 0 {
        0
    } else {
        number(bits.drop_last()) + bits.last() * pow2((bits.len() - 1) as nat)
    }
}

/// Whether numbers are bits.
pub open spec fn are_bits(v: Seq<int>) -> bool {
    forall|i: int| 0 <= i < v.len() ==> (#[trigger] v[i] == 0 || v[i] == 1)
}

/// A number of `n` bits is at least 0 and less than the power of two.
pub proof fn lemma_number_bounds(bits: Seq<int>)
    requires
        are_bits(bits),
    ensures
        0 <= number(bits) < pow2(bits.len()),
    decreases bits.len(),
{
    lemma2_to64();
    if bits.len() > 0 {
        let k = (bits.len() - 1) as nat;
        assert forall|i: int| 0 <= i < bits.drop_last().len() implies (
        #[trigger] bits.drop_last()[i] == 0 || bits.drop_last()[i] == 1) by {
            assert(bits.drop_last()[i] == bits[i]);
        }
        lemma_number_bounds(bits.drop_last());
        lemma_pow2_unfold(bits.len());
        lemma_pow2_pos(k);
        assert(bits.last() == 0 || bits.last() == 1);
        let p = pow2(k) as int;
        assert(0 * p == 0 && 1 * p == p);
    }
}

/// A number has its bits in one way only.
pub proof fn lemma_number_unique(a: Seq<int>, b: Seq<int>)
    requires
        are_bits(a),
        are_bits(b),
        a.len() == b.len(),
        number(a) == number(b),
    ensures
        a == b,
    decreases a.len(),
{
    if a.len() > 0 {
        let k = (a.len() - 1) as nat;
        let p = pow2(k) as int;
        assert forall|i: int| 0 <= i < a.drop_last().len() implies (
        #[trigger] a.drop_last()[i] == 0 || a.drop_last()[i] == 1) by {
            assert(a.drop_last()[i] == a[i]);
        }
        assert forall|i: int| 0 <= i < b.drop_last().len() implies (
        #[trigger] b.drop_last()[i] == 0 || b.drop_last()[i] == 1) by {
            assert(b.drop_last()[i] == b[i]);
        }
        lemma_number_bounds(a.drop_last());
        lemma_number_bounds(b.drop_last());
        assert(a.last() == 0 || a.last() == 1);
        assert(b.last() == 0 || b.last() == 1);
        assert(0 * p == 0 && 1 * p == p);
        assert(a.last() == b.last());
        lemma_number_unique(a.drop_last(), b.drop_last());
        assert(a =~= a.drop_last().push(a.last()));
        assert(b =~= b.drop_last().push(b.last()));
    } else {
        assert(a =~= b);
    }
}

/// The weight of a bit of a word that is not the sign is its power of two.
proof fn lemma_weight(i: nat)
    requires
        i < 63,
    ensures
        weight(i) == pow2(i),
{
    lemma_pow2_strictly_increases(i, 63);
    lemma2_to64_rest();
}

/// The sum of bits, each times its weight, is the number that has these bits, for up to 63
/// bits.
pub proof fn lemma_bit_sum(vs: Seq<VarV>, a: spec_fn(Seq<char>) -> int, bits: Seq<IrExprV>)
    requires
        bits.len() <= 63,
    ensures
        value(Numbers::Integers, vs, a, bit_sum(bits)) == number(
            all_values(Numbers::Integers, vs, a, bits),
        ),
    decreases bits.len(),
{
    let k = Numbers::Integers;
    let v = all_values(k, vs, a, bits);
    if bits.len() > 0 {
        let n = (bits.len() - 1) as nat;
        lemma_weight(n);
        lemma_bit_sum(vs, a, bits.drop_last());
        assert(v.drop_last() =~= all_values(k, vs, a, bits.drop_last()));
        assert(v.last() == value(k, vs, a, bits.last()));
        reveal_with_fuel(value, 3);
        let term = times(bits.last(), IrExprV::Const(weight(n)));
        assert(value(k, vs, a, term) == v.last() * pow2(n));
        if bits.len() == 1 {
            assert(v.drop_last() =~= Seq::empty());
        }
    }
}

/// The rules of `ToBits`, `FromBits` and `BitwiseAndU16` are those of the calls of these names,
/// whatever the components are.
pub proof fn lemma_bits_are_calls(
    env: Env,
    st: State,
    args: Seq<ValueV>,
    type_args: Seq<u64>,
    prefix: Seq<char>,
    depth: nat,
)
    ensures
        call(env, st, "ToBits"@, args, type_args, prefix, depth) == to_bits_call(
            st,
            args,
            type_args,
            prefix,
        ),
        call(env, st, "FromBits"@, args, type_args, prefix, depth) == from_bits_call(st, args),
        call(env, st, "BitwiseAndU16"@, args, type_args, prefix, depth) == and_call(
            st,
            args,
            prefix,
        ),
{
    reveal(call);
    reveal_strlit("ValU32");
    reveal_strlit("DenormedValU32");
    reveal_strlit("NondetReg");
    reveal_strlit("NondetU16Reg");
    reveal_strlit("NondetU32Reg");
    reveal_strlit("NondetU8Reg");
    reveal_strlit("NondetBitReg");
    reveal_strlit("NondetTwitReg");
    reveal_strlit("NondetFakeTwitReg");
    reveal_strlit("FakeTwitReg");
    reveal_strlit("Reg");
    reveal_strlit("U16Reg");
    reveal_strlit("U32Reg");
    reveal_strlit("IsZero");
    reveal_strlit("Isz");
    reveal_strlit("BitwiseAndU16");
    reveal_strlit("ToBits");
    reveal_strlit("FromBits");
    let a = "ToBits"@;
    let b = "FromBits"@;
    assert(a[0] == 'T' && a.len() == 6);
    assert(b[0] == 'F' && b.len() == 8);
    let c = "BitwiseAndU16"@;
    assert(c[0] == 'B' && c.len() == 13);
    assert("NondetTwitReg"@[0] == 'N');
    assert("ValU32"@[0] == 'V');
    assert("IsZero"@[0] == 'I');
    assert("U16Reg"@[0] == 'U');
    assert("U32Reg"@[0] == 'U');
}

/// What `ToBits` gives: as many new variables as it has bits, each with a name of its own and
/// declared as a bit, and one equation. Nothing else of the instruction changes.
pub proof fn lemma_to_bits_call(
    st: State,
    args: Seq<ValueV>,
    type_args: Seq<u64>,
    prefix: Seq<char>,
)
    requires
        to_bits_call(st, args, type_args, prefix) is Done,
    ensures
        ({
            let n = bit_count(type_args);
            let s = to_bits_call(st, args, type_args, prefix)->Done_0;
            let bits = bit_vars(prefix, st.counter, n);
            &&& to_bits_call(st, args, type_args, prefix)->Done_1 == ValueV::BitArray(bits)
            &&& scalar_arg(args, 0) is Some
            &&& bits.len() == n
            &&& forall|i: int, j: int|
                0 <= i < j < n ==> #[trigger] bits[i] != #[trigger] bits[j]
            &&& s.spec.internals == st.spec.internals + Seq::new(
                n,
                |i: int|
                    VarV { name: bit_name(prefix, st.counter, i as nat), vtype: VarType::Bit },
            )
            &&& s.spec.constraints == st.spec.constraints.push(
                equation(
                    st,
                    scalar_arg(args, 0)->Some_0,
                    bit_sum(bits),
                    "tobits_decompose"@,
                ),
            )
            &&& s.spec.inputs == st.spec.inputs
            &&& s.spec.outputs == st.spec.outputs
            &&& s.bindings == st.bindings
        }),
{
    let n = bit_count(type_args);
    let bits = bit_vars(prefix, st.counter, n);
    lemma_declared_bits(st, prefix, n);
    assert forall|i: int, j: int| 0 <= i < j < n implies #[trigger] bits[i]
        != #[trigger] bits[j] by {
        let x = bit_name(prefix, st.counter, i as nat);
        lemma_fresh_is_tagged(prefix, "b"@ + digits(i as nat), (st.counter + i + 1) as nat);
        lemma_fresh_is_tagged(prefix, "b"@ + digits(j as nat), (st.counter + j + 1) as nat);
        if bits[i] == bits[j] {
            lemma_tag_unique(x, (st.counter + i + 1) as nat, (st.counter + j + 1) as nat);
        }
    }
}

/// What declaring bits does.
proof fn lemma_declared_bits(st: State, prefix: Seq<char>, n: nat)
    ensures
        ({
            let s = declare_bits(st, prefix, n);
            &&& s.spec.internals == st.spec.internals + Seq::new(
                n,
                |i: int|
                    VarV { name: bit_name(prefix, st.counter, i as nat), vtype: VarType::Bit },
            )
            &&& s.spec.constraints == st.spec.constraints
            &&& s.spec.inputs == st.spec.inputs
            &&& s.spec.outputs == st.spec.outputs
            &&& s.bindings == st.bindings
            &&& s.guard == st.guard
        }),
    decreases n,
{
    let vs = Seq::new(
        n,
        |i: int| VarV { name: bit_name(prefix, st.counter, i as nat), vtype: VarType::Bit },
    );
    if n > 0 {
        let k = (n - 1) as nat;
        lemma_declared_bits(st, prefix, k);
        let ws = Seq::new(
            k,
            |i: int| VarV { name: bit_name(prefix, st.counter, i as nat), vtype: VarType::Bit },
        );
        assert(st.spec.internals + vs =~= (st.spec.internals + ws).push(vs[k as int]));
    } else {
        assert(st.spec.internals + vs =~= st.spec.internals);
    }
}

/// `FromBits` of `ToBits` is the number again, for up to 63 bits: it adds nothing to the
/// instruction, and where the equation of `ToBits` is in force and holds, and the bits are
/// bits, the number lies in the range of that many bits, each bit is that of the number, and
/// what `FromBits` gives is the number.
pub proof fn lemma_from_bits_of_to_bits(
    vs: Seq<VarV>,
    a: spec_fn(Seq<char>) -> int,
    f: spec_fn(Seq<char>, Seq<char>, Seq<int>) -> int,
    st: State,
    args: Seq<ValueV>,
    type_args: Seq<u64>,
    prefix: Seq<char>,
)
    requires
        to_bits_call(st, args, type_args, prefix) is Done,
        bit_count(type_args) <= 63,
        holds(
            Numbers::Integers,
            vs,
            a,
            f,
            to_bits_call(st, args, type_args, prefix)->Done_0.spec.constraints.last(),
        ),
        in_force(Numbers::Integers, vs, a, st.guard),
        are_bits(
            all_values(
                Numbers::Integers,
                vs,
                a,
                bit_vars(prefix, st.counter, bit_count(type_args)),
            ),
        ),
    ensures
        ({
            let k = Numbers::Integers;
            let r = to_bits_call(st, args, type_args, prefix);
            let bits = bit_vars(prefix, st.counter, bit_count(type_args));
            let x = value(k, vs, a, scalar_arg(args, 0)->Some_0);
            &&& r->Done_1 == ValueV::BitArray(bits)
            &&& from_bits_call(r->Done_0, seq![r->Done_1]) == Run::Done(
                r->Done_0,
                ValueV::Expr(bit_sum(bits)),
            )
            &&& 0 <= x < pow2(bits.len())
            &&& forall|i: int|
                0 <= i < bits.len() ==> value(k, vs, a, #[trigger] bits[i]) == bit_of(x, i as nat)
            &&& value(k, vs, a, bit_sum(bits)) == x
        }),
{
    let k = Numbers::Integers;
    let n = bit_count(type_args);
    let bits = bit_vars(prefix, st.counter, n);
    let e = scalar_arg(args, 0)->Some_0;
    let x = value(k, vs, a, e);
    let v = all_values(k, vs, a, bits);
    lemma_to_bits_call(st, args, type_args, prefix);
    lemma_equation(vs, a, f, st, e, bit_sum(bits), "tobits_decompose"@);
    lemma_bit_sum(vs, a, bits);
    lemma_number_bounds(v);
    lemma_bits_make_up(x, n);
    lemma_number_unique(v, first_bits(x, n));
    assert forall|i: int| 0 <= i < bits.len() implies value(k, vs, a, #[trigger] bits[i])
        == bit_of(x, i as nat) by {
        assert(v[i] == first_bits(x, n)[i]);
    }
}

// ---------------------------------------------------------------------------
// The bitwise conjunction
// ---------------------------------------------------------------------------

/// The products of bits.
pub open spec fn products(x: Seq<int>, y: Seq<int>) -> Seq<int> {
    Seq::new(x.len(), |i: int| x[i] * y[i])
}

/// The number whose bits are products of bits is the bitwise conjunction.
#[verifier::spinoff_prover]
pub proof fn lemma_products_are_and(x: Seq<int>, y: Seq<int>)
    requires
        x.len() == y.len(),
        x.len() <= 16,
        are_bits(x),
        are_bits(y),
    ensures
        0 <= number(x) < 65536,
        0 <= number(y) < 65536,
        number(products(x, y)) == (number(x) as u32) & (number(y) as u32),
    decreases x.len(),
{
    lemma2_to64();
    lemma_number_bounds(x);
    lemma_number_bounds(y);
    if x.len() < 16 {
        lemma_pow2_strictly_increases(x.len(), 16);
    }
    if x.len() == 0 {
        assert(products(x, y) =~= Seq::empty());
        assert(0u32 & 0u32 == 0) by (bit_vector);
    } else {
        let k = (x.len() - 1) as nat;
        let x0 = x.drop_last();
        let y0 = y.drop_last();
        assert(are_bits(x0)) by {
            assert forall|i: int| 0 <= i < x0.len() implies (#[trigger] x0[i] == 0 || x0[i]
                == 1) by {
                assert(x0[i] == x[i]);
            }
        }
        assert(are_bits(y0)) by {
            assert forall|i: int| 0 <= i < y0.len() implies (#[trigger] y0[i] == 0 || y0[i]
                == 1) by {
                assert(y0[i] == y[i]);
            }
        }
        lemma_products_are_and(x0, y0);
        lemma_number_bounds(x0);
        lemma_number_bounds(y0);
        lemma_pow2_strictly_increases(k, 16);
        let p = products(x, y);
        assert(p.drop_last() =~= products(x0, y0));
        let bx = x.last();
        let by_ = y.last();
        assert(bx == 0 || bx == 1);
        assert(by_ == 0 || by_ == 1);
        assert(p.last() == bx * by_);
        let a: u32 = number(x0) as u32;
        let b: u32 = number(y0) as u32;
        let s: u32 = k as u32;
        let w: u32 = 1u32 << s;
        lemma_u32_shl_is_mul(1, s);
        assert(w == pow2(k));
        let c: u32 = a & b;
        assert((a + w) as u32 & b == c && a & (b + w) as u32 == c && (a + w) as u32 & (b
            + w) as u32 == c + w) by (bit_vector)
            requires
                w == 1u32 << s,
                s < 16,
                a < w,
                b < w,
                c == a & b,
        ;
        let t = bx * by_;
        assert(number(x) == a + bx * w);
        assert(number(y) == b + by_ * w);
        assert(number(p) == c + t * w);
        assert(0 * w == 0 && 1 * w == w);
        if bx == 1 && by_ == 1 {
            assert(t == 1);
            assert(number(x) == a + w && number(y) == b + w && number(p) == c + w);
        } else {
            assert(t == 0) by (nonlinear_arith)
                requires
                    t == bx * by_,
                    bx == 0 || by_ == 0,
            ;
            assert(number(p) == c);
            if bx == 1 {
                assert(number(x) == a + w && number(y) == b);
            } else if by_ == 1 {
                assert(number(x) == a && number(y) == b + w);
            } else {
                assert(number(x) == a && number(y) == b);
            }
        }
    }
}

/// The name of the result of `BitwiseAndU16`.
pub open spec fn and_name(prefix: Seq<char>, counter: nat) -> Seq<char> {
    fresh_name(prefix, "and16"@, counter + 33)
}

proof fn lemma_and_constraints(st: State, args: Seq<ValueV>, prefix: Seq<char>)
    requires
        and_call(st, args, prefix) is Done,
    ensures
        ({
            let r = and_name(prefix, st.counter);
            let cs = and_call(st, args, prefix)->Done_0.spec.constraints;
            let n = st.spec.constraints.len() as int;
            let x = scalar_arg(args, 0)->Some_0;
            let y = scalar_arg(args, 1)->Some_0;
            &&& and_call(st, args, prefix)->Done_1 == ValueV::Expr(var(r))
            &&& cs.len() == n + 3
            &&& cs[n] == equation(st, x, bit_sum(x_bits(prefix, st.counter, 16)), "tobits_x"@)
            &&& cs[n + 1] == equation(st, y, bit_sum(y_bits(prefix, st.counter, 16)), "tobits_y"@)
            &&& cs[n + 2] == equation(
                st,
                var(r),
                bit_sum(and_bits(prefix, st.counter, 16)),
                "and_result"@,
            )
        }),
{
    lemma_pairs_keep_constraints(st, prefix, 16);
}

/// What `BitwiseAndU16` gives: where its constraints are in force and hold, and its bits are bits,
/// both operands have 16 bits, and the result is their bitwise conjunction.
pub proof fn lemma_and_call(
    vs: Seq<VarV>,
    a: spec_fn(Seq<char>) -> int,
    f: spec_fn(Seq<char>, Seq<char>, Seq<int>) -> int,
    st: State,
    args: Seq<ValueV>,
    prefix: Seq<char>,
)
    requires
        and_call(st, args, prefix) is Done,
        in_force(Numbers::Integers, vs, a, st.guard),
        forall|i: int|
            st.spec.constraints.len() <= i < and_call(
                st,
                args,
                prefix,
            )->Done_0.spec.constraints.len() ==> holds(
                Numbers::Integers,
                vs,
                a,
                f,
                #[trigger] and_call(st, args, prefix)->Done_0.spec.constraints[i],
            ),
        are_bits(all_values(Numbers::Integers, vs, a, x_bits(prefix, st.counter, 16))),
        are_bits(all_values(Numbers::Integers, vs, a, y_bits(prefix, st.counter, 16))),
    ensures
        ({
            let k = Numbers::Integers;
            let r = and_call(st, args, prefix)->Done_1;
            let x = value(k, vs, a, scalar_arg(args, 0)->Some_0);
            let y = value(k, vs, a, scalar_arg(args, 1)->Some_0);
            &&& r is Expr
            &&& 0 <= x < 65536
            &&& 0 <= y < 65536
            &&& value(k, vs, a, r->Expr_0) == (x as u32) & (y as u32)
        }),
{
    let k = Numbers::Integers;
    let xs = x_bits(prefix, st.counter, 16);
    let ys = y_bits(prefix, st.counter, 16);
    let rs = and_bits(prefix, st.counter, 16);
    let s = and_call(st, args, prefix)->Done_0;
    let cs = s.spec.constraints;
    let n = st.spec.constraints.len() as int;
    lemma_and_constraints(st, args, prefix);
    let x = scalar_arg(args, 0)->Some_0;
    let y = scalar_arg(args, 1)->Some_0;
    assert(holds(k, vs, a, f, cs[n]));
    assert(holds(k, vs, a, f, cs[n + 1]));
    assert(holds(k, vs, a, f, cs[n + 2]));
    let r = and_name(prefix, st.counter);
    lemma_equation(vs, a, f, st, x, bit_sum(xs), "tobits_x"@);
    lemma_equation(vs, a, f, st, y, bit_sum(ys), "tobits_y"@);
    lemma_equation(vs, a, f, st, var(r), bit_sum(rs), "and_result"@);
    lemma_bit_sum(vs, a, xs);
    lemma_bit_sum(vs, a, ys);
    lemma_bit_sum(vs, a, rs);
    let xv = all_values(k, vs, a, xs);
    let yv = all_values(k, vs, a, ys);
    let rv = all_values(k, vs, a, rs);
    reveal_with_fuel(value, 2);
    assert(rv =~= products(xv, yv));
    lemma_products_are_and(xv, yv);
}

/// Whether `BitwiseAndU16` makes a name: for a bit of an operand, or for the result.
pub open spec fn is_and_name(prefix: Seq<char>, counter: nat, n: Seq<char>) -> bool {
    ||| n == and_name(prefix, counter)
    ||| exists|i: nat| i < 16 && n == #[trigger] x_bit(prefix, counter, i)
    ||| exists|i: nat| i < 16 && n == #[trigger] y_bit(prefix, counter, i)
}

/// Whether an expression has none of the variables that `BitwiseAndU16` makes.
pub open spec fn is_older(prefix: Seq<char>, counter: nat, e: IrExprV) -> bool {
    known(Set::new(|n: Seq<char>| !is_and_name(prefix, counter, n)), e)
}

/// Whether two assignments give the same values to all variables but those that `BitwiseAndU16`
/// makes.
pub open spec fn differ_in_and(
    prefix: Seq<char>,
    counter: nat,
    a: spec_fn(Seq<char>) -> int,
    b: spec_fn(Seq<char>) -> int,
) -> bool {
    forall|n: Seq<char>| !is_and_name(prefix, counter, n) ==> #[trigger] b(n) == a(n)
}

/// Whether the constraints that `BitwiseAndU16` adds hold, with bits for the bits of its operands.
pub open spec fn meets_and(
    vs: Seq<VarV>,
    a: spec_fn(Seq<char>) -> int,
    f: spec_fn(Seq<char>, Seq<char>, Seq<int>) -> int,
    st: State,
    args: Seq<ValueV>,
    prefix: Seq<char>,
) -> bool {
    let s = and_call(st, args, prefix)->Done_0;
    &&& forall|i: int|
        st.spec.constraints.len() <= i < s.spec.constraints.len() ==> holds(
            Numbers::Integers,
            vs,
            a,
            f,
            #[trigger] s.spec.constraints[i],
        )
    &&& are_bits(all_values(Numbers::Integers, vs, a, x_bits(prefix, st.counter, 16)))
    &&& are_bits(all_values(Numbers::Integers, vs, a, y_bits(prefix, st.counter, 16)))
}

proof fn lemma_older_value(
    vs: Seq<VarV>,
    a: spec_fn(Seq<char>) -> int,
    b: spec_fn(Seq<char>) -> int,
    prefix: Seq<char>,
    counter: nat,
    e: IrExprV,
)
    requires
        is_older(prefix, counter, e),
        differ_in_and(prefix, counter, a, b),
    ensures
        value(Numbers::Integers, vs, b, e) == value(Numbers::Integers, vs, a, e),
    decreases e,
{
    match e {
        IrExprV::Add(l, r) | IrExprV::Sub(l, r) | IrExprV::Mul(l, r) => {
            lemma_older_value(vs, a, b, prefix, counter, *l);
            lemma_older_value(vs, a, b, prefix, counter, *r);
        },
        _ => {},
    }
}

/// The values of the variables that `BitwiseAndU16` makes for the operands `x` and `y`: their bits
/// and their bitwise conjunction. The other values are those of `a`.
pub open spec fn and_values(
    prefix: Seq<char>,
    counter: nat,
    x: int,
    y: int,
    a: spec_fn(Seq<char>) -> int,
) -> spec_fn(Seq<char>) -> int {
    |n: Seq<char>|
        if n == and_name(prefix, counter) {
            ((x as u32) & (y as u32)) as int
        } else if exists|i: nat| i < 16 && n == #[trigger] x_bit(prefix, counter, i) {
            bit_of(x, choose|i: nat| i < 16 && n == #[trigger] x_bit(prefix, counter, i))
        } else if exists|i: nat| i < 16 && n == #[trigger] y_bit(prefix, counter, i) {
            bit_of(y, choose|i: nat| i < 16 && n == #[trigger] y_bit(prefix, counter, i))
        } else {
            a(n)
        }
}

proof fn lemma_and_values(
    prefix: Seq<char>,
    counter: nat,
    x: int,
    y: int,
    a: spec_fn(Seq<char>) -> int,
    i: nat,
)
    requires
        i < 16,
    ensures
        and_values(prefix, counter, x, y, a)(x_bit(prefix, counter, i)) == bit_of(x, i),
        and_values(prefix, counter, x, y, a)(y_bit(prefix, counter, i)) == bit_of(y, i),
{
    let c = counter;
    let xi = "xb"@ + digits(i);
    let yi = "yb"@ + digits(i);
    lemma_fresh_names_differ(prefix, xi, c + 2 * i + 1, prefix, "and16"@, c + 33);
    lemma_fresh_names_differ(prefix, yi, c + 2 * i + 2, prefix, "and16"@, c + 33);
    assert forall|j: nat| x_bit(prefix, c, i) == #[trigger] x_bit(prefix, c, j) implies i == j by {
        if i != j {
            let xj = "xb"@ + digits(j);
            lemma_fresh_names_differ(prefix, xi, c + 2 * i + 1, prefix, xj, c + 2 * j + 1);
        }
    }
    assert forall|j: nat| y_bit(prefix, c, i) == #[trigger] y_bit(prefix, c, j) implies i == j by {
        if i != j {
            let yj = "yb"@ + digits(j);
            lemma_fresh_names_differ(prefix, yi, c + 2 * i + 2, prefix, yj, c + 2 * j + 2);
        }
    }
    assert forall|j: nat| y_bit(prefix, c, i) != #[trigger] x_bit(prefix, c, j) by {
        let xj = "xb"@ + digits(j);
        lemma_fresh_names_differ(prefix, yi, c + 2 * i + 2, prefix, xj, c + 2 * j + 1);
    }
}

/// For operands of 16 bits there is a way to give values to the variables that `BitwiseAndU16`
/// makes: with the bits of the operands, and with their bitwise conjunction for the result, its
/// constraints hold.
pub proof fn lemma_and_call_can_be_met(
    vs: Seq<VarV>,
    a: spec_fn(Seq<char>) -> int,
    f: spec_fn(Seq<char>, Seq<char>, Seq<int>) -> int,
    st: State,
    args: Seq<ValueV>,
    prefix: Seq<char>,
)
    requires
        and_call(st, args, prefix) is Done,
        forall|n: Seq<char>| is_and_name(prefix, st.counter, n) ==> #[trigger] declared(vs, n),
        is_older(prefix, st.counter, scalar_arg(args, 0)->Some_0),
        is_older(prefix, st.counter, scalar_arg(args, 1)->Some_0),
        0 <= value(Numbers::Integers, vs, a, scalar_arg(args, 0)->Some_0) < 65536,
        0 <= value(Numbers::Integers, vs, a, scalar_arg(args, 1)->Some_0) < 65536,
    ensures
        ({
            let x = value(Numbers::Integers, vs, a, scalar_arg(args, 0)->Some_0);
            let y = value(Numbers::Integers, vs, a, scalar_arg(args, 1)->Some_0);
            let b = and_values(prefix, st.counter, x, y, a);
            &&& differ_in_and(prefix, st.counter, a, b)
            &&& 0 <= b(and_name(prefix, st.counter)) < 65536
            &&& meets_and(vs, b, f, st, args, prefix)
        }),
{
    let k = Numbers::Integers;
    let c = st.counter;
    let ex = scalar_arg(args, 0)->Some_0;
    let ey = scalar_arg(args, 1)->Some_0;
    let x = value(k, vs, a, ex);
    let y = value(k, vs, a, ey);
    let b = and_values(prefix, c, x, y, a);
    let r = and_name(prefix, c);
    let xs = x_bits(prefix, c, 16);
    let ys = y_bits(prefix, c, 16);
    let rs = and_bits(prefix, c, 16);
    lemma_older_value(vs, a, b, prefix, c, ex);
    lemma_older_value(vs, a, b, prefix, c, ey);
    let xv = all_values(k, vs, b, xs);
    let yv = all_values(k, vs, b, ys);
    let rv = all_values(k, vs, b, rs);
    reveal_with_fuel(value, 2);
    assert forall|i: int| 0 <= i < 16 implies xv[i] == bit_of(x, i as nat) && yv[i] == bit_of(
        y,
        i as nat,
    ) by {
        lemma_and_values(prefix, c, x, y, a, i as nat);
        assert(declared(vs, x_bit(prefix, c, i as nat)));
        assert(declared(vs, y_bit(prefix, c, i as nat)));
    }
    assert(xv =~= first_bits(x, 16));
    assert(yv =~= first_bits(y, 16));
    lemma2_to64();
    lemma_bits_make_up(x, 16);
    lemma_bits_make_up(y, 16);
    assert(rv =~= products(xv, yv));
    lemma_products_are_and(xv, yv);
    lemma_bit_sum(vs, b, xs);
    lemma_bit_sum(vs, b, ys);
    lemma_bit_sum(vs, b, rs);
    assert(declared(vs, r));
    lemma_and_constraints(st, args, prefix);
    lemma_equation(vs, b, f, st, ex, bit_sum(xs), "tobits_x"@);
    lemma_equation(vs, b, f, st, ey, bit_sum(ys), "tobits_y"@);
    lemma_equation(vs, b, f, st, var(r), bit_sum(rs), "and_result"@);
    let u = x as u32;
    let v = y as u32;
    assert(u & v < 65536) by (bit_vector)
        requires
            u < 65536,
    ;
}

/// There is no other way to give values to the variables that `BitwiseAndU16` makes, where its
/// constraints are in force.
pub proof fn lemma_and_call_is_met_in_one_way(
    vs: Seq<VarV>,
    a: spec_fn(Seq<char>) -> int,
    b: spec_fn(Seq<char>) -> int,
    f: spec_fn(Seq<char>, Seq<char>, Seq<int>) -> int,
    st: State,
    args: Seq<ValueV>,
    prefix: Seq<char>,
)
    requires
        and_call(st, args, prefix) is Done,
        forall|n: Seq<char>| is_and_name(prefix, st.counter, n) ==> #[trigger] declared(vs, n),
        is_older(prefix, st.counter, scalar_arg(args, 0)->Some_0),
        is_older(prefix, st.counter, scalar_arg(args, 1)->Some_0),
        in_force(Numbers::Integers, vs, b, st.guard),
        differ_in_and(prefix, st.counter, a, b),
        meets_and(vs, b, f, st, args, prefix),
    ensures
        b == and_values(
            prefix,
            st.counter,
            value(Numbers::Integers, vs, a, scalar_arg(args, 0)->Some_0),
            value(Numbers::Integers, vs, a, scalar_arg(args, 1)->Some_0),
            a,
        ),
{
    let k = Numbers::Integers;
    let c = st.counter;
    let ex = scalar_arg(args, 0)->Some_0;
    let ey = scalar_arg(args, 1)->Some_0;
    let x = value(k, vs, a, ex);
    let y = value(k, vs, a, ey);
    let r = and_name(prefix, c);
    let xs = x_bits(prefix, c, 16);
    let ys = y_bits(prefix, c, 16);
    lemma_older_value(vs, a, b, prefix, c, ex);
    lemma_older_value(vs, a, b, prefix, c, ey);
    lemma_and_call(vs, b, f, st, args, prefix);
    lemma_and_constraints(st, args, prefix);
    let n = st.spec.constraints.len() as int;
    let cs = and_call(st, args, prefix)->Done_0.spec.constraints;
    assert(holds(k, vs, b, f, cs[n]));
    assert(holds(k, vs, b, f, cs[n + 1]));
    lemma_equation(vs, b, f, st, ex, bit_sum(xs), "tobits_x"@);
    lemma_equation(vs, b, f, st, ey, bit_sum(ys), "tobits_y"@);
    lemma_bit_sum(vs, b, xs);
    lemma_bit_sum(vs, b, ys);
    lemma2_to64();
    lemma_bits_make_up(x, 16);
    lemma_bits_make_up(y, 16);
    let xv = all_values(k, vs, b, xs);
    let yv = all_values(k, vs, b, ys);
    lemma_number_unique(xv, first_bits(x, 16));
    lemma_number_unique(yv, first_bits(y, 16));
    let z = and_values(prefix, c, x, y, a);
    reveal_with_fuel(value, 2);
    assert forall|m: Seq<char>| #[trigger] b(m) == z(m) by {
        if m == r {
            assert(declared(vs, r));
        } else if exists|i: nat| i < 16 && m == #[trigger] x_bit(prefix, c, i) {
            let i = choose|i: nat| i < 16 && m == #[trigger] x_bit(prefix, c, i);
            assert(declared(vs, m));
            assert(xv[i as int] == bit_of(x, i));
        } else if exists|i: nat| i < 16 && m == #[trigger] y_bit(prefix, c, i) {
            let i = choose|i: nat| i < 16 && m == #[trigger] y_bit(prefix, c, i);
            assert(declared(vs, m));
            assert(yv[i as int] == bit_of(y, i));
        } else {
            assert(!is_and_name(prefix, c, m));
        }
    }
    assert(b =~= z);
}

proof fn lemma_pairs_keep_constraints(st: State, prefix: Seq<char>, n: nat)
    ensures
        declare_pairs(st, prefix, n).spec.constraints == st.spec.constraints,
        declare_pairs(st, prefix, n).guard == st.guard,
        declare_pairs(st, prefix, n).counter == st.counter + 2 * n,
    decreases n,
{
    if n > 0 {
        lemma_pairs_keep_constraints(st, prefix, (n - 1) as nat);
    }
}

} // verus!
