//! The question whether an instruction is deterministic, as a system of polynomials over
//! a prime field.
//!
//! That some output differs between the runs is said with a new variable `t`: the
//! equation `t * (y1 - y2) - 1 = 0` has a solution where `y1` and `y2` differ. The
//! instruction is deterministic where the system has no solution, so that the reduced
//! Gröbner basis of its polynomials is `[1]`.

use vstd::arithmetic::power2::{
    lemma2_to64, lemma2_to64_rest, lemma_pow2_strictly_increases, lemma_pow2_unfold, pow2,
};
use vstd::prelude::*;
use crate::ir::{
    constraints, vars, ConstraintV, InstructionSpec, IrConstraint, IrExpr, IrExprV, SpecV, Var,
    VarType, VarV,
};
use crate::model::{all_variables, declared, instance, instance_of, Side};
use crate::text::{
    cat2, cat3, cat4, cat5, cat7, contains, decimal, digits, join, joined, occurs, same,
    signed_decimal, signed_digits, texts, trim, trimmed,
};
use crate::verifier_bv::{report, tells, VerifyResult};
use crate::verifier_ff::{any_call, has_calls, has_name, range_bit, BABYBEAR_P};

verus! {

// ---------------------------------------------------------------------------
// Polynomials
// ---------------------------------------------------------------------------

/// An expression in polynomials.
pub enum PolyExpr {
    Var(Seq<char>),
    Number(int),
    Add(Box<PolyExpr>, Box<PolyExpr>),
    Sub(Box<PolyExpr>, Box<PolyExpr>),
    Mul(Box<PolyExpr>, Box<PolyExpr>),
}

/// A polynomial of the system, which is to be 0.
pub enum Poly {
    /// `x` is 0 or 1.
    Bit(Seq<char>),
    /// `x` is 0, 1, 2 or 3.
    Twit(Seq<char>),
    /// `x` is the sum of its first bits, each times its weight.
    Bits(Seq<char>, nat),
    /// Two variables are equal.
    Same(Seq<char>, Seq<char>),
    /// Two expressions are equal.
    Equal(PolyExpr, PolyExpr),
    /// The product of a variable and an expression is 0.
    Product(Seq<char>, PolyExpr),
    /// Two variables differ.
    Differ(Seq<char>, Seq<char>),
    /// Two variables of one of some pairs differ.
    DifferSome(Seq<(Seq<char>, Seq<char>)>),
}

/// The text of an expression.
pub open spec fn poly_expr_text(e: PolyExpr) -> Seq<char>
    decreases e,
{
    match e {
        PolyExpr::Var(x) => x,
        PolyExpr::Number(n) => signed_digits(n),
        PolyExpr::Add(a, b) => "("@ + poly_expr_text(*a) + " + "@ + poly_expr_text(*b) + ")"@,
        PolyExpr::Sub(a, b) => "("@ + poly_expr_text(*a) + " - "@ + poly_expr_text(*b) + ")"@,
        PolyExpr::Mul(a, b) => "("@ + poly_expr_text(*a) + " * "@ + poly_expr_text(*b) + ")"@,
    }
}

/// The text of bit `i` of a variable times its weight.
pub open spec fn weighted_bit_text(x: Seq<char>, i: nat) -> Seq<char> {
    digits(pow2(i)) + "*"@ + range_bit(x, i)
}

/// The texts of the first `n` bits of a variable, each times its weight.
pub open spec fn weighted_bit_texts(x: Seq<char>, n: nat) -> Seq<Seq<char>> {
    Seq::new(n, |i: int| weighted_bit_text(x, i as nat))
}

/// The name of the factor of pair `i`.
pub open spec fn factor(i: nat) -> Seq<char> {
    "rabin_w"@ + digits(i)
}

/// The text of the difference of two variables.
pub open spec fn difference_text(a: Seq<char>, b: Seq<char>) -> Seq<char> {
    "("@ + a + " - "@ + b + ")"@
}

/// The texts of the differences of pairs of variables, each times its factor.
pub open spec fn difference_texts(v: Seq<(Seq<char>, Seq<char>)>) -> Seq<Seq<char>> {
    Seq::new(v.len(), |i: int| factor(i as nat) + "*"@ + difference_text(v[i].0, v[i].1))
}

/// The text of a polynomial.
pub open spec fn poly_text(p: Poly) -> Seq<char> {
    match p {
        Poly::Bit(x) => x + "*"@ + x + " - "@ + x,
        Poly::Twit(x) => x + "*("@ + x + "-1)*("@ + x + "-2)*("@ + x + "-3)"@,
        Poly::Bits(x, n) => x + " - ("@ + joined(weighted_bit_texts(x, n), " + "@) + ")"@,
        Poly::Same(a, b) => a + " - "@ + b,
        Poly::Equal(a, b) => "("@ + poly_expr_text(a) + ") - ("@ + poly_expr_text(b) + ")"@,
        Poly::Product(x, e) => x + " * ("@ + poly_expr_text(e) + ")"@,
        Poly::Differ(a, b) => "rabin_t*"@ + difference_text(a, b) + " - 1"@,
        Poly::DifferSome(v) => "rabin_t*("@ + joined(difference_texts(v), " + "@) + ") - 1"@,
    }
}

/// The texts of polynomials.
pub open spec fn poly_texts(v: Seq<Poly>) -> Seq<Seq<char>> {
    v.map_values(|p: Poly| poly_text(p))
}

/// A system of polynomials in some variables.
pub struct System {
    pub variables: Seq<Seq<char>>,
    pub polys: Seq<Poly>,
}

/// The text of a system.
pub open spec fn system_text(s: System) -> Seq<char> {
    joined(s.variables, ", "@) + "\n"@ + digits(BABYBEAR_P as nat) + "\n"@ + joined(
        poly_texts(s.polys),
        ",\n"@,
    ) + "\n"@
}

// ---------------------------------------------------------------------------
// The system of an instruction
// ---------------------------------------------------------------------------

/// An expression in one of the runs.
pub open spec fn ms_expr(e: IrExprV, side: Side) -> PolyExpr
    decreases e,
{
    match e {
        IrExprV::Const(n) => PolyExpr::Number(
            if n >= 0 {
                n as int
            } else {
                BABYBEAR_P + n
            },
        ),
        IrExprV::Var(x) => PolyExpr::Var(instance(x, side)),
        IrExprV::Add(a, b) => PolyExpr::Add(
            Box::new(ms_expr(*a, side)),
            Box::new(ms_expr(*b, side)),
        ),
        IrExprV::Sub(a, b) => PolyExpr::Sub(
            Box::new(ms_expr(*a, side)),
            Box::new(ms_expr(*b, side)),
        ),
        IrExprV::Mul(a, b) => PolyExpr::Mul(
            Box::new(ms_expr(*a, side)),
            Box::new(ms_expr(*b, side)),
        ),
        IrExprV::Div(a, b) => PolyExpr::Mul(
            Box::new(ms_expr(*a, side)),
            Box::new(ms_expr(*b, side)),
        ),
    }
}

/// The first `n` variables in both runs.
pub open spec fn ms_names(vs: Seq<VarV>, n: nat) -> Seq<Seq<char>>
    decreases n,
{
    if n == 0 || n > vs.len() {
        Seq::empty()
    } else {
        ms_names(vs, (n - 1) as nat).push(instance(vs[n - 1].name, Side::First)).push(
            instance(vs[n - 1].name, Side::Second),
        )
    }
}

/// Two systems side by side.
pub open spec fn both(a: System, b: System) -> System {
    System { variables: a.variables + b.variables, polys: a.polys + b.polys }
}

/// A system without variables and polynomials.
pub open spec fn nothing() -> System {
    System { variables: Seq::empty(), polys: Seq::empty() }
}

/// The first `n` bits of a variable are bits.
pub open spec fn ms_bits(x: Seq<char>, n: nat) -> System
    decreases n,
{
    if n == 0 {
        nothing()
    } else {
        let before = ms_bits(x, (n - 1) as nat);
        let b = range_bit(x, (n - 1) as nat);
        System { variables: before.variables.push(b), polys: before.polys.push(Poly::Bit(b)) }
    }
}

/// A variable has `n` bits.
pub open spec fn ms_has_bits(x: Seq<char>, n: nat) -> System {
    System { polys: ms_bits(x, n).polys.push(Poly::Bits(x, n)), ..ms_bits(x, n) }
}

/// The range of a variable in one of the runs. A number of 8 or 16 bits is taken apart
/// only where it is neither input nor output.
pub open spec fn ms_range(v: VarV, internal: bool, side: Side) -> System {
    let x = instance(v.name, side);
    match v.vtype {
        VarType::Bit => System { variables: Seq::empty(), polys: seq![Poly::Bit(x)] },
        VarType::Twit => System { variables: Seq::empty(), polys: seq![Poly::Twit(x)] },
        VarType::U8 => if internal {
            ms_has_bits(x, 8)
        } else {
            nothing()
        },
        VarType::U16 => if internal {
            ms_has_bits(x, 16)
        } else {
            nothing()
        },
        _ => nothing(),
    }
}

/// The ranges of the first `n` variables in both runs.
pub open spec fn ms_ranges(vs: Seq<VarV>, internals: Seq<VarV>, n: nat) -> System
    decreases n,
{
    if n == 0 || n > vs.len() {
        nothing()
    } else {
        let internal = declared(internals, vs[n - 1].name);
        both(
            both(
                ms_ranges(vs, internals, (n - 1) as nat),
                ms_range(vs[n - 1], internal, Side::First),
            ),
            ms_range(vs[n - 1], internal, Side::Second),
        )
    }
}

/// The first `n` inputs are the same in both runs.
pub open spec fn ms_same_inputs(vs: Seq<VarV>, n: nat) -> Seq<Poly>
    decreases n,
{
    if n == 0 || n > vs.len() {
        Seq::empty()
    } else {
        ms_same_inputs(vs, (n - 1) as nat).push(
            Poly::Same(
                instance(vs[n - 1].name, Side::First),
                instance(vs[n - 1].name, Side::Second),
            ),
        )
    }
}

/// A constraint in one of the runs. That a result is 1 where an expression is 0 is not
/// said, only that their product is 0. A call cannot be said.
pub open spec fn ms_constraint(c: ConstraintV, side: Side) -> Option<Poly> {
    match c {
        ConstraintV::Eq { lhs, rhs, .. } => Some(
            Poly::Equal(ms_expr(lhs, side), ms_expr(rhs, side)),
        ),
        ConstraintV::IsZero { result, expr } => Some(
            Poly::Product(instance(result, side), ms_expr(expr, side)),
        ),
        ConstraintV::Call { .. } => None,
    }
}

/// The first `n` constraints in both runs.
pub open spec fn ms_constraints(cs: Seq<ConstraintV>, n: nat) -> Seq<Poly>
    decreases n,
{
    if n == 0 || n > cs.len() {
        Seq::empty()
    } else {
        let before = ms_constraints(cs, (n - 1) as nat);
        match (ms_constraint(cs[n - 1], Side::First), ms_constraint(cs[n - 1], Side::Second)) {
            (Some(a), Some(b)) => before.push(a).push(b),
            _ => before,
        }
    }
}

/// The outputs in both runs.
pub open spec fn ms_outputs(outputs: Seq<VarV>) -> Seq<(Seq<char>, Seq<char>)> {
    outputs.map_values(
        |v: VarV| (instance(v.name, Side::First), instance(v.name, Side::Second)),
    )
}

/// One of the outputs differs between the runs.
pub open spec fn ms_differ(outputs: Seq<VarV>) -> System {
    let pairs = ms_outputs(outputs);
    if outputs.len() == 1 {
        System {
            variables: Seq::empty(),
            polys: seq![Poly::Differ(pairs[0].0, pairs[0].1)],
        }
    } else {
        System {
            variables: Seq::new(outputs.len(), |i: int| factor(i as nat)),
            polys: seq![Poly::DifferSome(pairs)],
        }
    }
}

/// The system that has a solution where two runs with the same inputs can have different
/// outputs.
pub open spec fn ms_system(s: SpecV) -> System {
    let vs = s.all_vars();
    let ranges = ms_ranges(vs, s.internals, vs.len());
    let differ = ms_differ(s.outputs);
    System {
        variables: ms_names(vs, vs.len()).push("rabin_t"@) + ranges.variables + differ.variables,
        polys: ranges.polys + ms_same_inputs(s.inputs, s.inputs.len()) + ms_constraints(
            s.constraints,
            s.constraints.len(),
        ) + differ.polys,
    }
}

// ---------------------------------------------------------------------------
// Writing the system
// ---------------------------------------------------------------------------

/// Appends a text.
fn push_text(v: &mut Vec<String>, t: String)
    ensures
        texts(final(v)@) == texts(old(v)@).push(t@),
{
    v.push(t);
    assert(texts(v@) =~= texts(old(v)@).push(t@));
}

/// Appends a polynomial.
fn push_poly(v: &mut Vec<String>, t: String, Ghost(polys): Ghost<Seq<Poly>>, Ghost(p): Ghost<Poly>)
    requires
        texts(old(v)@) == poly_texts(polys),
        t@ == poly_text(p),
    ensures
        texts(final(v)@) == poly_texts(polys.push(p)),
{
    push_text(v, t);
    assert(poly_texts(polys.push(p)) =~= poly_texts(polys).push(poly_text(p)));
}

/// Writes an expression in one of the runs.
fn expr_to_poly(e: &IrExpr, side: Side) -> (r: String)
    ensures
        r@ == poly_expr_text(ms_expr(e@, side)),
    decreases e,
{
    match e {
        IrExpr::Const(n) => {
            if *n >= 0 {
                signed_decimal(*n)
            } else {
                signed_decimal(BABYBEAR_P as i64 + *n)
            }
        },
        IrExpr::Var(x) => instance_of(x, side),
        IrExpr::Add(a, b) => cat5(
            "(",
            &expr_to_poly(a, side),
            " + ",
            &expr_to_poly(b, side),
            ")",
        ),
        IrExpr::Sub(a, b) => cat5(
            "(",
            &expr_to_poly(a, side),
            " - ",
            &expr_to_poly(b, side),
            ")",
        ),
        IrExpr::Mul(a, b) => cat5(
            "(",
            &expr_to_poly(a, side),
            " * ",
            &expr_to_poly(b, side),
            ")",
        ),
        IrExpr::Div(a, b) => cat5(
            "(",
            &expr_to_poly(a, side),
            " * ",
            &expr_to_poly(b, side),
            ")",
        ),
    }
}

/// Writes that a variable is a bit.
fn bit_poly(x: &str) -> (r: String)
    ensures
        r@ == poly_text(Poly::Bit(x@)),
{
    cat5(x, "*", x, " - ", x)
}

/// Writes that a variable is 0, 1, 2 or 3.
fn twit_poly(x: &str) -> (r: String)
    ensures
        r@ == poly_text(Poly::Twit(x@)),
{
    cat2(&cat7(x, "*(", x, "-1)*(", x, "-2)*(", x), "-3)")
}

/// Whether `names` and `polys` hold a system behind what they held.
spec fn extends(
    names: Seq<String>,
    polys: Seq<String>,
    old_names: Seq<Seq<char>>,
    old_polys: Seq<Poly>,
    s: System,
) -> bool {
    &&& texts(names) == old_names + s.variables
    &&& texts(polys) == poly_texts(old_polys + s.polys)
}

/// Appends that a variable has a number of bits.
fn emit_range_bits_polys(
    x: &str,
    bits: u32,
    names: &mut Vec<String>,
    polys: &mut Vec<String>,
    Ghost(said): Ghost<Seq<Poly>>,
)
    requires
        bits <= 32,
        texts(old(polys)@) == poly_texts(said),
    ensures
        extends(
            final(names)@,
            final(polys)@,
            texts(old(names)@),
            said,
            ms_has_bits(x@, bits as nat),
        ),
{
    let ghost known = texts(names@);
    let mut parts: Vec<String> = Vec::new();
    let mut weight: u64 = 1;
    let mut i: u32 = 0;
    proof {
        lemma2_to64();
        assert(known + ms_bits(x@, 0).variables =~= known);
        assert(said + ms_bits(x@, 0).polys =~= said);
        assert(texts(parts@) =~= weighted_bit_texts(x@, 0));
    }
    while i < bits
        invariant
            i <= bits <= 32,
            weight == pow2(i as nat),
            texts(parts@) == weighted_bit_texts(x@, i as nat),
            extends(names@, polys@, known, said, ms_bits(x@, i as nat)),
        decreases bits - i,
    {
        let ghost before = ms_bits(x@, i as nat);
        let ghost was = texts(parts@);
        let bit = cat3(x, "_rb", &decimal(i as u64));
        let poly = bit_poly(&bit);
        let part = cat3(&decimal(weight), "*", &bit);
        push_poly(polys, poly, Ghost(said + before.polys), Ghost(Poly::Bit(bit@)));
        push_text(names, bit);
        push_text(&mut parts, part);
        proof {
            let now = ms_bits(x@, (i + 1) as nat);
            assert((said + before.polys).push(Poly::Bit(bit@)) =~= said + now.polys);
            assert((known + before.variables).push(bit@) =~= known + now.variables);
            assert(texts(parts@) =~= weighted_bit_texts(x@, (i + 1) as nat));
            lemma_pow2_unfold((i + 1) as nat);
            lemma_pow2_strictly_increases(i as nat, 33);
            lemma2_to64_rest();
        }
        weight = weight * 2;
        i += 1;
    }
    let sum = join(&parts, " + ");
    let poly = cat4(x, " - (", &sum, ")");
    proof {
        let b = ms_bits(x@, bits as nat);
        assert((said + b.polys).push(Poly::Bits(x@, bits as nat)) =~= said + ms_has_bits(
            x@,
            bits as nat,
        ).polys);
    }
    push_poly(
        polys,
        poly,
        Ghost(said + ms_bits(x@, bits as nat).polys),
        Ghost(Poly::Bits(x@, bits as nat)),
    );
}

/// Appends the range of a variable in one of the runs.
fn emit_range(
    v: &Var,
    internal: bool,
    side: Side,
    names: &mut Vec<String>,
    polys: &mut Vec<String>,
    Ghost(said): Ghost<Seq<Poly>>,
)
    requires
        texts(old(polys)@) == poly_texts(said),
    ensures
        extends(
            final(names)@,
            final(polys)@,
            texts(old(names)@),
            said,
            ms_range(v@, internal, side),
        ),
{
    let x = instance_of(&v.name, side);
    proof {
        let known = texts(names@);
        assert(known + Seq::<Seq<char>>::empty() =~= known);
        assert(said + Seq::<Poly>::empty() =~= said);
        assert(said + seq![Poly::Bit(x@)] =~= said.push(Poly::Bit(x@)));
        assert(said + seq![Poly::Twit(x@)] =~= said.push(Poly::Twit(x@)));
    }
    match v.vtype {
        VarType::Bit => {
            push_poly(polys, bit_poly(&x), Ghost(said), Ghost(Poly::Bit(x@)));
        },
        VarType::Twit => {
            push_poly(polys, twit_poly(&x), Ghost(said), Ghost(Poly::Twit(x@)));
        },
        VarType::U8 => {
            if internal {
                emit_range_bits_polys(&x, 8, names, polys, Ghost(said));
            }
        },
        VarType::U16 => {
            if internal {
                emit_range_bits_polys(&x, 16, names, polys, Ghost(said));
            }
        },
        _ => {},
    }
}

/// Appends the ranges of the variables in both runs.
fn emit_ranges(
    all: &Vec<&Var>,
    internals: &Vec<Var>,
    names: &mut Vec<String>,
    polys: &mut Vec<String>,
    Ghost(vs): Ghost<Seq<VarV>>,
)
    requires
        old(polys)@.len() == 0,
        all@.len() == vs.len(),
        forall|i: int| 0 <= i < all@.len() ==> (#[trigger] all@[i])@ == vs[i],
    ensures
        extends(
            final(names)@,
            final(polys)@,
            texts(old(names)@),
            Seq::empty(),
            ms_ranges(vs, vars(internals@), vs.len()),
        ),
{
    let ghost known = texts(names@);
    let ghost none = Seq::<Poly>::empty();
    let ghost ins = vars(internals@);
    let mut i: usize = 0;
    proof {
        assert(known + nothing().variables =~= known);
        assert(texts(polys@) =~= poly_texts(none + nothing().polys));
    }
    while i < all.len()
        invariant
            i <= all.len(),
            ins == vars(internals@),
            none == Seq::<Poly>::empty(),
            all@.len() == vs.len(),
            forall|j: int| 0 <= j < all@.len() ==> (#[trigger] all@[j])@ == vs[j],
            extends(names@, polys@, known, none, ms_ranges(vs, ins, i as nat)),
        decreases all.len() - i,
    {
        let v: &Var = all[i];
        assert(v@ == vs[i as int]);
        let internal = has_name(internals, &v.name);
        let ghost before = ms_ranges(vs, ins, i as nat);
        let ghost a = ms_range(v@, internal, Side::First);
        let ghost b = ms_range(v@, internal, Side::Second);
        emit_range(v, internal, Side::First, names, polys, Ghost(none + before.polys));
        emit_range(
            v,
            internal,
            Side::Second,
            names,
            polys,
            Ghost(none + before.polys + a.polys),
        );
        proof {
            let now = ms_ranges(vs, ins, (i + 1) as nat);
            assert(known + now.variables =~= known + before.variables + a.variables + b.variables);
            assert(none + now.polys =~= none + before.polys + a.polys + b.polys);
        }
        i += 1;
    }
}

/// Appends a constraint in one of the runs.
fn emit_constraint_poly(
    c: &IrConstraint,
    side: Side,
    polys: &mut Vec<String>,
    Ghost(said): Ghost<Seq<Poly>>,
) -> (r: Result<(), String>)
    requires
        texts(old(polys)@) == poly_texts(said),
    ensures
        match ms_constraint(c@, side) {
            Some(p) => r is Ok && texts(final(polys)@) == poly_texts(said.push(p)),
            None => r is Err && r->Err_0@ == "Call (UF) не поддерживается в msolve"@,
        },
{
    match c {
        IrConstraint::Eq { lhs, rhs, tag: _ } => {
            let l = expr_to_poly(lhs, side);
            let r = expr_to_poly(rhs, side);
            push_poly(
                polys,
                cat5("(", &l, ") - (", &r, ")"),
                Ghost(said),
                Ghost(Poly::Equal(ms_expr(lhs@, side), ms_expr(rhs@, side))),
            );
            Ok(())
        },
        IrConstraint::IsZero { result, expr } => {
            let r = instance_of(result, side);
            let e = expr_to_poly(expr, side);
            push_poly(
                polys,
                cat4(&r, " * (", &e, ")"),
                Ghost(said),
                Ghost(Poly::Product(r@, ms_expr(expr@, side))),
            );
            Ok(())
        },
        IrConstraint::Call { .. } => Err("Call (UF) не поддерживается в msolve".to_owned()),
    }
}

/// Writes that one of several outputs differs between the runs.
fn differ_some(outputs: &Vec<Var>, names: &mut Vec<String>) -> (r: String)
    ensures
        r@ == poly_text(Poly::DifferSome(ms_outputs(vars(outputs@)))),
        texts(final(names)@) == texts(old(names)@) + Seq::new(
            outputs@.len(),
            |i: int| factor(i as nat),
        ),
{
    let ghost known = texts(names@);
    let ghost pairs = ms_outputs(vars(outputs@));
    let mut terms: Vec<String> = Vec::new();
    let mut i: usize = 0;
    proof {
        assert(known + Seq::new(0, |j: int| factor(j as nat)) =~= known);
        assert(texts(terms@) =~= difference_texts(pairs.take(0)));
    }
    while i < outputs.len()
        invariant
            i <= outputs.len(),
            pairs == ms_outputs(vars(outputs@)),
            texts(terms@) == difference_texts(pairs.take(i as int)),
            texts(names@) == known + Seq::new(i as nat, |j: int| factor(j as nat)),
        decreases outputs.len() - i,
    {
        let w = cat2("rabin_w", &decimal(i as u64));
        let a = instance_of(&outputs[i].name, Side::First);
        let b = instance_of(&outputs[i].name, Side::Second);
        let ghost was = texts(terms@);
        let ghost had = texts(names@);
        push_text(&mut terms, cat3(&w, "*", &cat5("(", &a, " - ", &b, ")")));
        push_text(names, w);
        i += 1;
        proof {
            assert(pairs[i - 1] == (a@, b@));
            assert(texts(terms@) =~= difference_texts(pairs.take(i as int)));
            assert(texts(names@) =~= known + Seq::new(i as nat, |j: int| factor(j as nat)));
        }
    }
    assert(pairs.take(i as int) =~= pairs);
    cat3("rabin_t*(", &join(&terms, " + "), ") - 1")
}

/// Appends that one of the outputs differs between the runs.
fn emit_difference(
    outputs: &Vec<Var>,
    names: &mut Vec<String>,
    polys: &mut Vec<String>,
    Ghost(said): Ghost<Seq<Poly>>,
)
    requires
        texts(old(polys)@) == poly_texts(said),
    ensures
        extends(
            final(names)@,
            final(polys)@,
            texts(old(names)@),
            said,
            ms_differ(vars(outputs@)),
        ),
{
    let ghost pairs = ms_outputs(vars(outputs@));
    if outputs.len() == 1 {
        let a = instance_of(&outputs[0].name, Side::First);
        let b = instance_of(&outputs[0].name, Side::Second);
        let ghost p = Poly::Differ(pairs[0].0, pairs[0].1);
        let difference = cat5("(", &a, " - ", &b, ")");
        push_poly(polys, cat3("rabin_t*", &difference, " - 1"), Ghost(said), Ghost(p));
        proof {
            assert(texts(names@) + Seq::<Seq<char>>::empty() =~= texts(names@));
            assert(said + seq![p] =~= said.push(p));
        }
    } else {
        let t = differ_some(outputs, names);
        let ghost p = Poly::DifferSome(pairs);
        push_poly(polys, t, Ghost(said), Ghost(p));
        proof {
            assert(said + seq![p] =~= said.push(p));
        }
    }
}

/// Writes the system that has a solution where two runs with the same inputs can have
/// different outputs. A call cannot be written.
pub fn generate_msolve_input(spec: &InstructionSpec) -> (r: Result<String, String>)
    ensures
        if has_calls(spec@.constraints) {
            r is Err && r->Err_0@ == "Call (UF) не поддерживается в msolve"@
        } else {
            r is Ok && r->Ok_0@ == system_text(ms_system(spec@))
        },
{
    let ghost vs = spec@.all_vars();
    let ghost cs = spec@.constraints;
    let all = all_variables(spec);
    let mut names: Vec<String> = Vec::new();
    let mut polys: Vec<String> = Vec::new();
    let mut i: usize = 0;
    assert(texts(names@) =~= ms_names(vs, 0));
    while i < all.len()
        invariant
            i <= all.len(),
            polys@.len() == 0,
            all@.len() == vs.len(),
            forall|j: int| 0 <= j < all@.len() ==> (#[trigger] all@[j])@ == vs[j],
            texts(names@) == ms_names(vs, i as nat),
        decreases all.len() - i,
    {
        let v: &Var = all[i];
        assert(v@ == vs[i as int]);
        push_text(&mut names, instance_of(&v.name, Side::First));
        push_text(&mut names, instance_of(&v.name, Side::Second));
        i += 1;
    }
    push_text(&mut names, "rabin_t".to_owned());
    emit_ranges(&all, &spec.internals, &mut names, &mut polys, Ghost(vs));
    let ghost ranges = ms_ranges(vs, spec@.internals, vs.len());
    let ghost p1 = Seq::<Poly>::empty() + ranges.polys;
    let mut i: usize = 0;
    assert(p1 + ms_same_inputs(spec@.inputs, 0) =~= p1);
    while i < spec.inputs.len()
        invariant
            i <= spec.inputs.len(),
            texts(polys@) == poly_texts(p1 + ms_same_inputs(spec@.inputs, i as nat)),
        decreases spec.inputs.len() - i,
    {
        let a = instance_of(&spec.inputs[i].name, Side::First);
        let b = instance_of(&spec.inputs[i].name, Side::Second);
        let ghost before = ms_same_inputs(spec@.inputs, i as nat);
        assert(spec@.inputs[i as int].name == spec.inputs@[i as int].name@);
        push_poly(
            &mut polys,
            cat3(&a, " - ", &b),
            Ghost(p1 + before),
            Ghost(Poly::Same(a@, b@)),
        );
        i += 1;
        assert((p1 + before).push(Poly::Same(a@, b@)) =~= p1 + ms_same_inputs(
            spec@.inputs,
            i as nat,
        ));
    }
    let ghost p2 = p1 + ms_same_inputs(spec@.inputs, spec@.inputs.len());
    let mut i: usize = 0;
    assert(p2 + ms_constraints(cs, 0) =~= p2);
    while i < spec.constraints.len()
        invariant
            i <= spec.constraints.len(),
            cs == spec@.constraints,
            forall|j: int| 0 <= j < i ==> !((#[trigger] cs[j]) is Call),
            texts(polys@) == poly_texts(p2 + ms_constraints(cs, i as nat)),
        decreases spec.constraints.len() - i,
    {
        let c = &spec.constraints[i];
        assert(cs[i as int] == c@);
        let ghost before = p2 + ms_constraints(cs, i as nat);
        emit_constraint_poly(c, Side::First, &mut polys, Ghost(before))?;
        let ghost a = ms_constraint(c@, Side::First)->Some_0;
        emit_constraint_poly(c, Side::Second, &mut polys, Ghost(before.push(a)))?;
        i += 1;
        proof {
            let b = ms_constraint(c@, Side::Second)->Some_0;
            assert(before.push(a).push(b) =~= p2 + ms_constraints(cs, i as nat));
        }
    }
    let ghost p3 = p2 + ms_constraints(cs, cs.len());
    emit_difference(&spec.outputs, &mut names, &mut polys, Ghost(p3));
    proof {
        let s = ms_system(spec@);
        assert(p3 + ms_differ(spec@.outputs).polys =~= s.polys);
        assert(texts(names@) =~= s.variables);
    }
    let head = cat5(&join(&names, ", "), "\n", &decimal(BABYBEAR_P), "\n", &join(&polys, ",\n"));
    Ok(cat2(&head, "\n"))
}

// ---------------------------------------------------------------------------
// The result
// ---------------------------------------------------------------------------

/// What the solver wrote tells: a basis `[1]` that no two runs with the same inputs have
/// different outputs, and another basis that some have.
pub open spec fn ms_verdict(s: SpecV, run: Result<Seq<char>, Seq<char>>) -> Result<
    bool,
    Seq<char>,
> {
    if s.outputs.len() == 0 {
        Err("No outputs to check"@)
    } else if has_calls(s.constraints) {
        Err("msolve не поддерживает UF (Call-constraints)"@)
    } else {
        match run {
            Ok(out) => if occurs(out, "\n[1]:"@) || trimmed(out) == "[1]:"@ {
                Ok(true)
            } else if occurs(out, "["@) {
                Ok(false)
            } else {
                Err("msolve: непонятный вывод: "@ + trimmed(out))
            },
            Err(e) => Err(e),
        }
    }
}

/// Whether an instruction is deterministic, by what the solver wrote for the system, or
/// the error in its place.
pub fn verify_determinism(
    spec: &InstructionSpec,
    run: Result<String, String>,
    time_ms: u128,
) -> (r: VerifyResult)
    requires
        spec@.all_vars().len() <= usize::MAX,
    ensures
        tells(r, spec@, ms_verdict(spec@, written(run)), time_ms),
{
    let found = if spec.outputs.len() == 0 {
        Err("No outputs to check".to_owned())
    } else if any_call(&spec.constraints) {
        Err("msolve не поддерживает UF (Call-constraints)".to_owned())
    } else {
        match run {
            Ok(out) => {
                let result = trim(&out);
                if contains(&out, "\n[1]:") || same(&result, "[1]:") {
                    Ok(true)
                } else if contains(&out, "[") {
                    Ok(false)
                } else {
                    Err(cat2("msolve: непонятный вывод: ", &result))
                }
            },
            Err(e) => Err(e),
        }
    };
    report(spec, found, time_ms)
}

/// What the solver wrote, as a mathematical value.
pub open spec fn written(run: Result<String, String>) -> Result<Seq<char>, Seq<char>> {
    match run {
        Ok(out) => Ok(out@),
        Err(e) => Err(e@),
    }
}

/// The error of a run that failed, by what it wrote to its error output.
pub fn run_failure(stderr: &str) -> (r: String)
    ensures
        r@ == "msolve failed: "@ + trimmed(stderr@),
{
    cat2("msolve failed: ", &trim(stderr))
}

} // verus!
