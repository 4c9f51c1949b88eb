//! Terms of an SMT solver, and the steps of a conversation with it.
//!
//! The terms are those of the crate `smtlib`. What a term holds is told by its text in
//! the SMT-LIB language, which is what `smtlib` prints and sends to a solver.

use smtlib::funs::Fun;
use smtlib::terms::{Dynamic, Sorted, StaticSorted};
use smtlib::{BitVec, Bool, Int, Storage};
use vstd::arithmetic::power2::pow2;
use vstd::prelude::*;
use crate::ir::rules::magnitude;
use crate::model::unknown_text;
use crate::text::{cat3, digits, joined};

verus! {

// ---------------------------------------------------------------------------
// Types and functions of `smtlib`
// ---------------------------------------------------------------------------

/// `smtlib::Storage`, where terms are kept.
#[verifier::external_type_specification]
#[verifier::external_body]
pub struct ExStorage(smtlib::Storage);

/// `smtlib::Int`, a term that is an integer.
#[verifier::external_type_specification]
#[verifier::external_body]
pub struct ExInt<'st>(smtlib::Int<'st>);

/// `smtlib::Bool`, a term that is a truth value.
#[verifier::external_type_specification]
#[verifier::external_body]
pub struct ExBool<'st>(smtlib::Bool<'st>);

/// `smtlib::BitVec`, a term that is a word of `M` bits.
#[verifier::external_type_specification]
#[verifier::external_body]
pub struct ExBitVec<'st, const M: usize>(smtlib::BitVec<'st, M>);

/// `smtlib::funs::Fun`, a function symbol with the sorts of its arguments and its
/// result.
#[verifier::external_type_specification]
#[verifier::external_body]
pub struct ExFun<'st>(smtlib::funs::Fun<'st>);

/// `smtlib::Error`, the reason why a call failed.
#[verifier::external_type_specification]
#[verifier::external_body]
pub struct ExError(smtlib::Error);

/// The text in which `smtlib`'s `Display` shows an integer term.
pub uninterp spec fn int_text(t: smtlib::Int) -> Seq<char>;

/// The text in which `smtlib`'s `Display` shows a truth-value term.
pub uninterp spec fn bool_text(t: smtlib::Bool) -> Seq<char>;

/// The text in which `smtlib`'s `Display` shows a 32-bit term.
pub uninterp spec fn bv_text(t: smtlib::BitVec<32>) -> Seq<char>;

/// What a function symbol holds: its name, the sorts of its arguments, and the sort of
/// its result.
pub uninterp spec fn fun_parts(f: smtlib::funs::Fun) -> Seq<Seq<char>>;

/// The text of a constant of a sort.
pub open spec fn const_text(name: Seq<char>, sort: Seq<char>) -> Seq<char> {
    "(as "@ + name + " "@ + sort + ")"@
}

/// The text of the application of an operator to one term.
pub open spec fn app1(op: Seq<char>, a: Seq<char>) -> Seq<char> {
    "("@ + op + " "@ + a + ")"@
}

/// The text of the application of an operator to two terms.
pub open spec fn app2(op: Seq<char>, a: Seq<char>, b: Seq<char>) -> Seq<char> {
    "("@ + op + " "@ + a + " "@ + b + ")"@
}

/// The text of an integer: a numeral, or the negative of one.
pub open spec fn number_text(n: int) -> Seq<char> {
    if n < 0 {
        app1("-"@, digits(magnitude(n) as nat))
    } else {
        digits(n as nat)
    }
}

/// The text of the low 32 bits of an integer in two's complement, the highest first.
pub open spec fn word_text(n: int) -> Seq<char> {
    "#b"@ + Seq::new(
        32,
        |i: int|
            if (n % 0x1_0000_0000) / (pow2((31 - i) as nat) as int) % 2 == 1 {
                '1'
            } else {
                '0'
            },
    )
}

/// The sorts of `n` integers.
pub open spec fn int_sorts(n: nat) -> Seq<Seq<char>> {
    Seq::new(n, |i: int| "Int"@)
}

/// The parts of a function symbol of `n` integers with an integer as its result.
pub open spec fn int_function_parts(name: Seq<char>, n: nat) -> Seq<Seq<char>> {
    seq![name] + int_sorts(n) + seq!["Int"@]
}

/// The text of the call of a function symbol.
pub open spec fn call_text(name: Seq<char>, args: Seq<Seq<char>>) -> Seq<char> {
    if args.len() == 0 {
        name
    } else {
        "("@ + name + " "@ + joined(args, " "@) + ")"@
    }
}

/// The texts of integer terms.
pub open spec fn int_texts(v: Seq<smtlib::Int>) -> Seq<Seq<char>> {
    v.map_values(|t: smtlib::Int| int_text(t))
}

/// `smtlib`'s `Int::new_const`: an integer constant of a name. Its text names it with
/// its sort.
#[verifier::external_body]
pub(crate) fn int_const<'st>(st: &'st Storage, name: &str) -> (r: Int<'st>)
    ensures
        int_text(r) == const_text(name@, "Int"@),
{
    *Int::new_const(st, name)
}

/// `smtlib`'s `Int::new` on an integer: a numeral, or the negative of a numeral. The
/// numeral is made from a machine word.
#[verifier::external_body]
pub(crate) fn int_number<'st>(st: &'st Storage, n: i64) -> (r: Int<'st>)
    requires
        magnitude(n as int) <= usize::MAX,
    ensures
        int_text(r) == number_text(n as int),
{
    Int::new(st, n)
}

/// `smtlib`'s `+` on integer terms: the application of `+`.
#[verifier::external_body]
pub(crate) fn int_add<'st>(a: Int<'st>, b: Int<'st>) -> (r: Int<'st>)
    ensures
        int_text(r) == app2("+"@, int_text(a), int_text(b)),
{
    a + b
}

/// `smtlib`'s `-` on integer terms: the application of `-`.
#[verifier::external_body]
pub(crate) fn int_sub<'st>(a: Int<'st>, b: Int<'st>) -> (r: Int<'st>)
    ensures
        int_text(r) == app2("-"@, int_text(a), int_text(b)),
{
    a - b
}

/// `smtlib`'s `*` on integer terms: the application of `*`.
#[verifier::external_body]
pub(crate) fn int_mul<'st>(a: Int<'st>, b: Int<'st>) -> (r: Int<'st>)
    ensures
        int_text(r) == app2("*"@, int_text(a), int_text(b)),
{
    a * b
}

/// `smtlib`'s `/` on integer terms: the application of `div`.
#[verifier::external_body]
pub(crate) fn int_div<'st>(a: Int<'st>, b: Int<'st>) -> (r: Int<'st>)
    ensures
        int_text(r) == app2("div"@, int_text(a), int_text(b)),
{
    a / b
}

/// `smtlib`'s `Int::ge`: the application of `>=`.
#[verifier::external_body]
pub(crate) fn int_ge<'st>(a: Int<'st>, b: Int<'st>) -> (r: Bool<'st>)
    ensures
        bool_text(r) == app2(">="@, int_text(a), int_text(b)),
{
    a.ge(b)
}

/// `smtlib`'s `Int::le`: the application of `<=`.
#[verifier::external_body]
pub(crate) fn int_le<'st>(a: Int<'st>, b: Int<'st>) -> (r: Bool<'st>)
    ensures
        bool_text(r) == app2("<="@, int_text(a), int_text(b)),
{
    a.le(b)
}

/// `smtlib`'s `_eq` on integer terms: the application of `=`.
#[verifier::external_body]
pub(crate) fn int_eq<'st>(a: Int<'st>, b: Int<'st>) -> (r: Bool<'st>)
    ensures
        bool_text(r) == app2("="@, int_text(a), int_text(b)),
{
    a._eq(b)
}

/// `smtlib`'s `_neq` on integer terms: the application of `distinct`.
#[verifier::external_body]
pub(crate) fn int_neq<'st>(a: Int<'st>, b: Int<'st>) -> (r: Bool<'st>)
    ensures
        bool_text(r) == app2("distinct"@, int_text(a), int_text(b)),
{
    a._neq(b)
}

/// `smtlib`'s `Fun::new` on the sorts of integers: a function symbol of `arity`
/// integers with an integer as its result.
#[verifier::external_body]
pub(crate) fn int_function<'st>(st: &'st Storage, name: String, arity: usize) -> (r: Fun<'st>)
    ensures
        fun_parts(r) == int_function_parts(name@, arity as nat),
{
    Fun::new(st, name, vec![Int::sort(); arity], Int::sort())
}

/// `smtlib`'s `Fun::call`: the application of a function symbol of integers, or the
/// symbol itself where there are no arguments. As many arguments as it takes have to
/// be given.
#[verifier::external_body]
pub(crate) fn int_call<'st>(f: &Fun<'st>, args: &Vec<Int<'st>>) -> (r: Result<
    Int<'st>,
    smtlib::Error,
>)
    requires
        fun_parts(*f) == int_function_parts(fun_parts(*f)[0], args@.len()),
    ensures
        r is Ok,
        int_text(r->Ok_0) == call_text(fun_parts(*f)[0], int_texts(args@)),
{
    let terms: Vec<Dynamic<'st>> = args.iter().map(|a| Dynamic::from(*a)).collect();
    f.call(&terms).map(Int::from_dynamic)
}

/// `smtlib`'s `BitVec::new_const` for 32 bits: a constant of a name. Its text names it
/// with its sort.
#[verifier::external_body]
pub(crate) fn bv_const<'st>(st: &'st Storage, name: &str) -> (r: BitVec<'st, 32>)
    ensures
        bv_text(r) == const_text(name@, "(_ BitVec 32)"@),
{
    BitVec::new_const(st, name).into()
}

/// `smtlib`'s `BitVec::new` for 32 bits: the low 32 bits of an integer.
#[verifier::external_body]
pub(crate) fn bv_number<'st>(st: &'st Storage, n: i64) -> (r: BitVec<'st, 32>)
    ensures
        bv_text(r) == word_text(n as int),
{
    BitVec::new(st, n)
}

/// `smtlib`'s `+` on 32-bit terms: the application of `bvadd`.
#[verifier::external_body]
pub(crate) fn bv_add<'st>(a: BitVec<'st, 32>, b: BitVec<'st, 32>) -> (r: BitVec<'st, 32>)
    ensures
        bv_text(r) == app2("bvadd"@, bv_text(a), bv_text(b)),
{
    a + b
}

/// `smtlib`'s unary `-` on 32-bit terms: the application of `bvneg`.
#[verifier::external_body]
pub(crate) fn bv_neg<'st>(a: BitVec<'st, 32>) -> (r: BitVec<'st, 32>)
    ensures
        bv_text(r) == app1("bvneg"@, bv_text(a)),
{
    -a
}

/// `smtlib`'s `*` on 32-bit terms: the application of `bvmul`.
#[verifier::external_body]
pub(crate) fn bv_mul<'st>(a: BitVec<'st, 32>, b: BitVec<'st, 32>) -> (r: BitVec<'st, 32>)
    ensures
        bv_text(r) == app2("bvmul"@, bv_text(a), bv_text(b)),
{
    a * b
}

/// `smtlib`'s `/` on 32-bit terms: the application of `bvudiv`.
#[verifier::external_body]
pub(crate) fn bv_div<'st>(a: BitVec<'st, 32>, b: BitVec<'st, 32>) -> (r: BitVec<'st, 32>)
    ensures
        bv_text(r) == app2("bvudiv"@, bv_text(a), bv_text(b)),
{
    a / b
}

/// `smtlib`'s `BitVec::bvule`: the application of `bvule`.
#[verifier::external_body]
pub(crate) fn bv_ule<'st>(a: BitVec<'st, 32>, b: BitVec<'st, 32>) -> (r: Bool<'st>)
    ensures
        bool_text(r) == app2("bvule"@, bv_text(a), bv_text(b)),
{
    a.bvule(b)
}

/// `smtlib`'s `_eq` on 32-bit terms: the application of `=`.
#[verifier::external_body]
pub(crate) fn bv_eq<'st>(a: BitVec<'st, 32>, b: BitVec<'st, 32>) -> (r: Bool<'st>)
    ensures
        bool_text(r) == app2("="@, bv_text(a), bv_text(b)),
{
    a._eq(b)
}

/// `smtlib`'s `_neq` on 32-bit terms: the application of `distinct`.
#[verifier::external_body]
pub(crate) fn bv_neq<'st>(a: BitVec<'st, 32>, b: BitVec<'st, 32>) -> (r: Bool<'st>)
    ensures
        bool_text(r) == app2("distinct"@, bv_text(a), bv_text(b)),
{
    a._neq(b)
}

/// `smtlib`'s `&` on truth-value terms: the application of `and`.
#[verifier::external_body]
pub(crate) fn bool_and<'st>(a: Bool<'st>, b: Bool<'st>) -> (r: Bool<'st>)
    ensures
        bool_text(r) == app2("and"@, bool_text(a), bool_text(b)),
{
    a & b
}

/// `smtlib`'s `|` on truth-value terms: the application of `or`.
#[verifier::external_body]
pub(crate) fn bool_or<'st>(a: Bool<'st>, b: Bool<'st>) -> (r: Bool<'st>)
    ensures
        bool_text(r) == app2("or"@, bool_text(a), bool_text(b)),
{
    a | b
}

// ---------------------------------------------------------------------------
// Steps
// ---------------------------------------------------------------------------

/// A step of a conversation with a solver.
pub enum Step<'st> {
    /// A line of warning.
    Warn(String),
    /// A function symbol to declare; the label names it where the solver refuses it.
    Declare { label: String, function: Fun<'st> },
    /// A formula to assert; the label names it where the solver refuses it.
    Assert { label: String, formula: Bool<'st> },
}

/// What to say to a solver: steps, and then, unless something stands in the way, the
/// question whether all that was asserted can hold.
pub struct Plan<'st> {
    pub steps: Vec<Step<'st>>,
    pub stop: Option<String>,
}

/// The answer of a solver.
#[derive(Debug, Clone, Copy, PartialEq, Eq, Structural)]
pub enum Answer {
    Unsat,
    Sat,
    Unknown,
}

/// A step as a mathematical value; a formula is of the type `F`.
pub enum StepV<F> {
    Warn(Seq<char>),
    Declare { label: Seq<char>, name: Seq<char>, arity: nat },
    Assert { label: Seq<char>, formula: F },
}

/// A plan as a mathematical value.
pub struct PlanV<F> {
    pub steps: Seq<StepV<F>>,
    pub stop: Option<Seq<char>>,
}

/// Whether a step says what its mathematical value says.
pub open spec fn says<F>(s: Step, v: StepV<F>, text: spec_fn(F) -> Seq<char>) -> bool {
    match (s, v) {
        (Step::Warn(t), StepV::Warn(m)) => t@ == m,
        (Step::Declare { label: l, function: f }, StepV::Declare { label, name, arity }) => l@
            == label && fun_parts(f) == int_function_parts(name, arity),
        (Step::Assert { label: l, formula: f }, StepV::Assert { label, formula }) => l@ == label
            && bool_text(f) == text(formula),
        _ => false,
    }
}

/// Whether steps say what their mathematical values say.
pub open spec fn all_say<F>(s: Seq<Step>, v: Seq<StepV<F>>, text: spec_fn(F) -> Seq<char>) -> bool {
    &&& s.len() == v.len()
    &&& forall|i: int| 0 <= i < s.len() ==> says(#[trigger] s[i], v[i], text)
}

/// Whether a plan says what its mathematical value says.
pub open spec fn plan_says<F>(p: Plan, v: PlanV<F>, text: spec_fn(F) -> Seq<char>) -> bool {
    &&& all_say(p.steps@, v.steps, text)
    &&& match v.stop {
        Some(m) => p.stop is Some && p.stop->Some_0@ == m,
        None => p.stop is None,
    }
}

/// Warnings for names that are not known.
pub open spec fn warnings<F>(names: Seq<Seq<char>>) -> Seq<StepV<F>> {
    names.map_values(|x: Seq<char>| StepV::Warn(unknown_text(x)))
}

/// The assertion of a formula.
pub open spec fn assertion<F>(label: Seq<char>, formula: F) -> StepV<F> {
    StepV::Assert { label, formula }
}

/// One plan after another, unless the first stops.
pub open spec fn followed_by<F>(p: PlanV<F>, q: PlanV<F>) -> PlanV<F> {
    if p.stop is Some {
        p
    } else {
        PlanV { steps: p.steps + q.steps, stop: q.stop }
    }
}

/// Warnings for names in two parts.
pub proof fn lemma_warnings<F>(a: Seq<Seq<char>>, b: Seq<Seq<char>>)
    ensures
        warnings::<F>(a + b) == warnings::<F>(a) + warnings::<F>(b),
{
    assert(warnings::<F>(a + b) =~= warnings::<F>(a) + warnings::<F>(b));
}

/// Appends the assertion of a formula.
pub(crate) fn push_assert<'st>(steps: &mut Vec<Step<'st>>, label: &str, formula: Bool<'st>)
    ensures
        final(steps)@.len() == old(steps)@.len() + 1,
        final(steps)@.drop_last() == old(steps)@,
        final(steps)@.last() is Assert,
        final(steps)@.last()->Assert_label@ == label@,
        final(steps)@.last()->formula == formula,
{
    steps.push(Step::Assert { label: label.to_owned(), formula });
    assert(steps@.drop_last() =~= old(steps)@);
}

/// Steps that say something still say it with one more step behind them.
pub proof fn lemma_push_says<F>(
    s: Seq<Step>,
    t: Seq<Step>,
    v: Seq<StepV<F>>,
    w: StepV<F>,
    text: spec_fn(F) -> Seq<char>,
)
    requires
        all_say(s, v, text),
        t.len() == s.len() + 1,
        t.drop_last() == s,
        says(t.last(), w, text),
    ensures
        all_say(t, v.push(w), text),
{
    assert forall|i: int| 0 <= i < t.len() implies says(#[trigger] t[i], v.push(w)[i], text) by {
        if i < s.len() {
            assert(t[i] == t.drop_last()[i]);
            assert(says(s[i], v[i], text));
        }
    }
}

/// The error of a step that the solver refused.
pub fn step_error(label: &str, reason: &str) -> (r: String)
    ensures
        r@ == label@ + ": "@ + reason@,
{
    cat3(label, ": ", reason)
}

} // verus!
