//! Which calls an instruction holds: only of components that are not expanded, and of each with
//! one number of arguments.

use vstd::prelude::*;
use crate::ir::rules::{is_halves, lowered, publics, Env, Lowered};
use crate::ir::{ConstraintV, IrExprV, SpecV};
use crate::laws::steps::lemma_lowered_fits;
use crate::verifier_int::{askable, calls_agree, word_sized, word_sized_constraint};

verus! {

/// How many scalars an argument of a type is.
pub open spec fn type_width(env: Env, ty: Seq<char>) -> nat {
    if is_halves(ty) {
        2
    } else if env.components.dom().contains(ty) {
        publics(env.components[ty].body).len()
    } else {
        1
    }
}

/// How many scalars the arguments for the first `n` parameters are.
pub open spec fn width(env: Env, params: Seq<(Seq<char>, Seq<char>)>, n: nat) -> nat
    decreases n,
{
    if n == 0 || n > params.len() {
        0
    } else {
        width(env, params, (n - 1) as nat) + type_width(env, params[n - 1].1)
    }
}

/// Whether a constraint that is a call is one of a component that is not to be expanded, with
/// the number of arguments of that component.
pub open spec fn fits(env: Env, c: ConstraintV) -> bool {
    c is Call ==> {
        let params = env.components[c->component].params;
        &&& env.components.dom().contains(c->component)
        &&& env.abstracts.contains(c->component)
        &&& c->args.len() == width(env, params, params.len())
    }
}

/// A constant fits into a word of 64 bits.
proof fn lemma_word_sized(e: IrExprV)
    requires
        usize::MAX >= 0x8000_0000_0000_0000,
    ensures
        word_sized(e),
    decreases e,
{
    match e {
        IrExprV::Add(a, b) => {
            lemma_word_sized(*a);
            lemma_word_sized(*b);
        },
        IrExprV::Sub(a, b) => {
            lemma_word_sized(*a);
            lemma_word_sized(*b);
        },
        IrExprV::Mul(a, b) => {
            lemma_word_sized(*a);
            lemma_word_sized(*b);
        },
        IrExprV::Div(a, b) => {
            lemma_word_sized(*a);
            lemma_word_sized(*b);
        },
        _ => {},
    }
}

/// Only components that are not to be expanded are called in an instruction; where all are to
/// be expanded it holds no call.
pub proof fn lemma_only_abstract_calls(env: Env, name: Seq<char>, depth: nat, s: SpecV, i: int)
    requires
        lowered(env, name, depth) == Lowered::Done(s),
        0 <= i < s.constraints.len(),
    ensures
        s.constraints[i] is Call ==> env.abstracts.contains(s.constraints[i]->component),
        env.abstracts == Set::<Seq<char>>::empty() ==> !(s.constraints[i] is Call),
{
    lemma_lowered_fits(env, name, depth, s);
    assert(fits(env, s.constraints[i]));
}

/// On a machine with words of 64 bits an instruction that a component is lowered to can be
/// put to a solver over the integers: a component that is not expanded is always given the
/// same number of arguments.
pub proof fn lemma_lowered_can_be_asked(env: Env, name: Seq<char>, depth: nat, s: SpecV)
    requires
        lowered(env, name, depth) == Lowered::Done(s),
        usize::MAX >= 0x8000_0000_0000_0000,
    ensures
        askable(s.constraints),
{
    lemma_lowered_fits(env, name, depth, s);
    let cs = s.constraints;
    assert forall|i: int| 0 <= i < cs.len() implies word_sized_constraint(#[trigger] cs[i]) by {
        match cs[i] {
            ConstraintV::Eq { lhs, rhs, .. } => {
                lemma_word_sized(lhs);
                lemma_word_sized(rhs);
            },
            ConstraintV::IsZero { expr, .. } => {
                lemma_word_sized(expr);
            },
            ConstraintV::Call { args, .. } => {
                assert forall|j: int| 0 <= j < args.len() implies word_sized(
                    #[trigger] args[j],
                ) by {
                    lemma_word_sized(args[j]);
                }
            },
        }
    }
    assert forall|i: int, j: int| 0 <= i < cs.len() && 0 <= j < cs.len() implies calls_agree(
        #[trigger] cs[i],
        #[trigger] cs[j],
    ) by {
        assert(fits(env, cs[i]) && fits(env, cs[j]));
    }
}

} // verus!
