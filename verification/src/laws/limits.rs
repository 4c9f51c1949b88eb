//! Which instructions can be said to a solver.

use vstd::prelude::*;
use crate::ir::{ConstraintV, IrExprV};
use crate::verifier_ff::{all_negatable, negatable, negatable_constraint};
use crate::verifier_int::{askable, calls_agree, share, word_sized, word_sized_constraint};

verus! {

/// Whether a constant stands in an expression.
pub open spec fn has_constant(e: IrExprV, n: i64) -> bool
    decreases e,
{
    match e {
        IrExprV::Const(m) => m == n,
        IrExprV::Var(_) => false,
        IrExprV::Add(a, b) => has_constant(*a, n) || has_constant(*b, n),
        IrExprV::Sub(a, b) => has_constant(*a, n) || has_constant(*b, n),
        IrExprV::Mul(a, b) => has_constant(*a, n) || has_constant(*b, n),
        IrExprV::Div(a, b) => has_constant(*a, n) || has_constant(*b, n),
    }
}

/// Whether a constant stands in a constraint.
pub open spec fn constraint_has_constant(c: ConstraintV, n: i64) -> bool {
    match c {
        ConstraintV::Eq { lhs, rhs, .. } => has_constant(lhs, n) || has_constant(rhs, n),
        ConstraintV::IsZero { expr, .. } => has_constant(expr, n),
        ConstraintV::Call { args, .. } => exists|i: int|
            0 <= i < args.len() && has_constant(#[trigger] args[i], n),
    }
}

/// Whether an integer is as large as a machine word counts, whatever its sign.
pub open spec fn is_counted(n: i64) -> bool {
    -(usize::MAX as int) <= n <= usize::MAX
}

proof fn lemma_negatable(e: IrExprV)
    ensures
        negatable(e) <==> !has_constant(e, i64::MIN),
    decreases e,
{
    match e {
        IrExprV::Add(a, b) => {
            lemma_negatable(*a);
            lemma_negatable(*b);
        },
        IrExprV::Sub(a, b) => {
            lemma_negatable(*a);
            lemma_negatable(*b);
        },
        IrExprV::Mul(a, b) => {
            lemma_negatable(*a);
            lemma_negatable(*b);
        },
        IrExprV::Div(a, b) => {
            lemma_negatable(*a);
            lemma_negatable(*b);
        },
        _ => {},
    }
}

/// Constraints can be said over the field unless the smallest integer of 64 bits, whose negative is
/// none, stands in one of them.
pub proof fn lemma_said_over_the_field(cs: Seq<ConstraintV>)
    ensures
        all_negatable(cs) <==> forall|i: int|
            0 <= i < cs.len() ==> !constraint_has_constant(#[trigger] cs[i], i64::MIN),
{
    assert forall|i: int| 0 <= i < cs.len() implies (negatable_constraint(#[trigger] cs[i])
        <==> !constraint_has_constant(cs[i], i64::MIN)) by {
        match cs[i] {
            ConstraintV::Eq { lhs, rhs, .. } => {
                lemma_negatable(lhs);
                lemma_negatable(rhs);
            },
            ConstraintV::IsZero { expr, .. } => {
                lemma_negatable(expr);
            },
            ConstraintV::Call { args, .. } => {
                assert forall|j: int| 0 <= j < args.len() implies (negatable(#[trigger] args[j])
                    <==> !has_constant(args[j], i64::MIN)) by {
                    lemma_negatable(args[j]);
                }
            },
        }
    }
}

/// Whether all constants of an expression are as large as a machine word counts.
pub open spec fn all_counted(e: IrExprV) -> bool {
    forall|n: i64| #[trigger] has_constant(e, n) ==> is_counted(n)
}

proof fn lemma_parts(e: IrExprV, a: IrExprV, b: IrExprV)
    requires
        forall|n: i64| #[trigger] has_constant(e, n) <==> has_constant(a, n) || has_constant(b, n),
    ensures
        all_counted(e) <==> all_counted(a) && all_counted(b),
{
    if all_counted(e) {
        assert forall|n: i64| #[trigger] has_constant(a, n) implies is_counted(n) by {
            assert(has_constant(e, n));
        }
        assert forall|n: i64| #[trigger] has_constant(b, n) implies is_counted(n) by {
            assert(has_constant(e, n));
        }
    }
}

proof fn lemma_word_sized(e: IrExprV)
    ensures
        word_sized(e) <==> all_counted(e),
    decreases e,
{
    match e {
        IrExprV::Const(n) => {
            assert(has_constant(e, n));
        },
        IrExprV::Var(_) => {},
        IrExprV::Add(a, b) => {
            lemma_word_sized(*a);
            lemma_word_sized(*b);
            lemma_parts(e, *a, *b);
        },
        IrExprV::Sub(a, b) => {
            lemma_word_sized(*a);
            lemma_word_sized(*b);
            lemma_parts(e, *a, *b);
        },
        IrExprV::Mul(a, b) => {
            lemma_word_sized(*a);
            lemma_word_sized(*b);
            lemma_parts(e, *a, *b);
        },
        IrExprV::Div(a, b) => {
            lemma_word_sized(*a);
            lemma_word_sized(*b);
            lemma_parts(e, *a, *b);
        },
    }
}

/// Whether two calls of one component that have a field in common have as many arguments.
pub open spec fn as_many_arguments(c: ConstraintV, d: ConstraintV, p: int, q: int) -> bool {
    c is Call && d is Call && c->component == d->component && 0 <= p < c->outputs.len() && 0 <= q
        < d->outputs.len() && c->outputs[p].0 == d->outputs[q].0 ==> c->args.len() == d->args.len()
}

/// Constraints can be said over the integers where their constants are as large as a machine word
/// counts, and where a field of a component is always a function of as many arguments.
pub proof fn lemma_said_over_the_integers(cs: Seq<ConstraintV>)
    ensures
        askable(cs) <==> {
            &&& forall|i: int, n: i64|
                0 <= i < cs.len() && #[trigger] constraint_has_constant(cs[i], n) ==> is_counted(n)
            &&& forall|i: int, j: int, p: int, q: int|
                0 <= i < cs.len() && 0 <= j < cs.len() ==> #[trigger] as_many_arguments(
                    cs[i],
                    cs[j],
                    p,
                    q,
                )
        },
{
    assert forall|i: int| 0 <= i < cs.len() implies (word_sized_constraint(#[trigger] cs[i])
        <==> forall|n: i64| #[trigger] constraint_has_constant(cs[i], n) ==> is_counted(n)) by {
        lemma_constraint_sized(cs[i]);
    }
    assert forall|i: int, j: int| 0 <= i < cs.len() && 0 <= j < cs.len() implies (calls_agree(
        #[trigger] cs[i],
        #[trigger] cs[j],
    ) <==> forall|p: int, q: int| #[trigger] as_many_arguments(cs[i], cs[j], p, q)) by {
        lemma_agree(cs[i], cs[j]);
    }
    if askable(cs) {
        assert forall|i: int, j: int, p: int, q: int|
            0 <= i < cs.len() && 0 <= j < cs.len() implies #[trigger] as_many_arguments(
            cs[i],
            cs[j],
            p,
            q,
        ) by {
            assert(calls_agree(cs[i], cs[j]));
        }
    }
}

proof fn lemma_agree(c: ConstraintV, d: ConstraintV)
    ensures
        calls_agree(c, d) <==> forall|p: int, q: int| #[trigger] as_many_arguments(c, d, p, q),
{
    if c is Call && d is Call {
        let o = c->outputs;
        let u = d->outputs;
        if calls_agree(c, d) {
            assert forall|p: int, q: int| #[trigger] as_many_arguments(c, d, p, q) by {
                if 0 <= p < o.len() && 0 <= q < u.len() && o[p].0 == u[q].0 {
                    assert(share(o, u));
                }
            }
        }
        if share(o, u) {
            let (p, q) = choose|p: int, q: int|
                0 <= p < o.len() && 0 <= q < u.len() && (#[trigger] o[p]).0 == (#[trigger] u[q]).0;
            if forall|p: int, q: int| #[trigger] as_many_arguments(c, d, p, q) {
                assert(as_many_arguments(c, d, p, q));
            }
        }
    }
}

proof fn lemma_constraint_sized(c: ConstraintV)
    ensures
        word_sized_constraint(c) <==> forall|n: i64| #[trigger]
            constraint_has_constant(c, n) ==> is_counted(n),
{
    match c {
        ConstraintV::Eq { lhs, rhs, .. } => {
            lemma_word_sized(lhs);
            lemma_word_sized(rhs);
            if forall|n: i64| #[trigger] constraint_has_constant(c, n) ==> is_counted(n) {
                assert forall|n: i64| #[trigger] has_constant(lhs, n) implies is_counted(n) by {
                    assert(constraint_has_constant(c, n));
                }
                assert forall|n: i64| #[trigger] has_constant(rhs, n) implies is_counted(n) by {
                    assert(constraint_has_constant(c, n));
                }
            }
        },
        ConstraintV::IsZero { expr, .. } => {
            lemma_word_sized(expr);
            if forall|n: i64| #[trigger] constraint_has_constant(c, n) ==> is_counted(n) {
                assert forall|n: i64| #[trigger] has_constant(expr, n) implies is_counted(n) by {
                    assert(constraint_has_constant(c, n));
                }
            }
        },
        ConstraintV::Call { args, .. } => {
            assert forall|i: int| 0 <= i < args.len() implies (word_sized(#[trigger] args[i])
                <==> all_counted(args[i])) by {
                lemma_word_sized(args[i]);
            }
            if word_sized_constraint(c) {
                assert forall|n: i64| #[trigger] constraint_has_constant(c, n) implies is_counted(
                    n,
                ) by {
                    let i = choose|i: int|
                        0 <= i < args.len() && has_constant(#[trigger] args[i], n);
                    assert(word_sized(args[i]));
                }
            }
            if forall|n: i64| #[trigger] constraint_has_constant(c, n) ==> is_counted(n) {
                assert forall|i: int| 0 <= i < args.len() implies word_sized(#[trigger] args[i]) by {
                    assert forall|n: i64| #[trigger] has_constant(args[i], n) implies is_counted(
                        n,
                    ) by {
                        assert(constraint_has_constant(c, n));
                    }
                }
            }
        },
    }
}

} // verus!
