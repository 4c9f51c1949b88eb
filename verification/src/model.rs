//! Two copies of an instruction side by side.
//!
//! An instruction is deterministic where two runs with the same inputs have the same
//! outputs. To ask a solver for a counterexample, each variable stands there twice,
//! once for each run.

use vstd::prelude::*;
use crate::ir::{InstructionSpec, IrExprV, Var, VarV};
use crate::text::{cat2, cat3, replace_dots, undotted};

verus! {

/// One of two runs of an instruction.
#[derive(Debug, Clone, Copy, PartialEq, Eq, Structural)]
pub enum Side {
    First,
    Second,
}

/// What the name of a variable ends in.
pub open spec fn suffix(c: Side) -> Seq<char> {
    match c {
        Side::First => "_1"@,
        Side::Second => "_2"@,
    }
}

/// The name of a variable in one of the runs.
pub open spec fn instance(name: Seq<char>, c: Side) -> Seq<char> {
    undotted(name) + suffix(c)
}

/// Whether a variable is one of `vs`.
pub open spec fn declared(vs: Seq<VarV>, name: Seq<char>) -> bool {
    exists|i: int| 0 <= i < vs.len() && (#[trigger] vs[i]).name == name
}

/// The names in an expression, from the left, that are not among `vs`.
pub open spec fn unknowns(e: IrExprV, vs: Seq<VarV>) -> Seq<Seq<char>>
    decreases e,
{
    match e {
        IrExprV::Const(_) => Seq::empty(),
        IrExprV::Var(x) => if declared(vs, x) {
            Seq::empty()
        } else {
            seq![x]
        },
        IrExprV::Add(a, b) => unknowns(*a, vs) + unknowns(*b, vs),
        IrExprV::Sub(a, b) => unknowns(*a, vs) + unknowns(*b, vs),
        IrExprV::Mul(a, b) => unknowns(*a, vs) + unknowns(*b, vs),
        IrExprV::Div(a, b) => unknowns(*a, vs) + unknowns(*b, vs),
    }
}

/// The warning that a variable is not known.
pub open spec fn unknown_text(name: Seq<char>) -> Seq<char> {
    "  [warn] Variable '"@ + name + "' not found"@
}

/// The warning that a variable is not known.
pub fn unknown_warning(name: &str) -> (r: String)
    ensures
        r@ == unknown_text(name@),
{
    cat3("  [warn] Variable '", name, "' not found")
}

/// What the name of a variable ends in.
pub fn suffix_of(c: Side) -> (r: String)
    ensures
        r@ == suffix(c),
{
    match c {
        Side::First => "_1".to_owned(),
        Side::Second => "_2".to_owned(),
    }
}

/// The name of a variable in one of the runs.
pub fn instance_of(name: &str, c: Side) -> (r: String)
    ensures
        r@ == instance(name@, c),
{
    cat2(&replace_dots(name), &suffix_of(c))
}

/// All variables: inputs, outputs, internals.
pub fn all_variables(spec: &InstructionSpec) -> (r: Vec<&Var>)
    ensures
        r@.len() == spec@.all_vars().len(),
        forall|i: int| 0 <= i < r@.len() ==> (#[trigger] r@[i])@ == spec@.all_vars()[i],
{
    let mut out: Vec<&Var> = Vec::new();
    let mut i: usize = 0;
    while i < spec.inputs.len()
        invariant
            i <= spec.inputs.len(),
            out.len() == i,
            forall|j: int| 0 <= j < i ==> (#[trigger] out@[j])@ == spec@.all_vars()[j],
        decreases spec.inputs.len() - i,
    {
        out.push(&spec.inputs[i]);
        i += 1;
    }
    let ghost a = spec.inputs@.len();
    let mut i: usize = 0;
    while i < spec.outputs.len()
        invariant
            i <= spec.outputs.len(),
            a == spec.inputs@.len(),
            out.len() == a + i,
            forall|j: int| 0 <= j < a + i ==> (#[trigger] out@[j])@ == spec@.all_vars()[j],
        decreases spec.outputs.len() - i,
    {
        out.push(&spec.outputs[i]);
        i += 1;
    }
    let ghost b = spec.inputs@.len() + spec.outputs@.len();
    let mut i: usize = 0;
    while i < spec.internals.len()
        invariant
            i <= spec.internals.len(),
            b == spec.inputs@.len() + spec.outputs@.len(),
            out.len() == b + i,
            forall|j: int| 0 <= j < b + i ==> (#[trigger] out@[j])@ == spec@.all_vars()[j],
        decreases spec.internals.len() - i,
    {
        out.push(&spec.internals[i]);
        i += 1;
    }
    out
}

} // verus!
