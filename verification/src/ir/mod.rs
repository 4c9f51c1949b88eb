//! The intermediate representation: an instruction as variables and constraints.

use vstd::prelude::*;
use crate::parser::ast::{copy_pairs, pairs};

pub mod database;
pub mod lowering;
pub mod rules;
pub mod value;

pub use database::ComponentDB;
pub use value::Value;

verus! {

/// The range of a variable.
#[derive(Debug, Clone, Copy, PartialEq, Eq, Structural)]
pub enum VarType {
    U32,
    U16,
    U8,
    Bit,
    Twit,
    Val,
}

/// The largest value of a variable of a type; the smallest is 0.
pub open spec fn max_value(t: VarType) -> int {
    match t {
        VarType::U32 => 4294967295,
        VarType::U16 => 65535,
        VarType::U8 => 255,
        VarType::Bit => 1,
        VarType::Twit => 3,
        VarType::Val => 2013265920,
    }
}

impl VarType {
    /// The smallest and the largest value.
    pub fn range(&self) -> (r: (i64, i64))
        ensures
            r.0 == 0,
            r.1 == max_value(*self),
    {
        match self {
            VarType::U32 => (0, 4294967295),
            VarType::U16 => (0, 65535),
            VarType::U8 => (0, 255),
            VarType::Bit => (0, 1),
            VarType::Twit => (0, 3),
            VarType::Val => (0, 2013265920),
        }
    }
}

/// A variable.
#[derive(Debug)]
pub struct Var {
    pub name: String,
    pub vtype: VarType,
}

/// An arithmetic expression.
#[derive(Debug)]
pub enum IrExpr {
    Const(i64),
    Var(String),
    Add(Box<IrExpr>, Box<IrExpr>),
    Sub(Box<IrExpr>, Box<IrExpr>),
    Mul(Box<IrExpr>, Box<IrExpr>),
    Div(Box<IrExpr>, Box<IrExpr>),
}

/// A constraint.
#[derive(Debug)]
pub enum IrConstraint {
    /// `lhs = rhs`
    Eq { lhs: IrExpr, rhs: IrExpr, tag: String },
    /// `result` is 1 where `expr` is 0, and 0 elsewhere.
    IsZero { result: String, expr: IrExpr },
    /// A call of a component that was found deterministic by itself: each output, a
    /// field and a variable, is a function of the arguments of which nothing else
    /// is known.
    Call { component: String, args: Vec<IrExpr>, outputs: Vec<(String, String)> },
}

/// An instruction as variables and constraints.
#[derive(Debug)]
pub struct InstructionSpec {
    pub name: String,
    pub source_line: usize,
    pub inputs: Vec<Var>,
    pub outputs: Vec<Var>,
    pub internals: Vec<Var>,
    pub constraints: Vec<IrConstraint>,
}

// ---------------------------------------------------------------------------
// The representation as mathematical values
// ---------------------------------------------------------------------------

/// A variable as a mathematical value.
pub struct VarV {
    pub name: Seq<char>,
    pub vtype: VarType,
}

/// An arithmetic expression as a mathematical value.
pub enum IrExprV {
    Const(i64),
    Var(Seq<char>),
    Add(Box<IrExprV>, Box<IrExprV>),
    Sub(Box<IrExprV>, Box<IrExprV>),
    Mul(Box<IrExprV>, Box<IrExprV>),
    Div(Box<IrExprV>, Box<IrExprV>),
}

/// A constraint as a mathematical value.
pub enum ConstraintV {
    Eq { lhs: IrExprV, rhs: IrExprV, tag: Seq<char> },
    IsZero { result: Seq<char>, expr: IrExprV },
    Call { component: Seq<char>, args: Seq<IrExprV>, outputs: Seq<(Seq<char>, Seq<char>)> },
}

/// An instruction as a mathematical value.
pub struct SpecV {
    pub name: Seq<char>,
    pub source_line: nat,
    pub inputs: Seq<VarV>,
    pub outputs: Seq<VarV>,
    pub internals: Seq<VarV>,
    pub constraints: Seq<ConstraintV>,
}

impl Var {
    /// The mathematical value of the variable.
    pub open spec fn view(&self) -> VarV {
        VarV { name: self.name@, vtype: self.vtype }
    }
}

/// The mathematical values of a sequence of variables.
pub open spec fn vars(v: Seq<Var>) -> Seq<VarV> {
    v.map_values(|x: Var| x@)
}

impl IrExpr {
    /// The mathematical value of the expression.
    pub open spec fn view(&self) -> IrExprV
        decreases self,
    {
        match self {
            IrExpr::Const(n) => IrExprV::Const(*n),
            IrExpr::Var(s) => IrExprV::Var(s@),
            IrExpr::Add(a, b) => IrExprV::Add(Box::new(a.view()), Box::new(b.view())),
            IrExpr::Sub(a, b) => IrExprV::Sub(Box::new(a.view()), Box::new(b.view())),
            IrExpr::Mul(a, b) => IrExprV::Mul(Box::new(a.view()), Box::new(b.view())),
            IrExpr::Div(a, b) => IrExprV::Div(Box::new(a.view()), Box::new(b.view())),
        }
    }
}

/// The mathematical values of a sequence of expressions.
pub open spec fn ir_exprs(v: Seq<IrExpr>) -> Seq<IrExprV> {
    v.map_values(|e: IrExpr| e@)
}

impl IrConstraint {
    /// The mathematical value of the constraint.
    pub open spec fn view(&self) -> ConstraintV {
        match self {
            IrConstraint::Eq { lhs, rhs, tag } => ConstraintV::Eq {
                lhs: lhs@,
                rhs: rhs@,
                tag: tag@,
            },
            IrConstraint::IsZero { result, expr } => ConstraintV::IsZero {
                result: result@,
                expr: expr@,
            },
            IrConstraint::Call { component, args, outputs } => ConstraintV::Call {
                component: component@,
                args: ir_exprs(args@),
                outputs: pairs(outputs@),
            },
        }
    }
}

/// The mathematical values of a sequence of constraints.
pub open spec fn constraints(v: Seq<IrConstraint>) -> Seq<ConstraintV> {
    v.map_values(|c: IrConstraint| c@)
}

impl InstructionSpec {
    /// The mathematical value of the instruction.
    pub open spec fn view(&self) -> SpecV {
        SpecV {
            name: self.name@,
            source_line: self.source_line as nat,
            inputs: vars(self.inputs@),
            outputs: vars(self.outputs@),
            internals: vars(self.internals@),
            constraints: constraints(self.constraints@),
        }
    }
}

impl SpecV {
    /// All variables: inputs, outputs, internals.
    pub open spec fn all_vars(self) -> Seq<VarV> {
        self.inputs + self.outputs + self.internals
    }
}

// ---------------------------------------------------------------------------
// Copies
// ---------------------------------------------------------------------------

impl Clone for Var {
    fn clone(&self) -> (r: Self)
        ensures
            r@ == self@,
    {
        Var { name: self.name.clone(), vtype: self.vtype }
    }
}

impl Clone for IrExpr {
    fn clone(&self) -> (r: Self)
        ensures
            r@ == self@,
        decreases self,
    {
        match self {
            IrExpr::Const(n) => IrExpr::Const(*n),
            IrExpr::Var(s) => IrExpr::Var(s.clone()),
            IrExpr::Add(a, b) => IrExpr::Add(
                Box::new((&**a).clone()),
                Box::new((&**b).clone()),
            ),
            IrExpr::Sub(a, b) => IrExpr::Sub(
                Box::new((&**a).clone()),
                Box::new((&**b).clone()),
            ),
            IrExpr::Mul(a, b) => IrExpr::Mul(
                Box::new((&**a).clone()),
                Box::new((&**b).clone()),
            ),
            IrExpr::Div(a, b) => IrExpr::Div(
                Box::new((&**a).clone()),
                Box::new((&**b).clone()),
            ),
        }
    }
}

pub(crate) fn copy_ir_exprs(v: &Vec<IrExpr>) -> (r: Vec<IrExpr>)
    ensures
        ir_exprs(r@) == ir_exprs(v@),
{
    let mut out: Vec<IrExpr> = Vec::new();
    let mut i: usize = 0;
    while i < v.len()
        invariant
            i <= v.len(),
            out.len() == i,
            forall|j: int| 0 <= j < i ==> out[j]@ == v[j]@,
        decreases v.len() - i,
    {
        out.push(v[i].clone());
        i += 1;
    }
    assert(ir_exprs(out@) =~= ir_exprs(v@));
    out
}

impl Clone for IrConstraint {
    fn clone(&self) -> (r: Self)
        ensures
            r@ == self@,
    {
        match self {
            IrConstraint::Eq { lhs, rhs, tag } => IrConstraint::Eq {
                lhs: lhs.clone(),
                rhs: rhs.clone(),
                tag: tag.clone(),
            },
            IrConstraint::IsZero { result, expr } => IrConstraint::IsZero {
                result: result.clone(),
                expr: expr.clone(),
            },
            IrConstraint::Call { component, args, outputs } => IrConstraint::Call {
                component: component.clone(),
                args: copy_ir_exprs(args),
                outputs: copy_pairs(outputs),
            },
        }
    }
}

} // verus!
