//! The syntax of components.

use vstd::prelude::*;
use crate::text::{cat2, cat3, cat4, cat5, cat6, cat7, decimal, digits, join, joined, texts};

verus! {

/// A top-level item of a source file.
#[derive(Debug)]
pub enum Item {
    Import(String),
    Component(ComponentDef),
    /// `extern NAME(params...) : RETTYPE;`, a function that the prover supplies.
    /// Its arguments constrain nothing, so only its name and the type of its
    /// result are kept.
    Extern { name: String, return_type: String },
}

/// A component: parameters, each a name and a type, and a body.
#[derive(Debug)]
pub struct ComponentDef {
    pub name: String,
    pub type_params: Vec<(String, String)>,
    pub params: Vec<(String, String)>,
    pub body: Vec<Stmt>,
    pub source_line: usize,
}

/// A statement of a body.
#[derive(Debug)]
pub enum Stmt {
    Binding { is_public: bool, name: String, value: Expr },
    Constraint { lhs: Expr, rhs: Expr },
    ExprStmt(Expr),
    /// `[g1, g2, ...] -> ({block1}, {block2}, ...);`: every equation `l = r` that block `i`
    /// gives rise to is `g_i * l = g_i * r`.
    Mux { guards: Vec<Expr>, branches: Vec<Vec<Stmt>> },
}

/// An expression.
#[derive(Debug)]
pub enum Expr {
    IntLit(u64),
    Ident(String),
    Field { object: Box<Expr>, field: String },
    BinOp { op: Op, lhs: Box<Expr>, rhs: Box<Expr> },
    Call { name: String, type_args: Vec<u64>, args: Vec<Expr> },
    Index { object: Box<Expr>, index: Box<Expr> },
    For { var: String, start: u64, end: u64, body: Box<Expr> },
}

/// A binary operator.
#[derive(Debug, Clone, Copy, PartialEq)]
pub enum Op {
    Add,
    Sub,
    Mul,
    Div,
    BitAnd,
}

// ---------------------------------------------------------------------------
// The syntax as mathematical values
// ---------------------------------------------------------------------------

/// An item as a mathematical value.
pub enum ItemV {
    Import(Seq<char>),
    Component(ComponentV),
    Extern { name: Seq<char>, return_type: Seq<char> },
}

/// A component as a mathematical value.
pub struct ComponentV {
    pub name: Seq<char>,
    pub type_params: Seq<(Seq<char>, Seq<char>)>,
    pub params: Seq<(Seq<char>, Seq<char>)>,
    pub body: Seq<StmtV>,
    pub source_line: nat,
}

/// A statement as a mathematical value.
pub enum StmtV {
    Binding { is_public: bool, name: Seq<char>, value: ExprV },
    Constraint { lhs: ExprV, rhs: ExprV },
    ExprStmt(ExprV),
    Mux { guards: Seq<ExprV>, branches: Seq<Seq<StmtV>> },
}

/// An expression as a mathematical value.
pub enum ExprV {
    IntLit(u64),
    Ident(Seq<char>),
    Field { object: Box<ExprV>, field: Seq<char> },
    BinOp { op: Op, lhs: Box<ExprV>, rhs: Box<ExprV> },
    Call { name: Seq<char>, type_args: Seq<u64>, args: Seq<ExprV> },
    Index { object: Box<ExprV>, index: Box<ExprV> },
    For { var: Seq<char>, start: u64, end: u64, body: Box<ExprV> },
}

/// The contents of a sequence of pairs of strings.
pub open spec fn pairs(v: Seq<(String, String)>) -> Seq<(Seq<char>, Seq<char>)> {
    v.map_values(|p: (String, String)| (p.0@, p.1@))
}

impl Expr {
    /// The mathematical value of the expression.
    pub open spec fn view(&self) -> ExprV
        decreases self,
    {
        match self {
            Expr::IntLit(n) => ExprV::IntLit(*n),
            Expr::Ident(s) => ExprV::Ident(s@),
            Expr::Field { object, field } => ExprV::Field {
                object: Box::new(object.view()),
                field: field@,
            },
            Expr::BinOp { op, lhs, rhs } => ExprV::BinOp {
                op: *op,
                lhs: Box::new(lhs.view()),
                rhs: Box::new(rhs.view()),
            },
            Expr::Call { name, type_args, args } => ExprV::Call {
                name: name@,
                type_args: type_args@,
                args: Seq::new(
                    args@.len(),
                    |i: int|
                        if 0 <= i < args@.len() {
                            args@[i].view()
                        } else {
                            arbitrary()
                        },
                ),
            },
            Expr::Index { object, index } => ExprV::Index {
                object: Box::new(object.view()),
                index: Box::new(index.view()),
            },
            Expr::For { var, start, end, body } => ExprV::For {
                var: var@,
                start: *start,
                end: *end,
                body: Box::new(body.view()),
            },
        }
    }
}

/// The mathematical values of a sequence of expressions.
pub open spec fn exprs(v: Seq<Expr>) -> Seq<ExprV> {
    Seq::new(v.len(), |i: int| v[i]@)
}

impl Stmt {
    /// The mathematical value of the statement.
    pub open spec fn view(&self) -> StmtV
        decreases self,
    {
        match self {
            Stmt::Binding { is_public, name, value } => StmtV::Binding {
                is_public: *is_public,
                name: name@,
                value: value@,
            },
            Stmt::Constraint { lhs, rhs } => StmtV::Constraint { lhs: lhs@, rhs: rhs@ },
            Stmt::ExprStmt(e) => StmtV::ExprStmt(e@),
            Stmt::Mux { guards, branches } => StmtV::Mux {
                guards: exprs(guards@),
                branches: Seq::new(
                    branches@.len(),
                    |i: int|
                        if 0 <= i < branches@.len() {
                            Seq::new(
                                branches@[i]@.len(),
                                |j: int|
                                    if 0 <= j < branches@[i]@.len() {
                                        branches@[i]@[j].view()
                                    } else {
                                        arbitrary()
                                    },
                            )
                        } else {
                            arbitrary()
                        },
                ),
            },
        }
    }
}

/// The mathematical values of a sequence of statements.
pub open spec fn stmts(v: Seq<Stmt>) -> Seq<StmtV> {
    Seq::new(v.len(), |i: int| v[i]@)
}

/// The mathematical values of a sequence of blocks.
pub open spec fn blocks(v: Seq<Vec<Stmt>>) -> Seq<Seq<StmtV>> {
    Seq::new(v.len(), |i: int| stmts(v[i]@))
}

impl ComponentDef {
    /// The mathematical value of the component.
    pub open spec fn view(&self) -> ComponentV {
        ComponentV {
            name: self.name@,
            type_params: pairs(self.type_params@),
            params: pairs(self.params@),
            body: stmts(self.body@),
            source_line: self.source_line as nat,
        }
    }
}

impl Item {
    /// The mathematical value of the item.
    pub open spec fn view(&self) -> ItemV {
        match self {
            Item::Import(name) => ItemV::Import(name@),
            Item::Component(c) => ItemV::Component(c@),
            Item::Extern { name, return_type } => ItemV::Extern {
                name: name@,
                return_type: return_type@,
            },
        }
    }
}

/// The mathematical values of a sequence of items.
pub open spec fn items(v: Seq<Item>) -> Seq<ItemV> {
    v.map_values(|i: Item| i@)
}

/// The value of a call expression, by the values of its arguments.
pub proof fn lemma_call_view(name: String, type_args: Vec<u64>, args: Vec<Expr>)
    ensures
        (Expr::Call { name, type_args, args })@ == (ExprV::Call {
            name: name@,
            type_args: type_args@,
            args: exprs(args@),
        }),
{
    assert((Expr::Call { name, type_args, args })@->args =~= exprs(args@));
}

/// The value of a mux, by the values of its blocks.
pub proof fn lemma_mux_view(guards: Vec<Expr>, branches: Vec<Vec<Stmt>>)
    ensures
        (Stmt::Mux { guards, branches })@ == (StmtV::Mux {
            guards: exprs(guards@),
            branches: blocks(branches@),
        }),
{
    let v = (Stmt::Mux { guards, branches })@->branches;
    assert forall|i: int| 0 <= i < branches@.len() implies v[i] == stmts(branches@[i]@) by {
        assert(v[i] =~= stmts(branches@[i]@));
    }
    assert(v =~= blocks(branches@));
}

// ---------------------------------------------------------------------------
// Copies
// ---------------------------------------------------------------------------

impl Clone for Expr {
    fn clone(&self) -> (r: Self)
        ensures
            r@ == self@,
        decreases self,
    {
        match self {
            Expr::IntLit(n) => Expr::IntLit(*n),
            Expr::Ident(s) => Expr::Ident(s.clone()),
            Expr::Field { object, field } => Expr::Field {
                object: Box::new((&**object).clone()),
                field: field.clone(),
            },
            Expr::BinOp { op, lhs, rhs } => Expr::BinOp {
                op: *op,
                lhs: Box::new((&**lhs).clone()),
                rhs: Box::new((&**rhs).clone()),
            },
            Expr::Call { name, type_args, args } => {
                let mut out: Vec<Expr> = Vec::new();
                let mut i: usize = 0;
                while i < args.len()
                    invariant
                        i <= args.len(),
                        out.len() == i,
                        forall|j: int| 0 <= j < i ==> out[j]@ == args[j]@,
                        decreases_to!(self => args),
                    decreases args.len() - i,
                {
                    out.push(args[i].clone());
                    i += 1;
                }
                let targs = copy_numbers(type_args);
                let n = name.clone();
                proof {
                    lemma_call_view(n, targs, out);
                    lemma_call_view(*name, *type_args, *args);
                    assert(exprs(out@) =~= exprs(args@));
                }
                Expr::Call { name: n, type_args: targs, args: out }
            },
            Expr::Index { object, index } => Expr::Index {
                object: Box::new((&**object).clone()),
                index: Box::new((&**index).clone()),
            },
            Expr::For { var, start, end, body } => Expr::For {
                var: var.clone(),
                start: *start,
                end: *end,
                body: Box::new((&**body).clone()),
            },
        }
    }
}

fn copy_numbers(v: &Vec<u64>) -> (r: Vec<u64>)
    ensures
        r@ == v@,
{
    let mut out: Vec<u64> = Vec::new();
    let mut i: usize = 0;
    while i < v.len()
        invariant
            i <= v.len(),
            out@ =~= v@.take(i as int),
        decreases v.len() - i,
    {
        out.push(v[i]);
        i += 1;
    }
    out
}

fn copy_exprs(v: &Vec<Expr>) -> (r: Vec<Expr>)
    ensures
        exprs(r@) == exprs(v@),
{
    let mut out: Vec<Expr> = Vec::new();
    let mut i: usize = 0;
    while i < v.len()
        invariant
            i <= v.len(),
            out.len() == i,
            forall|j: int| 0 <= j < i ==> out[j]@ == v[j]@,
        decreases v.len() - i,
    {
        out.push(v[i].clone());
        i += 1;
    }
    assert(exprs(out@) =~= exprs(v@));
    out
}

pub(crate) fn copy_pairs(v: &Vec<(String, String)>) -> (r: Vec<(String, String)>)
    ensures
        pairs(r@) == pairs(v@),
{
    let mut out: Vec<(String, String)> = Vec::new();
    let mut i: usize = 0;
    while i < v.len()
        invariant
            i <= v.len(),
            out.len() == i,
            forall|j: int| 0 <= j < i ==> out[j] == v[j],
        decreases v.len() - i,
    {
        out.push((v[i].0.clone(), v[i].1.clone()));
        i += 1;
    }
    assert(pairs(out@) =~= pairs(v@));
    out
}

impl Clone for Stmt {
    fn clone(&self) -> (r: Self)
        ensures
            r@ == self@,
        decreases self,
    {
        match self {
            Stmt::Binding { is_public, name, value } => Stmt::Binding {
                is_public: *is_public,
                name: name.clone(),
                value: value.clone(),
            },
            Stmt::Constraint { lhs, rhs } => Stmt::Constraint {
                lhs: lhs.clone(),
                rhs: rhs.clone(),
            },
            Stmt::ExprStmt(e) => Stmt::ExprStmt(e.clone()),
            Stmt::Mux { guards, branches } => {
                let mut out: Vec<Vec<Stmt>> = Vec::new();
                let mut i: usize = 0;
                while i < branches.len()
                    invariant
                        i <= branches.len(),
                        out.len() == i,
                        forall|j: int| 0 <= j < i ==> stmts(out[j]@) == stmts(branches[j]@),
                        decreases_to!(self => branches),
                    decreases branches.len() - i,
                {
                    let block = &branches[i];
                    assert(decreases_to!(branches@ => branches@[i as int]));
                    let mut copy: Vec<Stmt> = Vec::new();
                    let mut k: usize = 0;
                    while k < block.len()
                        invariant
                            k <= block.len(),
                            copy.len() == k,
                            forall|j: int| 0 <= j < k ==> copy[j]@ == block[j]@,
                            decreases_to!(self => block),
                        decreases block.len() - k,
                    {
                        copy.push(block[k].clone());
                        k += 1;
                    }
                    assert(stmts(copy@) =~= stmts(block@));
                    out.push(copy);
                    i += 1;
                }
                let g = copy_exprs(guards);
                proof {
                    lemma_mux_view(g, out);
                    lemma_mux_view(*guards, *branches);
                    assert(blocks(out@) =~= blocks(branches@));
                }
                Stmt::Mux { guards: g, branches: out }
            },
        }
    }
}

impl Clone for ComponentDef {
    fn clone(&self) -> (r: Self)
        ensures
            r@ == self@,
    {
        let mut body: Vec<Stmt> = Vec::new();
        let mut i: usize = 0;
        while i < self.body.len()
            invariant
                i <= self.body.len(),
                body.len() == i,
                forall|j: int| 0 <= j < i ==> body[j]@ == self.body[j]@,
            decreases self.body.len() - i,
        {
            body.push(self.body[i].clone());
            i += 1;
        }
        assert(stmts(body@) =~= stmts(self.body@));
        ComponentDef {
            name: self.name.clone(),
            type_params: copy_pairs(&self.type_params),
            params: copy_pairs(&self.params),
            body,
            source_line: self.source_line,
        }
    }
}

impl Clone for Item {
    fn clone(&self) -> (r: Self)
        ensures
            r@ == self@,
    {
        match self {
            Item::Import(name) => Item::Import(name.clone()),
            Item::Component(c) => Item::Component(c.clone()),
            Item::Extern { name, return_type } => Item::Extern {
                name: name.clone(),
                return_type: return_type.clone(),
            },
        }
    }
}

// ---------------------------------------------------------------------------
// Printing
// ---------------------------------------------------------------------------

/// The sign of an operator.
pub open spec fn op_text(op: Op) -> Seq<char> {
    match op {
        Op::Add => "+"@,
        Op::Sub => "-"@,
        Op::Mul => "*"@,
        Op::Div => "/"@,
        Op::BitAnd => "&"@,
    }
}

/// How an expression is written: each binary operation stands in parentheses.
pub open spec fn expr_text(e: ExprV) -> Seq<char>
    decreases e,
{
    match e {
        ExprV::IntLit(n) => digits(n as nat),
        ExprV::Ident(s) => s,
        ExprV::Field { object, field } => expr_text(*object) + "."@ + field,
        ExprV::BinOp { op, lhs, rhs } => "("@ + expr_text(*lhs) + " "@ + op_text(op) + " "@
            + expr_text(*rhs) + ")"@,
        ExprV::Call { name, type_args, args } => name + type_args_text(type_args) + "("@ + joined(
            expr_texts(args),
            ", "@,
        ) + ")"@,
        ExprV::Index { object, index } => expr_text(*object) + "["@ + expr_text(*index) + "]"@,
        ExprV::For { var, start, end, body } => "for "@ + var + ":"@ + digits(start as nat) + ".."@
            + digits(end as nat) + ("{"@ + expr_text(*body) + "}"@),
    }
}

/// How each of a sequence of expressions is written.
pub open spec fn expr_texts(es: Seq<ExprV>) -> Seq<Seq<char>>
    decreases es,
{
    Seq::new(
        es.len(),
        |i: int|
            if 0 <= i < es.len() {
                expr_text(es[i])
            } else {
                arbitrary()
            },
    )
}

/// How type arguments are written: in angle brackets, or not at all where there
/// are none.
pub open spec fn type_args_text(ts: Seq<u64>) -> Seq<char> {
    if ts.len() == 0 {
        Seq::empty()
    } else {
        "<"@ + joined(ts.map_values(|n: u64| digits(n as nat)), ","@) + ">"@
    }
}

impl Op {
    /// The sign of the operator.
    pub fn display(&self) -> (r: String)
        ensures
            r@ == op_text(*self),
    {
        match self {
            Op::Add => "+".to_owned(),
            Op::Sub => "-".to_owned(),
            Op::Mul => "*".to_owned(),
            Op::Div => "/".to_owned(),
            Op::BitAnd => "&".to_owned(),
        }
    }
}

fn display_type_args(ts: &Vec<u64>) -> (r: String)
    ensures
        r@ == type_args_text(ts@),
{
    if ts.len() == 0 {
        return String::new();
    }
    let mut parts: Vec<String> = Vec::new();
    let mut i: usize = 0;
    while i < ts.len()
        invariant
            i <= ts.len(),
            parts.len() == i,
            forall|j: int| 0 <= j < i ==> (#[trigger] parts[j])@ == digits(ts[j] as nat),
        decreases ts.len() - i,
    {
        parts.push(decimal(ts[i]));
        i += 1;
    }
    assert(texts(parts@) =~= ts@.map_values(|n: u64| digits(n as nat)));
    cat3("<", &join(&parts, ","), ">")
}

impl Expr {
    /// The expression as it is written.
    pub fn display(&self) -> (r: String)
        ensures
            r@ == expr_text(self@),
        decreases self,
    {
        match self {
            Expr::IntLit(n) => decimal(*n),
            Expr::Ident(s) => s.clone(),
            Expr::Field { object, field } => cat3(&object.display(), ".", field),
            Expr::BinOp { op, lhs, rhs } => cat7(
                "(",
                &lhs.display(),
                " ",
                &op.display(),
                " ",
                &rhs.display(),
                ")",
            ),
            Expr::Call { name, type_args, args } => {
                let mut parts: Vec<String> = Vec::new();
                let mut i: usize = 0;
                while i < args.len()
                    invariant
                        i <= args.len(),
                        parts.len() == i,
                        forall|j: int| 0 <= j < i ==> (#[trigger] parts[j])@ == expr_text(args[j]@),
                        decreases_to!(self => args),
                    decreases args.len() - i,
                {
                    parts.push(args[i].display());
                    i += 1;
                }
                assert(texts(parts@) =~= expr_texts(self@->args));
                cat5(name, &display_type_args(type_args), "(", &join(&parts, ", "), ")")
            },
            Expr::Index { object, index } => {
                let o = object.display();
                let i = index.display();
                cat4(&o, "[", &i, "]")
            },
            Expr::For { var, start, end, body } => {
                let head = cat6("for ", var, ":", &decimal(*start), "..", &decimal(*end));
                let tail = cat3("{", &body.display(), "}");
                cat2(&head, &tail)
            },
        }
    }
}

} // verus!
