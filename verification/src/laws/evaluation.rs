//! What expressions, statements and registers are lowered to.

use vstd::prelude::*;
use crate::ir::{max_value, ConstraintV, IrExprV, VarType, VarV};
use crate::ir::rules::{
    arg_values, bind, body, bound_value, call, declare, element, elements, equate, equation, expr,
    guessed_type, next_name, room, start, stmt, tick, var, Env, Run, State,
};
use crate::ir::value::{field_of, get, halves, ValueV};
use crate::laws::arithmetic::{in_force, lemma_equation};
use crate::laws::bindings::{is_absent, lemma_get, lemma_put};
use crate::laws::determinism::{holds, value, Numbers};
use crate::parser::ast::{ExprV, Op, StmtV};
use crate::verifier_ff::BABYBEAR_P;

verus! {

// ---------------------------------------------------------------------------
// Expressions
// ---------------------------------------------------------------------------

/// A name stands for what is bound to it, and else for the variable of that name; a literal stands
/// for its number.
pub proof fn lemma_names_and_literals(
    env: Env,
    st: State,
    name: Seq<char>,
    n: u64,
    prefix: Seq<char>,
    depth: nat,
)
    ensures
        expr(env, st, ExprV::Ident(name), prefix, depth) == Run::Done(
            st,
            match get(st.bindings, name) {
                Some(v) => v,
                None => ValueV::Expr(IrExprV::Var(name)),
            },
        ),
        n <= i64::MAX ==> expr(env, st, ExprV::IntLit(n), prefix, depth) == Run::Done(
            st,
            ValueV::Expr(IrExprV::Const(n as i64)),
        ),
        expr(env, st, ExprV::IntLit(n), prefix, depth) is Done,
{
    reveal(expr);
}

/// The value of a sum, a difference and a product is the sum, the difference and the product of the
/// values, in every assignment, and nothing is added for it; a bitwise conjunction that is written
/// as an operation counts as 0.
pub proof fn lemma_operations(
    env: Env,
    st: State,
    op: Op,
    lhs: ExprV,
    rhs: ExprV,
    prefix: Seq<char>,
    depth: nat,
    vs: Seq<VarV>,
    a: spec_fn(Seq<char>) -> int,
)
    requires
        op != Op::Div,
        expr(env, st, lhs, prefix, depth) matches Run::Done(s, ValueV::Expr(_)) && (expr(
            env,
            s,
            rhs,
            prefix,
            depth,
        ) matches Run::Done(_, ValueV::Expr(_))),
    ensures
        ({
            let k = Numbers::Integers;
            let left = expr(env, st, lhs, prefix, depth);
            let right = expr(env, left->Done_0, rhs, prefix, depth);
            let x = value(k, vs, a, left->Done_1->Expr_0);
            let y = value(k, vs, a, right->Done_1->Expr_0);
            let e = ExprV::BinOp { op, lhs: Box::new(lhs), rhs: Box::new(rhs) };
            &&& expr(env, st, e, prefix, depth) matches Run::Done(s, ValueV::Expr(z))
            &&& s == right->Done_0
            &&& value(k, vs, a, z) == (match op {
                Op::Add => x + y,
                Op::Sub => x - y,
                Op::Mul => x * y,
                Op::Div => 0,
                Op::BitAnd => 0,
            })
        }),
{
    reveal(expr);
    reveal_with_fuel(value, 2);
}

/// The arguments of a call are evaluated one behind the other, and each value stands where its
/// argument stands: `states` are the states between them.
pub proof fn lemma_arguments_in_order(
    env: Env,
    st: State,
    args: Seq<ExprV>,
    prefix: Seq<char>,
    depth: nat,
) -> (states: Seq<State>)
    ensures
        arg_values(env, st, args, 0, Seq::empty(), prefix, depth) matches Run::Done(s, vs) ==> {
            &&& vs.len() == args.len()
            &&& states.len() == args.len() + 1
            &&& states[0] == st
            &&& states.last() == s
            &&& forall|i: int|
                0 <= i < args.len() ==> expr(env, states[i], #[trigger] args[i], prefix, depth)
                    == Run::Done(states[i + 1], vs[i])
        },
{
    lemma_arguments_from(env, st, args, 0, Seq::empty(), prefix, depth)
}

proof fn lemma_arguments_from(
    env: Env,
    st: State,
    args: Seq<ExprV>,
    i: int,
    acc: Seq<ValueV>,
    prefix: Seq<char>,
    depth: nat,
) -> (states: Seq<State>)
    requires
        0 <= i <= args.len(),
        acc.len() == i,
    ensures
        arg_values(env, st, args, i, acc, prefix, depth) matches Run::Done(s, vs) ==> {
            &&& vs.len() == args.len()
            &&& vs.take(i) == acc
            &&& states.len() == args.len() - i + 1
            &&& states[0] == st
            &&& states.last() == s
            &&& forall|j: int|
                i <= j < args.len() ==> expr(env, states[j - i], #[trigger] args[j], prefix, depth)
                    == Run::Done(states[j - i + 1], vs[j])
        },
    decreases args.len() - i,
{
    reveal(arg_values);
    reveal(expr);
    if i < args.len() {
        match expr(env, st, args[i], prefix, depth) {
            Run::Done(s, v) => {
                let rest = lemma_arguments_from(env, s, args, i + 1, acc.push(v), prefix, depth);
                let states = seq![st] + rest;
                match arg_values(env, st, args, i, acc, prefix, depth) {
                    Run::Done(t, vs) => {
                        assert(vs.take(i) =~= vs.take(i + 1).take(i));
                        assert(acc.push(v).take(i) =~= acc);
                        assert(vs[i] == vs.take(i + 1)[i]);
                        assert forall|j: int| i <= j < args.len() implies expr(
                            env,
                            states[j - i],
                            #[trigger] args[j],
                            prefix,
                            depth,
                        ) == Run::Done(states[j - i + 1], vs[j]) by {
                            if j > i {
                                assert(states[j - i] == rest[j - i - 1]);
                                assert(states[j - i + 1] == rest[j - i]);
                                assert(expr(env, rest[j - (i + 1)], args[j], prefix, depth)
                                    == Run::Done(rest[j - (i + 1) + 1], vs[j]));
                            }
                        }
                    },
                    _ => {},
                }
                states
            },
            _ => seq![st],
        }
    } else {
        assert(acc.take(i) =~= acc);
        seq![st]
    }
}

/// A call is that of its name with the values of its arguments.
pub proof fn lemma_call_expression(
    env: Env,
    st: State,
    name: Seq<char>,
    type_args: Seq<u64>,
    args: Seq<ExprV>,
    prefix: Seq<char>,
    depth: nat,
)
    requires
        depth > 0,
        arg_values(env, st, args, 0, Seq::empty(), prefix, depth) is Done,
    ensures
        ({
            let r = arg_values(env, st, args, 0, Seq::empty(), prefix, depth);
            expr(env, st, ExprV::Call { name, type_args, args }, prefix, depth) == call(
                env,
                r->Done_0,
                name,
                r->Done_1,
                type_args,
                prefix,
                (depth - 1) as nat,
            )
        }),
{
    reveal(expr);
    reveal(arg_values);
    reveal(call);
}

/// Whether a state is another one in which one name stands for a number.
pub open spec fn counts(st: State, s: State, name: Seq<char>, n: int) -> bool {
    &&& s.counter == st.counter
    &&& s.guard == st.guard
    &&& s.spec == st.spec
    &&& get(s.bindings, name) matches Some(ValueV::Expr(IrExprV::Const(m))) && (n <= i64::MAX ==> m
        == n)
    &&& forall|k: Seq<char>| k != name ==> #[trigger] get(s.bindings, k) == get(st.bindings, k)
}

/// A `for` gives as many elements as there are numbers in its range, and element number `i` is the
/// value of its body with the `i`-th number for its name: `before` are the states before each round,
/// and `inside` those in which the body is evaluated.
pub proof fn lemma_for(
    env: Env,
    st: State,
    name: Seq<char>,
    from: u64,
    to: u64,
    e: ExprV,
    prefix: Seq<char>,
    depth: nat,
) -> (r: (Seq<State>, Seq<State>))
    requires
        from <= to,
    ensures
        expr(
            env,
            st,
            ExprV::For { var: name, start: from, end: to, body: Box::new(e) },
            prefix,
            depth,
        ) matches Run::Done(s, v) ==> {
            &&& v is BitArray
            &&& v->BitArray_0.len() == to - from
            &&& r.0.len() == to - from + 1
            &&& r.1.len() == to - from
            &&& r.0[0] == st
            &&& r.0.last() == s
            &&& forall|i: int|
                0 <= i < to - from ==> counts(r.0[i], #[trigger] r.1[i], name, from + i) && expr(
                    env,
                    r.1[i],
                    e,
                    prefix,
                    depth,
                ) == Run::Done(r.0[i + 1], ValueV::Expr(v->BitArray_0[i]))
        },
{
    reveal(expr);
    reveal(elements);
    lemma_elements(env, st, name, from as int, from as int, to as int, e, Seq::empty(), prefix, depth)
}

proof fn lemma_elements(
    env: Env,
    st: State,
    name: Seq<char>,
    from: int,
    i: int,
    to: int,
    e: ExprV,
    acc: Seq<IrExprV>,
    prefix: Seq<char>,
    depth: nat,
) -> (r: (Seq<State>, Seq<State>))
    requires
        0 <= from <= i <= to <= u64::MAX,
        acc.len() == i - from,
    ensures
        elements(env, st, name, i, to, e, acc, prefix, depth) matches Run::Done(s, v) ==> {
            &&& v is BitArray
            &&& v->BitArray_0.len() == to - from
            &&& v->BitArray_0.take(i - from) == acc
            &&& r.0.len() == to - i + 1
            &&& r.1.len() == to - i
            &&& r.0[0] == st
            &&& r.0.last() == s
            &&& forall|j: int|
                0 <= j < to - i ==> counts(r.0[j], #[trigger] r.1[j], name, i + j) && expr(
                    env,
                    r.1[j],
                    e,
                    prefix,
                    depth,
                ) == Run::Done(r.0[j + 1], ValueV::Expr(v->BitArray_0[i - from + j]))
        },
    decreases to - i,
{
    reveal(elements);
    reveal(expr);
    if i < to {
        let c = ValueV::Expr(IrExprV::Const((i as u64) as i64));
        let s = bind(st, name, c);
        assert(counts(st, s, name, i)) by {
            lemma_put(st.bindings, name, c, name);
            assert forall|k: Seq<char>| k != name implies #[trigger] get(s.bindings, k) == get(
                st.bindings,
                k,
            ) by {
                lemma_put(st.bindings, name, c, k);
            }
        }
        match expr(env, s, e, prefix, depth) {
            Run::Done(s1, ValueV::Expr(x)) => {
                let (a, b) = lemma_elements(
                    env,
                    s1,
                    name,
                    from,
                    i + 1,
                    to,
                    e,
                    acc.push(x),
                    prefix,
                    depth,
                );
                let r0 = seq![st] + a;
                let r1 = seq![s] + b;
                match elements(env, st, name, i, to, e, acc, prefix, depth) {
                    Run::Done(t, v) => {
                        let xs = v->BitArray_0;
                        assert(xs.take(i - from) =~= xs.take(i + 1 - from).take(i - from));
                        assert(acc.push(x).take(i - from) =~= acc);
                        assert(xs[i - from] == xs.take(i + 1 - from)[i - from]);
                        assert forall|j: int| 0 <= j < to - i implies counts(
                            r0[j],
                            #[trigger] r1[j],
                            name,
                            i + j,
                        ) && expr(env, r1[j], e, prefix, depth) == Run::Done(
                            r0[j + 1],
                            ValueV::Expr(xs[i - from + j]),
                        ) by {
                            if j > 0 {
                                assert(r1[j] == b[j - 1]);
                                assert(r0[j] == a[j - 1]);
                                assert(r0[j + 1] == a[j]);
                                assert(counts(a[j - 1], b[j - 1], name, i + 1 + (j - 1)));
                            }
                        }
                    },
                    _ => {},
                }
                (r0, r1)
            },
            _ => (seq![st], Seq::empty()),
        }
    } else {
        assert(acc.take(i - from) =~= acc);
        (seq![st], Seq::empty())
    }
}

/// An array at a constant that is a place in it is the element there, and anything else that is
/// indexed fails or has no value.
pub proof fn lemma_index(st: State, a: Seq<IrExprV>, i: i64)
    ensures
        0 <= i < a.len() ==> element(
            st,
            ValueV::BitArray(a),
            ValueV::Expr(IrExprV::Const(i)),
        ) == Run::Done(st, ValueV::Expr(a[i as int])),
        !(0 <= i < a.len()) ==> element(
            st,
            ValueV::BitArray(a),
            ValueV::Expr(IrExprV::Const(i)),
        ) == Run::<ValueV>::Stop,
{
}

/// An index expression is the element of the value of its object at the value of its index.
pub proof fn lemma_index_expression(
    env: Env,
    st: State,
    object: ExprV,
    index: ExprV,
    prefix: Seq<char>,
    depth: nat,
)
    requires
        expr(env, st, object, prefix, depth) matches Run::Done(s, ValueV::BitArray(_)) && (expr(
            env,
            s,
            index,
            prefix,
            depth,
        ) matches Run::Done(_, ValueV::Expr(IrExprV::Const(_)))),
    ensures
        ({
            let x = expr(env, st, object, prefix, depth);
            let y = expr(env, x->Done_0, index, prefix, depth);
            let a = x->Done_1->BitArray_0;
            let i = y->Done_1->Expr_0->Const_0;
            let e = ExprV::Index { object: Box::new(object), index: Box::new(index) };
            0 <= i < a.len() ==> expr(env, st, e, prefix, depth) == Run::Done(
                y->Done_0,
                ValueV::Expr(a[i as int]),
            )
        }),
{
    reveal(expr);
}

/// A field of a structure is what stands under its name there. Where a name has no such field, it
/// is what is bound to both names with a dot between them, or else the variable of that name.
pub proof fn lemma_field_expression(
    env: Env,
    st: State,
    object: ExprV,
    field: Seq<char>,
    prefix: Seq<char>,
    depth: nat,
)
    requires
        expr(env, st, object, prefix, depth) is Done,
    ensures
        ({
            let x = expr(env, st, object, prefix, depth);
            let s = x->Done_0;
            let e = ExprV::Field { object: Box::new(object), field };
            &&& x->Done_1 matches ValueV::Struct(f) ==> (get(f, field) matches Some(v) ==> expr(
                env,
                st,
                e,
                prefix,
                depth,
            ) == Run::Done(s, v))
            &&& object matches ExprV::Ident(o) ==> {
                let full = o + "."@ + field;
                !(x->Done_1 is Struct && get(x->Done_1->Struct_0, field) is Some) ==> expr(
                    env,
                    st,
                    e,
                    prefix,
                    depth,
                ) == Run::Done(
                    s,
                    match get(s.bindings, full) {
                        Some(v) => v,
                        None => ValueV::Expr(IrExprV::Var(full)),
                    },
                )
            }
        }),
{
    reveal(expr);
}

// ---------------------------------------------------------------------------
// Statements
// ---------------------------------------------------------------------------

/// The statements of a body run one behind the other; the body gives what the last one gives.
pub proof fn lemma_statements_in_order(
    env: Env,
    st: State,
    stmts: Seq<StmtV>,
    prefix: Seq<char>,
    depth: nat,
) -> (r: (Seq<State>, Seq<Option<ValueV>>))
    ensures
        body(env, st, stmts, 0, None, prefix, depth) matches Run::Done(s, v) ==> {
            &&& r.0.len() == stmts.len() + 1
            &&& r.1.len() == stmts.len()
            &&& r.0[0] == st
            &&& r.0.last() == s
            &&& stmts.len() > 0 ==> v == r.1.last()
            &&& stmts.len() == 0 ==> v is None
            &&& forall|i: int|
                0 <= i < stmts.len() ==> stmt(env, r.0[i], #[trigger] stmts[i], prefix, depth)
                    == Run::Done(r.0[i + 1], r.1[i])
        },
{
    lemma_statements_from(env, st, stmts, 0, None, prefix, depth)
}

proof fn lemma_next_statement(
    env: Env,
    st: State,
    stmts: Seq<StmtV>,
    i: int,
    last: Option<ValueV>,
    prefix: Seq<char>,
    depth: nat,
)
    requires
        0 <= i <= stmts.len(),
    ensures
        i == stmts.len() ==> body(env, st, stmts, i, last, prefix, depth) == Run::Done(st, last),
        i < stmts.len() ==> (stmt(env, st, stmts[i], prefix, depth) matches Run::Done(s, v) ==> body(
            env,
            st,
            stmts,
            i,
            last,
            prefix,
            depth,
        ) == body(env, s, stmts, i + 1, v, prefix, depth)),
        i < stmts.len() && !(stmt(env, st, stmts[i], prefix, depth) is Done) ==> !(body(
            env,
            st,
            stmts,
            i,
            last,
            prefix,
            depth,
        ) is Done),
{
    reveal(body);
    reveal(stmt);
}

proof fn lemma_statements_from(
    env: Env,
    st: State,
    stmts: Seq<StmtV>,
    i: int,
    last: Option<ValueV>,
    prefix: Seq<char>,
    depth: nat,
) -> (r: (Seq<State>, Seq<Option<ValueV>>))
    requires
        0 <= i <= stmts.len(),
    ensures
        body(env, st, stmts, i, last, prefix, depth) matches Run::Done(s, v) ==> {
            &&& r.0.len() == stmts.len() - i + 1
            &&& r.1.len() == stmts.len() - i
            &&& r.0[0] == st
            &&& r.0.last() == s
            &&& i < stmts.len() ==> v == r.1.last()
            &&& i == stmts.len() ==> v == last
            &&& forall|j: int|
                i <= j < stmts.len() ==> stmt(env, r.0[j - i], #[trigger] stmts[j], prefix, depth)
                    == Run::Done(r.0[j - i + 1], r.1[j - i])
        },
    decreases stmts.len() - i,
{
    lemma_next_statement(env, st, stmts, i, last, prefix, depth);
    if i < stmts.len() {
        match stmt(env, st, stmts[i], prefix, depth) {
            Run::Done(s, v) => {
                let (a, b) = lemma_statements_from(env, s, stmts, i + 1, v, prefix, depth);
                let r0 = seq![st] + a;
                let r1 = seq![v] + b;
                match body(env, st, stmts, i, last, prefix, depth) {
                    Run::Done(t, w) => {
                        assert forall|j: int| i <= j < stmts.len() implies stmt(
                            env,
                            r0[j - i],
                            #[trigger] stmts[j],
                            prefix,
                            depth,
                        ) == Run::Done(r0[j - i + 1], r1[j - i]) by {
                            if j > i {
                                assert(r0[j - i] == a[j - (i + 1)]);
                                assert(r0[j - i + 1] == a[j - (i + 1) + 1]);
                                assert(r1[j - i] == b[j - (i + 1)]);
                            }
                        }
                    },
                    _ => {},
                }
                (r0, r1)
            },
            _ => (seq![st], Seq::empty()),
        }
    } else {
        (seq![st], Seq::empty())
    }
}

/// Whether one constraint is all that a state has more than another, and it says, where the guard
/// of the state is in force, that two expressions have the same value.
pub open spec fn adds_equation(st: State, s: State, l: IrExprV, r: IrExprV) -> bool {
    &&& s.bindings == st.bindings
    &&& s.counter == st.counter
    &&& s.guard == st.guard
    &&& s.spec.inputs == st.spec.inputs
    &&& s.spec.outputs == st.spec.outputs
    &&& s.spec.internals == st.spec.internals
    &&& s.spec.constraints.len() == st.spec.constraints.len() + 1
    &&& s.spec.constraints.drop_last() == st.spec.constraints
    &&& says_equal(st, s.spec.constraints.last(), l, r)
}

/// Whether a constraint says, where a guard is in force, that two expressions have the same value.
pub open spec fn says_equal(st: State, c: ConstraintV, l: IrExprV, r: IrExprV) -> bool {
    forall|
        vs: Seq<VarV>,
        a: spec_fn(Seq<char>) -> int,
        f: spec_fn(Seq<char>, Seq<char>, Seq<int>) -> int,
    |
        #[trigger] holds(Numbers::Integers, vs, a, f, c) <==> (in_force(
            Numbers::Integers,
            vs,
            a,
            st.guard,
        ) ==> value(Numbers::Integers, vs, a, l) == value(Numbers::Integers, vs, a, r))
}

/// An equation of a state says that its sides are equal.
pub proof fn lemma_says_equal(st: State, l: IrExprV, r: IrExprV, tag: Seq<char>)
    ensures
        says_equal(st, equation(st, l, r, tag), l, r),
{
    assert forall|
        vs: Seq<VarV>,
        a: spec_fn(Seq<char>) -> int,
        f: spec_fn(Seq<char>, Seq<char>, Seq<int>) -> int,
    |
        #[trigger] holds(Numbers::Integers, vs, a, f, equation(st, l, r, tag)) <==> (in_force(
            Numbers::Integers,
            vs,
            a,
            st.guard,
        ) ==> value(Numbers::Integers, vs, a, l) == value(Numbers::Integers, vs, a, r)) by {
        lemma_equation(vs, a, f, st, l, r, tag);
    }
}

proof fn lemma_adds_equation(st: State, l: IrExprV, r: IrExprV, tag: Seq<char>)
    ensures
        adds_equation(st, equate(st, l, r, tag), l, r),
{
    lemma_says_equal(st, l, r, tag);
    assert(equate(st, l, r, tag).spec.constraints.drop_last() =~= st.spec.constraints);
}

/// A constraint adds one equation of its two sides, under the guard of the branch, and nothing
/// else.
pub proof fn lemma_constraint(
    env: Env,
    st: State,
    lhs: ExprV,
    rhs: ExprV,
    prefix: Seq<char>,
    depth: nat,
)
    requires
        expr(env, st, lhs, prefix, depth) matches Run::Done(s, ValueV::Expr(_)) && (expr(
            env,
            s,
            rhs,
            prefix,
            depth,
        ) matches Run::Done(_, ValueV::Expr(_))),
    ensures
        ({
            let l = expr(env, st, lhs, prefix, depth);
            let r = expr(env, l->Done_0, rhs, prefix, depth);
            stmt(env, st, StmtV::Constraint { lhs, rhs }, prefix, depth) matches Run::Done(s, None)
                && adds_equation(r->Done_0, s, l->Done_1->Expr_0, r->Done_1->Expr_0)
        }),
{
    reveal(stmt);
    reveal(expr);
    let l = expr(env, st, lhs, prefix, depth);
    let r = expr(env, l->Done_0, rhs, prefix, depth);
    lemma_adds_equation(r->Done_0, l->Done_1->Expr_0, r->Done_1->Expr_0, "constraint"@);
}

/// An expression by itself is evaluated and gives its value.
pub proof fn lemma_expression_statement(
    env: Env,
    st: State,
    e: ExprV,
    prefix: Seq<char>,
    depth: nat,
)
    ensures
        expr(env, st, e, prefix, depth) matches Run::Done(s, v) ==> stmt(
            env,
            st,
            StmtV::ExprStmt(e),
            prefix,
            depth,
        ) == Run::Done(s, Some(v)),
{
    reveal(stmt);
    reveal(expr);
}

/// Whether a right-hand side is a register that is made where it is bound.
pub open spec fn is_register(e: ExprV) -> bool {
    e matches ExprV::Call { name, .. } && (name == "Reg"@ || name == "U16Reg"@)
}

/// A binding that is not public, and whose right-hand side is not `Reg` or `U16Reg`, adds nothing:
/// from then on its name stands for the value of its right-hand side, and every other name for what
/// it stood for.
pub proof fn lemma_binding(
    env: Env,
    st: State,
    name: Seq<char>,
    rhs: ExprV,
    prefix: Seq<char>,
    depth: nat,
    k: Seq<char>,
)
    requires
        !is_register(rhs),
    ensures
        expr(env, st, rhs, prefix, depth) matches Run::Done(s, v) ==> {
            &&& stmt(
                env,
                st,
                StmtV::Binding { is_public: false, name, value: rhs },
                prefix,
                depth,
            ) matches Run::Done(t, None)
            &&& t.spec == s.spec
            &&& t.counter == s.counter
            &&& t.guard == s.guard
            &&& get(t.bindings, k) == (if k == name {
                Some(v)
            } else {
                get(s.bindings, k)
            })
        },
{
    reveal(stmt);
    reveal(expr);
    match expr(env, st, rhs, prefix, depth) {
        Run::Done(s, v) => {
            lemma_put(s.bindings, name, v, k);
        },
        _ => {},
    }
}

/// Whether a state is another one with a new variable of some range that equals an expression
/// under the guard of the branch.
pub open spec fn adds_variable(
    st: State,
    s: State,
    outside: bool,
    name: Seq<char>,
    max: int,
    e: IrExprV,
) -> bool {
    let more = if outside {
        s.spec.outputs
    } else {
        s.spec.internals
    };
    let less = if outside {
        st.spec.outputs
    } else {
        st.spec.internals
    };
    &&& s.counter == st.counter + 1
    &&& s.guard == st.guard
    &&& s.spec.inputs == st.spec.inputs
    &&& outside ==> s.spec.internals == st.spec.internals
    &&& !outside ==> s.spec.outputs == st.spec.outputs
    &&& more.len() == less.len() + 1
    &&& more.drop_last() == less
    &&& more.last().name == name
    &&& max_value(more.last().vtype) == max
    &&& s.spec.constraints.len() == st.spec.constraints.len() + 1
    &&& s.spec.constraints.drop_last() == st.spec.constraints
    &&& says_equal(st, s.spec.constraints.last(), IrExprV::Var(name), e)
}

/// A public binding to a scalar adds one variable that equals it: at the top level an output, and
/// elsewhere an internal variable. From then on the name stands for that variable.
pub proof fn lemma_public_binding(
    env: Env,
    st: State,
    name: Seq<char>,
    rhs: ExprV,
    prefix: Seq<char>,
    depth: nat,
    k: Seq<char>,
)
    requires
        !is_register(rhs),
    ensures
        expr(env, st, rhs, prefix, depth) matches Run::Done(s, ValueV::Expr(e)) ==> (room(s, 1)
            ==> {
            let n = next_name(s, prefix, name);
            &&& stmt(
                env,
                st,
                StmtV::Binding { is_public: true, name, value: rhs },
                prefix,
                depth,
            ) matches Run::Done(t, None)
            &&& adds_variable(s, t, prefix.len() == 0, n, max_value(guessed_type(rhs)), e)
            &&& get(t.bindings, k) == (if k == name {
                Some(ValueV::Expr(IrExprV::Var(n)))
            } else {
                get(s.bindings, k)
            })
        }),
{
    reveal(stmt);
    reveal(expr);
    match expr(env, st, rhs, prefix, depth) {
        Run::Done(s, ValueV::Expr(e)) => {
            let n = next_name(s, prefix, name);
            lemma_put(s.bindings, name, ValueV::Expr(IrExprV::Var(n)), k);
            lemma_says_equal(s, IrExprV::Var(n), e, "public_"@ + name);
            match stmt(
                env,
                st,
                StmtV::Binding { is_public: true, name, value: rhs },
                prefix,
                depth,
            ) {
                Run::Done(t, _) => {
                    assert(t.spec.constraints.drop_last() =~= s.spec.constraints);
                    if prefix.len() == 0 {
                        assert(t.spec.outputs.drop_last() =~= s.spec.outputs);
                    } else {
                        assert(t.spec.internals.drop_last() =~= s.spec.internals);
                    }
                    assert(says_equal(
                        tick(s),
                        equation(tick(s), IrExprV::Var(n), e, "public_"@ + name),
                        IrExprV::Var(n),
                        e,
                    )) by {
                        lemma_says_equal(tick(s), IrExprV::Var(n), e, "public_"@ + name);
                    }
                },
                _ => {},
            }
        },
        _ => {},
    }
}

// ---------------------------------------------------------------------------
// Registers
// ---------------------------------------------------------------------------

/// The largest numbers that the kinds of variables can hold.
pub proof fn lemma_ranges_of_types()
    ensures
        max_value(VarType::Bit) == 1,
        max_value(VarType::Twit) == 3,
        max_value(VarType::U8) + 1 == 256,
        max_value(VarType::U16) + 1 == 256 * 256,
        max_value(VarType::U32) + 1 == 65536 * 65536,
        max_value(VarType::Val) + 1 == BABYBEAR_P,
        BABYBEAR_P == 15 * 134217728 + 1,
{
}

/// How the names of the calls with rules of their own differ.
pub proof fn lemma_register_names()
    ensures
        "NondetReg"@.len() == 9,
        "NondetU16Reg"@.len() == 12,
        "NondetU16Reg"@[6] == 'U',
        "NondetU16Reg"@[7] == '1',
        "NondetU32Reg"@.len() == 12,
        "NondetU32Reg"@[6] == 'U',
        "NondetU32Reg"@[7] == '3',
        "NondetU8Reg"@.len() == 11,
        "NondetU8Reg"@[0] == 'N',
        "NondetBitReg"@.len() == 12,
        "NondetBitReg"@[6] == 'B',
        "NondetTwitReg"@.len() == 13,
        "NondetTwitReg"@[0] == 'N',
        "NondetFakeTwitReg"@.len() == 17,
        "FakeTwitReg"@.len() == 11,
        "FakeTwitReg"@[0] == 'F',
        "Reg"@.len() == 3,
        "U16Reg"@.len() == 6,
        "U16Reg"@[1] == '1',
        "U16Reg"@[0] == 'U',
        "U32Reg"@.len() == 6,
        "U32Reg"@[1] == '3',
        "U32Reg"@[0] == 'U',
        "IsZero"@.len() == 6,
        "IsZero"@[0] == 'I',
        "Isz"@.len() == 3,
        "Isz"@[0] == 'I',
        "Reg"@[0] == 'R',
        "ValU32"@.len() == 6,
        "ValU32"@[0] == 'V',
        "DenormedValU32"@.len() == 14,
        "BitwiseAndU16"@.len() == 13,
        "BitwiseAndU16"@[0] == 'B',
        "ToBits"@.len() == 6,
        "ToBits"@[0] == 'T',
        "FromBits"@.len() == 8,
{
    reveal_strlit("NondetReg");
    reveal_strlit("NondetU16Reg");
    reveal_strlit("NondetU32Reg");
    reveal_strlit("NondetU8Reg");
    reveal_strlit("NondetBitReg");
    reveal_strlit("NondetTwitReg");
    reveal_strlit("NondetFakeTwitReg");
    reveal_strlit("FakeTwitReg");
    reveal_strlit("Reg");
    reveal_strlit("U16Reg");
    reveal_strlit("U32Reg");
    reveal_strlit("IsZero");
    reveal_strlit("Isz");
    reveal_strlit("ValU32");
    reveal_strlit("DenormedValU32");
    reveal_strlit("BitwiseAndU16");
    reveal_strlit("ToBits");
    reveal_strlit("FromBits");
}

/// The largest number that a register holds which the prover chooses, where it is one.
pub open spec fn chosen_up_to(name: Seq<char>) -> Option<int> {
    if name == "NondetReg"@ {
        Some(2013265920)
    } else if name == "NondetU8Reg"@ {
        Some(255)
    } else if name == "NondetU16Reg"@ {
        Some(65535)
    } else if name == "NondetU32Reg"@ {
        Some(4294967295)
    } else if name == "NondetBitReg"@ {
        Some(1)
    } else if name == "NondetTwitReg"@ || name == "NondetFakeTwitReg"@ {
        Some(3)
    } else {
        None
    }
}

/// A register that the prover chooses is a new variable of its range and nothing else, whatever
/// the arguments.
pub proof fn lemma_chosen_registers(
    env: Env,
    st: State,
    name: Seq<char>,
    args: Seq<ValueV>,
    type_args: Seq<u64>,
    prefix: Seq<char>,
    depth: nat,
)
    requires
        chosen_up_to(name) is Some,
        room(st, 1),
    ensures
        call(env, st, name, args, type_args, prefix, depth) matches Run::Done(s, v) && {
            &&& v matches ValueV::Expr(IrExprV::Var(x))
            &&& s.bindings == st.bindings
            &&& s.guard == st.guard
            &&& s.counter == st.counter + 1
            &&& s.spec.inputs == st.spec.inputs
            &&& s.spec.outputs == st.spec.outputs
            &&& s.spec.constraints == st.spec.constraints
            &&& s.spec.internals.len() == st.spec.internals.len() + 1
            &&& s.spec.internals.drop_last() == st.spec.internals
            &&& s.spec.internals.last().name == x
            &&& max_value(s.spec.internals.last().vtype) == chosen_up_to(name)->Some_0
        },
{
    reveal(call);
    lemma_register_names();
    match call(env, st, name, args, type_args, prefix, depth) {
        Run::Done(s, v) => {
            assert(s.spec.internals.drop_last() =~= st.spec.internals);
        },
        _ => {},
    }
}

/// The largest number that a register holds which equals its argument, where it is one that is
/// made where it is called.
pub open spec fn equal_up_to(name: Seq<char>) -> Option<int> {
    if name == "U16Reg"@ {
        Some(65535)
    } else if name == "U32Reg"@ {
        Some(4294967295)
    } else if name == "FakeTwitReg"@ {
        Some(3)
    } else {
        None
    }
}

/// A register that equals its argument is a new variable of its range, and one equation says that
/// it equals the argument.
pub proof fn lemma_equal_registers(
    env: Env,
    st: State,
    name: Seq<char>,
    args: Seq<ValueV>,
    type_args: Seq<u64>,
    prefix: Seq<char>,
    depth: nat,
)
    requires
        equal_up_to(name) is Some,
        room(st, 1),
        args.len() > 0,
        args[0] is Expr,
    ensures
        call(env, st, name, args, type_args, prefix, depth) matches Run::Done(s, v) && {
            &&& v matches ValueV::Expr(IrExprV::Var(x))
            &&& s.bindings == st.bindings
            &&& adds_variable(st, s, false, x, equal_up_to(name)->Some_0, args[0]->Expr_0)
        },
{
    reveal(call);
    lemma_register_names();
    match call(env, st, name, args, type_args, prefix, depth) {
        Run::Done(s, v) => {
            let x = v->Expr_0->Var_0;
            let e = args[0]->Expr_0;
            assert(s.spec.internals.drop_last() =~= st.spec.internals);
            assert(s.spec.constraints.drop_last() =~= st.spec.constraints);
            let t = declare(tick(st), x, s.spec.internals.last().vtype);
            lemma_says_equal(t, IrExprV::Var(x), e, "u16reg"@);
            lemma_says_equal(t, IrExprV::Var(x), e, "u32reg"@);
            lemma_says_equal(t, IrExprV::Var(x), e, "fake_twit_reg"@);
        },
        _ => {},
    }
}

/// `Reg` gives its argument, and a number in two halves is made of its two arguments, the low half
/// first.
pub proof fn lemma_makers(
    env: Env,
    st: State,
    args: Seq<ValueV>,
    type_args: Seq<u64>,
    prefix: Seq<char>,
    depth: nat,
)
    ensures
        args.len() > 0 ==> call(env, st, "Reg"@, args, type_args, prefix, depth) == Run::Done(
            st,
            args[0],
        ),
        args.len() > 1 ==> (call(env, st, "ValU32"@, args, type_args, prefix, depth) matches
            Run::Done(s, v) && s == st && field_of(v, "low"@) == Some(args[0]) && field_of(
            v,
            "high"@,
        ) == Some(args[1])),
        args.len() > 1 ==> call(env, st, "DenormedValU32"@, args, type_args, prefix, depth) == call(
            env,
            st,
            "ValU32"@,
            args,
            type_args,
            prefix,
            depth,
        ),
{
    reveal(call);
    lemma_register_names();
    if args.len() > 1 {
        lemma_halves(args[0], args[1]);
    }
}

/// A number in two halves has a low and a high half.
pub proof fn lemma_halves(low: ValueV, high: ValueV)
    ensures
        field_of(halves(low, high), "low"@) == Some(low),
        field_of(halves(low, high), "high"@) == Some(high),
{
    reveal_strlit("low");
    reveal_strlit("high");
    let f = halves(low, high)->Struct_0;
    assert("low"@.len() == 3 && "high"@.len() == 4);
    assert(f[0] == ("low"@, low) && f[1] == ("high"@, high));
    lemma_get(f, "low"@, 0);
    lemma_get(f, "high"@, 1);
    assert(f.take(0) =~= Seq::empty());
    assert(is_absent(f.take(1), "high"@)) by {
        assert forall|i: int| 0 <= i < f.take(1).len() implies (#[trigger] f.take(1)[i]).0
            != "high"@ by {
            assert(f.take(1)[i] == f[0]);
        }
    }
}

/// A test for zero is a new bit, and one constraint says that it is 1 where the argument is 0, and
/// else 0.
pub proof fn lemma_zero_tests(
    env: Env,
    st: State,
    name: Seq<char>,
    args: Seq<ValueV>,
    type_args: Seq<u64>,
    prefix: Seq<char>,
    depth: nat,
    vs: Seq<VarV>,
    a: spec_fn(Seq<char>) -> int,
    f: spec_fn(Seq<char>, Seq<char>, Seq<int>) -> int,
)
    requires
        name == "IsZero"@ || name == "Isz"@,
        room(st, 1),
        args.len() > 0,
        args[0] is Expr,
    ensures
        call(env, st, name, args, type_args, prefix, depth) matches Run::Done(s, v) && {
            &&& v matches ValueV::Expr(IrExprV::Var(x))
            &&& s.bindings == st.bindings
            &&& s.guard == st.guard
            &&& s.spec.inputs == st.spec.inputs
            &&& s.spec.outputs == st.spec.outputs
            &&& s.spec.internals.len() == st.spec.internals.len() + 1
            &&& s.spec.internals.drop_last() == st.spec.internals
            &&& s.spec.internals.last().name == x
            &&& max_value(s.spec.internals.last().vtype) == 1
            &&& s.spec.constraints.len() == st.spec.constraints.len() + 1
            &&& s.spec.constraints.drop_last() == st.spec.constraints
            &&& holds(Numbers::Integers, vs, a, f, s.spec.constraints.last()) <==> a(x) == (
            if value(Numbers::Integers, vs, a, args[0]->Expr_0) == 0 {
                1int
            } else {
                0int
            })
        },
{
    reveal(call);
    lemma_register_names();
    match call(env, st, name, args, type_args, prefix, depth) {
        Run::Done(s, v) => {
            assert(s.spec.internals.drop_last() =~= st.spec.internals);
            assert(s.spec.constraints.drop_last() =~= st.spec.constraints);
        },
        _ => {},
    }
}

/// A name that is bound to `Reg` or to `U16Reg` is a new variable that equals the value of the
/// call, of 16 bits for `U16Reg`; a name that is bound to anything else is that itself.
pub proof fn lemma_bound_registers(
    st: State,
    name: Seq<char>,
    rhs: ExprV,
    v: ValueV,
    prefix: Seq<char>,
)
    ensures
        !is_register(rhs) ==> bound_value(st, name, rhs, v, prefix) == Run::Done(st, v),
        is_register(rhs) && v is Expr && room(st, 1) ==> (bound_value(
            st,
            name,
            rhs,
            v,
            prefix,
        ) matches Run::Done(s, w) && {
            &&& w matches ValueV::Expr(IrExprV::Var(x))
            &&& s.bindings == st.bindings
            &&& adds_variable(
                st,
                s,
                false,
                x,
                if rhs->Call_name == "U16Reg"@ {
                    65535
                } else {
                    2013265920
                },
                v->Expr_0,
            )
        }),
{
    lemma_register_names();
    if is_register(rhs) && v is Expr && room(st, 1) {
        match bound_value(st, name, rhs, v, prefix) {
            Run::Done(s, w) => {
                let x = w->Expr_0->Var_0;
                assert(s.spec.internals.drop_last() =~= st.spec.internals);
                assert(s.spec.constraints.drop_last() =~= st.spec.constraints);
                let t = declare(tick(st), x, s.spec.internals.last().vtype);
                lemma_says_equal(t, IrExprV::Var(x), v->Expr_0, "reg_"@ + name);
            },
            _ => {},
        }
    }
}

} // verus!
