//! What variables, functions and constraints are called.

use vstd::prelude::*;
use crate::ir::{ConstraintV, IrExprV, SpecV, VarType, VarV};
use crate::ir::rules::{
    add_outputs, bind_value, bound_value, builtin_call, divides_evenly, division, fresh_name,
    fresh_scalar, fresh_value, inner_prefix, is_builtin, is_halves, outputs_of, quotient, room,
    shown_type, stmt, Env, Run, State,
};
use crate::ir::value::{get, ValueV};
use crate::laws::bindings::{is_absent, lemma_get, lemma_put};
use crate::laws::evaluation::lemma_register_names;
use crate::model::declared;
use crate::parser::ast::{ComponentV, ExprV, StmtV};
use crate::text::{begins_with, digits, finishes_with, undotted, unicode_lowercase};
use crate::verifier_ff::{ff_symbol, has_calls};
use crate::verifier_int::symbol;

verus! {

/// A new name is what it is made from between a prefix, where there is one, and a number.
pub proof fn lemma_new_names(prefix: Seq<char>, name: Seq<char>, n: nat)
    ensures
        finishes_with(fresh_name(prefix, name, n), name + "_"@ + digits(n)),
        prefix.len() > 0 ==> begins_with(fresh_name(prefix, name, n), prefix + "_"@)
            && fresh_name(prefix, name, n).len() == prefix.len() + 1 + name.len() + 1 + digits(n).len(),
        prefix.len() == 0 ==> fresh_name(prefix, name, n).len() == name.len() + 1 + digits(n).len(),
{
    reveal_strlit("_");
    let w = fresh_name(prefix, name, n);
    let t = name + "_"@ + digits(n);
    assert(w.subrange(w.len() - t.len(), w.len() as int) =~= t);
    if prefix.len() > 0 {
        let p = prefix + "_"@;
        assert(w.subrange(0, p.len() as int) =~= p);
    }
}

/// Names inside a call start with the name of the component in lower case, behind those of the calls
/// around it.
pub proof fn lemma_names_inside(prefix: Seq<char>, name: Seq<char>)
    ensures
        finishes_with(inner_prefix(prefix, name), unicode_lowercase(name)),
        prefix.len() == 0 ==> inner_prefix(prefix, name) == unicode_lowercase(name),
        prefix.len() > 0 ==> begins_with(inner_prefix(prefix, name), prefix + "_"@)
            && inner_prefix(prefix, name).len() == prefix.len() + 1 + unicode_lowercase(name).len(),
{
    reveal_strlit("_");
    let w = inner_prefix(prefix, name);
    let t = unicode_lowercase(name);
    assert(w.subrange(w.len() - t.len(), w.len() as int) =~= t);
    if prefix.len() > 0 {
        let p = prefix + "_"@;
        assert(w.subrange(0, p.len() as int) =~= p);
    }
}

/// What the name of a register is made from.
pub open spec fn register_word(name: Seq<char>) -> Seq<char> {
    if name == "NondetReg"@ {
        "nd"@
    } else if name == "NondetU8Reg"@ {
        "u8"@
    } else if name == "NondetU16Reg"@ {
        "u16"@
    } else if name == "NondetU32Reg"@ {
        "u32"@
    } else if name == "NondetBitReg"@ {
        "bit"@
    } else if name == "NondetTwitReg"@ || name == "NondetFakeTwitReg"@ {
        "twit"@
    } else if name == "FakeTwitReg"@ {
        "ftwit"@
    } else if name == "U16Reg"@ {
        "u16r"@
    } else if name == "U32Reg"@ {
        "u32r"@
    } else {
        "iz"@
    }
}

/// Whether a call makes one variable.
pub open spec fn makes_one(name: Seq<char>) -> bool {
    ||| name == "NondetReg"@
    ||| name == "NondetU8Reg"@
    ||| name == "NondetU16Reg"@
    ||| name == "NondetU32Reg"@
    ||| name == "NondetBitReg"@
    ||| name == "NondetTwitReg"@
    ||| name == "NondetFakeTwitReg"@
    ||| name == "FakeTwitReg"@
    ||| name == "U16Reg"@
    ||| name == "U32Reg"@
    ||| name == "IsZero"@
    ||| name == "Isz"@
}

/// A register is called after its kind.
pub proof fn lemma_names_of_registers(
    st: State,
    name: Seq<char>,
    args: Seq<ValueV>,
    type_args: Seq<u64>,
    prefix: Seq<char>,
)
    requires
        makes_one(name),
    ensures
        builtin_call(st, name, args, type_args, prefix) matches Run::Done(s, v) ==> v
            == ValueV::Expr(
            IrExprV::Var(fresh_name(prefix, register_word(name), st.counter + 1)),
        ),
{
    lemma_register_names();
}

/// The equation of a register is tagged after its kind.
pub proof fn lemma_tags_of_registers(
    st: State,
    args: Seq<ValueV>,
    type_args: Seq<u64>,
    prefix: Seq<char>,
)
    ensures
        builtin_call(st, "U16Reg"@, args, type_args, prefix) matches Run::Done(s, _)
            ==> s.spec.constraints.last()->tag == "u16reg"@,
        builtin_call(st, "U32Reg"@, args, type_args, prefix) matches Run::Done(s, _)
            ==> s.spec.constraints.last()->tag == "u32reg"@,
        builtin_call(st, "FakeTwitReg"@, args, type_args, prefix) matches Run::Done(s, _)
            ==> s.spec.constraints.last()->tag == "fake_twit_reg"@,
        builtin_call(st, "ToBits"@, args, type_args, prefix) matches Run::Done(s, _)
            ==> s.spec.constraints.last()->tag == "tobits_decompose"@,
        builtin_call(st, "BitwiseAndU16"@, args, type_args, prefix) matches Run::Done(s, v) ==> {
            let n = s.spec.constraints.len() as int;
            &&& s.spec.constraints[n - 3]->tag == "tobits_x"@
            &&& s.spec.constraints[n - 2]->tag == "tobits_y"@
            &&& s.spec.constraints[n - 1]->tag == "and_result"@
        },
{
    lemma_register_names();
}

/// The equation of a constraint is tagged as one.
pub proof fn lemma_tag_of_constraint(
    env: Env,
    st: State,
    lhs: ExprV,
    rhs: ExprV,
    prefix: Seq<char>,
    depth: nat,
)
    ensures
        stmt(env, st, StmtV::Constraint { lhs, rhs }, prefix, depth) matches Run::Done(s, _)
            ==> s.spec.constraints.last()->tag == "constraint"@,
{
    reveal(stmt);
}

/// A register that is bound to a name, and a public binding, have that name in their variable and in
/// the tag of their equation.
pub proof fn lemma_tags_of_bindings(
    st: State,
    name: Seq<char>,
    rhs: ExprV,
    e: IrExprV,
    prefix: Seq<char>,
)
    requires
        room(st, 1),
    ensures
        bind_value(st, true, name, rhs, ValueV::Expr(e), prefix) matches Run::Done(s, _) && get(
            s.bindings,
            name,
        ) == Some(ValueV::Expr(IrExprV::Var(fresh_name(prefix, name, st.counter + 1))))
            && s.spec.constraints.last()->tag == "public_"@ + name,
        rhs matches ExprV::Call { name: f, .. } && (f == "Reg"@ || f == "U16Reg"@) ==> (bound_value(
            st,
            name,
            rhs,
            ValueV::Expr(e),
            prefix,
        ) matches Run::Done(s, v) && v == ValueV::Expr(
            IrExprV::Var(fresh_name(prefix, name, st.counter + 1)),
        ) && s.spec.constraints.last()->tag == "reg_"@ + name),
{
    lemma_put(
        st.bindings,
        name,
        ValueV::Expr(IrExprV::Var(fresh_name(prefix, name, st.counter + 1))),
        name,
    );
}

/// The equation of an output is tagged with its name.
pub proof fn lemma_tags_of_outputs(st: State, v: ValueV, name: Seq<char>, i: int)
    requires
        0 <= i < outputs_of(v, name).len(),
    ensures
        ({
            let s = add_outputs(st, outputs_of(v, name));
            s.spec.constraints[st.spec.constraints.len() + i]->tag == "output_"@ + outputs_of(
                v,
                name,
            )[i].name
        }),
{
}

/// A division comes out even where some integer times the divisor is the number that is divided. Of
/// such constants it is that integer, and else a variable called after it.
pub proof fn lemma_even_division(st: State, a: i64, b: i64, q: int, prefix: Seq<char>)
    requires
        a != 0,
        room(st, 1),
    ensures
        b != 0 && q * b == a ==> divides_evenly(a as int, b as int) && quotient(a as int, b as int)
            == q,
        b != 0 && q * b == a && q <= i64::MAX ==> division(
            st,
            IrExprV::Const(a),
            IrExprV::Const(b),
            prefix,
        ) == Run::Done(st, ValueV::Expr(IrExprV::Const(q as i64))),
        b == 0 || !divides_evenly(a as int, b as int) ==> (division(
            st,
            IrExprV::Const(a),
            IrExprV::Const(b),
            prefix,
        ) matches Run::Done(s, v) && v == ValueV::Expr(
            IrExprV::Var(fresh_name(prefix, "div"@, st.counter + 1)),
        ) && s.spec.internals == st.spec.internals.push(
            (VarV { name: fresh_name(prefix, "div"@, st.counter + 1), vtype: VarType::Val }),
        ) && s.spec.constraints.last()->tag == "exact_div"@),
{
    if b != 0 && q * b == a {
        let m = if a < 0 {
            -(a as int)
        } else {
            a as int
        };
        let d = if b < 0 {
            -(b as int)
        } else {
            b as int
        };
        let w = if q < 0 {
            -q
        } else {
            q
        };
        assert(w * d == m && w > 0) by (nonlinear_arith)
            requires
                q * b == a,
                a != 0,
                b != 0,
                m == (if a < 0 {
                    -(a as int)
                } else {
                    a as int
                }),
                d == (if b < 0 {
                    -(b as int)
                } else {
                    b as int
                }),
                w == (if q < 0 {
                    -q
                } else {
                    q
                }),
        ;
        assert(m / d == w) by (nonlinear_arith)
            requires
                w * d == m,
                d > 0,
                w > 0,
        ;
        assert((a < 0) == (b < 0) <==> q > 0) by (nonlinear_arith)
            requires
                q * b == a,
                a != 0,
                b != 0,
        ;
    }
}

/// A new value that a function of the prover gives is called so: a scalar by one word, and a number in
/// two halves by one for each half.
pub proof fn lemma_names_of_new_values(
    env: Env,
    st: State,
    ty: Seq<char>,
    name: Seq<char>,
    prefix: Seq<char>,
    depth: nat,
)
    requires
        room(st, 2),
    ensures
        is_halves(ty) ==> (fresh_value(env, st, ty, prefix, depth) matches Run::Done(s, _)
            && s.spec.internals == st.spec.internals.push(
            (VarV { name: fresh_name(prefix, "ext_low"@, st.counter + 1), vtype: VarType::Val }),
        ).push(
            (VarV { name: fresh_name(prefix, "ext_high"@, st.counter + 2), vtype: VarType::Val }),
        )),
        !is_halves(ty) && !env.components.dom().contains(ty) ==> (fresh_value(
            env,
            st,
            ty,
            prefix,
            depth,
        ) matches Run::Done(s, _) && s.spec.internals == st.spec.internals.push(
            (VarV { name: fresh_name(prefix, "ext"@, st.counter + 1), vtype: VarType::Val }),
        )),
        fresh_scalar(st, prefix, name) matches Run::Done(s, _) && s.spec.internals
            == st.spec.internals.push(
            (VarV { name: fresh_name(prefix, name, st.counter + 1), vtype: VarType::Val }),
        ),
{
}

/// The names of numbers in two halves.
pub proof fn lemma_names_of_halves(t: Seq<char>)
    ensures
        is_halves(t) <==> t == "ValU32"@ || t == "DenormedValU32"@,
        is_halves(t) || makes_one(t) || t == "Reg"@ || t == "BitwiseAndU16"@ || t == "ToBits"@ || t
            == "FromBits"@ <==> is_builtin(t),
{
    lemma_register_names();
}

/// The type that a public binding shows is that of the parameter that it names, or the number in two
/// halves that it makes.
pub proof fn lemma_shown_type(c: ComponentV, e: ExprV, i: int)
    ensures
        e matches ExprV::Ident(x) && 0 <= i < c.params.len() && c.params[i].0 == x && is_absent(
            c.params.take(i),
            x,
        ) ==> shown_type(c, e) == Some(c.params[i].1),
        e matches ExprV::Ident(x) && is_absent(c.params, x) ==> shown_type(c, e) is None,
        e matches ExprV::Call { name, .. } ==> shown_type(c, e) == (if name == "ValU32"@ || name
            == "DenormedValU32"@ {
            Some(name)
        } else {
            None
        }),
        !(e is Ident) && !(e is Call) ==> shown_type(c, e) is None,
{
    if let ExprV::Ident(x) = e {
        lemma_get(c.params, x, i);
    }
}

/// The functions of one field of different components are called differently, and so are those of
/// different fields of one component.
pub proof fn lemma_names_of_functions(c: Seq<char>, d: Seq<char>, f: Seq<char>, g: Seq<char>)
    ensures
        ff_symbol(c, f) == ff_symbol(d, f) ==> c == d,
        ff_symbol(c, f) == ff_symbol(c, g) ==> undotted(f) == undotted(g),
        symbol(c, f) == symbol(d, f) ==> c == d,
        symbol(c, f) == symbol(c, g) ==> f == g,
{
    let k = c.len() as int;
    reveal_strlit("_");
    reveal_strlit("__");
    if ff_symbol(c, f) == ff_symbol(d, f) {
        assert(c =~= ff_symbol(c, f).take(k));
        assert(d =~= ff_symbol(d, f).take(d.len() as int));
    }
    if ff_symbol(c, f) == ff_symbol(c, g) {
        assert(undotted(f) =~= ff_symbol(c, f).skip(k + 1));
        assert(undotted(g) =~= ff_symbol(c, g).skip(k + 1));
    }
    if symbol(c, f) == symbol(d, f) {
        assert(c =~= symbol(c, f).take(k));
        assert(d =~= symbol(d, f).take(d.len() as int));
    }
    if symbol(c, f) == symbol(c, g) {
        assert(f =~= symbol(c, f).skip(k + 2));
        assert(g =~= symbol(c, g).skip(k + 2));
    }
}

/// The variables of an instruction are its inputs, its outputs and its internal variables, and
/// nothing else, in this order.
pub proof fn lemma_all_variables(s: SpecV, x: Seq<char>)
    ensures
        s.all_vars().len() == s.inputs.len() + s.outputs.len() + s.internals.len(),
        forall|i: int| 0 <= i < s.inputs.len() ==> s.all_vars()[i] == #[trigger] s.inputs[i],
        forall|i: int|
            0 <= i < s.outputs.len() ==> s.all_vars()[s.inputs.len() + i]
                == #[trigger] s.outputs[i],
        forall|i: int|
            0 <= i < s.internals.len() ==> s.all_vars()[s.inputs.len() + s.outputs.len() + i]
                == #[trigger] s.internals[i],
        declared(s.all_vars(), x) <==> declared(s.inputs, x) || declared(s.outputs, x) || declared(
            s.internals,
            x,
        ),
        declared(s.inputs, x) <==> s.inputs.map_values(|v: VarV| v.name).contains(x),
{
    let all = s.all_vars();
    let a = s.inputs.len() as int;
    let b = a + s.outputs.len();
    let names = s.inputs.map_values(|v: VarV| v.name);
    if declared(s.inputs, x) {
        let i = choose|i: int| 0 <= i < s.inputs.len() && (#[trigger] s.inputs[i]).name == x;
        assert(all[i].name == x);
        assert(names[i] == x);
    }
    if names.contains(x) {
        let i = choose|i: int| 0 <= i < names.len() && names[i] == x;
        assert(s.inputs[i].name == x);
    }
    if declared(s.outputs, x) {
        let i = choose|i: int| 0 <= i < s.outputs.len() && (#[trigger] s.outputs[i]).name == x;
        assert(all[a + i].name == x);
    }
    if declared(s.internals, x) {
        let i = choose|i: int| 0 <= i < s.internals.len() && (#[trigger] s.internals[i]).name == x;
        assert(all[b + i].name == x);
    }
    if declared(all, x) {
        let i = choose|i: int| 0 <= i < all.len() && (#[trigger] all[i]).name == x;
        if i < a {
            assert(s.inputs[i].name == x);
        } else if i < b {
            assert(s.outputs[i - a].name == x);
        } else {
            assert(s.internals[i - b].name == x);
        }
    }
}

/// There are calls among constraints where one of them is a call, however many others there are.
pub proof fn lemma_calls_among(a: Seq<ConstraintV>, c: ConstraintV, b: Seq<ConstraintV>)
    ensures
        has_calls(a + seq![c] + b) <==> has_calls(a) || c is Call || has_calls(b),
        !has_calls(Seq::empty()),
{
    let all = a + seq![c] + b;
    let k = a.len() as int;
    assert(all[k] == c);
    if has_calls(a) {
        let i = choose|i: int| 0 <= i < a.len() && (#[trigger] a[i]) is Call;
        assert(all[i] is Call);
    }
    if has_calls(b) {
        let i = choose|i: int| 0 <= i < b.len() && (#[trigger] b[i]) is Call;
        assert(all[k + 1 + i] is Call);
    }
    if has_calls(all) {
        let i = choose|i: int| 0 <= i < all.len() && (#[trigger] all[i]) is Call;
        if i < k {
            assert(a[i] is Call);
        } else if i > k {
            assert(b[i - k - 1] is Call);
        }
    }
}

} // verus!
