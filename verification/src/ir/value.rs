//! Values of expressions during lowering.

use vstd::prelude::*;
use crate::ir::{copy_ir_exprs, ir_exprs, IrExpr, IrExprV};
use crate::text::same;

verus! {

/// The value of an expression: a scalar, a structure whose fields have names, or an
/// array of scalars.
#[derive(Debug)]
pub enum Value {
    Expr(IrExpr),
    Struct(Vec<(String, Value)>),
    BitArray(Vec<IrExpr>),
}

/// A value as a mathematical value.
pub enum ValueV {
    Expr(IrExprV),
    Struct(Seq<(Seq<char>, ValueV)>),
    BitArray(Seq<IrExprV>),
}

/// Names with values, in the order in which they came. Lowering makes only such as are `tidy`.
pub type Fields = Seq<(Seq<char>, ValueV)>;

/// Whether each name stands once.
pub open spec fn each_once<T>(f: Seq<(Seq<char>, T)>) -> bool {
    forall|i: int, j: int| 0 <= i < j < f.len() ==> (#[trigger] f[i]).0 != (#[trigger] f[j]).0
}

/// Whether each name stands once among the fields of every structure in a value.
pub open spec fn tidy(v: ValueV) -> bool
    decreases v,
{
    match v {
        ValueV::Struct(f) => tidy_fields(f),
        _ => true,
    }
}

/// Whether each name stands once among fields, and in every structure in them.
pub open spec fn tidy_fields(f: Fields) -> bool
    decreases f,
{
    each_once(f) && forall|i: int| 0 <= i < f.len() ==> tidy((#[trigger] f[i]).1)
}

impl Value {
    /// The mathematical value.
    pub open spec fn view(&self) -> ValueV
        decreases self,
    {
        match self {
            Value::Expr(e) => ValueV::Expr(e@),
            Value::Struct(v) => ValueV::Struct(
                Seq::new(
                    v@.len(),
                    |i: int|
                        if 0 <= i < v@.len() {
                            (v@[i].0@, v@[i].1.view())
                        } else {
                            arbitrary()
                        },
                ),
            ),
            Value::BitArray(v) => ValueV::BitArray(ir_exprs(v@)),
        }
    }
}

/// The mathematical values of a sequence of named values.
pub open spec fn fields(v: Seq<(String, Value)>) -> Fields {
    v.map_values(|p: (String, Value)| (p.0@, p.1@))
}

/// The mathematical values of a sequence of values.
pub open spec fn values(v: Seq<Value>) -> Seq<ValueV> {
    v.map_values(|x: Value| x@)
}

/// The value of a structure, by the values of its fields.
pub proof fn lemma_struct_view(v: Vec<(String, Value)>)
    ensures
        Value::Struct(v)@ == ValueV::Struct(fields(v@)),
{
    assert(Value::Struct(v)@->Struct_0 =~= fields(v@));
}

/// The first place of a name at or after `i`.
pub open spec fn place(names: Seq<Seq<char>>, k: Seq<char>, i: int) -> Option<int>
    decreases names.len() - i,
{
    if 0 <= i < names.len() {
        if names[i] == k {
            Some(i)
        } else {
            place(names, k, i + 1)
        }
    } else {
        None
    }
}

/// The first components of a sequence of pairs.
pub open spec fn firsts<T>(f: Seq<(Seq<char>, T)>) -> Seq<Seq<char>> {
    Seq::new(f.len(), |i: int| f[i].0)
}

/// What stands under a name.
pub open spec fn get<T>(f: Seq<(Seq<char>, T)>, k: Seq<char>) -> Option<T> {
    match place(firsts(f), k, 0) {
        Some(i) => Some(f[i].1),
        None => None,
    }
}

/// The pairs with `v` put under a name: in the place of what stood there, or else at
/// the end.
pub open spec fn put<T>(f: Seq<(Seq<char>, T)>, k: Seq<char>, v: T) -> Seq<(Seq<char>, T)> {
    match place(firsts(f), k, 0) {
        Some(i) => f.update(i, (k, v)),
        None => f.push((k, v)),
    }
}

/// The structure of a low and a high half.
pub open spec fn halves(low: ValueV, high: ValueV) -> ValueV {
    ValueV::Struct(seq![("low"@, low), ("high"@, high)])
}

/// The keys of a sequence of pairs.
pub open spec fn keys<T>(v: Seq<(String, T)>) -> Seq<Seq<char>> {
    Seq::new(v.len(), |i: int| v[i].0@)
}

/// A place that is found lies in the sequence, holds the name, and is the first that
/// does.
pub proof fn lemma_place(names: Seq<Seq<char>>, k: Seq<char>, i: int)
    requires
        0 <= i <= names.len(),
    ensures
        match place(names, k, i) {
            Some(j) => i <= j < names.len() && names[j] == k && forall|m: int|
                i <= m < j ==> names[m] != k,
            None => forall|m: int| i <= m < names.len() ==> names[m] != k,
        },
    decreases names.len() - i,
{
    if i < names.len() && names[i] != k {
        lemma_place(names, k, i + 1);
    }
}

/// Putting a value under a name leaves each name once.
pub proof fn lemma_put_each_once<T>(f: Seq<(Seq<char>, T)>, k: Seq<char>, v: T)
    requires
        each_once(f),
    ensures
        each_once(put(f, k, v)),
{
    lemma_place(firsts(f), k, 0);
    let g = put(f, k, v);
    assert forall|i: int, j: int| 0 <= i < j < g.len() implies (#[trigger] g[i]).0 != (
    #[trigger] g[j]).0 by {
        assert(i < f.len() ==> firsts(f)[i] == f[i].0);
        assert(j < f.len() ==> firsts(f)[j] == f[j].0);
    }
}

/// Finds the first place of a name.
pub fn find<T>(v: &Vec<(String, T)>, k: &str) -> (r: Option<usize>)
    ensures
        match place(keys(v@), k@, 0) {
            Some(i) => r is Some && r->Some_0 == i && 0 <= i < v@.len(),
            None => r is None,
        },
{
    let mut i: usize = 0;
    while i < v.len()
        invariant
            i <= v.len(),
            place(keys(v@), k@, 0) == place(keys(v@), k@, i as int),
        decreases v.len() - i,
    {
        if same(&v[i].0, k) {
            return Some(i);
        }
        i += 1;
    }
    None
}

impl Clone for Value {
    fn clone(&self) -> (r: Self)
        ensures
            r@ == self@,
        decreases self,
    {
        match self {
            Value::Expr(e) => Value::Expr(e.clone()),
            Value::Struct(v) => {
                let mut out: Vec<(String, Value)> = Vec::new();
                let mut i: usize = 0;
                while i < v.len()
                    invariant
                        i <= v.len(),
                        out.len() == i,
                        forall|j: int| 0 <= j < i ==> out[j].0@ == v[j].0@ && out[j].1@ == v[j].1@,
                        decreases_to!(self => v),
                    decreases v.len() - i,
                {
                    assert(decreases_to!(v@ => v@[i as int]));
                    assert(decreases_to!(v@[i as int] => v@[i as int].1));
                    out.push((v[i].0.clone(), v[i].1.clone()));
                    i += 1;
                }
                proof {
                    lemma_struct_view(out);
                    lemma_struct_view(*v);
                    assert(fields(out@) =~= fields(v@));
                }
                Value::Struct(out)
            },
            Value::BitArray(v) => Value::BitArray(copy_ir_exprs(v)),
        }
    }
}

impl Value {
    /// The field of a structure.
    pub fn field(&self, name: &str) -> (r: Option<&Value>)
        ensures
            match field_of(self@, name@) {
                Some(v) => r is Some && r->Some_0@ == v,
                None => r is None,
            },
    {
        match self {
            Value::Struct(v) => {
                proof {
                    lemma_struct_view(*v);
                    lemma_keys(v@);
                }
                match find(v, name) {
                    Some(i) => Some(&v[i].1),
                    None => None,
                }
            },
            _ => None,
        }
    }

    /// The structure of a low and a high half.
    pub fn make_struct(low: Value, high: Value) -> (r: Value)
        ensures
            r@ == halves(low@, high@),
    {
        let mut v: Vec<(String, Value)> = Vec::new();
        v.push(("low".to_owned(), low));
        v.push(("high".to_owned(), high));
        proof {
            lemma_struct_view(v);
            assert(fields(v@) =~= seq![("low"@, low@), ("high"@, high@)]);
        }
        Value::Struct(v)
    }
}

/// The field of a structure; nothing else has fields.
pub open spec fn field_of(v: ValueV, name: Seq<char>) -> Option<ValueV> {
    match v {
        ValueV::Struct(f) => get(f, name),
        _ => None,
    }
}

/// The names of the fields are the keys.
pub proof fn lemma_keys(v: Seq<(String, Value)>)
    ensures
        firsts(fields(v)) == keys(v),
{
    assert(firsts(fields(v)) =~= keys(v));
}

/// Puts a value under a name.
pub fn put_value(v: &mut Vec<(String, Value)>, k: &str, x: Value)
    ensures
        fields(final(v)@) == put(fields(old(v)@), k@, x@),
{
    proof {
        lemma_keys(v@);
    }
    match find(v, k) {
        Some(i) => {
            v.set(i, (k.to_owned(), x));
        },
        None => {
            v.push((k.to_owned(), x));
        },
    }
    assert(fields(v@) =~= put(fields(old(v)@), k@, x@));
}

/// Copies named values.
pub fn copy_fields(v: &Vec<(String, Value)>) -> (r: Vec<(String, Value)>)
    ensures
        fields(r@) == fields(v@),
{
    let mut out: Vec<(String, Value)> = Vec::new();
    let mut i: usize = 0;
    while i < v.len()
        invariant
            i <= v.len(),
            out.len() == i,
            forall|j: int| 0 <= j < i ==> out[j].0@ == v[j].0@ && out[j].1@ == v[j].1@,
        decreases v.len() - i,
    {
        out.push((v[i].0.clone(), v[i].1.clone()));
        i += 1;
    }
    assert(fields(out@) =~= fields(v@));
    out
}

} // verus!
