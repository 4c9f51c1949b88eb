//! What a list of items defines.

use vstd::prelude::*;
use crate::ir::database::{ascending, components_of, externs_of};
use crate::ir::rules::{lowered, Env};
use crate::parser::ast::ItemV;
use crate::text::{before, lemma_before_total};

verus! {

/// The components and functions that items define, where calls of `abstracts` are not expanded.
pub open spec fn defined(its: Seq<ItemV>, abstracts: Set<Seq<char>>) -> Env {
    Env { components: components_of(its), externs: externs_of(its), abstracts }
}

/// Whether an item is a component of a name.
pub open spec fn is_component(it: ItemV, k: Seq<char>) -> bool {
    it matches ItemV::Component(c) && c.name == k
}

/// Whether an item is a function of a name that the prover supplies.
pub open spec fn is_extern(it: ItemV, k: Seq<char>) -> bool {
    it matches ItemV::Extern { name, .. } && name == k
}

/// Whether a component of a name is among items.
pub open spec fn has_component(its: Seq<ItemV>, k: Seq<char>) -> bool {
    exists|i: int| 0 <= i < its.len() && is_component(#[trigger] its[i], k)
}

/// Whether a function of a name is among items.
pub open spec fn has_extern(its: Seq<ItemV>, k: Seq<char>) -> bool {
    exists|i: int| 0 <= i < its.len() && is_extern(#[trigger] its[i], k)
}

/// Of several components with one name the last one counts.
pub proof fn lemma_last_component_counts(its: Seq<ItemV>, i: int, k: Seq<char>)
    requires
        0 <= i < its.len(),
        is_component(its[i], k),
        forall|j: int| i < j < its.len() ==> !is_component(#[trigger] its[j], k),
    ensures
        components_of(its).dom().contains(k),
        ItemV::Component(components_of(its)[k]) == its[i],
    decreases its.len(),
{
    let n = its.len() - 1;
    if i < n {
        let rest = its.drop_last();
        assert(rest[i] == its[i]);
        assert forall|j: int| i < j < rest.len() implies !is_component(#[trigger] rest[j], k) by {
            assert(rest[j] == its[j]);
        }
        lemma_last_component_counts(rest, i, k);
        assert(!is_component(its[n], k));
    }
}

/// Of several functions with one name the last one counts.
pub proof fn lemma_last_extern_counts(its: Seq<ItemV>, i: int, k: Seq<char>)
    requires
        0 <= i < its.len(),
        is_extern(its[i], k),
        forall|j: int| i < j < its.len() ==> !is_extern(#[trigger] its[j], k),
    ensures
        externs_of(its).dom().contains(k),
        its[i] == (ItemV::Extern { name: k, return_type: externs_of(its)[k] }),
    decreases its.len(),
{
    let n = its.len() - 1;
    if i < n {
        let rest = its.drop_last();
        assert(rest[i] == its[i]);
        assert forall|j: int| i < j < rest.len() implies !is_extern(#[trigger] rest[j], k) by {
            assert(rest[j] == its[j]);
        }
        lemma_last_extern_counts(rest, i, k);
        assert(!is_extern(its[n], k));
    }
}

/// A name is that of a component exactly where an item defines one.
pub proof fn lemma_components_are_items(its: Seq<ItemV>, k: Seq<char>)
    ensures
        components_of(its).dom().contains(k) <==> has_component(its, k),
    decreases its.len(),
{
    if its.len() > 0 {
        let n = its.len() - 1;
        let rest = its.drop_last();
        lemma_components_are_items(rest, k);
        assert(forall|j: int| 0 <= j < rest.len() ==> #[trigger] rest[j] == its[j]);
        if has_component(rest, k) {
            let j = choose|j: int| 0 <= j < rest.len() && is_component(#[trigger] rest[j], k);
            assert(is_component(its[j], k));
        }
        if has_component(its, k) && !is_component(its[n], k) {
            let j = choose|j: int| 0 <= j < its.len() && is_component(#[trigger] its[j], k);
            assert(is_component(rest[j], k));
        }
        if is_component(its[n], k) {
            assert(has_component(its, k));
        }
    }
}

/// A name is that of a function exactly where an item declares one.
pub proof fn lemma_externs_are_items(its: Seq<ItemV>, k: Seq<char>)
    ensures
        externs_of(its).dom().contains(k) <==> has_extern(its, k),
    decreases its.len(),
{
    if its.len() > 0 {
        let n = its.len() - 1;
        let rest = its.drop_last();
        lemma_externs_are_items(rest, k);
        assert(forall|j: int| 0 <= j < rest.len() ==> #[trigger] rest[j] == its[j]);
        if has_extern(rest, k) {
            let j = choose|j: int| 0 <= j < rest.len() && is_extern(#[trigger] rest[j], k);
            assert(is_extern(its[j], k));
        }
        if has_extern(its, k) && !is_extern(its[n], k) {
            let j = choose|j: int| 0 <= j < its.len() && is_extern(#[trigger] its[j], k);
            assert(is_extern(rest[j], k));
        }
        if is_extern(its[n], k) {
            assert(has_extern(its, k));
        }
    }
}

// ---------------------------------------------------------------------------
// Imports
// ---------------------------------------------------------------------------

/// The items that are no imports.
pub open spec fn without_imports(its: Seq<ItemV>) -> Seq<ItemV> {
    its.filter(|it: ItemV| !(it is Import))
}

/// Imports define nothing: without them every component is lowered to the same instruction.
pub proof fn lemma_imports_define_nothing(its: Seq<ItemV>, abstracts: Set<Seq<char>>)
    ensures
        defined(without_imports(its), abstracts) == defined(its, abstracts),
        forall|name: Seq<char>, depth: nat| #[trigger]
            lowered(defined(without_imports(its), abstracts), name, depth) == lowered(
                defined(its, abstracts),
                name,
                depth,
            ),
    decreases its.len(),
{
    reveal(Seq::filter);
    let keep = |it: ItemV| !(it is Import);
    if its.len() > 0 {
        let rest = its.drop_last();
        lemma_imports_define_nothing(rest, abstracts);
        assert(defined(rest.filter(keep), abstracts) == defined(rest, abstracts));
        if keep(its.last()) {
            assert(rest.filter(keep).push(its.last()).drop_last() =~= rest.filter(keep));
        }
    }
}

// ---------------------------------------------------------------------------
// The order of items
// ---------------------------------------------------------------------------

/// Whether no two components and no two functions have one name.
pub open spec fn different_names(its: Seq<ItemV>) -> bool {
    &&& forall|i: int, j: int, k: Seq<char>|
        0 <= i < j < its.len() && #[trigger] is_component(its[i], k) ==> !(
        #[trigger] is_component(its[j], k))
    &&& forall|i: int, j: int, k: Seq<char>|
        0 <= i < j < its.len() && #[trigger] is_extern(its[i], k) ==> !(#[trigger] is_extern(
            its[j],
            k,
        ))
}

/// Where an item stands twice, it counts twice.
proof fn lemma_twice_counts_twice(its: Seq<ItemV>, i: int, j: int)
    requires
        0 <= i < j < its.len(),
        its[i] == its[j],
    ensures
        its.to_multiset().count(its[i]) >= 2,
    decreases its.len(),
{
    let rest = its.drop_last();
    rest.to_multiset_ensures();
    assert(its =~= rest.push(its.last()));
    assert(its.to_multiset() == rest.to_multiset().insert(its.last()));
    assert(rest[i] == its[i]);
    if j < rest.len() {
        lemma_twice_counts_twice(rest, i, j);
    } else {
        assert(rest.contains(its[i]));
        assert(rest.to_multiset().count(its[i]) > 0);
    }
}

/// Where an item counts twice, it stands at two places.
proof fn lemma_counts_twice_stands_twice(its: Seq<ItemV>, x: ItemV) -> (r: (int, int))
    requires
        its.to_multiset().count(x) >= 2,
    ensures
        0 <= r.0 < r.1 < its.len(),
        its[r.0] == x,
        its[r.1] == x,
    decreases its.len(),
{
    its.to_multiset_ensures();
    if its.len() == 0 {
        assert(its.to_multiset().len() == 0);
        assert(its.contains(x));
        (0, 0)
    } else {
        let rest = its.drop_last();
        rest.to_multiset_ensures();
        assert(its =~= rest.push(its.last()));
        assert(its.to_multiset() == rest.to_multiset().insert(its.last()));
        if rest.to_multiset().count(x) >= 2 {
            let r = lemma_counts_twice_stands_twice(rest, x);
            assert(rest[r.0] == its[r.0] && rest[r.1] == its[r.1]);
            r
        } else {
            assert(its.last() == x);
            assert(rest.to_multiset().count(x) > 0);
            assert(rest.contains(x));
            let i = choose|i: int| 0 <= i < rest.len() && rest[i] == x;
            assert(its[i] == x);
            (i, its.len() - 1)
        }
    }
}

/// Two places in one order of items are two places in another.
proof fn lemma_two_places(a: Seq<ItemV>, b: Seq<ItemV>, i: int, j: int) -> (r: (int, int))
    requires
        a.to_multiset() == b.to_multiset(),
        0 <= i < j < b.len(),
    ensures
        0 <= r.0 < r.1 < a.len(),
        (a[r.0] == b[i] && a[r.1] == b[j]) || (a[r.0] == b[j] && a[r.1] == b[i]),
{
    a.to_multiset_ensures();
    b.to_multiset_ensures();
    if b[i] == b[j] {
        lemma_twice_counts_twice(b, i, j);
        lemma_counts_twice_stands_twice(a, b[i])
    } else {
        assert(b.contains(b[i]) && b.contains(b[j]));
        assert(b.to_multiset().count(b[i]) > 0 && b.to_multiset().count(b[j]) > 0);
        assert(a.contains(b[i]) && a.contains(b[j]));
        let x = choose|x: int| 0 <= x < a.len() && a[x] == b[i];
        let y = choose|y: int| 0 <= y < a.len() && a[y] == b[j];
        if x < y {
            (x, y)
        } else {
            (y, x)
        }
    }
}

/// In another order items with different names still have different names.
proof fn lemma_still_different(a: Seq<ItemV>, b: Seq<ItemV>)
    requires
        different_names(a),
        a.to_multiset() == b.to_multiset(),
    ensures
        different_names(b),
{
    assert forall|i: int, j: int, k: Seq<char>|
        0 <= i < j < b.len() && #[trigger] is_component(b[i], k) implies !(
    #[trigger] is_component(b[j], k)) by {
        let r = lemma_two_places(a, b, i, j);
        assert(is_component(a[r.0], k) ==> !is_component(a[r.1], k));
    }
    assert forall|i: int, j: int, k: Seq<char>|
        0 <= i < j < b.len() && #[trigger] is_extern(b[i], k) implies !(#[trigger] is_extern(
        b[j],
        k,
    )) by {
        let r = lemma_two_places(a, b, i, j);
        assert(is_extern(a[r.0], k) ==> !is_extern(a[r.1], k));
    }
}

proof fn lemma_component_elsewhere(a: Seq<ItemV>, b: Seq<ItemV>, k: Seq<char>)
    requires
        different_names(a),
        different_names(b),
        a.to_multiset() == b.to_multiset(),
        components_of(a).dom().contains(k),
    ensures
        components_of(b).dom().contains(k),
        components_of(b)[k] == components_of(a)[k],
{
    lemma_components_are_items(a, k);
    let i = choose|i: int| 0 <= i < a.len() && is_component(#[trigger] a[i], k);
    assert forall|j: int| i < j < a.len() implies !is_component(#[trigger] a[j], k) by {
        assert(is_component(a[i], k));
    }
    lemma_last_component_counts(a, i, k);
    a.to_multiset_ensures();
    b.to_multiset_ensures();
    assert(a.contains(a[i]));
    assert(a.to_multiset().count(a[i]) > 0);
    assert(b.to_multiset().count(a[i]) > 0);
    assert(b.contains(a[i]));
    let m = choose|m: int| 0 <= m < b.len() && b[m] == a[i];
    assert forall|j: int| m < j < b.len() implies !is_component(#[trigger] b[j], k) by {
        assert(is_component(b[m], k));
    }
    lemma_last_component_counts(b, m, k);
}

proof fn lemma_extern_elsewhere(a: Seq<ItemV>, b: Seq<ItemV>, k: Seq<char>)
    requires
        different_names(a),
        different_names(b),
        a.to_multiset() == b.to_multiset(),
        externs_of(a).dom().contains(k),
    ensures
        externs_of(b).dom().contains(k),
        externs_of(b)[k] == externs_of(a)[k],
{
    lemma_externs_are_items(a, k);
    let i = choose|i: int| 0 <= i < a.len() && is_extern(#[trigger] a[i], k);
    assert forall|j: int| i < j < a.len() implies !is_extern(#[trigger] a[j], k) by {
        assert(is_extern(a[i], k));
    }
    lemma_last_extern_counts(a, i, k);
    a.to_multiset_ensures();
    b.to_multiset_ensures();
    assert(a.contains(a[i]));
    assert(a.to_multiset().count(a[i]) > 0);
    assert(b.to_multiset().count(a[i]) > 0);
    assert(b.contains(a[i]));
    let m = choose|m: int| 0 <= m < b.len() && b[m] == a[i];
    assert forall|j: int| m < j < b.len() implies !is_extern(#[trigger] b[j], k) by {
        assert(is_extern(b[m], k));
    }
    lemma_last_extern_counts(b, m, k);
}

/// The order of items with different names does not matter: in another order they define the
/// same, and every component is lowered to the same instruction.
pub proof fn lemma_order_of_items(a: Seq<ItemV>, b: Seq<ItemV>, abstracts: Set<Seq<char>>)
    requires
        different_names(a),
        a.to_multiset() == b.to_multiset(),
    ensures
        defined(a, abstracts) == defined(b, abstracts),
        forall|name: Seq<char>, depth: nat| #[trigger]
            lowered(defined(a, abstracts), name, depth) == lowered(
                defined(b, abstracts),
                name,
                depth,
            ),
{
    lemma_still_different(a, b);
    assert(components_of(a) =~= components_of(b)) by {
        assert forall|k: Seq<char>|
            #[trigger] components_of(a).dom().contains(k) implies components_of(b).dom().contains(k)
            && components_of(b)[k] == components_of(a)[k] by {
            lemma_component_elsewhere(a, b, k);
        }
        assert forall|k: Seq<char>|
            #[trigger] components_of(b).dom().contains(k) implies components_of(
            a,
        ).dom().contains(k) by {
            lemma_component_elsewhere(b, a, k);
        }
    }
    assert(externs_of(a) =~= externs_of(b)) by {
        assert forall|k: Seq<char>|
            #[trigger] externs_of(a).dom().contains(k) implies externs_of(b).dom().contains(k)
            && externs_of(b)[k] == externs_of(a)[k] by {
            lemma_extern_elsewhere(a, b, k);
        }
        assert forall|k: Seq<char>|
            #[trigger] externs_of(b).dom().contains(k) implies externs_of(a).dom().contains(k) by {
            lemma_extern_elsewhere(b, a, k);
        }
    }
}

/// The names of components in order are determined by which names there are: two lists of names
/// in order that hold the same names are the same.
pub proof fn lemma_names_in_order(v: Seq<Seq<char>>, w: Seq<Seq<char>>)
    requires
        ascending(v),
        ascending(w),
        forall|k: Seq<char>| #[trigger] v.contains(k) <==> w.contains(k),
    ensures
        v == w,
    decreases v.len(),
{
    if v.len() == 0 {
        if w.len() > 0 {
            assert(w.contains(w[0]));
            assert(v.contains(w[0]));
        }
        assert(v =~= w);
    } else {
        assert(v.contains(v[0]));
        let j = choose|j: int| 0 <= j < w.len() && w[j] == v[0];
        assert(w.contains(w[0]));
        assert(v.contains(w[0]));
        let i = choose|i: int| 0 <= i < v.len() && v[i] == w[0];
        assert(v[0] == w[0]) by {
            lemma_before_total(v[0], w[0]);
            if i > 0 && j > 0 {
                assert(before(v[0], v[i]));
                assert(before(w[0], w[j]));
            }
        }
        let a = v.drop_first();
        let b = w.drop_first();
        assert(forall|x: int| 0 <= x < a.len() ==> #[trigger] a[x] == v[x + 1]);
        assert(forall|x: int| 0 <= x < b.len() ==> #[trigger] b[x] == w[x + 1]);
        assert(ascending(a)) by {
            assert forall|x: int, y: int| 0 <= x < y < a.len() implies before(a[x], a[y]) by {
                assert(before(v[x + 1], v[y + 1]));
            }
        }
        assert(ascending(b)) by {
            assert forall|x: int, y: int| 0 <= x < y < b.len() implies before(b[x], b[y]) by {
                assert(before(w[x + 1], w[y + 1]));
            }
        }
        assert forall|k: Seq<char>| #[trigger] a.contains(k) <==> b.contains(k) by {
            lemma_rest_contains(v, k);
            lemma_rest_contains(w, k);
            assert(v.contains(k) <==> w.contains(k));
        }
        lemma_names_in_order(a, b);
        assert(v =~= seq![v[0]] + a);
        assert(w =~= seq![w[0]] + b);
    }
}

proof fn lemma_rest_contains(v: Seq<Seq<char>>, k: Seq<char>)
    requires
        v.len() > 0,
        ascending(v),
    ensures
        v.drop_first().contains(k) <==> v.contains(k) && k != v[0],
{
    let a = v.drop_first();
    if a.contains(k) {
        let x = choose|x: int| 0 <= x < a.len() && a[x] == k;
        assert(v[x + 1] == k);
        assert(before(v[0], v[x + 1]));
        lemma_before_total(v[0], k);
    }
    if v.contains(k) && k != v[0] {
        let x = choose|x: int| 0 <= x < v.len() && v[x] == k;
        assert(a[x - 1] == k);
    }
}

} // verus!
