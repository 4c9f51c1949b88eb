//! The components that a source file defines.

use vstd::prelude::*;
use crate::ir::rules::Env;
use crate::ir::value::{find, keys, lemma_place, place};
use crate::parser::ast::{items, ComponentDef, ComponentV, Item, ItemV};
use crate::text::{
    before, is_before, lemma_before_total, lemma_before_transitive, same, str_texts, texts,
};

verus! {

/// The components that a source file defines, with its functions that the prover
/// supplies, and the components whose calls are not expanded.
pub struct ComponentDB {
    components: Vec<(String, ComponentDef)>,
    externs: Vec<(String, String)>,
    abstract_list: Vec<String>,
}

/// The components that items define; of two with one name, the later counts.
pub open spec fn components_of(its: Seq<ItemV>) -> Map<Seq<char>, ComponentV>
    decreases its.len(),
{
    if its.len() == 0 {
        Map::empty()
    } else {
        let rest = components_of(its.drop_last());
        match its.last() {
            ItemV::Component(c) => rest.insert(c.name, c),
            _ => rest,
        }
    }
}

/// The types of the results of the functions that items declare; of two with one name,
/// the later counts.
pub open spec fn externs_of(its: Seq<ItemV>) -> Map<Seq<char>, Seq<char>>
    decreases its.len(),
{
    if its.len() == 0 {
        Map::empty()
    } else {
        let rest = externs_of(its.drop_last());
        match its.last() {
            ItemV::Extern { name, return_type } => rest.insert(name, return_type),
            _ => rest,
        }
    }
}

/// The components of a sequence of named components.
spec fn component_map(v: Seq<(String, ComponentDef)>) -> Map<Seq<char>, ComponentV> {
    Map::new(
        |k: Seq<char>| place(keys(v), k, 0) is Some,
        |k: Seq<char>| v[place(keys(v), k, 0)->Some_0].1@,
    )
}

/// The types of a sequence of named types.
spec fn extern_map(v: Seq<(String, String)>) -> Map<Seq<char>, Seq<char>> {
    Map::new(
        |k: Seq<char>| place(keys(v), k, 0) is Some,
        |k: Seq<char>| v[place(keys(v), k, 0)->Some_0].1@,
    )
}

/// Putting something under a name leaves the places of other names as they are.
proof fn lemma_place_put<T>(v: Seq<(String, T)>, w: Seq<(String, T)>, k: Seq<char>, x: (String, T))
    requires
        x.0@ == k,
        w == (match place(keys(v), k, 0) {
            Some(i) => v.update(i, x),
            None => v.push(x),
        }),
    ensures
        place(keys(w), k, 0) == Some(
            match place(keys(v), k, 0) {
                Some(i) => i,
                None => v.len() as int,
            },
        ),
        forall|m: Seq<char>| m != k ==> place(keys(w), m, 0) == place(keys(v), m, 0),
{
    lemma_place(keys(v), k, 0);
    lemma_place(keys(w), k, 0);
    let p = match place(keys(v), k, 0) {
        Some(i) => i,
        None => v.len() as int,
    };
    assert(keys(w)[p] == k);
    assert forall|i: int| 0 <= i < keys(v).len() && i != p implies keys(w)[i] == keys(v)[i] by {}
    assert forall|m: Seq<char>| m != k implies place(keys(w), m, 0) == place(keys(v), m, 0) by {
        lemma_place(keys(v), m, 0);
        lemma_place(keys(w), m, 0);
    }
}

impl ComponentDB {
    /// What the components and functions are, as mathematical values.
    pub closed spec fn view(&self) -> Env {
        Env {
            components: component_map(self.components@),
            externs: extern_map(self.externs@),
            abstracts: Set::new(|k: Seq<char>| texts(self.abstract_list@).contains(k)),
        }
    }

    /// Collects what items define.
    pub fn new(its: &[Item]) -> (r: Self)
        ensures
            r@.components == components_of(items(its@)),
            r@.externs == externs_of(items(its@)),
            r@.abstracts == Set::<Seq<char>>::empty(),
    {
        let mut components: Vec<(String, ComponentDef)> = Vec::new();
        let mut externs: Vec<(String, String)> = Vec::new();
        let mut i: usize = 0;
        proof {
            assert(component_map(components@) =~= Map::empty());
            assert(extern_map(externs@) =~= Map::empty());
        }
        while i < its.len()
            invariant
                i <= its.len(),
                component_map(components@) == components_of(items(its@).take(i as int)),
                extern_map(externs@) == externs_of(items(its@).take(i as int)),
            decreases its.len() - i,
        {
            proof {
                assert(items(its@).take(i + 1).drop_last() =~= items(its@).take(i as int));
                assert(items(its@).take(i + 1).last() == its@[i as int]@);
            }
            match &its[i] {
                Item::Component(c) => {
                    let ghost v = components@;
                    let pair = (c.name.clone(), c.clone());
                    let ghost x = pair;
                    match find(&components, &c.name) {
                        Some(p) => components.set(p, pair),
                        None => components.push(pair),
                    }
                    proof {
                        lemma_place_put(v, components@, c.name@, x);
                        lemma_place(keys(v), c.name@, 0);
                        assert forall|m: Seq<char>|
                            m != c.name@ && place(keys(v), m, 0) is Some implies {
                            components@[place(keys(v), m, 0)->Some_0]
                                == v[place(keys(v), m, 0)->Some_0]
                        } by {
                            lemma_place(keys(v), m, 0);
                        }
                        assert(component_map(components@) =~= component_map(v).insert(
                            c.name@,
                            c@,
                        ));
                    }
                },
                Item::Extern { name, return_type } => {
                    let ghost v = externs@;
                    let pair = (name.clone(), return_type.clone());
                    let ghost x = pair;
                    match find(&externs, name) {
                        Some(p) => externs.set(p, pair),
                        None => externs.push(pair),
                    }
                    proof {
                        lemma_place_put(v, externs@, name@, x);
                        lemma_place(keys(v), name@, 0);
                        assert forall|m: Seq<char>|
                            m != name@ && place(keys(v), m, 0) is Some implies {
                            externs@[place(keys(v), m, 0)->Some_0]
                                == v[place(keys(v), m, 0)->Some_0]
                        } by {
                            lemma_place(keys(v), m, 0);
                        }
                        assert(extern_map(externs@) =~= extern_map(v).insert(
                            name@,
                            return_type@,
                        ));
                    }
                },
                Item::Import(_) => {},
            }
            i += 1;
        }
        proof {
            assert(items(its@).take(i as int) =~= items(its@));
        }
        let r = ComponentDB { components, externs, abstract_list: Vec::new() };
        proof {
            assert(r@.abstracts =~= Set::<Seq<char>>::empty());
        }
        r
    }

    /// Sets the components whose calls are not expanded.
    pub fn set_abstract(&mut self, names: &[&str])
        ensures
            final(self)@ == (Env {
                abstracts: Set::new(|k: Seq<char>| str_texts(names@).contains(k)),
                ..old(self)@
            }),
    {
        let mut list: Vec<String> = Vec::new();
        let mut i: usize = 0;
        while i < names.len()
            invariant
                i <= names.len(),
                texts(list@) =~= str_texts(names@).take(i as int),
            decreases names.len() - i,
        {
            let ghost was = texts(list@);
            list.push(names[i].to_owned());
            i += 1;
            assert(texts(list@) =~= was.push(names@[i - 1]@));
        }
        self.abstract_list = list;
        proof {
            assert(str_texts(names@).take(i as int) =~= str_texts(names@));
        }
    }

    /// The names of the components, in order.
    pub fn names(&self) -> (r: Vec<String>)
        ensures
            forall|i: int, j: int| 0 <= i < j < r@.len() ==> before(r@[i]@, r@[j]@),
            forall|k: Seq<char>|
                texts(r@).contains(k) <==> #[trigger] self@.components.dom().contains(k),
    {
        let mut out: Vec<String> = Vec::new();
        let mut i: usize = 0;
        while i < self.components.len()
            invariant
                i <= self.components.len(),
                ascending(texts(out@)),
                forall|k: Seq<char>|
                    texts(out@).contains(k) <==> #[trigger] keys(self.components@).take(
                        i as int,
                    ).contains(k),
            decreases self.components.len() - i,
        {
            let ghost before_names = texts(out@);
            let ghost before_keys = keys(self.components@).take(i as int);
            insert_name(&mut out, &self.components[i].0);
            i += 1;
            proof {
                let now = keys(self.components@).take(i as int);
                assert(now =~= before_keys.push(self.components@[i - 1].0@));
                assert forall|k: Seq<char>| texts(out@).contains(k) <==> #[trigger] now.contains(
                    k,
                ) by {
                    lemma_push_contains(before_keys, self.components@[i - 1].0@, k);
                }
            }
        }
        proof {
            let all = keys(self.components@);
            assert(all.take(i as int) =~= all);
            assert forall|k: Seq<char>|
                texts(out@).contains(k) <==> #[trigger] self@.components.dom().contains(k) by {
                lemma_place(all, k, 0);
                assert(all.take(i as int).contains(k) <==> all.contains(k));
                assert(all.contains(k) <==> place(all, k, 0) is Some);
            }
            assert forall|a: int, b: int| 0 <= a < b < out@.len() implies before(
                out@[a]@,
                out@[b]@,
            ) by {
                assert(before(texts(out@)[a], texts(out@)[b]));
            }
        }
        out
    }

    /// The component of a name.
    pub(crate) fn component(&self, name: &str) -> (r: Option<&ComponentDef>)
        ensures
            match r {
                Some(c) => self@.components.dom().contains(name@) && self@.components[name@]
                    == c@,
                None => !self@.components.dom().contains(name@),
            },
    {
        match find(&self.components, name) {
            Some(i) => Some(&self.components[i].1),
            None => None,
        }
    }

    /// The type of the result of a function that the prover supplies.
    pub(crate) fn return_type(&self, name: &str) -> (r: Option<&String>)
        ensures
            match r {
                Some(t) => self@.externs.dom().contains(name@) && self@.externs[name@] == t@,
                None => !self@.externs.dom().contains(name@),
            },
    {
        match find(&self.externs, name) {
            Some(i) => Some(&self.externs[i].1),
            None => None,
        }
    }

    /// Whether calls of a component are not expanded.
    pub(crate) fn is_abstract(&self, name: &str) -> (r: bool)
        ensures
            r == self@.abstracts.contains(name@),
    {
        let mut i: usize = 0;
        while i < self.abstract_list.len()
            invariant
                i <= self.abstract_list.len(),
                forall|j: int| 0 <= j < i ==> texts(self.abstract_list@)[j] != name@,
            decreases self.abstract_list.len() - i,
        {
            if same(&self.abstract_list[i], name) {
                assert(texts(self.abstract_list@)[i as int] == name@);
                return true;
            }
            i += 1;
        }
        false
    }
}

/// Whether texts stand in order, each once.
pub open spec fn ascending(v: Seq<Seq<char>>) -> bool {
    forall|i: int, j: int| 0 <= i < j < v.len() ==> before(v[i], v[j])
}

proof fn lemma_push_contains(v: Seq<Seq<char>>, x: Seq<char>, k: Seq<char>)
    ensures
        v.push(x).contains(k) <==> v.contains(k) || k == x,
{
    if v.contains(k) {
        let i = choose|i: int| 0 <= i < v.len() && v[i] == k;
        assert(v.push(x)[i] == k);
    }
    if k == x {
        assert(v.push(x)[v.len() as int] == k);
    }
}

/// Inserts a name where it belongs, unless it is there.
fn insert_name(v: &mut Vec<String>, name: &String)
    requires
        ascending(texts(old(v)@)),
    ensures
        ascending(texts(final(v)@)),
        forall|k: Seq<char>|
            #[trigger] texts(final(v)@).contains(k) <==> texts(old(v)@).contains(k) || k == name@,
{
    let mut i: usize = 0;
    while i < v.len() && is_before(&v[i], name)
        invariant
            v@ == old(v)@,
            i <= v.len(),
            forall|j: int| 0 <= j < i ==> before(texts(v@)[j], name@),
        decreases v.len() - i,
    {
        i += 1;
    }
    if i < v.len() && same(&v[i], name) {
        assert(texts(v@)[i as int] == name@);
        return ;
    }
    let ghost was = texts(v@);
    let copy = name.clone();
    v.insert(i, copy);
    proof {
        let now = texts(v@);
        assert(now =~= was.insert(i as int, name@));
        if i < was.len() {
            lemma_before_total(was[i as int], name@);
        }
        assert forall|j: int| i <= j < was.len() implies before(name@, was[j]) by {
            if j > i {
                lemma_before_transitive(name@, was[i as int], was[j]);
            }
        }
        assert(ascending(now));
        assert forall|k: Seq<char>|
            #[trigger] now.contains(k) <==> was.contains(k) || k == name@ by {
            if was.contains(k) {
                let j = choose|j: int| 0 <= j < was.len() && was[j] == k;
                if j < i {
                    assert(now[j] == k);
                } else {
                    assert(now[j + 1] == k);
                }
            }
            if k == name@ {
                assert(now[i as int] == k);
            }
            if now.contains(k) {
                let j = choose|j: int| 0 <= j < now.len() && now[j] == k;
                if j < i {
                    assert(was[j] == k);
                } else if j > i {
                    assert(was[j - 1] == k);
                }
            }
        }
    }
}

} // verus!
