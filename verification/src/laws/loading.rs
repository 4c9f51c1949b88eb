//! Laws of loading.

use vstd::prelude::*;
use crate::loader::{
    advance, found, next_import, parse_failure, sourced, started, ActionV, FrameV, LoaderV,
};
use crate::parser::ast::ItemV;
use crate::parser::items_of_text;

verus! {

/// The files that there are: the source text of each path, and the path of the file that
/// an import names, by the file that imports it.
pub struct Files {
    pub source: spec_fn(Seq<char>) -> Seq<char>,
    pub find: spec_fn(Seq<char>, Seq<char>) -> Option<Seq<char>>,
}

/// What loading gives.
pub enum Loaded {
    /// The items, and the files that were begun.
    Done(Seq<ItemV>, Seq<Seq<char>>),
    /// A message.
    Fail(Seq<char>),
    /// Files import each other too deeply.
    TooDeep,
}

/// The items of a file behind `all`, where the files `loaded` were begun before. The items
/// of its imports come first, in order; a file that was begun is passed over.
pub open spec fn load(
    fs: Files,
    path: Seq<char>,
    all: Seq<ItemV>,
    loaded: Seq<Seq<char>>,
    depth: nat,
) -> Loaded
    decreases depth, 0int, 0int,
{
    if loaded.contains(path) {
        Loaded::Done(all, loaded)
    } else if depth == 0 {
        Loaded::TooDeep
    } else {
        match items_of_text((fs.source)(path)) {
            Err(e) => Loaded::Fail(parse_failure(path, e)),
            Ok(its) => match load_imports(
                fs,
                path,
                its,
                0,
                all,
                loaded.push(path),
                (depth - 1) as nat,
            ) {
                Loaded::Done(a, l) => Loaded::Done(a + its, l),
                other => other,
            },
        }
    }
}

/// The items of the imports of a file from `i` on, behind `all`.
pub open spec fn load_imports(
    fs: Files,
    path: Seq<char>,
    its: Seq<ItemV>,
    i: int,
    all: Seq<ItemV>,
    loaded: Seq<Seq<char>>,
    depth: nat,
) -> Loaded
    decreases depth, 1int, its.len() - i,
{
    if 0 <= i < its.len() {
        match its[i] {
            ItemV::Import(name) => match (fs.find)(path, name) {
                Some(p) => match load(fs, p, all, loaded, depth) {
                    Loaded::Done(a, l) => load_imports(fs, path, its, i + 1, a, l, depth),
                    other => other,
                },
                None => load_imports(fs, path, its, i + 1, all, loaded, depth),
            },
            _ => load_imports(fs, path, its, i + 1, all, loaded, depth),
        }
    } else {
        Loaded::Done(all, loaded)
    }
}

/// The state and the action after the caller has done an action.
pub open spec fn turn(fs: Files, x: (LoaderV, ActionV)) -> (LoaderV, ActionV) {
    match x.1 {
        ActionV::Read(p) => sourced(x.0, p, (fs.source)(p)),
        ActionV::Find { importer, name } => found(x.0, (fs.find)(importer, name)),
        ActionV::Finish => x,
        ActionV::GiveUp(_) => x,
    }
}

/// The state and the action after `n` actions.
pub open spec fn turns(fs: Files, x: (LoaderV, ActionV), n: nat) -> (LoaderV, ActionV)
    decreases n,
{
    if n == 0 {
        x
    } else {
        turn(fs, turns(fs, x, (n - 1) as nat))
    }
}

proof fn lemma_turns_add(fs: Files, x: (LoaderV, ActionV), n: nat, m: nat)
    ensures
        turns(fs, turns(fs, x, n), m) == turns(fs, x, n + m),
    decreases m,
{
    if m > 0 {
        lemma_turns_add(fs, x, n, (m - 1) as nat);
    }
}

/// The outcome of loading, as it is reached with other files at work.
spec fn outcome(r: Loaded, stack: Seq<FrameV>, y: (LoaderV, ActionV)) -> bool {
    match r {
        Loaded::Done(a, l) => y == advance(LoaderV { all: a, loaded: l, stack }),
        Loaded::Fail(m) => y.1 == ActionV::GiveUp(m),
        Loaded::TooDeep => true,
    }
}

/// Reading a file leads to the outcome of loading it.
proof fn lemma_read(
    fs: Files,
    path: Seq<char>,
    all: Seq<ItemV>,
    loaded: Seq<Seq<char>>,
    stack: Seq<FrameV>,
    depth: nat,
) -> (n: nat)
    requires
        !loaded.contains(path),
        !(load(fs, path, all, loaded, depth) is TooDeep),
    ensures
        outcome(
            load(fs, path, all, loaded, depth),
            stack,
            turns(
                fs,
                (LoaderV { all, loaded: loaded.push(path), stack }, ActionV::Read(path)),
                n,
            ),
        ),
    decreases depth, 0int, 0int,
{
    let x = (LoaderV { all, loaded: loaded.push(path), stack }, ActionV::Read(path));
    match items_of_text((fs.source)(path)) {
        Err(e) => {
            reveal_with_fuel(turns, 2);
            1
        },
        Ok(its) => {
            let n = lemma_imports(
                fs,
                path,
                its,
                0,
                all,
                loaded.push(path),
                stack,
                (depth - 1) as nat,
            );
            reveal_with_fuel(turns, 2);
            lemma_turns_add(fs, x, 1, n);
            1 + n
        },
    }
}

/// Looking for the imports of a file leads to the outcome of loading them, and then to
/// its own items.
proof fn lemma_imports(
    fs: Files,
    path: Seq<char>,
    its: Seq<ItemV>,
    i: int,
    all: Seq<ItemV>,
    loaded: Seq<Seq<char>>,
    stack: Seq<FrameV>,
    depth: nat,
) -> (n: nat)
    requires
        0 <= i,
        !(load_imports(fs, path, its, i, all, loaded, depth) is TooDeep),
    ensures
        outcome(
            match load_imports(fs, path, its, i, all, loaded, depth) {
                Loaded::Done(a, l) => Loaded::Done(a + its, l),
                other => other,
            },
            stack,
            turns(
                fs,
                advance(
                    LoaderV { all, loaded, stack: stack.push(FrameV { path, items: its, next: i }) },
                ),
                n,
            ),
        ),
    decreases depth, 1int, its.len() - i,
{
    let frame = FrameV { path, items: its, next: i };
    let here = LoaderV { all, loaded, stack: stack.push(frame) };
    assert(here.stack.drop_last() =~= stack);
    if i >= its.len() {
        0
    } else {
        let later = FrameV { path, items: its, next: i + 1 };
        let after = LoaderV { all, loaded, stack: stack.push(later) };
        assert(after.stack.drop_last() =~= stack);
        match its[i] {
            ItemV::Import(name) => {
                let x = advance(here);
                assert(x == (after, ActionV::Find { importer: path, name }));
                reveal_with_fuel(turns, 2);
                match (fs.find)(path, name) {
                    Some(p) => {
                        if loaded.contains(p) {
                            let n = lemma_imports(
                                fs,
                                path,
                                its,
                                i + 1,
                                all,
                                loaded,
                                stack,
                                depth,
                            );
                            lemma_turns_add(fs, x, 1, n);
                            1 + n
                        } else {
                            let n = lemma_read(fs, p, all, loaded, stack.push(later), depth);
                            lemma_turns_add(fs, x, 1, n);
                            match load(fs, p, all, loaded, depth) {
                                Loaded::Done(a, l) => {
                                    let m = lemma_imports(
                                        fs,
                                        path,
                                        its,
                                        i + 1,
                                        a,
                                        l,
                                        stack,
                                        depth,
                                    );
                                    lemma_turns_add(fs, x, 1 + n, m);
                                    1 + n + m
                                },
                                _ => 1 + n,
                            }
                        }
                    },
                    None => {
                        let n = lemma_imports(fs, path, its, i + 1, all, loaded, stack, depth);
                        lemma_turns_add(fs, x, 1, n);
                        1 + n
                    },
                }
            },
            _ => {
                assert(advance(here) == advance(after));
                lemma_imports(fs, path, its, i + 1, all, loaded, stack, depth)
            },
        }
    }
}

/// The loader, asked to load a file, comes to its end with the items of the file behind
/// those of all that it imports, directly or not, each file once; or it gives up with the
/// message that the first file without a parse has.
pub proof fn lemma_loader_loads(fs: Files, path: Seq<char>, depth: nat)
    requires
        !(load(fs, path, Seq::empty(), Seq::empty(), depth) is TooDeep),
    ensures
        exists|n: nat|
            {
                let y = #[trigger] turns(fs, started(path), n);
                match load(fs, path, Seq::empty(), Seq::empty(), depth) {
                    Loaded::Done(a, l) => y.1 == ActionV::Finish && y.0.all == a && y.0.loaded
                        == l,
                    Loaded::Fail(m) => y.1 == ActionV::GiveUp(m),
                    Loaded::TooDeep => false,
                }
            },
{
    let none = Seq::<Seq<char>>::empty();
    assert(none.push(path) =~= seq![path]);
    let n = lemma_read(fs, path, Seq::empty(), none, Seq::empty(), depth);
    let y = turns(fs, started(path), n);
    match load(fs, path, Seq::empty(), none, depth) {
        Loaded::Done(a, l) => {
            assert(y.1 == ActionV::Finish && y.0.all == a && y.0.loaded == l);
        },
        _ => {},
    }
}

/// Whether no file occurs twice.
pub open spec fn distinct(v: Seq<Seq<char>>) -> bool {
    forall|i: int, j: int| 0 <= i < j < v.len() ==> v[i] != v[j]
}

/// Advancing leaves the files that were begun as they are, and asks for no reading.
proof fn lemma_advance_reads_nothing(l: LoaderV)
    ensures
        advance(l).0.loaded == l.loaded,
        !(advance(l).1 is Read),
    decreases l.stack.len(),
{
    if l.stack.len() > 0 {
        let top = l.stack.last();
        if next_import(top.items, top.next) is None {
            lemma_advance_reads_nothing(
                LoaderV { all: l.all + top.items, stack: l.stack.drop_last(), ..l },
            );
        }
    }
}

/// After any number of actions, no file has been begun twice, and a file is asked to be
/// read only when it has just been begun.
pub proof fn lemma_no_file_is_read_twice(fs: Files, path: Seq<char>, n: nat)
    ensures
        ({
            let y = turns(fs, started(path), n);
            &&& distinct(y.0.loaded)
            &&& y.1 is Read ==> y.0.loaded.len() > 0 && y.0.loaded.last() == y.1->Read_0
            &&& n > 0 && y.1 is Read ==> {
                let before = turns(fs, started(path), (n - 1) as nat);
                y.0.loaded == before.0.loaded.push(y.1->Read_0)
                    && !before.0.loaded.contains(y.1->Read_0)
            }
        }),
    decreases n,
{
    if n > 0 {
        lemma_no_file_is_read_twice(fs, path, (n - 1) as nat);
        let x = turns(fs, started(path), (n - 1) as nat);
        match x.1 {
            ActionV::Read(p) => {
                match items_of_text((fs.source)(p)) {
                    Ok(its) => {
                        lemma_advance_reads_nothing(
                            LoaderV {
                                stack: x.0.stack.push(FrameV { path: p, items: its, next: 0 }),
                                ..x.0
                            },
                        );
                    },
                    Err(_) => {},
                }
            },
            ActionV::Find { importer, name } => {
                lemma_advance_reads_nothing(x.0);
            },
            _ => {},
        }
    }
}

} // verus!
