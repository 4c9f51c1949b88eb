//! Loading of a source file with the files that it imports.
//!
//! The loader decides, and leaves reading to its caller: it says which file to read or to
//! look for, and is told what was found. An import without a file names a module from
//! outside, whose symbols are known to lowering; it is passed over.

use vstd::prelude::*;
use crate::parser::ast::{items, Item, ItemV};
use crate::parser::{items_of_text, Parser};
use crate::text::{cat2, cat4, same, texts};

verus! {

/// What the caller is to do next.
#[derive(Debug)]
pub enum Action {
    /// Read a file.
    Read(String),
    /// Look for the file of an import, next to the file that imports it.
    Find { importer: String, name: String },
    /// Nothing: all is loaded.
    Finish,
    /// Give up with a message.
    GiveUp(String),
}

/// A file whose imports are being loaded.
struct Frame {
    path: String,
    items: Vec<Item>,
    next: usize,
}

/// The state of loading.
pub struct Loader {
    all: Vec<Item>,
    loaded: Vec<String>,
    stack: Vec<Frame>,
}

// ---------------------------------------------------------------------------
// The loader as a mathematical value
// ---------------------------------------------------------------------------

/// An action as a mathematical value.
pub enum ActionV {
    Read(Seq<char>),
    Find { importer: Seq<char>, name: Seq<char> },
    Finish,
    GiveUp(Seq<char>),
}

/// A file whose imports are being loaded, as a mathematical value.
pub struct FrameV {
    pub path: Seq<char>,
    pub items: Seq<ItemV>,
    /// Where to look for the next import.
    pub next: int,
}

/// The state of loading as a mathematical value.
pub struct LoaderV {
    /// The items of the files that are done.
    pub all: Seq<ItemV>,
    /// The files that were begun.
    pub loaded: Seq<Seq<char>>,
    /// The files whose imports are being loaded; the last is at work.
    pub stack: Seq<FrameV>,
}

impl Action {
    /// The mathematical value of the action.
    pub open spec fn view(&self) -> ActionV {
        match self {
            Action::Read(p) => ActionV::Read(p@),
            Action::Find { importer, name } => ActionV::Find { importer: importer@, name: name@ },
            Action::Finish => ActionV::Finish,
            Action::GiveUp(m) => ActionV::GiveUp(m@),
        }
    }
}

impl Frame {
    spec fn view(&self) -> FrameV {
        FrameV { path: self.path@, items: items(self.items@), next: self.next as int }
    }
}

/// The mathematical values of files.
spec fn frames(v: Seq<Frame>) -> Seq<FrameV> {
    v.map_values(|f: Frame| f@)
}

impl Loader {
    /// The mathematical value of the loader.
    pub closed spec fn view(&self) -> LoaderV {
        LoaderV {
            all: items(self.all@),
            loaded: texts(self.loaded@),
            stack: frames(self.stack@),
        }
    }
}

/// The first import at or after `i`.
pub open spec fn next_import(its: Seq<ItemV>, i: int) -> Option<int>
    decreases its.len() - i,
{
    if 0 <= i < its.len() {
        if its[i] is Import {
            Some(i)
        } else {
            next_import(its, i + 1)
        }
    } else {
        None
    }
}

/// The next step: the next import of the file at work, or, where it has none, the step
/// after its items are taken over.
pub open spec fn advance(l: LoaderV) -> (LoaderV, ActionV)
    decreases l.stack.len(),
{
    if l.stack.len() == 0 {
        (l, ActionV::Finish)
    } else {
        let top = l.stack.last();
        match next_import(top.items, top.next) {
            Some(i) => (
                LoaderV {
                    stack: l.stack.drop_last().push(FrameV { next: i + 1, ..top }),
                    ..l
                },
                ActionV::Find { importer: top.path, name: top.items[i]->Import_0 },
            ),
            None => advance(
                LoaderV { all: l.all + top.items, stack: l.stack.drop_last(), ..l },
            ),
        }
    }
}

/// The message that a file could not be parsed.
pub open spec fn parse_failure(path: Seq<char>, reason: Seq<char>) -> Seq<char> {
    "Ошибка парсинга "@ + path + ": "@ + reason
}

/// The beginning.
pub open spec fn started(path: Seq<char>) -> (LoaderV, ActionV) {
    (
        LoaderV { all: Seq::empty(), loaded: seq![path], stack: Seq::empty() },
        ActionV::Read(path),
    )
}

/// The step after a file was read.
pub open spec fn sourced(l: LoaderV, path: Seq<char>, source: Seq<char>) -> (LoaderV, ActionV) {
    match items_of_text(source) {
        Ok(its) => advance(
            LoaderV { stack: l.stack.push(FrameV { path, items: its, next: 0 }), ..l },
        ),
        Err(e) => (l, ActionV::GiveUp(parse_failure(path, e))),
    }
}

/// The step after the file of an import was looked for. A file that was begun is not read
/// again.
pub open spec fn found(l: LoaderV, path: Option<Seq<char>>) -> (LoaderV, ActionV) {
    match path {
        Some(p) => if l.loaded.contains(p) {
            advance(l)
        } else {
            (LoaderV { loaded: l.loaded.push(p), ..l }, ActionV::Read(p))
        },
        None => advance(l),
    }
}

// ---------------------------------------------------------------------------
// Loading
// ---------------------------------------------------------------------------

/// The message that a file could not be read.
pub fn read_failure(path: &str, reason: &str) -> (r: String)
    ensures
        r@ == "Ошибка чтения "@ + path@ + ": "@ + reason@,
{
    cat4("Ошибка чтения ", path, ": ", reason)
}

/// The file of an import, in the directory of the file that imports it.
pub fn import_file(name: &str) -> (r: String)
    ensures
        r@ == name@ + ".zir"@,
{
    cat2(name, ".zir")
}

/// The first import at or after `from`.
fn find_import(its: &Vec<Item>, from: usize) -> (r: Option<usize>)
    ensures
        match next_import(items(its@), from as int) {
            Some(i) => r is Some && r->Some_0 == i && i < its@.len() && its@[i] is Import,
            None => r is None,
        },
{
    let ghost all = items(its@);
    let mut i: usize = from;
    while i < its.len()
        invariant
            from <= i,
            all == items(its@),
            next_import(all, from as int) == next_import(all, i as int),
        decreases its.len() - i,
    {
        assert(all[i as int] == its@[i as int]@);
        match &its[i] {
            Item::Import(_) => {
                return Some(i);
            },
            _ => {},
        }
        i += 1;
    }
    None
}

impl Loader {
    /// Begins to load a file.
    pub fn new(path: &str) -> (r: (Loader, Action))
        ensures
            (r.0@, r.1@) == started(path@),
    {
        let mut loaded: Vec<String> = Vec::new();
        loaded.push(path.to_owned());
        let l = Loader { all: Vec::new(), loaded, stack: Vec::new() };
        proof {
            let s = started(path@).0;
            assert(l@.all =~= s.all);
            assert(l@.loaded =~= s.loaded);
            assert(l@.stack =~= s.stack);
        }
        (l, Action::Read(path.to_owned()))
    }

    /// Goes on to the next import, or takes over the items of files without more imports.
    fn advance(&mut self) -> (r: Action)
        ensures
            (final(self)@, r@) == advance(old(self)@),
    {
        let ghost start = self@;
        loop
            invariant
                advance(start) == advance(self@),
                start == old(self)@,
            decreases self.stack.len(),
        {
            let ghost before = self@;
            match self.stack.pop() {
                None => {
                    return Action::Finish;
                },
                Some(frame) => {
                    let ghost here = LoaderV {
                        stack: frames(self.stack@).push(frame@),
                        ..self@
                    };
                    let mut frame = frame;
                    proof {
                        assert(before.stack =~= here.stack);
                        assert(here.stack.drop_last() =~= frames(self.stack@));
                    }
                    match find_import(&frame.items, frame.next) {
                        Some(i) => {
                            let name = match &frame.items[i] {
                                Item::Import(name) => name.clone(),
                                _ => String::new(),
                            };
                            assert(items(frame.items@)[i as int] == frame.items@[i as int]@);
                            let importer = frame.path.clone();
                            assert(i < frame.items.len());
                            frame.next = i + 1;
                            self.stack.push(frame);
                            assert(self@.stack =~= here.stack.drop_last().push(frame@));
                            return Action::Find { importer, name };
                        },
                        None => {
                            let ghost was = self@.all;
                            let ghost more = items(frame.items@);
                            let mut its = frame.items;
                            self.all.append(&mut its);
                            assert(self@.all =~= was + more);
                        },
                    }
                },
            }
        }
    }

    /// Takes the source text of a file that was to be read.
    pub fn on_source(&mut self, path: &str, source: &str) -> (r: Action)
        ensures
            (final(self)@, r@) == sourced(old(self)@, path@, source@),
    {
        match Parser::parse_file(source) {
            Ok(its) => {
                let frame = Frame { path: path.to_owned(), items: its, next: 0 };
                let ghost was = self@.stack;
                self.stack.push(frame);
                assert(self@.stack =~= was.push(frame@));
                self.advance()
            },
            Err(e) => Action::GiveUp(cat4("Ошибка парсинга ", path, ": ", &e)),
        }
    }

    /// Whether a file was begun.
    fn is_loaded(&self, path: &str) -> (r: bool)
        ensures
            r == self@.loaded.contains(path@),
    {
        let mut i: usize = 0;
        while i < self.loaded.len()
            invariant
                i <= self.loaded.len(),
                forall|j: int| 0 <= j < i ==> texts(self.loaded@)[j] != path@,
            decreases self.loaded.len() - i,
        {
            if same(&self.loaded[i], path) {
                assert(texts(self.loaded@)[i as int] == path@);
                return true;
            }
            i += 1;
        }
        false
    }

    /// Takes the path of the file of an import that was to be looked for, if there is one.
    pub fn on_found(&mut self, path: Option<String>) -> (r: Action)
        ensures
            (final(self)@, r@) == found(
                old(self)@,
                match path {
                    Some(p) => Some(p@),
                    None => None,
                },
            ),
    {
        match path {
            Some(p) => {
                if self.is_loaded(&p) {
                    return self.advance();
                }
                let ghost was = self@.loaded;
                self.loaded.push(p.clone());
                assert(self@.loaded =~= was.push(p@));
                Action::Read(p)
            },
            None => self.advance(),
        }
    }

    /// The items of all files, when loading has finished.
    pub fn into_items(self) -> (r: Vec<Item>)
        ensures
            items(r@) == self@.all,
    {
        self.all
    }
}

} // verus!
