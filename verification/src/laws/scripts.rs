//! What the texts of terms, formulas and scripts say, read by the rules of SMT-LIB: a text is words
//! and parentheses, words and lists of such make up a tree, and a tree has a meaning.

use vstd::prelude::*;
use crate::laws::numerals::{in_base, lemma_decimal_text, stands_for, written_in};
use crate::text::{digits, joined};

verus! {

// ---------------------------------------------------------------------------
// Trees
// ---------------------------------------------------------------------------

/// A tree of words.
pub enum Tree {
    Word(Seq<char>),
    List(Seq<Tree>),
}

/// Whether a character is white space between words.
pub open spec fn is_gap(c: char) -> bool {
    c == ' ' || c == '\n' || c == '\t' || c == '\r'
}

/// Whether a text is a word: it has a character, and none that ends a word or is read otherwise.
pub open spec fn is_plain_word(w: Seq<char>) -> bool {
    &&& w.len() > 0
    &&& forall|i: int| 0 <= i < w.len() ==> goes_on(#[trigger] w[i])
}

/// Whether a character belongs to a word.
pub open spec fn goes_on(c: char) -> bool {
    !is_gap(c) && c != '(' && c != ')' && c != ';' && c != '"' && c != '|'
}

/// What has been read of a text: the words and parentheses that are complete, and the word that may
/// still go on.
pub struct Scan {
    pub done: Seq<Seq<char>>,
    pub open: Seq<char>,
}

/// All that has been read.
pub open spec fn settled(s: Scan) -> Seq<Seq<char>> {
    if s.open.len() == 0 {
        s.done
    } else {
        s.done.push(s.open)
    }
}

/// What has been read with one more character.
pub open spec fn scan_one(s: Scan, c: char) -> Scan {
    if is_gap(c) {
        Scan { done: settled(s), open: Seq::empty() }
    } else if c == '(' || c == ')' {
        Scan { done: settled(s).push(seq![c]), open: Seq::empty() }
    } else {
        Scan { done: s.done, open: s.open.push(c) }
    }
}

/// What has been read with more text.
pub open spec fn scan(s: Scan, t: Seq<char>) -> Scan
    decreases t.len(),
{
    if t.len() == 0 {
        s
    } else {
        scan_one(scan(s, t.drop_last()), t.last())
    }
}

/// The words and parentheses of a text.
pub open spec fn words_of(t: Seq<char>) -> Seq<Seq<char>> {
    settled(scan(Scan { done: Seq::empty(), open: Seq::empty() }, t))
}

/// Whether a text has some words and parentheses, wherever it stands behind others.
pub open spec fn reads(t: Seq<char>, v: Seq<Seq<char>>) -> bool {
    forall|before: Seq<Seq<char>>|
        settled(#[trigger] scan(Scan { done: before, open: Seq::empty() }, t)) == before + v
}

/// The words and parentheses of a tree.
pub open spec fn flat(t: Tree) -> Seq<Seq<char>>
    decreases t,
{
    match t {
        Tree::Word(w) => seq![w],
        Tree::List(v) => seq!["("@] + flats(v, v.len()) + seq![")"@],
    }
}

/// The words and parentheses of the first trees.
pub open spec fn flats(v: Seq<Tree>, n: nat) -> Seq<Seq<char>>
    decreases v, n,
{
    if n == 0 || n > v.len() {
        Seq::empty()
    } else {
        flats(v, (n - 1) as nat) + flat(v[n - 1])
    }
}

/// What reads as words and parentheses has them.
pub proof fn lemma_reads(t: Seq<char>, v: Seq<Seq<char>>)
    requires
        reads(t, v),
    ensures
        words_of(t) == v,
{
    let none = Seq::<Seq<char>>::empty();
    assert(settled(scan(Scan { done: none, open: Seq::empty() }, t)) == none + v);
    assert(none + v =~= v);
}

proof fn lemma_scan_then(s: Scan, a: Seq<char>, b: Seq<char>)
    ensures
        scan(s, a + b) == scan(scan(s, a), b),
    decreases b.len(),
{
    if b.len() == 0 {
        assert(a + b =~= a);
    } else {
        lemma_scan_then(s, a, b.drop_last());
        assert((a + b).drop_last() =~= a + b.drop_last());
    }
}

proof fn lemma_scan_one(s: Scan, c: char)
    ensures
        scan(s, seq![c]) == scan_one(s, c),
{
    reveal_with_fuel(scan, 2);
    assert(seq![c].drop_last() =~= Seq::empty());
}

proof fn lemma_scan_word(s: Scan, w: Seq<char>)
    requires
        forall|i: int| 0 <= i < w.len() ==> goes_on(#[trigger] w[i]),
    ensures
        scan(s, w) == (Scan { done: s.done, open: s.open + w }),
    decreases w.len(),
{
    if w.len() == 0 {
        assert(s.open + w =~= s.open);
    } else {
        assert forall|i: int| 0 <= i < w.drop_last().len() implies goes_on(
            #[trigger] w.drop_last()[i],
        ) by {
            assert(goes_on(w[i]));
        }
        lemma_scan_word(s, w.drop_last());
        assert(goes_on(w[w.len() - 1]));
        assert((s.open + w.drop_last()).push(w.last()) =~= s.open + w);
    }
}

/// A word reads as itself.
pub proof fn lemma_word(w: Seq<char>)
    requires
        is_plain_word(w),
    ensures
        reads(w, seq![w]),
{
    assert forall|before: Seq<Seq<char>>|
        settled(#[trigger] scan(Scan { done: before, open: Seq::empty() }, w)) == before
            + seq![w] by {
        lemma_scan_word(Scan { done: before, open: Seq::empty() }, w);
        assert(Seq::<char>::empty() + w =~= w);
        assert(before.push(w) =~= before + seq![w]);
    }
}

/// The empty text reads as nothing.
pub proof fn lemma_nothing()
    ensures
        reads(Seq::empty(), Seq::empty()),
{
    assert forall|before: Seq<Seq<char>>|
        settled(#[trigger] scan(Scan { done: before, open: Seq::empty() }, Seq::empty())) == before
            + Seq::<Seq<char>>::empty() by {
        assert(before + Seq::<Seq<char>>::empty() =~= before);
    }
}

/// Two texts with white space between them read as what the one reads as and then what the other
/// does.
pub proof fn lemma_gap(
    a: Seq<char>,
    c: char,
    b: Seq<char>,
    v: Seq<Seq<char>>,
    w: Seq<Seq<char>>,
)
    requires
        reads(a, v),
        reads(b, w),
        is_gap(c),
    ensures
        reads(a + seq![c] + b, v + w),
{
    let none = Seq::<char>::empty();
    assert forall|before: Seq<Seq<char>>|
        settled(#[trigger] scan(Scan { done: before, open: none }, a + seq![c] + b)) == before + (v
            + w) by {
        let s = Scan { done: before, open: none };
        lemma_scan_then(s, a + seq![c], b);
        lemma_scan_then(s, a, seq![c]);
        lemma_scan_one(scan(s, a), c);
        assert(settled(scan(s, a)) == before + v);
        assert(scan(s, a + seq![c]) == Scan { done: before + v, open: none });
        assert(settled(scan(Scan { done: before + v, open: none }, b)) == before + v + w);
        assert(before + v + w =~= before + (v + w));
    }
}

/// A text behind another that ends with white space reads as it does behind white space.
pub proof fn lemma_closed_then(
    a: Seq<char>,
    b: Seq<char>,
    v: Seq<Seq<char>>,
    w: Seq<Seq<char>>,
)
    requires
        a.len() > 0,
        is_gap(a.last()),
        reads(a, v),
        reads(b, w),
    ensures
        reads(a + b, v + w),
{
    let none = Seq::<char>::empty();
    assert forall|before: Seq<Seq<char>>|
        settled(#[trigger] scan(Scan { done: before, open: none }, a + b)) == before + (v + w) by {
        let s = Scan { done: before, open: none };
        lemma_scan_then(s, a, b);
        assert(settled(scan(s, a)) == before + v);
        assert(scan(s, a).open =~= none);
        assert(scan(s, a) == Scan { done: before + v, open: none });
        assert(settled(scan(Scan { done: before + v, open: none }, b)) == before + v + w);
        assert(before + v + w =~= before + (v + w));
    }
}

/// A text in parentheses reads as a parenthesis, what the text reads as, and a parenthesis.
pub proof fn lemma_parentheses(a: Seq<char>, v: Seq<Seq<char>>)
    requires
        reads(a, v),
    ensures
        reads("("@ + a + ")"@, seq!["("@] + v + seq![")"@]),
{
    reveal_strlit("(");
    reveal_strlit(")");
    assert("("@ =~= seq!['(']);
    assert(")"@ =~= seq![')']);
    let none = Seq::<char>::empty();
    let t = "("@ + a + ")"@;
    assert forall|before: Seq<Seq<char>>|
        settled(#[trigger] scan(Scan { done: before, open: none }, t)) == before + (seq!["("@] + v
            + seq![")"@]) by {
        let s = Scan { done: before, open: none };
        lemma_scan_then(s, "("@ + a, ")"@);
        lemma_scan_then(s, "("@, a);
        lemma_scan_one(s, '(');
        let s1 = Scan { done: before.push("("@), open: none };
        assert(scan(s, "("@) == s1);
        assert(settled(scan(s1, a)) == before.push("("@) + v);
        lemma_scan_one(scan(s1, a), ')');
        assert((before.push("("@) + v).push(")"@) =~= before + (seq!["("@] + v + seq![")"@]));
    }
}

/// The tree of an operator and its operands.
pub open spec fn application(op: Seq<char>, v: Seq<Tree>) -> Tree {
    Tree::List(seq![Tree::Word(op)] + v)
}

/// Trees that start with the same trees start with the same words and parentheses.
pub proof fn lemma_flats_of_more(v: Seq<Tree>, w: Seq<Tree>, n: nat)
    requires
        n <= v.len(),
        n <= w.len(),
        forall|i: int| 0 <= i < n ==> v[i] == #[trigger] w[i],
    ensures
        flats(v, n) == flats(w, n),
    decreases n,
{
    if n > 0 {
        lemma_flats_of_more(v, w, (n - 1) as nat);
        assert(v[n - 1] == w[n - 1]);
    }
}

/// The words and parentheses of a tree and of others behind it.
pub proof fn lemma_flats_behind(x: Tree, v: Seq<Tree>, n: nat)
    requires
        n <= v.len(),
    ensures
        flats(seq![x] + v, n + 1) == flat(x) + flats(v, n),
    decreases n,
{
    let all = seq![x] + v;
    if n == 0 {
        assert(flats(all, 0) == Seq::<Seq<char>>::empty());
        assert(all[0] == x);
        assert(flats(all, 1) == flats(all, 0) + flat(all[0]));
        assert(Seq::<Seq<char>>::empty() + flat(x) =~= flat(x) + Seq::<Seq<char>>::empty());
    } else {
        lemma_flats_behind(x, v, (n - 1) as nat);
        assert(all[n as int] == v[n - 1]);
        assert(flats(all, n + 1) == flats(all, n) + flat(all[n as int]));
        assert(flats(v, n) == flats(v, (n - 1) as nat) + flat(v[n - 1]));
        assert(flat(x) + flats(v, (n - 1) as nat) + flat(v[n - 1]) =~= flat(x) + (flats(
            v,
            (n - 1) as nat,
        ) + flat(v[n - 1])));
    }
}

/// An operator and its operands in parentheses read as the tree of them.
pub proof fn lemma_application(op: Seq<char>, rest: Seq<char>, v: Seq<Tree>)
    requires
        is_plain_word(op),
        reads(rest, flats(v, v.len())),
    ensures
        reads("("@ + op + " "@ + rest + ")"@, flat(application(op, v))),
{
    reveal_strlit(" ");
    assert(" "@ =~= seq![' ']);
    lemma_word(op);
    lemma_gap(op, ' ', rest, seq![op], flats(v, v.len()));
    lemma_parentheses(op + " "@ + rest, seq![op] + flats(v, v.len()));
    assert("("@ + (op + " "@ + rest) + ")"@ =~= "("@ + op + " "@ + rest + ")"@);
    lemma_flats_behind(Tree::Word(op), v, v.len());
    let all = seq![Tree::Word(op)] + v;
    assert(flat(Tree::Word(op)) == seq![op]);
    assert(flats(all, all.len()) == seq![op] + flats(v, v.len()));
}

/// An operator and one operand.
pub proof fn lemma_application1(op: Seq<char>, a: Seq<char>, x: Tree)
    requires
        is_plain_word(op),
        reads(a, flat(x)),
    ensures
        reads("("@ + op + " "@ + a + ")"@, flat(application(op, seq![x]))),
{
    let v = seq![x];
    assert(v[0] == x);
    assert(flats(v, 0) == Seq::<Seq<char>>::empty());
    assert(flats(v, 1) == flats(v, 0) + flat(v[0]));
    assert(Seq::<Seq<char>>::empty() + flat(x) =~= flat(x));
    lemma_application(op, a, v);
}

/// An operator and two operands.
pub proof fn lemma_application2(
    op: Seq<char>,
    a: Seq<char>,
    b: Seq<char>,
    x: Tree,
    y: Tree,
)
    requires
        is_plain_word(op),
        reads(a, flat(x)),
        reads(b, flat(y)),
    ensures
        reads("("@ + op + " "@ + a + " "@ + b + ")"@, flat(application(op, seq![x, y]))),
{
    reveal_strlit(" ");
    assert(" "@ =~= seq![' ']);
    let v = seq![x, y];
    assert(v[0] == x && v[1] == y);
    assert(flats(v, 0) == Seq::<Seq<char>>::empty());
    assert(flats(v, 1) == flats(v, 0) + flat(v[0]));
    assert(flats(v, 2) == flats(v, 1) + flat(v[1]));
    assert(Seq::<Seq<char>>::empty() + flat(x) =~= flat(x));
    lemma_gap(a, ' ', b, flat(x), flat(y));
    lemma_application(op, a + " "@ + b, v);
    assert("("@ + op + " "@ + (a + " "@ + b) + ")"@ =~= "("@ + op + " "@ + a + " "@ + b + ")"@);
}

/// Texts with spaces between them read as what they read as, one behind the other.
pub proof fn lemma_spaced(texts: Seq<Seq<char>>, v: Seq<Tree>, n: nat)
    requires
        texts.len() == v.len(),
        n <= v.len(),
        forall|i: int| 0 <= i < v.len() ==> reads(#[trigger] texts[i], flat(v[i])),
    ensures
        reads(joined(texts.take(n as int), " "@), flats(v, n)),
    decreases n,
{
    reveal_strlit(" ");
    assert(" "@ =~= seq![' ']);
    let first = texts.take(n as int);
    if n == 0 {
        lemma_nothing();
    } else {
        let m = (n - 1) as nat;
        lemma_spaced(texts, v, m);
        assert(first.last() == texts[n - 1]);
        assert(reads(texts[n - 1], flat(v[n - 1])));
        assert(flats(v, n) == flats(v, m) + flat(v[n - 1]));
        if n == 1 {
            assert(flats(v, 0) == Seq::<Seq<char>>::empty());
            assert(Seq::<Seq<char>>::empty() + flat(v[0]) =~= flat(v[0]));
            assert(first[0] == texts[0]);
        } else {
            assert(first.drop_last() =~= texts.take(m as int));
            lemma_gap(
                joined(texts.take(m as int), " "@),
                ' ',
                texts[n - 1],
                flats(v, m),
                flat(v[n - 1]),
            );
        }
    }
}

// ---------------------------------------------------------------------------
// Numerals
// ---------------------------------------------------------------------------

/// The number that a numeral in a base up to 10 stands for.
pub open spec fn numeral_value(w: Seq<char>, base: int) -> int {
    in_base(w.map_values(|c: char| c as int - '0' as int), base)
}

/// A number is written as the numeral that stands for it, and that is a word.
pub proof fn lemma_numeral_value(n: nat)
    ensures
        numeral_value(digits(n), 10) == n,
        is_plain_word(digits(n)),
{
    lemma_decimal_text(n);
    let v = written_in(n, 10);
    let w = digits(n).map_values(|c: char| c as int - '0' as int);
    assert forall|i: int| 0 <= i < v.len() implies v[i] == w[i] by {
        assert(stands_for(digits(n)[i], v[i]));
    }
    assert(v =~= w);
    assert forall|i: int| 0 <= i < digits(n).len() implies goes_on(#[trigger] digits(n)[i]) by {
        assert(stands_for(digits(n)[i], v[i]));
    }
}

} // verus!
