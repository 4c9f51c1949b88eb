//! What the operations on texts give.

use vstd::prelude::*;
use crate::text::{
    before, begins_with, comma_parts, finishes_with, indented, is_white_space, joined, listed,
    occurs, padded, repeated, stands_at, trimmed, undotted,
};

verus! {

/// Whether a text is white space only.
pub open spec fn is_blank(s: Seq<char>) -> bool {
    forall|i: int| 0 <= i < s.len() ==> is_white_space(#[trigger] s[i])
}

/// A text is what is left of it without the white space at its ends, between that white space, and
/// what is left neither starts nor ends with white space.
pub proof fn lemma_trimmed(s: Seq<char>) -> (r: (Seq<char>, Seq<char>))
    ensures
        is_blank(r.0),
        is_blank(r.1),
        s == r.0 + trimmed(s) + r.1,
        trimmed(s).len() > 0 ==> !is_white_space(trimmed(s)[0]) && !is_white_space(
            trimmed(s).last(),
        ),
    decreases s.len(),
{
    if s.len() > 0 && is_white_space(s[0]) {
        let (a, b) = lemma_trimmed(s.drop_first());
        let t = trimmed(s);
        let w = seq![s[0]] + a;
        assert(s =~= w + t + b) by {
            assert(s.drop_first() =~= a + t + b);
            assert(s =~= seq![s[0]] + s.drop_first());
        }
        assert forall|i: int| 0 <= i < w.len() implies is_white_space(#[trigger] w[i]) by {
            if i > 0 {
                assert(is_white_space(a[i - 1]));
            }
        }
        (w, b)
    } else if s.len() > 0 && is_white_space(s.last()) {
        let (a, b) = lemma_trimmed(s.drop_last());
        let t = trimmed(s);
        let w = b.push(s.last());
        assert(s =~= a + t + w) by {
            assert(s.drop_last() =~= a + t + b);
            assert(s =~= s.drop_last().push(s.last()));
        }
        assert forall|i: int| 0 <= i < w.len() implies is_white_space(#[trigger] w[i]) by {
            if i < b.len() {
                assert(is_white_space(b[i]));
            }
        }
        (a, w)
    } else {
        let none = Seq::<char>::empty();
        assert(s =~= none + s + none);
        (none, none)
    }
}

/// A text has the same words with dots and with underscores for them: character by character,
/// nothing but dots changes.
pub proof fn lemma_undotted(s: Seq<char>)
    ensures
        undotted(s).len() == s.len(),
        forall|i: int|
            0 <= i < s.len() ==> #[trigger] undotted(s)[i] == (if s[i] == '.' {
                '_'
            } else {
                s[i]
            }),
{
}

/// What is joined is the parts one behind the other, each two with the separator between them.
pub proof fn lemma_joined(v: Seq<Seq<char>>, x: Seq<char>, sep: Seq<char>)
    ensures
        joined(Seq::<Seq<char>>::empty(), sep) == Seq::<char>::empty(),
        joined(seq![x], sep) == x,
        v.len() > 0 ==> joined(v.push(x), sep) == joined(v, sep) + sep + x,
{
    assert(v.push(x).drop_last() =~= v);
}

/// What is joined of two lists is what is joined of each, with the separator between them.
pub proof fn lemma_joined_then(v: Seq<Seq<char>>, w: Seq<Seq<char>>, sep: Seq<char>)
    requires
        v.len() > 0,
        w.len() > 0,
    ensures
        joined(v + w, sep) == joined(v, sep) + sep + joined(w, sep),
    decreases w.len(),
{
    lemma_joined(v + w.drop_last(), w.last(), sep);
    assert(v + w =~= (v + w.drop_last()).push(w.last()));
    if w.len() == 1 {
        assert(v + w.drop_last() =~= v);
    } else {
        lemma_joined_then(v, w.drop_last(), sep);
        assert(joined(v, sep) + sep + joined(w.drop_last(), sep) + sep + w.last() =~= joined(v, sep)
            + sep + (joined(w.drop_last(), sep) + sep + w.last()));
    }
}

/// Whether a text has no comma.
pub open spec fn comma_free(s: Seq<char>) -> bool {
    forall|i: int| 0 <= i < s.len() ==> #[trigger] s[i] != ','
}

proof fn lemma_comma_free(s: Seq<char>)
    requires
        comma_free(s),
    ensures
        comma_parts(s) == (Seq::<Seq<char>>::empty(), s),
    decreases s.len(),
{
    if s.len() > 0 {
        assert forall|i: int| 0 <= i < s.drop_last().len() implies #[trigger] s.drop_last()[i]
            != ',' by {
            assert(s[i] != ',');
        }
        lemma_comma_free(s.drop_last());
        assert(s[s.len() - 1] != ',');
        assert(s.drop_last().push(s.last()) =~= s);
    } else {
        assert(s =~= Seq::empty());
    }
}

proof fn lemma_comma_parts(a: Seq<char>, b: Seq<char>)
    ensures
        comma_parts(a + seq![','] + b) == (listed(a) + comma_parts(b).0, comma_parts(b).1),
    decreases b.len(),
{
    let s = a + seq![','] + b;
    if b.len() == 0 {
        assert(s.drop_last() =~= a);
        assert(s.last() == ',');
        assert(listed(a) + Seq::<Seq<char>>::empty() =~= listed(a));
    } else {
        lemma_comma_parts(a, b.drop_last());
        assert(s.drop_last() =~= a + seq![','] + b.drop_last());
        assert(s.last() == b.last());
        let (parts, open) = comma_parts(b.drop_last());
        assert((listed(a) + parts).push(open) =~= listed(a) + parts.push(open));
    }
}

/// What a text lists is what stands between its commas, without what is empty: a text without a
/// comma lists itself, the empty one nothing, and two texts with a comma between them what each of
/// them lists.
pub proof fn lemma_listed(a: Seq<char>, b: Seq<char>)
    ensures
        listed(a + ","@ + b) == listed(a) + listed(b),
        comma_free(a) && a.len() > 0 ==> listed(a) == seq![a],
        a.len() == 0 ==> listed(a) == Seq::<Seq<char>>::empty(),
{
    reveal_strlit(",");
    assert(","@ =~= seq![',']);
    lemma_comma_parts(a, b);
    let (parts, open) = comma_parts(b);
    assert((listed(a) + parts).push(open) =~= listed(a) + parts.push(open));
    if comma_free(a) {
        lemma_comma_free(a);
        assert(Seq::<Seq<char>>::empty().push(a) =~= seq![a]);
    }
}

/// Names that are written with commas between them are listed as they are.
pub proof fn lemma_joined_is_listed(v: Seq<Seq<char>>)
    requires
        forall|i: int| 0 <= i < v.len() ==> comma_free(#[trigger] v[i]) && v[i].len() > 0,
    ensures
        listed(joined(v, ","@)) == v,
    decreases v.len(),
{
    if v.len() == 0 {
        lemma_listed(joined(v, ","@), Seq::empty());
        assert(v =~= Seq::empty());
    } else {
        let x = v.last();
        assert(comma_free(v[v.len() - 1]));
        if v.len() == 1 {
            lemma_listed(x, Seq::empty());
            assert(v =~= seq![x]);
        } else {
            assert forall|i: int| 0 <= i < v.drop_last().len() implies comma_free(
                #[trigger] v.drop_last()[i],
            ) && v.drop_last()[i].len() > 0 by {
                assert(comma_free(v[i]) && v[i].len() > 0);
            }
            lemma_joined_is_listed(v.drop_last());
            lemma_listed(joined(v.drop_last(), ","@), x);
            lemma_listed(x, x);
            assert(v.drop_last() + seq![x] =~= v);
        }
    }
}

/// A text begins with another where that one and some rest make it up, ends with another where some
/// start and that one do, and another occurs in it where it does so behind some start.
pub proof fn lemma_parts_of_texts(s: Seq<char>, p: Seq<char>, a: Seq<char>, b: Seq<char>)
    ensures
        begins_with(p + b, p),
        finishes_with(a + p, p),
        occurs(a + p + b, p),
        begins_with(s, p) ==> s == p + s.skip(p.len() as int),
        finishes_with(s, p) ==> s == s.take(s.len() - p.len()) + p,
        occurs(s, p) ==> exists|i: int|
            0 <= i && i + p.len() <= s.len() && s == s.take(i) + p + #[trigger] s.skip(i + p.len()),
{
    assert((p + b).subrange(0, p.len() as int) =~= p);
    let t = a + p;
    assert(t.subrange(t.len() - p.len(), t.len() as int) =~= p);
    let u = a + p + b;
    assert(u.subrange(a.len() as int, (a.len() + p.len()) as int) =~= p);
    assert(stands_at(u, p, a.len() as int));
    if begins_with(s, p) {
        assert(s =~= s.subrange(0, p.len() as int) + s.skip(p.len() as int));
    }
    if finishes_with(s, p) {
        let i = s.len() - p.len();
        assert(s =~= s.take(i) + s.subrange(i, i + p.len()));
    }
    if occurs(s, p) {
        let i = choose|i: int| stands_at(s, p, i);
        assert(s =~= s.take(i) + s.subrange(i, i + p.len()) + s.skip(i + p.len()));
    }
}

/// A text is filled up with spaces, and with nothing else, to a width, unless it has that width.
pub proof fn lemma_filled(s: Seq<char>, n: nat)
    ensures
        padded(s, n).len() >= n,
        padded(s, n).take(s.len() as int) == s,
        padded(s, n).len() == n || padded(s, n) == s,
        forall|i: int| s.len() <= i < padded(s, n).len() ==> #[trigger] padded(s, n)[i] == ' ',
        indented(s, n).len() >= n,
        indented(s, n).skip(indented(s, n).len() - s.len()) == s,
        indented(s, n).len() == n || indented(s, n) == s,
        forall|i: int|
            0 <= i < indented(s, n).len() - s.len() ==> #[trigger] indented(s, n)[i] == ' ',
{
    assert(padded(s, n).take(s.len() as int) =~= s);
    assert(indented(s, n).skip(indented(s, n).len() - s.len()) =~= s);
}

/// A repeated character stands everywhere.
pub proof fn lemma_repeated(c: char, n: nat)
    ensures
        repeated(c, n).len() == n,
        forall|i: int| 0 <= i < n ==> #[trigger] repeated(c, n)[i] == c,
{
}

/// A text stands before another exactly where, behind what both have in common, it ends and the
/// other goes on, or the next character of it is the smaller one.
pub proof fn lemma_before(common: Seq<char>, a: Seq<char>, b: Seq<char>)
    requires
        a.len() > 0 && b.len() > 0 ==> a[0] != b[0],
    ensures
        before(common + a, common + b) <==> b.len() > 0 && (a.len() == 0 || (a[0] as int) < (
        b[0] as int)),
    decreases common.len(),
{
    if common.len() == 0 {
        assert(common + a =~= a);
        assert(common + b =~= b);
    } else {
        let rest = common.drop_first();
        assert((common + a).drop_first() =~= rest + a);
        assert((common + b).drop_first() =~= rest + b);
        lemma_before(rest, a, b);
    }
}

} // verus!
