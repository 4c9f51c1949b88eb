//! Laws of the names that lowering makes.

use vstd::prelude::*;
use crate::ir::rules::fresh_name;
use crate::ir::VarV;
use crate::text::{digit_char, digits};

verus! {

/// The digit that stands for a number tells the number.
proof fn lemma_digit_char(a: nat, b: nat)
    requires
        a < 10,
        b < 10,
    ensures
        digit_char(a) == digit_char(b) ==> a == b,
        digit_char(a) != '_',
        digit_char(a) as int == 48 + a,
{
}

/// A numeral is not empty, and holds digits only.
pub proof fn lemma_digits_plain(n: nat)
    ensures
        digits(n).len() > 0,
        forall|i: int| 0 <= i < digits(n).len() ==> (#[trigger] digits(n)[i]) != '_',
    decreases n,
{
    if n < 10 {
        lemma_digit_char(n, n);
    } else {
        lemma_digits_plain(n / 10);
        lemma_digit_char(n % 10, n % 10);
    }
}

/// Different numbers have different numerals.
pub proof fn lemma_digits_injective(n: nat, m: nat)
    ensures
        digits(n) == digits(m) ==> n == m,
    decreases n,
{
    if digits(n) == digits(m) {
        lemma_digits_plain(n / 10);
        lemma_digits_plain(m / 10);
        assert(digits(n).last() == digits(m).last());
        if n < 10 && m < 10 {
            lemma_digit_char(n, m);
        } else if n >= 10 && m >= 10 {
            lemma_digit_char(n % 10, m % 10);
            assert(digits(n).drop_last() =~= digits(n / 10));
            assert(digits(m).drop_last() =~= digits(m / 10));
            lemma_digits_injective(n / 10, m / 10);
        } else if n < 10 {
            assert(digits(n).len() == 1);
            assert(digits(m).len() > 1);
        } else {
            assert(digits(m).len() == 1);
            assert(digits(n).len() > 1);
        }
    }
}

/// Whether a name ends in the number `n`.
pub open spec fn tagged(name: Seq<char>, n: nat) -> bool {
    exists|base: Seq<char>| name == #[trigger] (base + "_"@) + digits(n)
}

/// A name that lowering makes ends in its number.
pub proof fn lemma_fresh_is_tagged(prefix: Seq<char>, name: Seq<char>, n: nat)
    ensures
        tagged(fresh_name(prefix, name, n), n),
{
    if prefix.len() == 0 {
        assert(fresh_name(prefix, name, n) == (name + "_"@) + digits(n));
    } else {
        let base = prefix + "_"@ + name;
        assert(fresh_name(prefix, name, n) == (base + "_"@) + digits(n));
    }
}

/// A name ends in one number at most.
pub proof fn lemma_tag_unique(name: Seq<char>, n: nat, m: nat)
    requires
        tagged(name, n),
        tagged(name, m),
    ensures
        n == m,
{
    reveal_strlit("_");
    let a = choose|base: Seq<char>| name == #[trigger] (base + "_"@) + digits(n);
    let b = choose|base: Seq<char>| name == #[trigger] (base + "_"@) + digits(m);
    assert(name == (a + "_"@) + digits(n));
    assert(name == (b + "_"@) + digits(m));
    lemma_digits_plain(n);
    lemma_digits_plain(m);
    let p = a.len() as int;
    let q = b.len() as int;
    assert(name[p] == '_' && name[q] == '_');
    if p < q {
        assert(((a + "_"@) + digits(n))[q] == digits(n)[q - p - 1]);
    } else if q < p {
        assert(((b + "_"@) + digits(m))[p] == digits(m)[p - q - 1]);
    }
    assert(digits(n) =~= name.skip(p + 1));
    assert(digits(m) =~= name.skip(q + 1));
    lemma_digits_injective(n, m);
}

/// The number that a name ends in.
pub open spec fn tag(name: Seq<char>) -> nat {
    choose|n: nat| tagged(name, n)
}

/// Whether the names of variables end in numbers up to `limit`, in ascending order.
pub open spec fn tags_ascend(vs: Seq<VarV>, limit: nat) -> bool {
    &&& forall|i: int|
        0 <= i < vs.len() ==> tagged((#[trigger] vs[i]).name, tag(vs[i].name)) && tag(vs[i].name)
            <= limit
    &&& forall|i: int, j: int|
        0 <= i < j < vs.len() ==> tag((#[trigger] vs[i]).name) < tag((#[trigger] vs[j]).name)
}

/// Variables whose names end in ascending numbers have different names.
pub proof fn lemma_ascending_tags_differ(vs: Seq<VarV>, limit: nat)
    requires
        tags_ascend(vs, limit),
    ensures
        forall|i: int, j: int|
            0 <= i < j < vs.len() ==> (#[trigger] vs[i]).name != (#[trigger] vs[j]).name,
{
}

/// One more variable, whose name ends in a number that was not used.
pub proof fn lemma_tags_push(vs: Seq<VarV>, limit: nat, v: VarV, n: nat)
    requires
        tags_ascend(vs, limit),
        tagged(v.name, n),
        limit < n,
    ensures
        tags_ascend(vs.push(v), n),
{
    lemma_tag_unique(v.name, n, tag(v.name));
    let now = vs.push(v);
    assert forall|i: int| 0 <= i < now.len() implies tagged(
        (#[trigger] now[i]).name,
        tag(now[i].name),
    ) && tag(now[i].name) <= n by {
        if i < vs.len() {
            assert(now[i] == vs[i]);
        }
    }
    assert forall|i: int, j: int| 0 <= i < j < now.len() implies tag((#[trigger] now[i]).name)
        < tag((#[trigger] now[j]).name) by {
        assert(now[i] == vs[i]);
        if j < vs.len() {
            assert(now[j] == vs[j]);
        }
    }
}

/// Names with different numbers are different, whatever they are made from.
pub proof fn lemma_fresh_names_differ(
    p: Seq<char>,
    x: Seq<char>,
    n: nat,
    q: Seq<char>,
    y: Seq<char>,
    m: nat,
)
    requires
        n != m,
    ensures
        fresh_name(p, x, n) != fresh_name(q, y, m),
{
    lemma_fresh_is_tagged(p, x, n);
    lemma_fresh_is_tagged(q, y, m);
    if fresh_name(p, x, n) == fresh_name(q, y, m) {
        lemma_tag_unique(fresh_name(p, x, n), n, m);
    }
}

} // verus!
