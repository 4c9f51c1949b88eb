//! A text that is two texts with a line break between them stands for the items of both.

use vstd::prelude::*;
use crate::laws::places::{item_down, lemma_item};
use crate::parser::ast::ItemV;
use crate::parser::grammar::{item, items_from, tok_at};
use crate::parser::items_of_text;
use crate::parser::lexer::{
    block_comment_end, in_class, lemma_eof_stands_last, line_comment_end, next_line, pair_at,
    run_end, skip_blank, token_at, tokens_from, tokens_of, Class, Spanned, Tok,
};
use crate::text::is_white_space;

verus! {

// ---------------------------------------------------------------------------
// Comments that are closed
// ---------------------------------------------------------------------------

/// Whether the block comment in which `p` stands is closed.
pub open spec fn closes(s: Seq<char>, p: int) -> bool
    decreases s.len() - p,
{
    0 <= p && p + 1 < s.len() && (pair_at(s, p, '*', '/') || closes(s, p + 1))
}

/// Whether every block comment among the blanks at `p` is closed.
pub open spec fn blanks_close(s: Seq<char>, p: int) -> bool
    decreases s.len() - p,
{
    if !(0 <= p < s.len()) {
        true
    } else if is_white_space(s[p]) {
        blanks_close(s, p + 1)
    } else if pair_at(s, p, '/', '/') {
        let q = line_comment_end(s, p);
        p < q <= s.len() ==> blanks_close(s, q)
    } else if pair_at(s, p, '/', '*') {
        let q = block_comment_end(s, p + 2, 0).0;
        closes(s, p + 2) && (p < q <= s.len() ==> blanks_close(s, q))
    } else {
        true
    }
}

/// Whether every block comment from `p` on is closed.
pub open spec fn comments_close(s: Seq<char>, p: int) -> bool
    decreases s.len() - p,
{
    let q = skip_blank(s, p, 0).0;
    &&& blanks_close(s, p)
    &&& 0 <= p <= q < s.len() ==> (token_at(s, q, 0) matches Ok((_, r)) ==> (q < r <= s.len()
        ==> comments_close(s, r)))
}

// ---------------------------------------------------------------------------
// Lines
// ---------------------------------------------------------------------------

proof fn lemma_block_comment_line(s: Seq<char>, p: int, l: nat, m: nat)
    ensures
        block_comment_end(s, p, l).0 == block_comment_end(s, p, m).0,
    decreases s.len() - p,
{
    if 0 <= p && p + 1 < s.len() && !pair_at(s, p, '*', '/') {
        lemma_block_comment_line(s, p + 1, next_line(l, s[p]), next_line(m, s[p]));
    }
}

proof fn lemma_blank_line(s: Seq<char>, p: int, l: nat, m: nat)
    ensures
        skip_blank(s, p, l).0 == skip_blank(s, p, m).0,
    decreases s.len() - p,
{
    if 0 <= p < s.len() {
        if is_white_space(s[p]) {
            lemma_blank_line(s, p + 1, next_line(l, s[p]), next_line(m, s[p]));
        } else if pair_at(s, p, '/', '/') {
            let q = line_comment_end(s, p);
            if p < q <= s.len() {
                lemma_blank_line(s, q, l, m);
            }
        } else if pair_at(s, p, '/', '*') {
            lemma_block_comment_line(s, p + 2, l, m);
            let (q, x) = block_comment_end(s, p + 2, l);
            let (_, y) = block_comment_end(s, p + 2, m);
            if p < q <= s.len() {
                lemma_blank_line(s, q, x, y);
            }
        }
    }
}

proof fn lemma_token_line(s: Seq<char>, p: int, l: nat, m: nat)
    ensures
        token_at(s, p, l) matches Ok(x) ==> token_at(s, p, m) == Ok::<(Tok, int), Seq<char>>(x),
{
}

// ---------------------------------------------------------------------------
// The text at the end
// ---------------------------------------------------------------------------

/// Whether a text ends with another, which starts at `off`.
pub open spec fn ends(s: Seq<char>, b: Seq<char>, off: int) -> bool {
    &&& 0 <= off
    &&& s.len() == off + b.len()
    &&& forall|j: int| 0 <= j < b.len() ==> s[off + j] == #[trigger] b[j]
}

/// Tokens moved down by `k` lines.
pub open spec fn tokens_down(ts: Seq<Spanned>, k: nat) -> Seq<Spanned> {
    ts.map_values(|t: Spanned| Spanned { line: t.line + k, ..t })
}

proof fn lemma_run_in_end(s: Seq<char>, b: Seq<char>, off: int, p: int, c: Class)
    requires
        ends(s, b, off),
        0 <= p <= b.len(),
    ensures
        run_end(s, off + p, c) == off + run_end(b, p, c),
        p <= run_end(b, p, c) <= b.len(),
    decreases b.len() - p,
{
    if p < b.len() {
        assert(s[off + p] == b[p]);
        if in_class(c, b[p]) {
            lemma_run_in_end(s, b, off, p + 1, c);
        }
    }
}

proof fn lemma_line_comment_in_end(s: Seq<char>, b: Seq<char>, off: int, p: int)
    requires
        ends(s, b, off),
        0 <= p <= b.len(),
    ensures
        line_comment_end(s, off + p) == off + line_comment_end(b, p),
        p <= line_comment_end(b, p) <= b.len(),
    decreases b.len() - p,
{
    if p < b.len() {
        assert(s[off + p] == b[p]);
        if b[p] != '\n' {
            lemma_line_comment_in_end(s, b, off, p + 1);
        }
    }
}

proof fn lemma_pair_in_end(s: Seq<char>, b: Seq<char>, off: int, p: int, x: char, y: char)
    requires
        ends(s, b, off),
        0 <= p <= b.len(),
    ensures
        pair_at(s, off + p, x, y) == pair_at(b, p, x, y),
{
    if p + 1 < b.len() {
        assert(s[off + p] == b[p]);
        assert(s[off + (p + 1)] == b[p + 1]);
    }
}

proof fn lemma_block_comment_in_end(
    s: Seq<char>,
    b: Seq<char>,
    off: int,
    p: int,
    line: nat,
    k: nat,
)
    requires
        ends(s, b, off),
        0 <= p <= b.len(),
    ensures
        ({
            let (q, l) = block_comment_end(b, p, line);
            &&& block_comment_end(s, off + p, line + k) == (off + q, l + k)
            &&& p <= q <= b.len()
        }),
    decreases b.len() - p,
{
    lemma_pair_in_end(s, b, off, p, '*', '/');
    if p + 1 < b.len() {
        assert(s[off + p] == b[p]);
        if !pair_at(b, p, '*', '/') {
            lemma_block_comment_in_end(s, b, off, p + 1, next_line(line, b[p]), k);
        }
    }
}

proof fn lemma_blank_in_end(s: Seq<char>, b: Seq<char>, off: int, p: int, line: nat, k: nat)
    requires
        ends(s, b, off),
        0 <= p <= b.len(),
    ensures
        ({
            let (q, l) = skip_blank(b, p, line);
            &&& skip_blank(s, off + p, line + k) == (off + q, l + k)
            &&& p <= q <= b.len()
        }),
    decreases b.len() - p,
{
    lemma_pair_in_end(s, b, off, p, '/', '/');
    lemma_pair_in_end(s, b, off, p, '/', '*');
    if p < b.len() {
        assert(s[off + p] == b[p]);
        if is_white_space(b[p]) {
            lemma_blank_in_end(s, b, off, p + 1, next_line(line, b[p]), k);
        } else if pair_at(b, p, '/', '/') {
            lemma_line_comment_in_end(s, b, off, p);
            let q = line_comment_end(b, p);
            if p < q {
                lemma_blank_in_end(s, b, off, q, line, k);
            }
        } else if pair_at(b, p, '/', '*') {
            lemma_block_comment_in_end(s, b, off, p + 2, line, k);
            let (q, l) = block_comment_end(b, p + 2, line);
            lemma_blank_in_end(s, b, off, q, l, k);
        }
    }
}

proof fn lemma_token_in_end(s: Seq<char>, b: Seq<char>, off: int, p: int, line: nat, m: nat)
    requires
        ends(s, b, off),
        0 <= p < b.len(),
    ensures
        token_at(b, p, line) matches Ok((t, r)) ==> token_at(s, off + p, m) == Ok::<
            (Tok, int),
            Seq<char>,
        >((t, off + r)),
{
    assert(s[off + p] == b[p]);
    if p + 1 < b.len() {
        assert(s[off + (p + 1)] == b[p + 1]);
    }
    lemma_run_in_end(s, b, off, p, Class::Digit);
    lemma_run_in_end(s, b, off, p, Class::Word);
    let d = run_end(b, p, Class::Digit);
    let w = run_end(b, p, Class::Word);
    assert(s.subrange(off + p, off + d) =~= b.subrange(p, d));
    assert(s.subrange(off + p, off + w) =~= b.subrange(p, w));
    if p + 2 <= b.len() {
        lemma_run_in_end(s, b, off, p + 2, Class::HexDigit);
        let h = run_end(b, p + 2, Class::HexDigit);
        assert(s.subrange(off + p + 2, off + h) =~= b.subrange(p + 2, h));
    }
}

/// The tokens at the end of a text are those of the text there, further down.
pub proof fn lemma_tokens_in_end(
    s: Seq<char>,
    b: Seq<char>,
    off: int,
    p: int,
    line: nat,
    k: nat,
)
    requires
        ends(s, b, off),
        0 <= p <= b.len(),
    ensures
        tokens_from(b, p, line) matches Ok(ts) ==> tokens_from(s, off + p, line + k) == Ok::<
            Seq<Spanned>,
            Seq<char>,
        >(tokens_down(ts, k)),
    decreases b.len() - p,
{
    lemma_blank_in_end(s, b, off, p, line, k);
    let (q, l) = skip_blank(b, p, line);
    if q < b.len() {
        lemma_token_in_end(s, b, off, q, l, l + k);
        match token_at(b, q, l) {
            Ok((t, r)) => {
                if q < r <= b.len() {
                    lemma_tokens_in_end(s, b, off, r, l, k);
                    match tokens_from(b, r, l) {
                        Ok(rest) => {
                            let one = seq![Spanned { tok: t, line: l }];
                            assert(tokens_down(one + rest, k) =~= seq![
                                Spanned { tok: t, line: l + k },
                            ] + tokens_down(rest, k));
                        },
                        Err(_) => {},
                    }
                }
            },
            Err(_) => {},
        }
    } else {
        assert(tokens_down(seq![Spanned { tok: Tok::Eof, line: l }], k) =~= seq![
            Spanned { tok: Tok::Eof, line: l + k },
        ]);
    }
}

// ---------------------------------------------------------------------------
// The text at the start
// ---------------------------------------------------------------------------

/// Whether a text starts with another and goes on with a line break.
pub open spec fn starts_line(s: Seq<char>, a: Seq<char>) -> bool {
    &&& a.len() < s.len()
    &&& s[a.len() as int] == '\n'
    &&& forall|j: int| 0 <= j < a.len() ==> s[j] == #[trigger] a[j]
}

proof fn lemma_run_in_start(s: Seq<char>, a: Seq<char>, p: int, c: Class)
    requires
        starts_line(s, a),
        0 <= p <= a.len(),
    ensures
        run_end(s, p, c) == run_end(a, p, c),
        p <= run_end(a, p, c) <= a.len(),
    decreases a.len() - p,
{
    if p < a.len() {
        assert(s[p] == a[p]);
        if in_class(c, a[p]) {
            lemma_run_in_start(s, a, p + 1, c);
        }
    }
}

proof fn lemma_line_comment_in_start(s: Seq<char>, a: Seq<char>, p: int)
    requires
        starts_line(s, a),
        0 <= p <= a.len(),
    ensures
        line_comment_end(s, p) == line_comment_end(a, p),
        p <= line_comment_end(a, p) <= a.len(),
    decreases a.len() - p,
{
    if p < a.len() {
        assert(s[p] == a[p]);
        if a[p] != '\n' {
            lemma_line_comment_in_start(s, a, p + 1);
        }
    }
}

proof fn lemma_pair_in_start(s: Seq<char>, a: Seq<char>, p: int, x: char, y: char)
    requires
        starts_line(s, a),
        0 <= p < a.len(),
        y != '\n',
    ensures
        pair_at(s, p, x, y) == pair_at(a, p, x, y),
{
    assert(s[p] == a[p]);
    if p + 1 < a.len() {
        assert(s[p + 1] == a[p + 1]);
    }
}

proof fn lemma_block_comment_in_start(s: Seq<char>, a: Seq<char>, p: int, line: nat)
    requires
        starts_line(s, a),
        0 <= p <= a.len(),
        closes(a, p),
    ensures
        block_comment_end(s, p, line) == block_comment_end(a, p, line),
        p < block_comment_end(a, p, line).0 <= a.len(),
    decreases a.len() - p,
{
    lemma_pair_in_start(s, a, p, '*', '/');
    assert(s[p] == a[p]);
    if !pair_at(a, p, '*', '/') {
        lemma_block_comment_in_start(s, a, p + 1, next_line(line, a[p]));
    }
}

proof fn lemma_blank_in_start(s: Seq<char>, a: Seq<char>, p: int, line: nat)
    requires
        starts_line(s, a),
        0 <= p <= a.len(),
        blanks_close(a, p),
    ensures
        ({
            let (q, l) = skip_blank(a, p, line);
            &&& p <= q <= a.len()
            &&& q < a.len() ==> skip_blank(s, p, line) == (q, l)
            &&& q == a.len() ==> skip_blank(s, p, line) == skip_blank(s, q, l)
        }),
    decreases a.len() - p,
{
    if p < a.len() {
        lemma_pair_in_start(s, a, p, '/', '/');
        lemma_pair_in_start(s, a, p, '/', '*');
        assert(s[p] == a[p]);
        if is_white_space(a[p]) {
            lemma_blank_in_start(s, a, p + 1, next_line(line, a[p]));
        } else if pair_at(a, p, '/', '/') {
            lemma_line_comment_in_start(s, a, p);
            let q = line_comment_end(a, p);
            if p < q {
                lemma_blank_in_start(s, a, q, line);
            }
        } else if pair_at(a, p, '/', '*') {
            lemma_block_comment_in_start(s, a, p + 2, line);
            lemma_block_comment_line(a, p + 2, line, 0);
            let (q, l) = block_comment_end(a, p + 2, line);
            lemma_blank_in_start(s, a, q, l);
        }
    }
}

proof fn lemma_token_in_start(s: Seq<char>, a: Seq<char>, p: int, line: nat)
    requires
        starts_line(s, a),
        0 <= p < a.len(),
    ensures
        token_at(a, p, line) matches Ok((t, r)) ==> token_at(s, p, line) == Ok::<
            (Tok, int),
            Seq<char>,
        >((t, r)),
{
    assert(s[p] == a[p]);
    if p + 1 < a.len() {
        assert(s[p + 1] == a[p + 1]);
    }
    lemma_run_in_start(s, a, p, Class::Digit);
    lemma_run_in_start(s, a, p, Class::Word);
    let d = run_end(a, p, Class::Digit);
    let w = run_end(a, p, Class::Word);
    assert(s.subrange(p, d) =~= a.subrange(p, d));
    assert(s.subrange(p, w) =~= a.subrange(p, w));
    if p + 2 <= a.len() {
        lemma_run_in_start(s, a, p + 2, Class::HexDigit);
        let h = run_end(a, p + 2, Class::HexDigit);
        assert(s.subrange(p + 2, h) =~= a.subrange(p + 2, h));
    }
}

/// The tokens of a text that goes on with a line break are those of the text without the end,
/// and those behind it.
proof fn lemma_tokens_in_start(s: Seq<char>, a: Seq<char>, p: int, line: nat)
    requires
        starts_line(s, a),
        0 <= p <= a.len(),
        comments_close(a, p),
    ensures
        tokens_from(a, p, line) matches Ok(ts) ==> ts.len() > 0 && (tokens_from(
            s,
            a.len() as int,
            ts.last().line,
        ) matches Ok(more) ==> tokens_from(s, p, line) == Ok::<Seq<Spanned>, Seq<char>>(
            ts.drop_last() + more,
        )),
    decreases a.len() - p,
{
    lemma_blank_in_start(s, a, p, line);
    lemma_blank_line(a, p, line, 0);
    let (q, l) = skip_blank(a, p, line);
    if q < a.len() {
        lemma_token_in_start(s, a, q, l);
        lemma_token_line(a, q, l, 0);
        match token_at(a, q, l) {
            Ok((t, r)) => {
                if q < r <= a.len() {
                    lemma_tokens_in_start(s, a, r, l);
                    match tokens_from(a, r, l) {
                        Ok(rest) => {
                            let one = seq![Spanned { tok: t, line: l }];
                            assert((one + rest).last() == rest.last());
                            match tokens_from(s, a.len() as int, rest.last().line) {
                                Ok(more) => {
                                    assert((one + rest).drop_last() + more =~= one + (
                                    rest.drop_last() + more));
                                },
                                Err(_) => {},
                            }
                        },
                        Err(_) => {},
                    }
                }
            },
            Err(_) => {},
        }
    } else {
        let e = seq![Spanned { tok: Tok::Eof, line: l }];
        assert(tokens_from(a, p, line) == Ok::<Seq<Spanned>, Seq<char>>(e));
        match tokens_from(s, a.len() as int, l) {
            Ok(more) => {
                assert(e.drop_last() + more =~= more);
                lemma_blank_ahead(s, a.len() as int, l);
            },
            Err(_) => {},
        }
    }
}

/// Blanks end within the text.
pub proof fn lemma_blank_ahead(s: Seq<char>, p: int, line: nat)
    requires
        0 <= p <= s.len(),
    ensures
        p <= skip_blank(s, p, line).0 <= s.len(),
{
    assert(ends(s, s, 0));
    lemma_blank_in_end(s, s, 0, p, line, 0);
}

// ---------------------------------------------------------------------------
// Two texts
// ---------------------------------------------------------------------------

/// Two texts with a line break between them.
pub open spec fn two_texts(a: Seq<char>, b: Seq<char>) -> Seq<char> {
    a + seq!['\n'] + b
}

/// The line on which a text ends.
pub open spec fn last_line(a: Seq<char>) -> nat {
    tokens_of(a)->Ok_0.last().line
}

/// Items moved down by `k` lines.
pub open spec fn items_down(v: Seq<ItemV>, k: nat) -> Seq<ItemV> {
    v.map_values(|it: ItemV| item_down(it, k as int))
}

proof fn lemma_tokens_of_two(a: Seq<char>, b: Seq<char>)
    requires
        tokens_of(a) is Ok,
        tokens_of(b) is Ok,
        comments_close(a, 0),
    ensures
        tokens_of(two_texts(a, b)) == Ok::<Seq<Spanned>, Seq<char>>(
            tokens_of(a)->Ok_0.drop_last() + tokens_down(tokens_of(b)->Ok_0, last_line(a)),
        ),
{
    let s = two_texts(a, b);
    let n = a.len() as int;
    let k = last_line(a);
    assert(starts_line(s, a));
    assert(ends(s, b, n + 1));
    lemma_tokens_in_start(s, a, 0, 1);
    lemma_tokens_in_end(s, b, n + 1, 0, 1, k);
    assert(skip_blank(s, n, k) == skip_blank(s, n + 1, k + 1));
    lemma_blank_ahead(s, n, k);
    lemma_blank_ahead(s, n + 1, k + 1);
}

/// The items of the first text, in the tokens of both.
proof fn lemma_first_items(ta: Seq<Spanned>, ts: Seq<Spanned>, acc: Seq<ItemV>, p: int)
    requires
        0 <= p < ta.len(),
        ta.len() <= ts.len(),
        ta.last().tok == Tok::Eof,
        forall|j: int| 0 <= j < ta.len() - 1 ==> ts[j] == #[trigger] ta[j],
        forall|j: int| 0 <= j < ta.len() - 1 ==> (#[trigger] ta[j]).tok != Tok::Eof,
    ensures
        items_from(ta, acc, p) matches Ok(v) ==> items_from(ts, acc, p) == items_from(
            ts,
            v,
            ta.len() - 1,
        ),
    decreases ta.len() - p,
{
    reveal(items_from);
    let e = ta.len() - 1;
    if p < e {
        assert(ts[p] == ta[p]);
        lemma_item(ta, ts, 0, p, e, 0);
        match item(ta, p) {
            Ok((i, q)) => {
                assert(tok_at(ta, q - 1) != Tok::Eof);
                assert(q <= e);
                match i {
                    Some(ItemV::Component(c)) => {
                        assert(item_down(ItemV::Component(c), 0) == ItemV::Component(c));
                    },
                    _ => {},
                }
                let more = match i {
                    Some(x) => acc.push(x),
                    None => acc,
                };
                lemma_first_items(ta, ts, more, q);
            },
            Err(_) => {},
        }
    }
}

/// The items of the second text, in the tokens of both.
pub proof fn lemma_second_items(
    tb: Seq<Spanned>,
    ts: Seq<Spanned>,
    d: int,
    k: nat,
    first: Seq<ItemV>,
    acc: Seq<ItemV>,
    p: int,
)
    requires
        0 <= p < tb.len(),
        0 <= d,
        ts.len() == tb.len() + d,
        tb.last().tok == Tok::Eof,
        forall|j: int|
            0 <= j < tb.len() ==> ts[j + d] == (Spanned {
                line: (#[trigger] tb[j]).line + k,
                ..tb[j]
            }),
        forall|j: int| 0 <= j < tb.len() - 1 ==> (#[trigger] tb[j]).tok != Tok::Eof,
    ensures
        items_from(tb, acc, p) matches Ok(v) ==> items_from(
            ts,
            first + items_down(acc, k),
            p + d,
        ) == Ok::<Seq<ItemV>, Seq<char>>(first + items_down(v, k)),
    decreases tb.len() - p,
{
    reveal(items_from);
    let e = tb.len() as int;
    assert(ts[p + d].tok == tb[p].tok);
    if tok_at(tb, p) != Tok::Eof {
        lemma_item(tb, ts, d, p, e, k as int);
        match item(tb, p) {
            Ok((i, q)) => {
                assert(tok_at(tb, q - 1) != Tok::Eof);
                assert(q < e);
                match i {
                    Some(x) => {
                        assert(first + items_down(acc.push(x), k) =~= (first + items_down(acc, k))
                            .push(item_down(x, k as int)));
                        lemma_second_items(tb, ts, d, k, first, acc.push(x), q);
                    },
                    None => {
                        lemma_second_items(tb, ts, d, k, first, acc, q);
                    },
                }
            },
            Err(_) => {},
        }
    }
}

/// Where two texts stand for items, and every block comment of the first is closed, the two with
/// a line break between them stand for the items of both, those of the second further down.
pub proof fn lemma_items_of_two_texts(a: Seq<char>, b: Seq<char>)
    requires
        items_of_text(a) is Ok,
        items_of_text(b) is Ok,
        comments_close(a, 0),
    ensures
        items_of_text(two_texts(a, b)) == Ok::<Seq<ItemV>, Seq<char>>(
            items_of_text(a)->Ok_0 + items_down(items_of_text(b)->Ok_0, last_line(a)),
        ),
{
    let ta = tokens_of(a)->Ok_0;
    let tb = tokens_of(b)->Ok_0;
    let k = last_line(a);
    let ts = ta.drop_last() + tokens_down(tb, k);
    let d = ta.len() - 1;
    lemma_tokens_of_two(a, b);
    lemma_eof_stands_last(a, 0, 1);
    lemma_eof_stands_last(b, 0, 1);
    let none = Seq::<ItemV>::empty();
    let va = items_of_text(a)->Ok_0;
    lemma_first_items(ta, ts, none, 0);
    lemma_second_items(tb, ts, d, k, va, none, 0);
    assert(va + items_down(none, k) =~= va);
}

} // verus!
