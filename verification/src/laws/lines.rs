//! On which lines tokens stand, and that blanks before a text do not matter.

use vstd::prelude::*;
use crate::laws::joining::{
    ends, items_down, lemma_blank_ahead, lemma_second_items, lemma_tokens_in_end, tokens_down,
};
use crate::laws::reading::lemma_run_holds;
use crate::parser::ast::ItemV;
use crate::parser::items_of_text;
use crate::parser::lexer::{
    block_comment_end, in_class, lemma_eof_stands_last, line_comment_end, next_line, pair_at,
    skip_blank, token_at, tokens_from, tokens_of, Class, Spanned,
};
use crate::text::is_white_space;

verus! {

/// How many line breaks stand from `p` up to `q`.
pub open spec fn line_breaks(s: Seq<char>, p: int, q: int) -> nat
    decreases q - p,
{
    if p < q {
        line_breaks(s, p, q - 1) + if s[q - 1] == '\n' {
            1nat
        } else {
            0nat
        }
    } else {
        0
    }
}

proof fn lemma_breaks_then(s: Seq<char>, p: int, q: int, r: int)
    requires
        p <= q <= r,
    ensures
        line_breaks(s, p, r) == line_breaks(s, p, q) + line_breaks(s, q, r),
    decreases r - q,
{
    if q < r {
        lemma_breaks_then(s, p, q, r - 1);
    }
}

proof fn lemma_one_break(s: Seq<char>, p: int, line: nat)
    ensures
        next_line(line, s[p]) == line + line_breaks(s, p, p + 1),
{
    reveal_with_fuel(line_breaks, 2);
}

proof fn lemma_no_breaks(s: Seq<char>, p: int, q: int)
    requires
        forall|i: int| p <= i < q ==> #[trigger] s[i] != '\n',
    ensures
        line_breaks(s, p, q) == 0,
    decreases q - p,
{
    if p < q {
        lemma_no_breaks(s, p, q - 1);
    }
}

proof fn lemma_line_comment_breaks(s: Seq<char>, p: int)
    requires
        0 <= p <= s.len(),
    ensures
        p <= line_comment_end(s, p) <= s.len(),
        line_breaks(s, p, line_comment_end(s, p)) == 0,
    decreases s.len() - p,
{
    if p < s.len() && s[p] != '\n' {
        lemma_line_comment_breaks(s, p + 1);
        lemma_breaks_then(s, p, p + 1, line_comment_end(s, p));
        lemma_no_breaks(s, p, p + 1);
    }
}

proof fn lemma_block_comment_breaks(s: Seq<char>, p: int, line: nat)
    requires
        0 <= p <= s.len(),
    ensures
        ({
            let (q, l) = block_comment_end(s, p, line);
            p <= q <= s.len() && l == line + line_breaks(s, p, q)
        }),
    decreases s.len() - p,
{
    if p + 1 < s.len() {
        if pair_at(s, p, '*', '/') {
            lemma_no_breaks(s, p, p + 2);
        } else {
            lemma_one_break(s, p, line);
            lemma_block_comment_breaks(s, p + 1, next_line(line, s[p]));
            let q = block_comment_end(s, p + 1, next_line(line, s[p])).0;
            lemma_breaks_then(s, p, p + 1, q);
        }
    }
}

/// The line behind blanks is counted up by the line breaks in them.
pub proof fn lemma_blank_breaks(s: Seq<char>, p: int, line: nat)
    requires
        0 <= p <= s.len(),
    ensures
        ({
            let (q, l) = skip_blank(s, p, line);
            p <= q <= s.len() && l == line + line_breaks(s, p, q)
        }),
    decreases s.len() - p,
{
    if p < s.len() {
        let (end, _) = skip_blank(s, p, line);
        if is_white_space(s[p]) {
            lemma_one_break(s, p, line);
            lemma_blank_breaks(s, p + 1, next_line(line, s[p]));
            lemma_breaks_then(s, p, p + 1, end);
        } else if pair_at(s, p, '/', '/') {
            lemma_line_comment_breaks(s, p);
            let q = line_comment_end(s, p);
            if p < q {
                lemma_blank_breaks(s, q, line);
                lemma_breaks_then(s, p, q, end);
            }
        } else if pair_at(s, p, '/', '*') {
            lemma_block_comment_breaks(s, p + 2, line);
            let (q, l) = block_comment_end(s, p + 2, line);
            lemma_blank_breaks(s, q, l);
            lemma_no_breaks(s, p, p + 2);
            lemma_breaks_then(s, p, p + 2, q);
            lemma_breaks_then(s, p, q, end);
        }
    }
}

proof fn lemma_token_breaks(s: Seq<char>, p: int, line: nat)
    requires
        0 <= p < s.len(),
    ensures
        token_at(s, p, line) matches Ok((_, r)) ==> p <= r && line_breaks(s, p, r) == 0,
{
    lemma_run_holds(s, p, Class::Digit);
    lemma_run_holds(s, p, Class::Word);
    match token_at(s, p, line) {
        Ok((_, r)) => {
            if p + 2 <= s.len() {
                lemma_run_holds(s, p + 2, Class::HexDigit);
            }
            assert forall|i: int| p <= i < r implies #[trigger] s[i] != '\n' by {
                if i > p + 1 {
                    assert(in_class(Class::Digit, s[i]) || in_class(Class::Word, s[i]) || in_class(
                        Class::HexDigit,
                        s[i],
                    ));
                }
            }
            lemma_no_breaks(s, p, r);
        },
        Err(_) => {},
    }
}

/// The places of the tokens of a text from `p` on: of each the place of its first character, and
/// of the last, which is the end of the text, the place behind all characters.
pub open spec fn places_from(s: Seq<char>, p: int, line: nat) -> Seq<int>
    decreases s.len() - p,
{
    let (q, l) = skip_blank(s, p, line);
    if !(0 <= p <= q < s.len()) {
        seq![s.len() as int]
    } else {
        match token_at(s, q, l) {
            Ok((_, r)) if q < r <= s.len() => seq![q] + places_from(s, r, l),
            _ => Seq::empty(),
        }
    }
}

/// The line of each token is counted up by the line breaks before it. The tokens stand in the
/// order of their places, so that their lines never fall, and the end of the text stands last.
pub proof fn lemma_lines_of_tokens(s: Seq<char>, p: int, line: nat)
    requires
        0 <= p <= s.len(),
    ensures
        tokens_from(s, p, line) matches Ok(ts) ==> {
            let places = places_from(s, p, line);
            &&& ts.len() > 0
            &&& places.len() == ts.len()
            &&& places[0] == skip_blank(s, p, line).0
            &&& places.last() == s.len()
            &&& forall|i: int|
                0 <= i < ts.len() ==> p <= #[trigger] places[i] <= s.len() && ts[i].line == line
                    + line_breaks(s, p, places[i])
            &&& forall|i: int|
                0 <= i < ts.len() - 1 ==> (token_at(s, #[trigger] places[i], ts[i].line) matches Ok(
                    (t, _),
                ) && t == ts[i].tok)
            &&& forall|i: int, j: int|
                0 <= i < j < ts.len() ==> #[trigger] places[i] < #[trigger] places[j]
            &&& forall|i: int, j: int|
                0 <= i <= j < ts.len() ==> (#[trigger] ts[i]).line <= (#[trigger] ts[j]).line
        },
    decreases s.len() - p,
{
    lemma_blank_breaks(s, p, line);
    let (q, l) = skip_blank(s, p, line);
    if q < s.len() {
        lemma_token_breaks(s, q, l);
        match token_at(s, q, l) {
            Ok((t, r)) => {
                if q < r <= s.len() {
                    lemma_lines_of_tokens(s, r, l);
                    match tokens_from(s, r, l) {
                        Ok(rest) => {
                            let ts = seq![Spanned { tok: t, line: l }] + rest;
                            let after = places_from(s, r, l);
                            let places = seq![q] + after;
                            assert(places == places_from(s, p, line));
                            assert forall|i: int| 0 <= i < ts.len() implies p
                                <= #[trigger] places[i] <= s.len() && ts[i].line == line
                                + line_breaks(s, p, places[i]) by {
                                if i > 0 {
                                    let z = after[i - 1];
                                    assert(places[i] == z && ts[i] == rest[i - 1]);
                                    lemma_breaks_then(s, p, q, z);
                                    lemma_breaks_then(s, q, r, z);
                                }
                            }
                            assert forall|i: int| 0 <= i < ts.len() - 1 implies (token_at(
                                s,
                                #[trigger] places[i],
                                ts[i].line,
                            ) matches Ok((t, _)) && t == ts[i].tok) by {
                                if i > 0 {
                                    assert(places[i] == after[i - 1] && ts[i] == rest[i - 1]);
                                }
                            }
                            assert forall|i: int, j: int| 0 <= i < j < ts.len() implies
                                #[trigger] places[i] < #[trigger] places[j] by {
                                assert(places[j] == after[j - 1]);
                                if i > 0 {
                                    assert(places[i] == after[i - 1]);
                                }
                            }
                            assert forall|i: int, j: int| 0 <= i <= j < ts.len() implies (
                            #[trigger] ts[i]).line <= (#[trigger] ts[j]).line by {
                                if i < j {
                                    assert(places[i] < places[j]);
                                    lemma_breaks_then(s, p, places[i], places[j]);
                                }
                            }
                        },
                        Err(_) => {},
                    }
                }
            },
            Err(_) => {},
        }
    }
}

// ---------------------------------------------------------------------------
// Blanks before a text
// ---------------------------------------------------------------------------

proof fn lemma_skip_white(s: Seq<char>, p: int, q: int, line: nat)
    requires
        0 <= p <= q <= s.len(),
        forall|i: int| p <= i < q ==> is_white_space(#[trigger] s[i]),
    ensures
        skip_blank(s, p, line) == skip_blank(s, q, line + line_breaks(s, p, q)),
    decreases q - p,
{
    if p < q {
        lemma_one_break(s, p, line);
        lemma_breaks_then(s, p, p + 1, q);
        assert(is_white_space(s[p]));
        lemma_skip_white(s, p + 1, q, next_line(line, s[p]));
    }
}

/// White space before a text does not matter but for the lines: the items are those of the text,
/// further down by the line breaks in it.
pub proof fn lemma_white_space_before(w: Seq<char>, b: Seq<char>)
    requires
        forall|i: int| 0 <= i < w.len() ==> is_white_space(#[trigger] w[i]),
        items_of_text(b) is Ok,
    ensures
        items_of_text(w + b) == Ok::<Seq<ItemV>, Seq<char>>(
            items_down(items_of_text(b)->Ok_0, line_breaks(w, 0, w.len() as int)),
        ),
{
    let s = w + b;
    let n = w.len() as int;
    let k = line_breaks(w, 0, n);
    lemma_same_breaks(s, w, n);
    assert forall|i: int| 0 <= i < n implies is_white_space(#[trigger] s[i]) by {
        assert(s[i] == w[i]);
    }
    lemma_skip_white(s, 0, n, 1);
    lemma_blank_ahead(s, 0, 1);
    lemma_blank_ahead(s, n, 1 + k);
    assert(tokens_from(s, 0, 1) == tokens_from(s, n, 1 + k));
    assert(ends(s, b, n));
    lemma_tokens_in_end(s, b, n, 0, 1, k);
    lemma_eof_stands_last(b, 0, 1);
    let tb = tokens_of(b)->Ok_0;
    let none = Seq::<ItemV>::empty();
    lemma_second_items(tb, tokens_down(tb, k), 0, k, none, none, 0);
    assert(none + items_down(none, k) =~= none);
    let v = items_of_text(b)->Ok_0;
    assert(none + items_down(v, k) =~= items_down(v, k));
}

proof fn lemma_same_breaks(s: Seq<char>, w: Seq<char>, n: int)
    requires
        n <= w.len() <= s.len(),
        forall|i: int| 0 <= i < w.len() ==> s[i] == #[trigger] w[i],
    ensures
        line_breaks(s, 0, n) == line_breaks(w, 0, n),
    decreases n,
{
    if n > 0 {
        lemma_same_breaks(s, w, n - 1);
        assert(s[n - 1] == w[n - 1]);
    }
}

} // verus!
