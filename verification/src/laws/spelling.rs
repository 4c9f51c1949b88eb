//! Tokens are what their texts spell.

use vstd::prelude::*;
use crate::laws::lines::line_breaks;
use crate::laws::numerals::{in_base, is_numeral, lemma_digit_values, lemma_numeral, stands_for};
use crate::laws::reading::lemma_run_holds;
use crate::parser::lexer::{
    block_comment_end, digit_value, in_class, is_digit, is_hex_digit, is_word, is_word_start,
    line_comment_end, next_line, numeral, pair_at, run_end, skip_blank, token_at, tokens_from,
    word_token, Class, Spanned, Tok,
};
use crate::text::is_white_space;

verus! {

/// The text of a token that is always spelled in one way.
pub open spec fn fixed_text(t: Tok) -> Option<Seq<char>> {
    match t {
        Tok::Component => Some("component"@),
        Tok::Import => Some("import"@),
        Tok::Public => Some("public"@),
        Tok::For => Some("for"@),
        Tok::Test => Some("test"@),
        Tok::Extern => Some("extern"@),
        Tok::LParen => Some("("@),
        Tok::RParen => Some(")"@),
        Tok::LBrace => Some("{"@),
        Tok::RBrace => Some("}"@),
        Tok::LBracket => Some("["@),
        Tok::RBracket => Some("]"@),
        Tok::LAngle => Some("<"@),
        Tok::RAngle => Some(">"@),
        Tok::Colon => Some(":"@),
        Tok::Semicolon => Some(";"@),
        Tok::Comma => Some(","@),
        Tok::Dot => Some("."@),
        Tok::DotDot => Some(".."@),
        Tok::Eq => Some("="@),
        Tok::ColonEq => Some(":="@),
        Tok::Plus => Some("+"@),
        Tok::Minus => Some("-"@),
        Tok::Star => Some("*"@),
        Tok::Slash => Some("/"@),
        Tok::Ampersand => Some("&"@),
        Tok::Hash => Some("#"@),
        Tok::Bang => Some("!"@),
        Tok::Ident(_) => None,
        Tok::IntLit(_) => None,
        Tok::Eof => None,
    }
}

/// Whether a text is a word: a letter or an underscore, and letters, digits and underscores behind
/// it.
pub open spec fn is_word_text(w: Seq<char>) -> bool {
    &&& w.len() > 0
    &&& is_letter(w[0])
    &&& forall|i: int| 0 <= i < w.len() ==> is_letter(#[trigger] w[i]) || '0' <= w[i] <= '9'
}

/// Whether a character is a letter of ASCII or an underscore.
pub open spec fn is_letter(c: char) -> bool {
    'a' <= c <= 'z' || 'A' <= c <= 'Z' || c == '_'
}

/// Whether a text is a keyword.
pub open spec fn is_keyword(w: Seq<char>) -> bool {
    w == "component"@ || w == "import"@ || w == "public"@ || w == "for"@ || w == "test"@ || w
        == "extern"@
}

/// Whether a text spells a token: the fixed text of it, an identifier as it is, and a number by its
/// digits in base 10, or in base 16 behind `0x` or `0X`.
pub open spec fn spells(w: Seq<char>, t: Tok) -> bool {
    match t {
        Tok::Ident(x) => w == x && is_word_text(w) && !is_keyword(w),
        Tok::IntLit(n) => {
            ||| exists|v: Seq<int>| #[trigger] is_numeral(w, v, 10) && in_base(v, 10) == n
            ||| w.len() > 2 && w[0] == '0' && (w[1] == 'x' || w[1] == 'X') && exists|v: Seq<int>|
                #[trigger] is_numeral(w.skip(2), v, 16) && in_base(v, 16) == n
        },
        Tok::Eof => false,
        _ => Some(w) == fixed_text(t),
    }
}

/// Whether a token goes on no further than to a place: a word or a number with the characters of
/// it, a colon with `=`, and a dot with a dot.
pub open spec fn goes_no_further(s: Seq<char>, q: int, t: Tok) -> bool {
    q < s.len() ==> match t {
        Tok::Colon => s[q] != '=',
        Tok::Dot => s[q] != '.',
        Tok::Ident(_) => !is_letter(s[q]) && !('0' <= s[q] <= '9'),
        Tok::IntLit(_) => !('0' <= s[q] <= '9'),
        _ => fixed_text(t) is Some && is_letter(fixed_text(t)->Some_0[0]) ==> !is_letter(s[q]) && !(
        '0' <= s[q] <= '9'),
    }
}

proof fn lemma_run_ends(s: Seq<char>, p: int, k: Class)
    requires
        0 <= p <= s.len(),
    ensures
        run_end(s, p, k) < s.len() ==> !in_class(k, s[run_end(s, p, k)]),
    decreases s.len() - p,
{
    if p < s.len() && in_class(k, s[p]) {
        lemma_run_ends(s, p + 1, k);
    }
}

proof fn lemma_spelled_number(w: Seq<char>, base: nat)
    requires
        w.len() > 0,
        base == 10 || base == 16,
        forall|i: int|
            0 <= i < w.len() ==> is_hex_digit(#[trigger] w[i]) && (base == 10 ==> is_digit(w[i])),
    ensures
        exists|v: Seq<int>| #[trigger]
            is_numeral(w, v, base as int) && in_base(v, base as int) == numeral(w, base),
{
    let v = Seq::new(w.len(), |i: int| digit_value(w[i]) as int);
    assert forall|i: int| 0 <= i < v.len() implies stands_for(
        #[trigger] w[i],
        v[i],
    ) && v[i] < base by {
        lemma_digit_values(w[i], v[i]);
    }
    lemma_numeral(w, v, base);
    assert(is_numeral(w, v, base as int));
}

proof fn lemma_word_is_spelled(w: Seq<char>)
    requires
        w.len() > 0,
        is_word_start(w[0]),
        forall|i: int| 0 <= i < w.len() ==> is_word(#[trigger] w[i]),
    ensures
        spells(w, word_token(w)),
        !(word_token(w) is IntLit),
        word_token(w) is Ident || (fixed_text(word_token(w)) is Some && is_letter(
            fixed_text(word_token(w))->Some_0[0],
        )),
        word_token(w) != Tok::Colon && word_token(w) != Tok::Dot,
{
    assert forall|i: int| 0 <= i < w.len() implies is_letter(#[trigger] w[i]) || '0' <= w[i]
        <= '9' by {
        assert(is_word(w[i]));
    }
}

proof fn lemma_signs()
    ensures
        "("@ == seq!['('],
        ")"@ == seq![')'],
        "{"@ == seq!['{'],
        "}"@ == seq!['}'],
        "["@ == seq!['['],
        "]"@ == seq![']'],
        "<"@ == seq!['<'],
        ">"@ == seq!['>'],
        ":"@ == seq![':'],
        ";"@ == seq![';'],
        ","@ == seq![','],
        "."@ == seq!['.'],
        ".."@ == seq!['.', '.'],
        "="@ == seq!['='],
        ":="@ == seq![':', '='],
        "+"@ == seq!['+'],
        "-"@ == seq!['-'],
        "*"@ == seq!['*'],
        "/"@ == seq!['/'],
        "&"@ == seq!['&'],
        "#"@ == seq!['#'],
        "!"@ == seq!['!'],
{
    reveal_strlit("(");
    reveal_strlit(")");
    reveal_strlit("{");
    reveal_strlit("}");
    reveal_strlit("[");
    reveal_strlit("]");
    reveal_strlit("<");
    reveal_strlit(">");
    reveal_strlit(":");
    reveal_strlit(";");
    reveal_strlit(",");
    reveal_strlit(".");
    reveal_strlit("..");
    reveal_strlit("=");
    reveal_strlit(":=");
    reveal_strlit("+");
    reveal_strlit("-");
    reveal_strlit("*");
    reveal_strlit("/");
    reveal_strlit("&");
    reveal_strlit("#");
    reveal_strlit("!");
    assert("("@ =~= seq!['('] && ")"@ =~= seq![')'] && "{"@ =~= seq!['{'] && "}"@ =~= seq!['}']);
    assert("["@ =~= seq!['['] && "]"@ =~= seq![']'] && "<"@ =~= seq!['<'] && ">"@ =~= seq!['>']);
    assert(":"@ =~= seq![':'] && ";"@ =~= seq![';'] && ","@ =~= seq![','] && "."@ =~= seq!['.']);
    assert(".."@ =~= seq!['.', '.'] && "="@ =~= seq!['='] && ":="@ =~= seq![':', '=']);
    assert("+"@ =~= seq!['+'] && "-"@ =~= seq!['-'] && "*"@ =~= seq!['*'] && "/"@ =~= seq!['/']);
    assert("&"@ =~= seq!['&'] && "#"@ =~= seq!['#'] && "!"@ =~= seq!['!']);
}

proof fn lemma_sign_is_spelled(s: Seq<char>, p: int, line: nat)
    requires
        0 <= p < s.len(),
        !is_word(s[p]),
    ensures
        token_at(s, p, line) matches Ok((t, r)) ==> p < r <= s.len() && spells(
            s.subrange(p, r),
            t,
        ) && goes_no_further(s, r, t),
{
    lemma_signs();
    let one = s.subrange(p, p + 1);
    assert(one =~= seq![s[p]]);
    if p + 1 < s.len() {
        let two = s.subrange(p, p + 2);
        assert(two =~= seq![s[p], s[p + 1]]);
    }
}

/// What stands in a text as a token spells that token, and the token goes no further.
pub proof fn lemma_tokens_are_spelled(s: Seq<char>, p: int, line: nat)
    requires
        0 <= p < s.len(),
    ensures
        token_at(s, p, line) matches Ok((t, r)) ==> p < r <= s.len() && spells(
            s.subrange(p, r),
            t,
        ) && goes_no_further(s, r, t),
{
    let c = s[p];
    if !is_word(c) {
        lemma_sign_is_spelled(s, p, line);
    } else if is_word_start(c) {
        lemma_run_holds(s, p, Class::Word);
        lemma_run_holds(s, p + 1, Class::Word);
        lemma_run_ends(s, p, Class::Word);
        let q = run_end(s, p, Class::Word);
        let w = s.subrange(p, q);
        assert(in_class(Class::Word, s[p]));
        assert(w[0] == c);
        assert forall|i: int| 0 <= i < w.len() implies is_word(#[trigger] w[i]) by {
            assert(in_class(Class::Word, s[p + i]));
        }
        lemma_word_is_spelled(w);
    } else if c == '0' && p + 1 < s.len() && (s[p + 1] == 'x' || s[p + 1] == 'X') {
        lemma_run_holds(s, p + 2, Class::HexDigit);
        lemma_run_ends(s, p + 2, Class::HexDigit);
        let q = run_end(s, p + 2, Class::HexDigit);
        let w = s.subrange(p + 2, q);
        if w.len() > 0 {
            assert forall|i: int| 0 <= i < w.len() implies is_hex_digit(#[trigger] w[i]) && (16
                == 10 ==> is_digit(w[i])) by {
                assert(in_class(Class::HexDigit, s[p + 2 + i]));
            }
            lemma_spelled_number(w, 16);
            let all = s.subrange(p, q);
            assert(all.skip(2) =~= w);
            assert(all[0] == '0' && all[1] == s[p + 1]);
        }
    } else {
        lemma_run_holds(s, p, Class::Digit);
        lemma_run_holds(s, p + 1, Class::Digit);
        lemma_run_ends(s, p, Class::Digit);
        let q = run_end(s, p, Class::Digit);
        let w = s.subrange(p, q);
        assert(in_class(Class::Digit, s[p]));
        assert forall|i: int| 0 <= i < w.len() implies is_hex_digit(#[trigger] w[i]) && (10 == 10
            ==> is_digit(w[i])) by {
            assert(in_class(Class::Digit, s[p + i]));
        }
        lemma_spelled_number(w, 10);
    }
}

/// The other way round: where a character that starts a token stands, a token is read, unless it
/// starts a number that is too large or a hexadecimal literal without digits.
pub proof fn lemma_token_is_read(s: Seq<char>, p: int, line: nat)
    requires
        0 <= p < s.len(),
    ensures
        is_letter(s[p]) ==> token_at(s, p, line) is Ok,
        (exists|t: Tok| #[trigger] fixed_text(t) is Some && fixed_text(t)->Some_0 == seq![s[p]])
            ==> token_at(s, p, line) is Ok,
{
    lemma_signs();
    if exists|t: Tok| #[trigger] fixed_text(t) is Some && fixed_text(t)->Some_0 == seq![s[p]] {
        let t = choose|t: Tok| #[trigger]
            fixed_text(t) is Some && fixed_text(t)->Some_0 == seq![s[p]];
        lemma_keywords_are_long();
        let x = fixed_text(t)->Some_0;
        assert(x.len() == 1 && x[0] == s[p]);
    }
}

proof fn lemma_keywords_are_long()
    ensures
        "component"@.len() > 1,
        "import"@.len() > 1,
        "public"@.len() > 1,
        "for"@.len() > 1,
        "test"@.len() > 1,
        "extern"@.len() > 1,
{
    reveal_strlit("component");
    reveal_strlit("import");
    reveal_strlit("public");
    reveal_strlit("for");
    reveal_strlit("test");
    reveal_strlit("extern");
}

// ---------------------------------------------------------------------------
// Blanks
// ---------------------------------------------------------------------------

/// A line comment goes on to the next line break, or to the end of the text.
pub proof fn lemma_line_comment(s: Seq<char>, p: int)
    requires
        0 <= p <= s.len(),
    ensures
        p <= line_comment_end(s, p) <= s.len(),
        forall|i: int| p <= i < line_comment_end(s, p) ==> #[trigger] s[i] != '\n',
        line_comment_end(s, p) < s.len() ==> s[line_comment_end(s, p)] == '\n',
    decreases s.len() - p,
{
    if p < s.len() && s[p] != '\n' {
        lemma_line_comment(s, p + 1);
    }
}

/// A block comment goes on to the first place where it is closed and has the line breaks before
/// that; one that nothing closes goes on to the last character.
pub proof fn lemma_block_comment(s: Seq<char>, p: int, line: nat)
    requires
        0 <= p <= s.len(),
    ensures
        ({
            let (q, l) = block_comment_end(s, p, line);
            ||| {
                &&& p + 2 <= q <= s.len()
                &&& s[q - 2] == '*' && s[q - 1] == '/'
                &&& forall|i: int| p <= i < q - 2 ==> #[trigger] s[i] != '*' || s[i + 1] != '/'
                &&& l == line + line_breaks(s, p, q - 2)
            }
            ||| {
                &&& p <= q <= s.len() <= q + 1
                &&& forall|i: int|
                    p <= i && i + 1 < s.len() ==> #[trigger] s[i] != '*' || s[i + 1] != '/'
                &&& l == line + line_breaks(s, p, q)
            }
        }),
    decreases s.len() - p,
{
    assert(line_breaks(s, p, p) == 0);
    if p + 1 < s.len() && !pair_at(s, p, '*', '/') {
        lemma_block_comment(s, p + 1, next_line(line, s[p]));
        let (q, l) = block_comment_end(s, p, line);
        if q >= p + 1 {
            lemma_line_breaks_first(s, p, q);
        }
        if q - 2 >= p + 1 {
            lemma_line_breaks_first(s, p, q - 2);
        }
    }
}

proof fn lemma_line_breaks_first(s: Seq<char>, p: int, q: int)
    requires
        0 <= p < q <= s.len(),
    ensures
        line_breaks(s, p, q) == line_breaks(s, p + 1, q) + (if s[p] == '\n' {
            1nat
        } else {
            0nat
        }),
    decreases q - p,
{
    if p + 1 < q {
        lemma_line_breaks_first(s, p, q - 1);
    } else {
        assert(line_breaks(s, p + 1, q) == 0);
        assert(line_breaks(s, p, p) == 0);
    }
}

/// Whether a blank starts at `p`: white space, or a comment.
pub open spec fn blank_starts(s: Seq<char>, p: int) -> bool {
    0 <= p < s.len() && (is_white_space(s[p]) || (p + 1 < s.len() && s[p] == '/' && (s[p + 1] == '/'
        || s[p + 1] == '*')))
}

/// Where no blank starts nothing is skipped. White space is skipped character by character, and a
/// comment as a whole. What comes behind the blanks is no blank.
pub proof fn lemma_blanks(s: Seq<char>, p: int, line: nat)
    requires
        0 <= p <= s.len(),
    ensures
        !blank_starts(s, p) ==> skip_blank(s, p, line) == (p, line),
        p < s.len() && is_white_space(s[p]) ==> skip_blank(s, p, line) == skip_blank(
            s,
            p + 1,
            if s[p] == '\n' {
                line + 1
            } else {
                line
            },
        ),
        pair_at(s, p, '/', '/') ==> skip_blank(s, p, line) == skip_blank(
            s,
            line_comment_end(s, p),
            line,
        ),
        pair_at(s, p, '/', '*') ==> skip_blank(s, p, line) == skip_blank(
            s,
            block_comment_end(s, p + 2, line).0,
            block_comment_end(s, p + 2, line).1,
        ),
        p <= skip_blank(s, p, line).0 <= s.len(),
        !blank_starts(s, skip_blank(s, p, line).0),
    decreases s.len() - p,
{
    lemma_line_comment(s, p);
    if pair_at(s, p, '/', '*') {
        lemma_block_comment(s, p + 2, line);
        let (q, l) = block_comment_end(s, p + 2, line);
        if !is_white_space(s[p]) {
            lemma_blanks(s, q, l);
        }
    }
    if p < s.len() && is_white_space(s[p]) {
        lemma_blanks(s, p + 1, next_line(line, s[p]));
    } else if pair_at(s, p, '/', '/') {
        lemma_blanks(s, line_comment_end(s, p), line);
    }
}

// ---------------------------------------------------------------------------
// All tokens
// ---------------------------------------------------------------------------

/// Whether the tokens of a text stand at some places: the first behind the blanks at `p`, each other
/// behind the blanks behind the one before it, and no token behind the blanks at the end.
pub open spec fn stand_at(s: Seq<char>, p: int, ts: Seq<Spanned>, at: Seq<int>, to: Seq<int>) -> bool {
    &&& ts.len() == at.len() == to.len()
    &&& ts.len() > 0
    &&& forall|i: int|
        0 <= i < ts.len() ==> #[trigger] at[i] == skip_blank(
            s,
            if i == 0 {
                p
            } else {
                to[i - 1]
            },
            0,
        ).0
    &&& forall|i: int|
        0 <= i < ts.len() - 1 ==> 0 <= #[trigger] at[i] < to[i] <= s.len() && spells(
            s.subrange(at[i], to[i]),
            ts[i].tok,
        ) && goes_no_further(s, to[i], ts[i].tok)
    &&& at.last() == s.len()
    &&& ts.last().tok == Tok::Eof
}

proof fn lemma_place_of_blank(s: Seq<char>, p: int, a: nat, b: nat)
    requires
        0 <= p <= s.len(),
    ensures
        skip_blank(s, p, a).0 == skip_blank(s, p, b).0,
    decreases s.len() - p,
{
    if p < s.len() && is_white_space(s[p]) {
        lemma_place_of_blank(s, p + 1, next_line(a, s[p]), next_line(b, s[p]));
    } else if pair_at(s, p, '/', '/') {
        lemma_line_comment(s, p);
        lemma_place_of_blank(s, line_comment_end(s, p), a, b);
    } else if pair_at(s, p, '/', '*') {
        lemma_block_comment(s, p + 2, a);
        lemma_block_comment(s, p + 2, b);
        lemma_block_place(s, p + 2, a, b);
        let (q, l) = block_comment_end(s, p + 2, a);
        let (r, m) = block_comment_end(s, p + 2, b);
        lemma_place_of_blank(s, q, l, m);
    }
}

proof fn lemma_block_place(s: Seq<char>, p: int, a: nat, b: nat)
    ensures
        block_comment_end(s, p, a).0 == block_comment_end(s, p, b).0,
    decreases s.len() - p,
{
    if 0 <= p && p + 1 < s.len() && !pair_at(s, p, '*', '/') {
        lemma_block_place(s, p + 1, next_line(a, s[p]), next_line(b, s[p]));
    }
}

/// The tokens of a text are what stands in it, one behind the other with nothing but blanks between
/// them, and nothing is left out.
pub proof fn lemma_tokens_stand(s: Seq<char>, p: int, line: nat) -> (r: (Seq<int>, Seq<int>))
    requires
        0 <= p <= s.len(),
    ensures
        tokens_from(s, p, line) matches Ok(ts) ==> stand_at(s, p, ts, r.0, r.1),
    decreases s.len() - p,
{
    let (q, l) = skip_blank(s, p, line);
    lemma_blanks(s, p, line);
    lemma_place_of_blank(s, p, line, 0);
    if q < s.len() {
        lemma_tokens_are_spelled(s, q, l);
        match token_at(s, q, l) {
            Ok((t, e)) => {
                let (at, to) = lemma_tokens_stand(s, e, l);
                let r = (seq![q] + at, seq![e] + to);
                if let Ok(rest) = tokens_from(s, e, l) {
                    let ts = seq![Spanned { tok: t, line: l }] + rest;
                    assert forall|i: int| 0 <= i < ts.len() implies #[trigger] r.0[i] == skip_blank(
                        s,
                        if i == 0 {
                            p
                        } else {
                            r.1[i - 1]
                        },
                        0,
                    ).0 by {
                        if i > 0 {
                            assert(r.0[i] == at[i - 1]);
                            if i > 1 {
                                assert(r.1[i - 1] == to[i - 2]);
                            }
                        }
                    }
                    assert forall|i: int| 0 <= i < ts.len() - 1 implies 0 <= #[trigger] r.0[i]
                        < r.1[i] <= s.len() && spells(s.subrange(r.0[i], r.1[i]), ts[i].tok)
                        && goes_no_further(s, r.1[i], ts[i].tok) by {
                        if i > 0 {
                            assert(r.0[i] == at[i - 1] && r.1[i] == to[i - 1] && ts[i] == rest[i
                                - 1]);
                        }
                    }
                    assert(r.0.last() == at.last());
                }
                r
            },
            Err(_) => (Seq::empty(), Seq::empty()),
        }
    } else {
        (seq![q], seq![q])
    }
}

} // verus!
