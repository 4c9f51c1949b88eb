//! An expression that is written out is read as the same expression.

use vstd::prelude::*;
use crate::laws::joining::lemma_blank_ahead;
use crate::parser::ast::{
    expr_text, expr_texts, op_text, type_args_text, ExprV, Op,
};
use crate::parser::grammar::{
    additive, additive_rest, add_op, arguments, binary, bitwise, bitwise_rest, expr, expr_list,
    expr_list_rest, for_head, mul_op, multiplicative, multiplicative_rest, postfix, postfix_rest,
    primary, tok_at, type_arg,
};
use crate::parser::lexer::{
    digit_value, in_class, is_digit, is_word, is_word_start, numeral, run_end, skip_blank, token_at,
    tokens_from, tokens_of, word_token, Class, Spanned, Tok,
};
use crate::text::{digit_char, digits, joined};

verus! {

// ---------------------------------------------------------------------------
// Expressions that can be written
// ---------------------------------------------------------------------------

/// Whether a text is a name: a word that is no keyword.
pub open spec fn is_name(w: Seq<char>) -> bool {
    &&& w.len() > 0
    &&& is_word_start(w[0])
    &&& forall|i: int| 0 <= i < w.len() ==> is_word(#[trigger] w[i])
    &&& word_token(w) == Tok::Ident(w)
}

/// Whether an expression can be written: its names are names, and a call has one type argument at
/// most.
pub open spec fn writable(e: ExprV) -> bool
    decreases e,
{
    match e {
        ExprV::IntLit(_) => true,
        ExprV::Ident(s) => is_name(s),
        ExprV::Field { object, field } => writable(*object) && is_name(field),
        ExprV::BinOp { lhs, rhs, .. } => writable(*lhs) && writable(*rhs),
        ExprV::Call { name, type_args, args } => is_name(name) && type_args.len() <= 1
            && all_writable(args),
        ExprV::Index { object, index } => writable(*object) && writable(*index),
        ExprV::For { var, body, .. } => is_name(var) && writable(*body),
    }
}

/// Whether expressions can be written.
pub open spec fn all_writable(es: Seq<ExprV>) -> bool
    decreases es,
{
    forall|i: int| 0 <= i < es.len() ==> writable(#[trigger] es[i])
}

/// The token of an operator.
pub open spec fn op_token(op: Op) -> Tok {
    match op {
        Op::Add => Tok::Plus,
        Op::Sub => Tok::Minus,
        Op::Mul => Tok::Star,
        Op::Div => Tok::Slash,
        Op::BitAnd => Tok::Ampersand,
    }
}

/// The tokens of type arguments.
pub open spec fn type_args_tokens(ts: Seq<u64>) -> Seq<Tok> {
    if ts.len() == 0 {
        Seq::empty()
    } else {
        seq![Tok::LAngle, Tok::IntLit(ts[0]), Tok::RAngle]
    }
}

/// The tokens of an expression as it is written.
pub open spec fn expr_tokens(e: ExprV) -> Seq<Tok>
    decreases e,
{
    match e {
        ExprV::IntLit(n) => seq![Tok::IntLit(n)],
        ExprV::Ident(s) => seq![Tok::Ident(s)],
        ExprV::Field { object, field } => expr_tokens(*object) + seq![Tok::Dot, Tok::Ident(field)],
        ExprV::BinOp { op, lhs, rhs } => seq![Tok::LParen] + expr_tokens(*lhs) + seq![op_token(op)]
            + expr_tokens(*rhs) + seq![Tok::RParen],
        ExprV::Call { name, type_args, args } => seq![Tok::Ident(name)] + type_args_tokens(
            type_args,
        ) + seq![Tok::LParen] + list_tokens(args, args.len()) + seq![Tok::RParen],
        ExprV::Index { object, index } => expr_tokens(*object) + seq![Tok::LBracket]
            + expr_tokens(*index) + seq![Tok::RBracket],
        ExprV::For { var, start, end, body } => seq![
            Tok::For,
            Tok::Ident(var),
            Tok::Colon,
            Tok::IntLit(start),
            Tok::DotDot,
            Tok::IntLit(end),
            Tok::LBrace,
        ] + expr_tokens(*body) + seq![Tok::RBrace],
    }
}

/// The tokens of the first `n` of a list of expressions.
pub open spec fn list_tokens(es: Seq<ExprV>, n: nat) -> Seq<Tok>
    decreases es, n,
{
    if n == 0 || n > es.len() {
        Seq::empty()
    } else if n == 1 {
        expr_tokens(es[0])
    } else {
        list_tokens(es, (n - 1) as nat) + seq![Tok::Comma] + expr_tokens(es[n - 1])
    }
}

// ---------------------------------------------------------------------------
// From text to tokens
// ---------------------------------------------------------------------------

/// Whether a text stands at `p` in another.
pub open spec fn stands(s: Seq<char>, p: int, w: Seq<char>) -> bool {
    &&& 0 <= p
    &&& p + w.len() <= s.len()
    &&& forall|j: int| 0 <= j < w.len() ==> s[p + j] == #[trigger] w[j]
}

/// A text that stands somewhere does so in two parts.
pub proof fn lemma_stands_split(s: Seq<char>, p: int, a: Seq<char>, b: Seq<char>)
    requires
        stands(s, p, a + b),
    ensures
        stands(s, p, a),
        stands(s, p + a.len(), b),
        (a + b).len() == a.len() + b.len(),
{
    assert forall|j: int| 0 <= j < a.len() implies s[p + j] == #[trigger] a[j] by {
        assert((a + b)[j] == a[j]);
    }
    assert forall|j: int| 0 <= j < b.len() implies s[p + a.len() + j] == #[trigger] b[j] by {
        assert((a + b)[a.len() + j] == b[j]);
    }
}

/// Whether no word and no numeral goes on at `p`.
pub open spec fn word_ends(s: Seq<char>, p: int) -> bool {
    p < s.len() ==> !is_word(s[p])
}

/// Tokens on one line.
pub open spec fn on_line(ts: Seq<Tok>, line: nat) -> Seq<Spanned> {
    ts.map_values(|t: Tok| Spanned { tok: t, line })
}

/// Whether the text from `p` to `q` is that of some tokens.
pub open spec fn spells(s: Seq<char>, p: int, q: int, ts: Seq<Tok>, line: nat) -> bool {
    &&& 0 <= p <= q <= s.len()
    &&& tokens_from(s, q, line) matches Ok(rest) ==> tokens_from(s, p, line) == Ok::<
        Seq<Spanned>,
        Seq<char>,
    >(on_line(ts, line) + rest)
}

/// Tokens that are spelled one behind the other are spelled together.
pub proof fn lemma_spells_then(
    s: Seq<char>,
    p: int,
    q: int,
    r: int,
    a: Seq<Tok>,
    b: Seq<Tok>,
    line: nat,
)
    requires
        spells(s, p, q, a, line),
        spells(s, q, r, b, line),
    ensures
        spells(s, p, r, a + b, line),
{
    match tokens_from(s, r, line) {
        Ok(rest) => {
            assert(on_line(a, line) + (on_line(b, line) + rest) =~= on_line(a + b, line) + rest);
        },
        Err(_) => {},
    }
}

proof fn lemma_one_token(s: Seq<char>, p: int, r: int, t: Tok, line: nat)
    requires
        0 <= p < r <= s.len(),
        skip_blank(s, p, line) == (p, line),
        token_at(s, p, line) == Ok::<(Tok, int), Seq<char>>((t, r)),
    ensures
        spells(s, p, r, seq![t], line),
{
    match tokens_from(s, r, line) {
        Ok(rest) => {
            assert(on_line(seq![t], line) =~= seq![Spanned { tok: t, line }]);
        },
        Err(_) => {},
    }
}

/// A space spells no token.
pub proof fn lemma_space(s: Seq<char>, p: int, line: nat)
    requires
        0 <= p < s.len(),
        s[p] == ' ',
    ensures
        spells(s, p, p + 1, Seq::empty(), line),
{
    assert(skip_blank(s, p, line) == skip_blank(s, p + 1, line));
    lemma_blank_ahead(s, p + 1, line);
    match tokens_from(s, p + 1, line) {
        Ok(rest) => {
            assert(on_line(Seq::empty(), line) + rest =~= rest);
        },
        Err(_) => {},
    }
}

/// The token of a character that is a token by itself, whatever stands behind it.
pub open spec fn sign(c: char) -> Option<Tok> {
    if c == '(' {
        Some(Tok::LParen)
    } else if c == ')' {
        Some(Tok::RParen)
    } else if c == '{' {
        Some(Tok::LBrace)
    } else if c == '}' {
        Some(Tok::RBrace)
    } else if c == '[' {
        Some(Tok::LBracket)
    } else if c == ']' {
        Some(Tok::RBracket)
    } else if c == '<' {
        Some(Tok::LAngle)
    } else if c == '>' {
        Some(Tok::RAngle)
    } else if c == ',' {
        Some(Tok::Comma)
    } else if c == '+' {
        Some(Tok::Plus)
    } else if c == '-' {
        Some(Tok::Minus)
    } else if c == '*' {
        Some(Tok::Star)
    } else if c == '&' {
        Some(Tok::Ampersand)
    } else {
        None
    }
}

/// A sign spells its token.
pub proof fn lemma_sign(s: Seq<char>, p: int, line: nat)
    requires
        0 <= p < s.len(),
        sign(s[p]) is Some,
    ensures
        spells(s, p, p + 1, seq![sign(s[p])->Some_0], line),
{
    lemma_one_token(s, p, p + 1, sign(s[p])->Some_0, line);
}

proof fn lemma_run_of(s: Seq<char>, p: int, q: int, k: Class)
    requires
        0 <= p <= q <= s.len(),
        forall|i: int| p <= i < q ==> in_class(k, #[trigger] s[i]),
        q < s.len() ==> !in_class(k, s[q]),
    ensures
        run_end(s, p, k) == q,
    decreases q - p,
{
    if p < q {
        assert(in_class(k, s[p]));
        lemma_run_of(s, p + 1, q, k);
    }
}

/// A word spells its token.
pub proof fn lemma_word(s: Seq<char>, p: int, w: Seq<char>, line: nat)
    requires
        stands(s, p, w),
        w.len() > 0,
        is_word_start(w[0]),
        forall|i: int| 0 <= i < w.len() ==> is_word(#[trigger] w[i]),
        word_ends(s, p + w.len()),
    ensures
        spells(s, p, p + w.len(), seq![word_token(w)], line),
{
    let q = p + w.len();
    assert(s[p + 0] == w[0]);
    assert forall|i: int| p <= i < q implies in_class(Class::Word, #[trigger] s[i]) by {
        assert(s[p + (i - p)] == w[i - p]);
    }
    lemma_run_of(s, p, q, Class::Word);
    assert(s.subrange(p, q) =~= w) by {
        assert forall|i: int| 0 <= i < w.len() implies s.subrange(p, q)[i] == w[i] by {
            assert(s[p + i] == w[i]);
        }
    }
    lemma_one_token(s, p, q, word_token(w), line);
}

proof fn lemma_digits_are_digits(n: nat)
    ensures
        digits(n).len() > 0,
        forall|i: int| 0 <= i < digits(n).len() ==> is_digit(#[trigger] digits(n)[i]),
        numeral(digits(n), 10) == n,
    decreases n,
{
    let d = n % 10;
    let c = digit_char(d);
    assert(c as int == 48 + d);
    assert(is_digit(c) && digit_value(c) == d);
    if n < 10 {
        reveal_with_fuel(numeral, 2);
        assert(digits(n) =~= seq![c]);
        assert(seq![c].drop_last() =~= Seq::<char>::empty());
    } else {
        lemma_digits_are_digits(n / 10);
        assert(digits(n).drop_last() =~= digits(n / 10));
        assert(digits(n).last() == c);
        assert forall|i: int| 0 <= i < digits(n).len() implies is_digit(
            #[trigger] digits(n)[i],
        ) by {
            if i < digits(n).len() - 1 {
                assert(is_digit(digits(n / 10)[i]));
            }
        }
    }
}

proof fn lemma_number(s: Seq<char>, p: int, n: u64, line: nat)
    requires
        stands(s, p, digits(n as nat)),
        word_ends(s, p + digits(n as nat).len()),
    ensures
        spells(s, p, p + digits(n as nat).len(), seq![Tok::IntLit(n)], line),
{
    let w = digits(n as nat);
    let q = p + w.len();
    lemma_digits_are_digits(n as nat);
    assert(s[p + 0] == w[0]);
    assert(is_digit(w[0]));
    assert forall|i: int| p <= i < q implies in_class(Class::Digit, #[trigger] s[i]) by {
        assert(s[p + (i - p)] == w[i - p]);
    }
    lemma_run_of(s, p, q, Class::Digit);
    assert(s.subrange(p, q) =~= w) by {
        assert forall|i: int| 0 <= i < w.len() implies s.subrange(p, q)[i] == w[i] by {
            assert(s[p + i] == w[i]);
        }
    }
    if p + 1 < s.len() {
        if p + 1 < q {
            assert(in_class(Class::Digit, s[p + 1]));
        }
        assert(s[p + 1] != 'x' && s[p + 1] != 'X');
    }
    lemma_one_token(s, p, q, Tok::IntLit(n), line);
}

proof fn lemma_dot(s: Seq<char>, p: int, line: nat)
    requires
        0 <= p < s.len(),
        s[p] == '.',
        p + 1 < s.len() ==> s[p + 1] != '.',
    ensures
        spells(s, p, p + 1, seq![Tok::Dot], line),
{
    lemma_one_token(s, p, p + 1, Tok::Dot, line);
}

proof fn lemma_op(s: Seq<char>, p: int, op: Op, line: nat)
    requires
        stands(s, p, op_text(op)),
        p + 1 < s.len(),
        s[p + 1] == ' ',
    ensures
        op_text(op).len() == 1,
        spells(s, p, p + 1, seq![op_token(op)], line),
{
    reveal_strlit("+");
    reveal_strlit("-");
    reveal_strlit("*");
    reveal_strlit("/");
    reveal_strlit("&");
    let w = op_text(op);
    assert(s[p + 0] == w[0]);
    if op == Op::Div {
        lemma_one_token(s, p, p + 1, Tok::Slash, line);
    } else {
        lemma_sign(s, p, line);
    }
}

/// The text of an expression is that of its tokens.
pub proof fn lemma_expr_spelled(s: Seq<char>, p: int, e: ExprV, line: nat)
    requires
        writable(e),
        stands(s, p, expr_text(e)),
        word_ends(s, p + expr_text(e).len()),
    ensures
        spells(s, p, p + expr_text(e).len(), expr_tokens(e), line),
    decreases e, 1int,
{
    match e {
        ExprV::IntLit(n) => {
            lemma_number(s, p, n, line);
        },
        ExprV::Ident(w) => {
            lemma_word(s, p, w, line);
        },
        ExprV::Field { .. } => {
            lemma_field_spelled(s, p, e, line);
        },
        ExprV::BinOp { .. } => {
            lemma_operation_spelled(s, p, e, line);
        },
        ExprV::Call { .. } => {
            lemma_call_spelled(s, p, e, line);
        },
        ExprV::Index { .. } => {
            lemma_index_spelled(s, p, e, line);
        },
        ExprV::For { .. } => {
            lemma_for_spelled(s, p, e, line);
        },
    }
}

proof fn lemma_field_spelled(s: Seq<char>, p: int, e: ExprV, line: nat)
    requires
        e is Field,
        writable(e),
        stands(s, p, expr_text(e)),
        word_ends(s, p + expr_text(e).len()),
    ensures
        spells(s, p, p + expr_text(e).len(), expr_tokens(e), line),
    decreases e, 0int,
{
    match e {
        ExprV::Field { object, field } => {
            reveal_strlit(".");
            let a = expr_text(*object);
            lemma_stands_split(s, p, a + "."@, field);
            lemma_stands_split(s, p, a, "."@);
            let q = p + a.len();
            assert(s[q + 0] == "."@[0]);
            assert(s[q + 1 + 0] == field[0]);
            lemma_expr_spelled(s, p, *object, line);
            lemma_dot(s, q, line);
            lemma_word(s, q + 1, field, line);
            let t = expr_tokens(*object);
            let d = seq![Tok::Dot];
            let f = seq![Tok::Ident(field)];
            lemma_spells_then(s, p, q, q + 1, t, d, line);
            lemma_spells_then(s, p, q + 1, q + 1 + field.len(), t + d, f, line);
            assert(t + d + f =~= t + seq![Tok::Dot, Tok::Ident(field)]);
        },
        _ => {},
    }
}

proof fn lemma_operation_spelled(s: Seq<char>, p: int, e: ExprV, line: nat)
    requires
        e is BinOp,
        writable(e),
        stands(s, p, expr_text(e)),
    ensures
        spells(s, p, p + expr_text(e).len(), expr_tokens(e), line),
    decreases e, 0int,
{
    match e {
        ExprV::BinOp { op, lhs, rhs } => {
            reveal_strlit("(");
            reveal_strlit(" ");
            reveal_strlit(")");
            reveal_strlit("+");
            reveal_strlit("-");
            reveal_strlit("*");
            reveal_strlit("/");
            reveal_strlit("&");
            let a = expr_text(*lhs);
            let b = expr_text(*rhs);
            let o = op_text(op);
            lemma_stands_split(s, p, "("@ + a + " "@ + o + " "@ + b, ")"@);
            lemma_stands_split(s, p, "("@ + a + " "@ + o + " "@, b);
            lemma_stands_split(s, p, "("@ + a + " "@ + o, " "@);
            lemma_stands_split(s, p, "("@ + a + " "@, o);
            lemma_stands_split(s, p, "("@ + a, " "@);
            lemma_stands_split(s, p, "("@, a);
            let p1 = p + 1;
            let p2 = p1 + a.len();
            let p3 = p2 + 1;
            let p4 = p3 + 1;
            let p5 = p4 + 1;
            let p6 = p5 + b.len();
            assert(s[p + 0] == "("@[0]);
            assert(s[p2 + 0] == " "@[0]);
            assert(s[p4 + 0] == " "@[0]);
            assert(s[p6 + 0] == ")"@[0]);
            lemma_sign(s, p, line);
            lemma_expr_spelled(s, p1, *lhs, line);
            lemma_space(s, p2, line);
            lemma_op(s, p3, op, line);
            lemma_space(s, p4, line);
            lemma_expr_spelled(s, p5, *rhs, line);
            lemma_sign(s, p6, line);
            let none = Seq::<Tok>::empty();
            let l = seq![Tok::LParen];
            let x = expr_tokens(*lhs);
            let y = expr_tokens(*rhs);
            let z = seq![op_token(op)];
            let r = seq![Tok::RParen];
            lemma_spells_then(s, p, p1, p2, l, x, line);
            lemma_spells_then(s, p, p2, p3, l + x, none, line);
            lemma_spells_then(s, p, p3, p4, l + x + none, z, line);
            lemma_spells_then(s, p, p4, p5, l + x + none + z, none, line);
            lemma_spells_then(s, p, p5, p6, l + x + none + z + none, y, line);
            lemma_spells_then(s, p, p6, p6 + 1, l + x + none + z + none + y, r, line);
            assert(l + x + none + z + none + y + r =~= l + x + z + y + r);
        },
        _ => {},
    }
}

proof fn lemma_index_spelled(s: Seq<char>, p: int, e: ExprV, line: nat)
    requires
        e is Index,
        writable(e),
        stands(s, p, expr_text(e)),
    ensures
        spells(s, p, p + expr_text(e).len(), expr_tokens(e), line),
    decreases e, 0int,
{
    match e {
        ExprV::Index { object, index } => {
            reveal_strlit("[");
            reveal_strlit("]");
            let a = expr_text(*object);
            let b = expr_text(*index);
            lemma_stands_split(s, p, a + "["@ + b, "]"@);
            lemma_stands_split(s, p, a + "["@, b);
            lemma_stands_split(s, p, a, "["@);
            let p1 = p + a.len();
            let p2 = p1 + 1;
            let p3 = p2 + b.len();
            assert(s[p1 + 0] == "["@[0]);
            assert(s[p3 + 0] == "]"@[0]);
            lemma_expr_spelled(s, p, *object, line);
            lemma_sign(s, p1, line);
            lemma_expr_spelled(s, p2, *index, line);
            lemma_sign(s, p3, line);
            let x = expr_tokens(*object);
            let y = expr_tokens(*index);
            let l = seq![Tok::LBracket];
            let r = seq![Tok::RBracket];
            lemma_spells_then(s, p, p1, p2, x, l, line);
            lemma_spells_then(s, p, p2, p3, x + l, y, line);
            lemma_spells_then(s, p, p3, p3 + 1, x + l + y, r, line);
        },
        _ => {},
    }
}

proof fn lemma_for_spelled(s: Seq<char>, p: int, e: ExprV, line: nat)
    requires
        e is For,
        writable(e),
        stands(s, p, expr_text(e)),
    ensures
        spells(s, p, p + expr_text(e).len(), expr_tokens(e), line),
    decreases e, 0int,
{
    match e {
        ExprV::For { var, start, end, body } => {
            reveal_strlit("for ");
            reveal_strlit("for");
            reveal_strlit(":");
            reveal_strlit("..");
            reveal_strlit("{");
            reveal_strlit("}");
            let a = digits(start as nat);
            let b = digits(end as nat);
            let c = expr_text(*body);
            lemma_digits_are_digits(start as nat);
            lemma_digits_are_digits(end as nat);
            let head = "for "@ + var + ":"@ + a + ".."@ + b;
            lemma_stands_split(s, p, head, "{"@ + c + "}"@);
            lemma_stands_split(s, p + head.len(), "{"@ + c, "}"@);
            lemma_stands_split(s, p + head.len(), "{"@, c);
            lemma_stands_split(s, p, "for "@ + var + ":"@ + a + ".."@, b);
            lemma_stands_split(s, p, "for "@ + var + ":"@ + a, ".."@);
            lemma_stands_split(s, p, "for "@ + var + ":"@, a);
            lemma_stands_split(s, p, "for "@ + var, ":"@);
            lemma_stands_split(s, p, "for "@, var);
            let p1 = p + 3;
            let p2 = p + 4;
            let p3 = p2 + var.len();
            let p4 = p3 + 1;
            let p5 = p4 + a.len();
            let p6 = p5 + 2;
            let p7 = p6 + b.len();
            let p8 = p7 + 1;
            let p9 = p8 + c.len();
            let f = "for "@;
            assert(s[p + 0] == f[0] && s[p + 1] == f[1] && s[p + 2] == f[2] && s[p + 3] == f[3]);
            assert("for"@ =~= seq!['f', 'o', 'r']);
            assert(stands(s, p, "for"@));
            assert(s[p3 + 0] == ":"@[0]);
            assert(s[p4 + 0] == a[0]);
            assert(is_digit(a[0]));
            assert(s[p5 + 0] == ".."@[0] && s[p5 + 1] == ".."@[1]);
            assert(s[p7 + 0] == "{"@[0]);
            assert(s[p9 + 0] == "}"@[0]);
            assert(word_token("for"@) == Tok::For) by {
                reveal_strlit("component");
                reveal_strlit("import");
                reveal_strlit("public");
                assert("for"@.len() == 3);
            }
            lemma_word(s, p, "for"@, line);
            lemma_space(s, p1, line);
            lemma_word(s, p2, var, line);
            lemma_one_token(s, p3, p4, Tok::Colon, line);
            lemma_number(s, p4, start, line);
            lemma_one_token(s, p5, p6, Tok::DotDot, line);
            lemma_number(s, p6, end, line);
            lemma_sign(s, p7, line);
            lemma_expr_spelled(s, p8, *body, line);
            lemma_sign(s, p9, line);
            let none = Seq::<Tok>::empty();
            let t0 = seq![Tok::For];
            let t1 = seq![Tok::Ident(var)];
            let t2 = seq![Tok::Colon];
            let t3 = seq![Tok::IntLit(start)];
            let t4 = seq![Tok::DotDot];
            let t5 = seq![Tok::IntLit(end)];
            let t6 = seq![Tok::LBrace];
            let t7 = expr_tokens(*body);
            let t8 = seq![Tok::RBrace];
            lemma_spells_then(s, p, p1, p2, t0, none, line);
            lemma_spells_then(s, p, p2, p3, t0 + none, t1, line);
            lemma_spells_then(s, p, p3, p4, t0 + none + t1, t2, line);
            lemma_spells_then(s, p, p4, p5, t0 + none + t1 + t2, t3, line);
            lemma_spells_then(s, p, p5, p6, t0 + none + t1 + t2 + t3, t4, line);
            lemma_spells_then(s, p, p6, p7, t0 + none + t1 + t2 + t3 + t4, t5, line);
            lemma_spells_then(s, p, p7, p8, t0 + none + t1 + t2 + t3 + t4 + t5, t6, line);
            lemma_spells_then(s, p, p8, p9, t0 + none + t1 + t2 + t3 + t4 + t5 + t6, t7, line);
            let most = t0 + none + t1 + t2 + t3 + t4 + t5 + t6 + t7;
            lemma_spells_then(s, p, p9, p9 + 1, most, t8, line);
            assert(t0 + none + t1 + t2 + t3 + t4 + t5 + t6 =~= seq![
                Tok::For,
                Tok::Ident(var),
                Tok::Colon,
                Tok::IntLit(start),
                Tok::DotDot,
                Tok::IntLit(end),
                Tok::LBrace,
            ]);
        },
        _ => {},
    }
}

/// How the first `n` of a list of expressions are written.
spec fn list_text(es: Seq<ExprV>, n: nat) -> Seq<char> {
    joined(expr_texts(es).take(n as int), ", "@)
}

proof fn lemma_list_spelled(s: Seq<char>, p: int, es: Seq<ExprV>, n: nat, line: nat)
    requires
        all_writable(es),
        n <= es.len(),
        stands(s, p, list_text(es, n)),
        word_ends(s, p + list_text(es, n).len()),
    ensures
        spells(s, p, p + list_text(es, n).len(), list_tokens(es, n), line),
    decreases es, n,
{
    reveal_strlit(", ");
    let parts = expr_texts(es).take(n as int);
    if n == 0 {
        match tokens_from(s, p, line) {
            Ok(rest) => {
                assert(on_line(Seq::empty(), line) + rest =~= rest);
            },
            Err(_) => {},
        }
    } else {
        assert(parts.last() == expr_text(es[n - 1]));
        assert(writable(es[n - 1]));
        if n == 1 {
            assert(parts[0] == expr_text(es[0]));
            lemma_expr_spelled(s, p, es[0], line);
        } else {
            let k = (n - 1) as nat;
            assert(parts.drop_last() =~= expr_texts(es).take(k as int));
            let a = list_text(es, k);
            let b = expr_text(es[n - 1]);
            assert(list_text(es, n) == a + ", "@ + b);
            lemma_stands_split(s, p, a + ", "@, b);
            lemma_stands_split(s, p, a, ", "@);
            let p1 = p + a.len();
            let p2 = p1 + 1;
            let p3 = p2 + 1;
            assert(s[p1 + 0] == ", "@[0] && s[p1 + 1] == ", "@[1]);
            lemma_list_spelled(s, p, es, k, line);
            lemma_sign(s, p1, line);
            lemma_space(s, p2, line);
            lemma_expr_spelled(s, p3, es[n - 1], line);
            let x = list_tokens(es, k);
            let c = seq![Tok::Comma];
            let none = Seq::<Tok>::empty();
            let y = expr_tokens(es[n - 1]);
            lemma_spells_then(s, p, p1, p2, x, c, line);
            lemma_spells_then(s, p, p2, p3, x + c, none, line);
            lemma_spells_then(s, p, p3, p3 + b.len(), x + c + none, y, line);
            assert(x + c + none + y =~= x + c + y);
        }
    }
}

proof fn lemma_type_args_spelled(s: Seq<char>, p: int, ts: Seq<u64>, line: nat)
    requires
        ts.len() <= 1,
        stands(s, p, type_args_text(ts)),
    ensures
        spells(s, p, p + type_args_text(ts).len(), type_args_tokens(ts), line),
        ts.len() > 0 ==> type_args_text(ts).len() > 0 && s[p] == '<',
{
    reveal_strlit("<");
    reveal_strlit(">");
    if ts.len() == 0 {
        match tokens_from(s, p, line) {
            Ok(rest) => {
                assert(on_line(Seq::empty(), line) + rest =~= rest);
            },
            Err(_) => {},
        }
    } else {
        let parts = ts.map_values(|n: u64| digits(n as nat));
        let a = digits(ts[0] as nat);
        assert(parts.len() == 1 && parts[0] == a);
        lemma_stands_split(s, p, "<"@ + a, ">"@);
        lemma_stands_split(s, p, "<"@, a);
        let p1 = p + 1;
        let p2 = p1 + a.len();
        assert(s[p + 0] == "<"@[0]);
        assert(s[p2 + 0] == ">"@[0]);
        lemma_sign(s, p, line);
        lemma_number(s, p1, ts[0], line);
        lemma_sign(s, p2, line);
        let l = seq![Tok::LAngle];
        let x = seq![Tok::IntLit(ts[0])];
        let r = seq![Tok::RAngle];
        lemma_spells_then(s, p, p1, p2, l, x, line);
        lemma_spells_then(s, p, p2, p2 + 1, l + x, r, line);
        assert(l + x + r =~= type_args_tokens(ts));
    }
}

proof fn lemma_call_spelled(s: Seq<char>, p: int, e: ExprV, line: nat)
    requires
        e is Call,
        writable(e),
        stands(s, p, expr_text(e)),
    ensures
        spells(s, p, p + expr_text(e).len(), expr_tokens(e), line),
    decreases e, 0int,
{
    match e {
        ExprV::Call { name, type_args, args } => {
            reveal_strlit("(");
            reveal_strlit(")");
            let a = type_args_text(type_args);
            let b = joined(expr_texts(args), ", "@);
            assert(expr_texts(args).take(args.len() as int) =~= expr_texts(args));
            assert(b == list_text(args, args.len()));
            lemma_stands_split(s, p, name + a + "("@ + b, ")"@);
            lemma_stands_split(s, p, name + a + "("@, b);
            lemma_stands_split(s, p, name + a, "("@);
            lemma_stands_split(s, p, name, a);
            let p1 = p + name.len();
            let p2 = p1 + a.len();
            let p3 = p2 + 1;
            let p4 = p3 + b.len();
            assert(s[p2 + 0] == "("@[0]);
            assert(s[p4 + 0] == ")"@[0]);
            lemma_type_args_spelled(s, p1, type_args, line);
            lemma_word(s, p, name, line);
            lemma_sign(s, p2, line);
            lemma_list_spelled(s, p3, args, args.len(), line);
            lemma_sign(s, p4, line);
            let t0 = seq![Tok::Ident(name)];
            let t1 = type_args_tokens(type_args);
            let t2 = seq![Tok::LParen];
            let t3 = list_tokens(args, args.len());
            let t4 = seq![Tok::RParen];
            lemma_spells_then(s, p, p1, p2, t0, t1, line);
            lemma_spells_then(s, p, p2, p3, t0 + t1, t2, line);
            lemma_spells_then(s, p, p3, p4, t0 + t1 + t2, t3, line);
            lemma_spells_then(s, p, p4, p4 + 1, t0 + t1 + t2 + t3, t4, line);
        },
        _ => {},
    }
}

// ---------------------------------------------------------------------------
// From tokens to expressions
// ---------------------------------------------------------------------------

/// Whether tokens stand at `p`, and one more behind them.
pub open spec fn tokens_stand(ts: Seq<Spanned>, p: int, v: Seq<Tok>) -> bool {
    &&& 0 <= p
    &&& p + v.len() < ts.len()
    &&& forall|j: int| 0 <= j < v.len() ==> ts[p + j].tok == #[trigger] v[j]
}

/// Tokens that stand somewhere do so in two parts.
pub proof fn lemma_tokens_split(ts: Seq<Spanned>, p: int, a: Seq<Tok>, b: Seq<Tok>)
    requires
        tokens_stand(ts, p, a + b),
    ensures
        tokens_stand(ts, p, a),
        tokens_stand(ts, p + a.len(), b),
        (a + b).len() == a.len() + b.len(),
        b.len() > 0 ==> tok_at(ts, p + a.len()) == b[0],
{
    assert forall|j: int| 0 <= j < a.len() implies ts[p + j].tok == #[trigger] a[j] by {
        assert((a + b)[j] == a[j]);
    }
    assert forall|j: int| 0 <= j < b.len() implies ts[p + a.len() + j].tok == #[trigger] b[j] by {
        assert((a + b)[a.len() + j] == b[j]);
    }
    if b.len() > 0 {
        assert(ts[p + a.len() + 0].tok == b[0]);
    }
}

/// Whether a token ends an expression.
pub open spec fn closer(t: Tok) -> bool {
    t == Tok::RParen || t == Tok::RBracket || t == Tok::RBrace || t == Tok::Comma || t == Tok::Semicolon
        || t == Tok::Eq || t == Tok::Eof
}

/// Whether a token can stand behind a name that is not that of a call.
pub open spec fn no_call(t: Tok) -> bool {
    t != Tok::LParen && t != Tok::LAngle
}

/// The tokens of an expression are not none, and the first closes nothing.
pub proof fn lemma_first_token(e: ExprV)
    ensures
        expr_tokens(e).len() > 0,
        !closer(expr_tokens(e)[0]),
    decreases e,
{
    match e {
        ExprV::Field { object, .. } => {
            lemma_first_token(*object);
        },
        ExprV::Index { object, .. } => {
            lemma_first_token(*object);
        },
        _ => {},
    }
}

/// An expression is read up to where its tokens end, with what is behind them still to be
/// accessed or indexed.
pub proof fn lemma_postfix(ts: Seq<Spanned>, p: int, e: ExprV)
    requires
        writable(e),
        tokens_stand(ts, p, expr_tokens(e)),
        no_call(tok_at(ts, p + expr_tokens(e).len())),
    ensures
        postfix(ts, p) == postfix_rest(ts, e, p + expr_tokens(e).len()),
        expr_tokens(e).len() > 0,
    decreases e, 2int,
{
    lemma_first_token(e);
    match e {
        ExprV::Field { object, field } => {
            let a = expr_tokens(*object);
            let b = seq![Tok::Dot, Tok::Ident(field)];
            lemma_tokens_split(ts, p, a, b);
            lemma_postfix(ts, p, *object);
            let q = p + a.len();
            assert(ts[q + 1].tok == b[1]);
            reveal(postfix_rest);
        },
        ExprV::Index { object, index } => {
            let a = expr_tokens(*object);
            let b = expr_tokens(*index);
            let l = seq![Tok::LBracket];
            let r = seq![Tok::RBracket];
            lemma_tokens_split(ts, p, a + l + b, r);
            lemma_tokens_split(ts, p, a + l, b);
            lemma_tokens_split(ts, p, a, l);
            lemma_postfix(ts, p, *object);
            lemma_whole(ts, p + a.len() + 1, *index);
            reveal(postfix_rest);
            reveal(expr);
        },
        _ => {
            lemma_primary(ts, p, e);
            reveal(postfix);
            reveal(primary);
            reveal(postfix_rest);
        },
    }
}

proof fn lemma_operation_read(ts: Seq<Spanned>, p: int, e: ExprV)
    requires
        e is BinOp,
        writable(e),
        tokens_stand(ts, p, expr_tokens(e)),
    ensures
        primary(ts, p) == Ok::<(ExprV, int), Seq<char>>((e, p + expr_tokens(e).len())),
    decreases e, 0int,
{
    let v = expr_tokens(e);
    lemma_first_token(e);
    assert(ts[p + 0].tok == v[0]);
    match e {
        ExprV::BinOp { op, lhs, rhs } => {
            let a = expr_tokens(*lhs);
            let b = expr_tokens(*rhs);
            let o = seq![op_token(op)];
            let l = seq![Tok::LParen];
            let r = seq![Tok::RParen];
            lemma_tokens_split(ts, p, l + a + o + b, r);
            lemma_tokens_split(ts, p, l + a + o, b);
            lemma_tokens_split(ts, p, l + a, o);
            lemma_tokens_split(ts, p, l, a);
            let p1 = p + 1;
            let p2 = p1 + a.len();
            let p3 = p2 + 1;
            let p4 = p3 + b.len();
            lemma_postfix(ts, p1, *lhs);
            lemma_postfix(ts, p3, *rhs);
            lemma_joined_by(ts, p1, op, *lhs, p2, *rhs, p4);
            reveal(primary);
            reveal(expr);
        },
        _ => {},
    }
}

proof fn lemma_call_read(ts: Seq<Spanned>, p: int, e: ExprV)
    requires
        e is Call,
        writable(e),
        tokens_stand(ts, p, expr_tokens(e)),
    ensures
        primary(ts, p) == Ok::<(ExprV, int), Seq<char>>((e, p + expr_tokens(e).len())),
    decreases e, 0int,
{
    let v = expr_tokens(e);
    lemma_first_token(e);
    assert(ts[p + 0].tok == v[0]);
    match e {
        ExprV::Call { name, type_args, args } => {
            let t0 = seq![Tok::Ident(name)];
            let t1 = type_args_tokens(type_args);
            let t2 = seq![Tok::LParen];
            let t3 = list_tokens(args, args.len());
            let t4 = seq![Tok::RParen];
            lemma_tokens_split(ts, p, t0 + t1 + t2 + t3, t4);
            lemma_tokens_split(ts, p, t0 + t1 + t2, t3);
            lemma_tokens_split(ts, p, t0 + t1, t2);
            lemma_tokens_split(ts, p, t0, t1);
            let p1 = p + 1;
            let p2 = p1 + t1.len();
            let p3 = p2 + 1;
            let p4 = p3 + t3.len();
            assert(tok_at(ts, p4) == Tok::RParen);
            lemma_whole_list(ts, p3, args, Tok::RParen);
            assert(arguments(ts, p3) == Ok::<(Seq<ExprV>, int), Seq<char>>((args, p4 + 1))) by {
                reveal(arguments);
                reveal(expr_list);
            }
            reveal(primary);
            reveal(arguments);
            if type_args.len() > 0 {
                reveal(type_arg);
                assert(ts[p1 + 0].tok == t1[0] && ts[p1 + 1].tok == t1[1] && ts[p1 + 2].tok
                    == t1[2]);
                assert(type_args =~= seq![type_args[0]]);
            } else {
                assert(type_args =~= Seq::empty());
            }
        },
        _ => {},
    }
}

proof fn lemma_for_read(ts: Seq<Spanned>, p: int, e: ExprV)
    requires
        e is For,
        writable(e),
        tokens_stand(ts, p, expr_tokens(e)),
    ensures
        primary(ts, p) == Ok::<(ExprV, int), Seq<char>>((e, p + expr_tokens(e).len())),
    decreases e, 0int,
{
    let v = expr_tokens(e);
    lemma_first_token(e);
    assert(ts[p + 0].tok == v[0]);
    match e {
        ExprV::For { var, start, end, body } => {
            let h = seq![
                Tok::For,
                Tok::Ident(var),
                Tok::Colon,
                Tok::IntLit(start),
                Tok::DotDot,
                Tok::IntLit(end),
                Tok::LBrace,
            ];
            let b = expr_tokens(*body);
            let r = seq![Tok::RBrace];
            lemma_tokens_split(ts, p, h + b, r);
            lemma_tokens_split(ts, p, h, b);
            assert(ts[p + 1].tok == h[1] && ts[p + 2].tok == h[2] && ts[p + 3].tok == h[3]);
            assert(ts[p + 4].tok == h[4] && ts[p + 5].tok == h[5] && ts[p + 6].tok == h[6]);
            assert(for_head(ts, p) == Ok::<((Seq<char>, u64, u64), int), Seq<char>>(
                ((var, start, end), p + 7),
            )) by {
                reveal(for_head);
            }
            lemma_whole(ts, p + 7, *body);
            reveal(primary);
            reveal(expr);
        },
        _ => {},
    }
}

/// An expression that is no access and no indexing is read as a whole.
proof fn lemma_primary(ts: Seq<Spanned>, p: int, e: ExprV)
    requires
        writable(e),
        !(e is Field),
        !(e is Index),
        tokens_stand(ts, p, expr_tokens(e)),
        no_call(tok_at(ts, p + expr_tokens(e).len())),
    ensures
        primary(ts, p) == Ok::<(ExprV, int), Seq<char>>((e, p + expr_tokens(e).len())),
    decreases e, 1int,
{
    reveal(primary);
    let v = expr_tokens(e);
    lemma_first_token(e);
    assert(ts[p + 0].tok == v[0]);
    match e {
        ExprV::BinOp { .. } => {
            lemma_operation_read(ts, p, e);
        },
        ExprV::Call { .. } => {
            lemma_call_read(ts, p, e);
        },
        ExprV::For { .. } => {
            lemma_for_read(ts, p, e);
        },
        _ => {},
    }
}

/// Nothing is accessed or indexed where no dot and no bracket stands.
pub proof fn lemma_postfix_ends(ts: Seq<Spanned>, x: ExprV, q: int)
    requires
        tok_at(ts, q) != Tok::Dot,
        tok_at(ts, q) != Tok::LBracket,
    ensures
        postfix_rest(ts, x, q) == Ok::<(ExprV, int), Seq<char>>((x, q)),
{
    reveal(postfix_rest);
}

/// One operand at this level of binding, with no operator of it behind.
proof fn lemma_bitwise_of_one(ts: Seq<Spanned>, p: int, x: ExprV, q: int)
    requires
        p < q <= ts.len(),
        postfix(ts, p) == Ok::<(ExprV, int), Seq<char>>((x, q)),
        tok_at(ts, q) != Tok::Ampersand,
    ensures
        bitwise(ts, p) == Ok::<(ExprV, int), Seq<char>>((x, q)),
{
    reveal(bitwise);
    reveal(postfix);
    reveal(bitwise_rest);
}

/// Two operands with an operator between them.
proof fn lemma_bitwise_of_two(ts: Seq<Spanned>, p: int, l: ExprV, q: int, r: ExprV, end: int)
    requires
        p < q < end <= ts.len(),
        postfix(ts, p) == Ok::<(ExprV, int), Seq<char>>((l, q)),
        postfix(ts, q + 1) == Ok::<(ExprV, int), Seq<char>>((r, end)),
        tok_at(ts, q) == Tok::Ampersand,
        tok_at(ts, end) != Tok::Ampersand,
    ensures
        bitwise(ts, p) == Ok::<(ExprV, int), Seq<char>>((binary(Op::BitAnd, l, r), end)),
{
    let x = binary(Op::BitAnd, l, r);
    assert(bitwise_rest(ts, x, end) == Ok::<(ExprV, int), Seq<char>>((x, end))) by {
        reveal(bitwise_rest);
    }
    assert(bitwise_rest(ts, l, q) == bitwise_rest(ts, x, end)) by {
        reveal(bitwise_rest);
        reveal(postfix);
    }
    reveal(bitwise);
    reveal(postfix);
    reveal(bitwise_rest);
}

/// One operand at this level of binding, with no operator of it behind.
proof fn lemma_multiplicative_of_one(ts: Seq<Spanned>, p: int, x: ExprV, q: int)
    requires
        p < q <= ts.len(),
        bitwise(ts, p) == Ok::<(ExprV, int), Seq<char>>((x, q)),
        mul_op(tok_at(ts, q)) is None,
    ensures
        multiplicative(ts, p) == Ok::<(ExprV, int), Seq<char>>((x, q)),
{
    reveal(multiplicative);
    reveal(bitwise);
    reveal(multiplicative_rest);
}

/// Two operands with an operator between them.
proof fn lemma_multiplicative_of_two(ts: Seq<Spanned>, p: int, l: ExprV, q: int, r: ExprV, end: int)
    requires
        p < q < end <= ts.len(),
        bitwise(ts, p) == Ok::<(ExprV, int), Seq<char>>((l, q)),
        bitwise(ts, q + 1) == Ok::<(ExprV, int), Seq<char>>((r, end)),
        mul_op(tok_at(ts, q)) is Some,
        mul_op(tok_at(ts, end)) is None,
    ensures
        multiplicative(ts, p) == Ok::<(ExprV, int), Seq<char>>(
            (binary(mul_op(tok_at(ts, q))->Some_0, l, r), end),
        ),
{
    let x = binary(mul_op(tok_at(ts, q))->Some_0, l, r);
    assert(multiplicative_rest(ts, x, end) == Ok::<(ExprV, int), Seq<char>>((x, end))) by {
        reveal(multiplicative_rest);
    }
    assert(multiplicative_rest(ts, l, q) == multiplicative_rest(ts, x, end)) by {
        reveal(multiplicative_rest);
        reveal(bitwise);
    }
    reveal(multiplicative);
    reveal(bitwise);
    reveal(multiplicative_rest);
}

/// One operand at this level of binding, with no operator of it behind.
proof fn lemma_additive_of_one(ts: Seq<Spanned>, p: int, x: ExprV, q: int)
    requires
        p < q <= ts.len(),
        multiplicative(ts, p) == Ok::<(ExprV, int), Seq<char>>((x, q)),
        add_op(tok_at(ts, q)) is None,
    ensures
        additive(ts, p) == Ok::<(ExprV, int), Seq<char>>((x, q)),
{
    reveal(additive);
    reveal(multiplicative);
    reveal(additive_rest);
}

/// Two operands with an operator between them.
proof fn lemma_additive_of_two(ts: Seq<Spanned>, p: int, l: ExprV, q: int, r: ExprV, end: int)
    requires
        p < q < end <= ts.len(),
        multiplicative(ts, p) == Ok::<(ExprV, int), Seq<char>>((l, q)),
        multiplicative(ts, q + 1) == Ok::<(ExprV, int), Seq<char>>((r, end)),
        add_op(tok_at(ts, q)) is Some,
        add_op(tok_at(ts, end)) is None,
    ensures
        additive(ts, p) == Ok::<(ExprV, int), Seq<char>>(
            (binary(add_op(tok_at(ts, q))->Some_0, l, r), end),
        ),
{
    let x = binary(add_op(tok_at(ts, q))->Some_0, l, r);
    assert(additive_rest(ts, x, end) == Ok::<(ExprV, int), Seq<char>>((x, end))) by {
        reveal(additive_rest);
    }
    assert(additive_rest(ts, l, q) == additive_rest(ts, x, end)) by {
        reveal(additive_rest);
        reveal(multiplicative);
    }
    reveal(additive);
    reveal(multiplicative);
    reveal(additive_rest);
}

/// Two expressions with an operator between them, in parentheses, are the operation.
proof fn lemma_joined_by(
    ts: Seq<Spanned>,
    p: int,
    op: Op,
    l: ExprV,
    q: int,
    r: ExprV,
    end: int,
)
    requires
        0 <= p < q,
        q + 1 < end < ts.len(),
        tok_at(ts, q) == op_token(op),
        tok_at(ts, end) == Tok::RParen,
        postfix(ts, p) == postfix_rest(ts, l, q),
        postfix(ts, q + 1) == postfix_rest(ts, r, end),
    ensures
        expr(ts, p) == Ok::<(ExprV, int), Seq<char>>((binary(op, l, r), end)),
{
    lemma_postfix_ends(ts, l, q);
    lemma_postfix_ends(ts, r, end);
    let x = binary(op, l, r);
    if op == Op::BitAnd {
        lemma_bitwise_of_two(ts, p, l, q, r, end);
        lemma_multiplicative_of_one(ts, p, x, end);
        lemma_additive_of_one(ts, p, x, end);
    } else {
        lemma_bitwise_of_one(ts, p, l, q);
        lemma_bitwise_of_one(ts, q + 1, r, end);
        if op == Op::Mul || op == Op::Div {
            lemma_multiplicative_of_two(ts, p, l, q, r, end);
            lemma_additive_of_one(ts, p, x, end);
        } else {
            lemma_multiplicative_of_one(ts, p, l, q);
            lemma_multiplicative_of_one(ts, q + 1, r, end);
            lemma_additive_of_two(ts, p, l, q, r, end);
        }
    }
    reveal(expr);
    reveal(additive);
}

/// An expression with a token behind it that ends it is read as a whole.
pub proof fn lemma_whole(ts: Seq<Spanned>, p: int, e: ExprV)
    requires
        writable(e),
        tokens_stand(ts, p, expr_tokens(e)),
        closer(tok_at(ts, p + expr_tokens(e).len())),
    ensures
        expr(ts, p) == Ok::<(ExprV, int), Seq<char>>((e, p + expr_tokens(e).len())),
    decreases e, 3int,
{
    let q = p + expr_tokens(e).len();
    lemma_postfix(ts, p, e);
    lemma_postfix_ends(ts, e, q);
    lemma_bitwise_of_one(ts, p, e, q);
    lemma_multiplicative_of_one(ts, p, e, q);
    lemma_additive_of_one(ts, p, e, q);
    reveal(expr);
    reveal(additive);
}

/// The first `n` of a list of expressions are read.
proof fn lemma_list(ts: Seq<Spanned>, p: int, es: Seq<ExprV>, n: nat, close: Tok)
    requires
        all_writable(es),
        n <= es.len(),
        close == Tok::RParen || close == Tok::RBracket,
        tokens_stand(ts, p, list_tokens(es, n)),
        tok_at(ts, p + list_tokens(es, n).len()) == Tok::Comma || tok_at(
            ts,
            p + list_tokens(es, n).len(),
        ) == close,
    ensures
        n > 0 ==> expr_list(ts, p, close) == expr_list_rest(
            ts,
            es.take(n as int),
            p + list_tokens(es, n).len(),
        ),
    decreases es, n,
{
    reveal(expr_list);
    reveal(expr_list_rest);
    reveal(expr);
    if n > 0 {
        assert(writable(es[n - 1]));
        lemma_first_token(es[n - 1]);
        if n == 1 {
            lemma_whole(ts, p, es[0]);
            assert(ts[p + 0].tok == expr_tokens(es[0])[0]);
            assert(es.take(1) =~= seq![es[0]]);
        } else {
            let k = (n - 1) as nat;
            let a = list_tokens(es, k);
            let b = expr_tokens(es[n - 1]);
            let c = seq![Tok::Comma];
            lemma_tokens_split(ts, p, a + c, b);
            lemma_tokens_split(ts, p, a, c);
            lemma_list(ts, p, es, k, close);
            lemma_whole(ts, p + a.len() + 1, es[n - 1]);
            assert(es.take(n as int) =~= es.take(k as int).push(es[n - 1]));
        }
    }
}

/// A list of expressions with the token behind it that ends it is read as a whole.
pub proof fn lemma_whole_list(ts: Seq<Spanned>, p: int, es: Seq<ExprV>, close: Tok)
    requires
        all_writable(es),
        close == Tok::RParen || close == Tok::RBracket,
        tokens_stand(ts, p, list_tokens(es, es.len())),
        tok_at(ts, p + list_tokens(es, es.len()).len()) == close,
    ensures
        expr_list(ts, p, close) == Ok::<(Seq<ExprV>, int), Seq<char>>(
            (es, p + list_tokens(es, es.len()).len()),
        ),
    decreases es, es.len() + 1,
{
    lemma_list(ts, p, es, es.len(), close);
    assert(es.take(es.len() as int) =~= es);
    if es.len() == 0 {
        assert(es =~= Seq::empty());
        reveal(expr_list);
    } else {
        reveal(expr_list_rest);
        reveal(expr);
    }
}

/// An expression that is written out is read as the same expression, and nothing is left of the
/// text.
pub proof fn lemma_written_is_read(e: ExprV)
    requires
        writable(e),
    ensures
        tokens_of(expr_text(e)) matches Ok(ts) && {
            &&& ts == on_line(expr_tokens(e), 1).push(Spanned { tok: Tok::Eof, line: 1 })
            &&& expr(ts, 0) == Ok::<(ExprV, int), Seq<char>>((e, ts.len() - 1))
        },
{
    let s = expr_text(e);
    assert(stands(s, 0, s));
    lemma_expr_spelled(s, 0, e, 1);
    let end = seq![Spanned { tok: Tok::Eof, line: 1 }];
    assert(tokens_from(s, s.len() as int, 1) == Ok::<Seq<Spanned>, Seq<char>>(end));
    let v = expr_tokens(e);
    let ts = on_line(v, 1) + end;
    assert(ts =~= on_line(v, 1).push(Spanned { tok: Tok::Eof, line: 1 }));
    assert(tokens_stand(ts, 0, v));
    lemma_whole(ts, 0, e);
}

} // verus!
