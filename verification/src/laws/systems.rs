//! What a system of polynomials says, read from its text by the rules of arithmetic: products bind
//! more tightly than sums and differences, operations of one kind are grouped from the left, and
//! spaces do not count.

use vstd::arithmetic::div_mod::{
    lemma_add_mod_noop, lemma_mod_twice, lemma_mul_mod_noop, lemma_sub_mod_noop,
};
use vstd::arithmetic::power2::pow2;
use vstd::prelude::*;
use crate::laws::arithmetic::number;
use crate::laws::field::prime;
use crate::laws::finite::bit_values;
use crate::laws::numerals::{lemma_decimal_text, stands_for, written_in};
use crate::laws::polynomials::{difference_sum, poly_value, poly_zero};
use crate::laws::scripts::{lemma_numeral_value, numeral_value};
use crate::laws::texts::lemma_joined;
use crate::text::{digits, joined, signed_digits};
use crate::verifier_ff::{range_bit, BABYBEAR_P};
use crate::verifier_msolve::{
    difference_text, difference_texts, factor, poly_expr_text, poly_text, poly_texts, system_text,
    weighted_bit_texts, Poly, PolyExpr, System,
};

verus! {

// ---------------------------------------------------------------------------
// Forms
// ---------------------------------------------------------------------------

/// How a polynomial is written.
pub enum Form {
    Name(Seq<char>),
    Numeral(Seq<char>),
    Negative(Seq<char>),
    Sum(Box<Form>, Box<Form>),
    Difference(Box<Form>, Box<Form>),
    Product(Box<Form>, Box<Form>),
    Grouped(Box<Form>),
}

/// The text of a form, without spaces.
pub open spec fn written(f: Form) -> Seq<char>
    decreases f,
{
    match f {
        Form::Name(x) => x,
        Form::Numeral(w) => w,
        Form::Negative(w) => seq!['-'] + w,
        Form::Sum(a, b) => written(*a) + seq!['+'] + written(*b),
        Form::Difference(a, b) => written(*a) + seq!['-'] + written(*b),
        Form::Product(a, b) => written(*a) + seq!['*'] + written(*b),
        Form::Grouped(a) => seq!['('] + written(*a) + seq![')'],
    }
}

/// Whether a form is a factor: a name, a number or something in parentheses.
pub open spec fn is_factor(f: Form) -> bool {
    f is Name || f is Numeral || f is Negative || f is Grouped
}

/// Whether a form is what its text is read as: what a product is made of is no sum and no
/// difference, and what stands behind an operator is no further operation of its kind.
pub open spec fn is_read_so(f: Form) -> bool
    decreases f,
{
    match f {
        Form::Name(x) => is_name(x),
        Form::Numeral(w) => is_number(w),
        Form::Negative(w) => is_number(w),
        Form::Sum(a, b) => is_read_so(*a) && is_read_so(*b) && (is_factor(*b) || *b is Product),
        Form::Difference(a, b) => is_read_so(*a) && is_read_so(*b) && (is_factor(*b) || *b is Product),
        Form::Product(a, b) => is_read_so(*a) && is_read_so(*b) && is_factor(*b) && (is_factor(*a)
            || *a is Product),
        Form::Grouped(a) => is_read_so(*a),
    }
}

/// Whether a text is a name: it has no operator, parenthesis, comma, space or line break, and does
/// not start with a digit.
pub open spec fn is_name(x: Seq<char>) -> bool {
    &&& x.len() > 0
    &&& !('0' <= x[0] <= '9')
    &&& forall|i: int| 0 <= i < x.len() ==> !is_sign(#[trigger] x[i])
}

/// Whether a text is a numeral.
pub open spec fn is_number(w: Seq<char>) -> bool {
    w.len() > 0 && forall|i: int| 0 <= i < w.len() ==> '0' <= #[trigger] w[i] <= '9'
}

/// Whether a character stands between names and numbers.
pub open spec fn is_sign(c: char) -> bool {
    ||| c == '+'
    ||| c == '-'
    ||| c == '*'
    ||| c == '('
    ||| c == ')'
    ||| c == ','
    ||| c == ' '
    ||| c == '\n'
}

/// The value of a form over the integers, by the values of its variables.
pub open spec fn form_value(m: spec_fn(Seq<char>) -> int, f: Form) -> int
    decreases f,
{
    match f {
        Form::Name(x) => m(x),
        Form::Numeral(w) => numeral_value(w, 10),
        Form::Negative(w) => 0 - numeral_value(w, 10),
        Form::Sum(a, b) => form_value(m, *a) + form_value(m, *b),
        Form::Difference(a, b) => form_value(m, *a) - form_value(m, *b),
        Form::Product(a, b) => form_value(m, *a) * form_value(m, *b),
        Form::Grouped(a) => form_value(m, *a),
    }
}

// ---------------------------------------------------------------------------
// Spaces
// ---------------------------------------------------------------------------

/// A text without its spaces.
pub open spec fn squeezed(t: Seq<char>) -> Seq<char>
    decreases t.len(),
{
    if t.len() == 0 {
        Seq::empty()
    } else if t.last() == ' ' {
        squeezed(t.drop_last())
    } else {
        squeezed(t.drop_last()).push(t.last())
    }
}

proof fn lemma_squeezed_then(a: Seq<char>, b: Seq<char>)
    ensures
        squeezed(a + b) == squeezed(a) + squeezed(b),
    decreases b.len(),
{
    if b.len() == 0 {
        assert(a + b =~= a);
        assert(squeezed(a) + squeezed(b) =~= squeezed(a));
    } else {
        lemma_squeezed_then(a, b.drop_last());
        assert((a + b).drop_last() =~= a + b.drop_last());
        assert((a + b).last() == b.last());
        assert(squeezed(a + b) =~= squeezed(a) + squeezed(b));
    }
}

proof fn lemma_squeezed_plain(t: Seq<char>)
    requires
        forall|i: int| 0 <= i < t.len() ==> #[trigger] t[i] != ' ',
    ensures
        squeezed(t) == t,
    decreases t.len(),
{
    if t.len() > 0 {
        assert forall|i: int| 0 <= i < t.drop_last().len() implies #[trigger] t.drop_last()[i]
            != ' ' by {
            assert(t[i] != ' ');
        }
        lemma_squeezed_plain(t.drop_last());
        assert(t[t.len() - 1] != ' ');
        assert(t.drop_last().push(t.last()) =~= t);
    } else {
        assert(t =~= Seq::empty());
    }
}

proof fn lemma_squeezed_name(x: Seq<char>)
    requires
        is_name(x) || is_number(x),
    ensures
        squeezed(x) == x,
{
    lemma_squeezed_plain(x);
}

proof fn lemma_squeezed_signs()
    ensures
        squeezed("*"@) == seq!['*'],
        squeezed("("@) == seq!['('],
        squeezed(")"@) == seq![')'],
        squeezed(" + "@) == seq!['+'],
        squeezed(" - "@) == seq!['-'],
        squeezed(" * "@) == seq!['*'],
{
    reveal_strlit("*");
    reveal_strlit("(");
    reveal_strlit(")");
    reveal_strlit(" + ");
    reveal_strlit(" - ");
    reveal_strlit(" * ");
    lemma_squeezed_one("*"@, '*');
    lemma_squeezed_one("("@, '(');
    lemma_squeezed_one(")"@, ')');
    lemma_squeezed_spaced(" + "@, '+');
    lemma_squeezed_spaced(" - "@, '-');
    lemma_squeezed_spaced(" * "@, '*');
}

proof fn lemma_squeezed_one(t: Seq<char>, c: char)
    requires
        t.len() == 1,
        t[0] == c,
        c != ' ',
    ensures
        squeezed(t) == seq![c],
{
    lemma_squeezed_plain(t);
    assert(t =~= seq![c]);
}

proof fn lemma_squeezed_spaced(t: Seq<char>, c: char)
    requires
        t.len() == 3,
        t[0] == ' ',
        t[1] == c,
        t[2] == ' ',
        c != ' ',
    ensures
        squeezed(t) == seq![c],
{
    reveal_with_fuel(squeezed, 4);
    assert(squeezed(t) =~= seq![c]);
}

// ---------------------------------------------------------------------------
// Numbers and expressions
// ---------------------------------------------------------------------------

/// How a number is written.
pub open spec fn number_form(n: int) -> Form {
    if n >= 0 {
        Form::Numeral(digits(n as nat))
    } else {
        Form::Negative(digits((0 - n) as nat))
    }
}

proof fn lemma_digits(n: nat)
    ensures
        is_number(digits(n)),
        numeral_value(digits(n), 10) == n,
        squeezed(digits(n)) == digits(n),
{
    lemma_numeral_value(n);
    lemma_decimal_text(n);
    let v = written_in(n, 10);
    let w = digits(n);
    assert forall|i: int| 0 <= i < w.len() implies '0' <= #[trigger] w[i] <= '9' by {
        assert(stands_for(w[i], v[i]));
    }
    lemma_squeezed_name(w);
}

proof fn lemma_number_form(m: spec_fn(Seq<char>) -> int, n: int)
    ensures
        written(number_form(n)) == squeezed(signed_digits(n)),
        is_read_so(number_form(n)),
        is_factor(number_form(n)),
        form_value(m, number_form(n)) == n,
{
    if n >= 0 {
        lemma_digits(n as nat);
    } else {
        lemma_digits((0 - n) as nat);
        lemma_squeezed_then(seq!['-'], digits((0 - n) as nat));
        lemma_squeezed_one(seq!['-'], '-');
    }
}

/// Whether the variables of an expression have names.
pub open spec fn named_expr(e: PolyExpr) -> bool
    decreases e,
{
    match e {
        PolyExpr::Var(x) => is_name(x),
        PolyExpr::Number(_) => true,
        PolyExpr::Add(a, b) => named_expr(*a) && named_expr(*b),
        PolyExpr::Sub(a, b) => named_expr(*a) && named_expr(*b),
        PolyExpr::Mul(a, b) => named_expr(*a) && named_expr(*b),
    }
}

/// How an expression is written.
pub open spec fn expr_form(e: PolyExpr) -> Form
    decreases e,
{
    match e {
        PolyExpr::Var(x) => Form::Name(x),
        PolyExpr::Number(n) => number_form(n),
        PolyExpr::Add(a, b) => Form::Grouped(
            Box::new(Form::Sum(Box::new(expr_form(*a)), Box::new(expr_form(*b)))),
        ),
        PolyExpr::Sub(a, b) => Form::Grouped(
            Box::new(Form::Difference(Box::new(expr_form(*a)), Box::new(expr_form(*b)))),
        ),
        PolyExpr::Mul(a, b) => Form::Grouped(
            Box::new(Form::Product(Box::new(expr_form(*a)), Box::new(expr_form(*b)))),
        ),
    }
}

proof fn lemma_grouped(a: Seq<char>, op: Seq<char>, b: Seq<char>)
    ensures
        squeezed("("@ + a + op + b + ")"@) == seq!['('] + (squeezed(a) + squeezed(op) + squeezed(
            b,
        )) + seq![')'],
{
    lemma_squeezed_signs();
    lemma_squeezed_then("("@ + a + op + b, ")"@);
    lemma_squeezed_then("("@ + a + op, b);
    lemma_squeezed_then("("@ + a, op);
    lemma_squeezed_then("("@, a);
    assert(seq!['('] + squeezed(a) + squeezed(op) + squeezed(b) + seq![')'] =~= seq!['('] + (
    squeezed(a) + squeezed(op) + squeezed(b)) + seq![')']);
}

/// The text of an expression is that of its form, which is read so, and has the value of the
/// expression.
pub proof fn lemma_expr_form(m: spec_fn(Seq<char>) -> int, e: PolyExpr)
    requires
        named_expr(e),
    ensures
        written(expr_form(e)) == squeezed(poly_expr_text(e)),
        is_read_so(expr_form(e)),
        is_factor(expr_form(e)),
        form_value(m, expr_form(e)) % prime() == poly_value(m, e),
    decreases e,
{
    lemma_squeezed_signs();
    reveal_with_fuel(written, 3);
    reveal_with_fuel(is_read_so, 3);
    reveal_with_fuel(form_value, 3);
    match e {
        PolyExpr::Var(x) => {
            lemma_squeezed_name(x);
        },
        PolyExpr::Number(n) => {
            lemma_number_form(m, n);
        },
        PolyExpr::Add(a, b) => {
            lemma_expr_form(m, *a);
            lemma_expr_form(m, *b);
            lemma_grouped(poly_expr_text(*a), " + "@, poly_expr_text(*b));
            lemma_add_mod_noop(
                form_value(m, expr_form(*a)),
                form_value(m, expr_form(*b)),
                prime(),
            );
        },
        PolyExpr::Sub(a, b) => {
            lemma_expr_form(m, *a);
            lemma_expr_form(m, *b);
            lemma_grouped(poly_expr_text(*a), " - "@, poly_expr_text(*b));
            lemma_sub_mod_noop(
                form_value(m, expr_form(*a)),
                form_value(m, expr_form(*b)),
                prime(),
            );
        },
        PolyExpr::Mul(a, b) => {
            lemma_expr_form(m, *a);
            lemma_expr_form(m, *b);
            lemma_grouped(poly_expr_text(*a), " * "@, poly_expr_text(*b));
            lemma_mul_mod_noop(
                form_value(m, expr_form(*a)),
                form_value(m, expr_form(*b)),
                prime(),
            );
        },
    }
}

// ---------------------------------------------------------------------------
// Sums
// ---------------------------------------------------------------------------

/// The sum of two forms.
pub open spec fn sum(a: Form, b: Form) -> Form {
    Form::Sum(Box::new(a), Box::new(b))
}

/// The difference of two forms.
pub open spec fn difference(a: Form, b: Form) -> Form {
    Form::Difference(Box::new(a), Box::new(b))
}

/// The product of two forms.
pub open spec fn product(a: Form, b: Form) -> Form {
    Form::Product(Box::new(a), Box::new(b))
}

/// A form in parentheses.
pub open spec fn grouped(a: Form) -> Form {
    Form::Grouped(Box::new(a))
}

/// The sum of the first forms, grouped from the left.
pub open spec fn sum_form(v: Seq<Form>, n: nat) -> Form
    decreases n,
{
    if n <= 1 {
        v[0]
    } else {
        sum(sum_form(v, (n - 1) as nat), v[n - 1])
    }
}

/// The sum of the values of the first forms.
pub open spec fn sum_value(m: spec_fn(Seq<char>) -> int, v: Seq<Form>, n: nat) -> int
    decreases n,
{
    if n == 0 {
        0
    } else {
        sum_value(m, v, (n - 1) as nat) + form_value(m, v[n - 1])
    }
}

proof fn lemma_sum_form(
    m: spec_fn(Seq<char>) -> int,
    texts: Seq<Seq<char>>,
    v: Seq<Form>,
    n: nat,
)
    requires
        texts.len() == v.len(),
        0 < n <= v.len(),
        forall|i: int|
            0 <= i < v.len() ==> squeezed(#[trigger] texts[i]) == written(v[i]) && is_read_so(v[i])
                && v[i] is Product,
    ensures
        written(sum_form(v, n)) == squeezed(joined(texts.take(n as int), " + "@)),
        is_read_so(sum_form(v, n)),
        form_value(m, sum_form(v, n)) == sum_value(m, v, n),
    decreases n,
{
    lemma_squeezed_signs();
    let first = texts.take(n as int);
    assert(squeezed(texts[n - 1]) == written(v[n - 1]));
    assert(first.last() == texts[n - 1]);
    if n == 1 {
        assert(first =~= seq![texts[0]]);
        lemma_joined(first, texts[0], " + "@);
        reveal_with_fuel(sum_value, 2);
    } else {
        let k = (n - 1) as nat;
        lemma_sum_form(m, texts, v, k);
        assert(first =~= texts.take(k as int).push(texts[n - 1]));
        lemma_joined(texts.take(k as int), texts[n - 1], " + "@);
        let a = joined(texts.take(k as int), " + "@);
        lemma_squeezed_then(a + " + "@, texts[n - 1]);
        lemma_squeezed_then(a, " + "@);
    }
}

// ---------------------------------------------------------------------------
// Polynomials
// ---------------------------------------------------------------------------

/// Whether the variables of a polynomial have names, and its sums have terms.
pub open spec fn named_poly(p: Poly) -> bool {
    match p {
        Poly::Bit(x) => is_name(x),
        Poly::Twit(x) => is_name(x),
        Poly::Bits(x, n) => is_name(x) && n > 0,
        Poly::Same(a, b) => is_name(a) && is_name(b),
        Poly::Equal(a, b) => named_expr(a) && named_expr(b),
        Poly::Product(x, e) => is_name(x) && named_expr(e),
        Poly::Differ(a, b) => is_name(a) && is_name(b),
        Poly::DifferSome(v) => v.len() > 0 && forall|i: int|
            0 <= i < v.len() ==> is_name((#[trigger] v[i]).0) && is_name(v[i].1),
    }
}

/// The terms of the sum of the bits of a variable: bit `i` times the numeral for 2 to the `i`.
pub open spec fn bit_forms(x: Seq<char>, n: nat) -> Seq<Form> {
    Seq::new(
        n,
        |i: int|
            product(Form::Numeral(digits(pow2(i as nat))), Form::Name(range_bit(x, i as nat))),
    )
}

/// The terms of the sum of differences: each times a factor of its own.
pub open spec fn difference_forms(v: Seq<(Seq<char>, Seq<char>)>) -> Seq<Form> {
    Seq::new(
        v.len(),
        |i: int|
            product(
                Form::Name(factor(i as nat)),
                grouped(difference(Form::Name(v[i].0), Form::Name(v[i].1))),
            ),
    )
}

/// How a polynomial is written.
pub open spec fn poly_form(p: Poly) -> Form {
    let one = Form::Numeral("1"@);
    match p {
        Poly::Bit(x) => difference(product(Form::Name(x), Form::Name(x)), Form::Name(x)),
        Poly::Twit(x) => product(
            product(
                product(Form::Name(x), grouped(difference(Form::Name(x), one))),
                grouped(difference(Form::Name(x), Form::Numeral("2"@))),
            ),
            grouped(difference(Form::Name(x), Form::Numeral("3"@))),
        ),
        Poly::Bits(x, n) => difference(Form::Name(x), grouped(sum_form(bit_forms(x, n), n))),
        Poly::Same(a, b) => difference(Form::Name(a), Form::Name(b)),
        Poly::Equal(a, b) => difference(grouped(expr_form(a)), grouped(expr_form(b))),
        Poly::Product(x, e) => product(Form::Name(x), grouped(expr_form(e))),
        Poly::Differ(a, b) => difference(
            product(
                Form::Name("rabin_t"@),
                grouped(difference(Form::Name(a), Form::Name(b))),
            ),
            one,
        ),
        Poly::DifferSome(v) => difference(
            product(Form::Name("rabin_t"@), grouped(sum_form(difference_forms(v), v.len()))),
            one,
        ),
    }
}

proof fn lemma_small_numerals()
    ensures
        is_number("1"@),
        is_number("2"@),
        is_number("3"@),
        numeral_value("1"@, 10) == 1,
        numeral_value("2"@, 10) == 2,
        numeral_value("3"@, 10) == 3,
        is_name("rabin_t"@),
{
    reveal_strlit("1");
    reveal_strlit("2");
    reveal_strlit("3");
    reveal_strlit("rabin_t");
    assert("1"@ =~= digits(1));
    assert("2"@ =~= digits(2));
    assert("3"@ =~= digits(3));
    lemma_digits(1);
    lemma_digits(2);
    lemma_digits(3);
}

proof fn lemma_range_bit(x: Seq<char>, i: nat)
    requires
        is_name(x),
    ensures
        is_name(range_bit(x, i)),
{
    reveal_strlit("_rb");
    lemma_digits(i);
    let y = range_bit(x, i);
    assert(y[0] == x[0]);
    assert forall|j: int| 0 <= j < y.len() implies !is_sign(#[trigger] y[j]) by {
        if j < x.len() {
            assert(y[j] == x[j]);
        } else if j >= x.len() + 3 {
            assert(y[j] == digits(i)[j - x.len() - 3]);
        } else {
            assert(y[j] == "_rb"@[j - x.len()]);
        }
    }
}

proof fn lemma_factor_name(i: nat)
    ensures
        is_name(factor(i)),
{
    reveal_strlit("rabin_w");
    lemma_digits(i);
    let y = factor(i);
    assert(y[0] == 'r');
    assert forall|j: int| 0 <= j < y.len() implies !is_sign(#[trigger] y[j]) by {
        if j >= 7 {
            assert(y[j] == digits(i)[j - 7]);
        } else {
            assert(y[j] == "rabin_w"@[j]);
        }
    }
}

proof fn lemma_bits_form(m: spec_fn(Seq<char>) -> int, x: Seq<char>, n: nat)
    requires
        is_name(x),
        n > 0,
    ensures
        written(sum_form(bit_forms(x, n), n)) == squeezed(joined(weighted_bit_texts(x, n), " + "@)),
        is_read_so(sum_form(bit_forms(x, n), n)),
        form_value(m, sum_form(bit_forms(x, n), n)) == sum_value(m, bit_forms(x, n), n),
{
    let texts = weighted_bit_texts(x, n);
    let v = bit_forms(x, n);
    lemma_squeezed_signs();
    assert forall|i: int| 0 <= i < v.len() implies squeezed(#[trigger] texts[i]) == written(v[i])
        && is_read_so(v[i]) && v[i] is Product by {
        let w = digits(pow2(i as nat));
        let b = range_bit(x, i as nat);
        lemma_digits(pow2(i as nat));
        lemma_range_bit(x, i as nat);
        lemma_squeezed_name(b);
        lemma_squeezed_then(w + "*"@, b);
        lemma_squeezed_then(w, "*"@);
        reveal_with_fuel(written, 2);
        reveal_with_fuel(is_read_so, 2);
    }
    lemma_sum_form(m, texts, v, n);
    assert(texts.take(n as int) =~= texts);
}

proof fn lemma_bits_sum(m: spec_fn(Seq<char>) -> int, x: Seq<char>, n: nat, k: nat)
    requires
        k <= n,
    ensures
        sum_value(m, bit_forms(x, n), k) % prime() == number(bit_values(m, x, k)) % prime(),
    decreases k,
{
    if k > 0 {
        let j = (k - 1) as nat;
        lemma_bits_sum(m, x, n, j);
        let v = bit_forms(x, n);
        let bits = bit_values(m, x, k);
        assert(bits.drop_last() =~= bit_values(m, x, j));
        lemma_digits(pow2(j));
        reveal_with_fuel(form_value, 2);
        let w = pow2(j) as int;
        let b = m(range_bit(x, j));
        assert(v[j as int] == product(Form::Numeral(digits(pow2(j))), Form::Name(range_bit(x, j))));
        assert(form_value(m, v[j as int]) == w * b);
        assert(w * b == b * w) by (nonlinear_arith);
        lemma_last_bit(m, x, k);
        let s = sum_value(m, v, j);
        let t = number(bit_values(m, x, j));
        let c = bits.last() * w;
        assert((b * w) % prime() == c % prime()) by {
            lemma_mul_mod_noop(b, w, prime());
            lemma_mul_mod_noop(bits.last(), w, prime());
            lemma_mod_twice(b, prime());
        }
        lemma_add_mod_noop(s, b * w, prime());
        lemma_add_mod_noop(t, c, prime());
    }
}

proof fn lemma_last_bit(m: spec_fn(Seq<char>) -> int, x: Seq<char>, k: nat)
    requires
        k > 0,
    ensures
        bit_values(m, x, k).last() % prime() == m(range_bit(x, (k - 1) as nat)) % prime(),
{
    lemma_mod_twice(m(range_bit(x, (k - 1) as nat)), prime());
}

proof fn lemma_differences_form(
    m: spec_fn(Seq<char>) -> int,
    v: Seq<(Seq<char>, Seq<char>)>,
)
    requires
        v.len() > 0,
        forall|i: int| 0 <= i < v.len() ==> is_name((#[trigger] v[i]).0) && is_name(v[i].1),
    ensures
        written(sum_form(difference_forms(v), v.len())) == squeezed(
            joined(difference_texts(v), " + "@),
        ),
        is_read_so(sum_form(difference_forms(v), v.len())),
        form_value(m, sum_form(difference_forms(v), v.len())) == sum_value(
            m,
            difference_forms(v),
            v.len(),
        ),
{
    let texts = difference_texts(v);
    let f = difference_forms(v);
    lemma_squeezed_signs();
    assert forall|i: int| 0 <= i < f.len() implies squeezed(#[trigger] texts[i]) == written(f[i])
        && is_read_so(f[i]) && f[i] is Product by {
        let w = factor(i as nat);
        let a = v[i].0;
        let b = v[i].1;
        lemma_factor_name(i as nat);
        lemma_squeezed_name(w);
        lemma_squeezed_name(a);
        lemma_squeezed_name(b);
        lemma_squeezed_then(w + "*"@, difference_text(a, b));
        lemma_squeezed_then(w, "*"@);
        lemma_grouped(a, " - "@, b);
        reveal_with_fuel(written, 4);
        reveal_with_fuel(is_read_so, 4);
    }
    lemma_sum_form(m, texts, f, v.len());
    assert(texts.take(v.len() as int) =~= texts);
}

proof fn lemma_differences_sum(
    m: spec_fn(Seq<char>) -> int,
    v: Seq<(Seq<char>, Seq<char>)>,
    k: nat,
)
    requires
        k <= v.len(),
    ensures
        sum_value(m, difference_forms(v), k) % prime() == difference_sum(m, v, k),
    decreases k,
{
    if k > 0 {
        let j = (k - 1) as nat;
        lemma_differences_sum(m, v, j);
        let f = difference_forms(v);
        reveal_with_fuel(form_value, 4);
        let w = m(factor(j));
        let d = m(v[j as int].0) - m(v[j as int].1);
        assert(f[j as int] == product(
            Form::Name(factor(j)),
            grouped(difference(Form::Name(v[j as int].0), Form::Name(v[j as int].1))),
        ));
        assert(form_value(m, f[j as int]) == w * d);
        let s = sum_value(m, f, j);
        assert(sum_value(m, f, k) == s + w * d);
        lemma_mul_mod_noop(w, d, prime());
        let c = (w % prime()) * (d % prime());
        assert(c % prime() == (w * d) % prime());
        lemma_add_mod_noop(s, w * d, prime());
        lemma_add_mod_noop(s % prime(), c, prime());
        lemma_mod_twice(s, prime());
        assert(((s % prime()) + c) % prime() == (s + w * d) % prime());
        assert(difference_sum(m, v, k) == (difference_sum(m, v, j) + c) % prime());
        assert(difference_sum(m, v, k) == (s + w * d) % prime());
    } else {
        assert(sum_value(m, difference_forms(v), 0) == 0);
        assert(difference_sum(m, v, 0) == 0);
    }
}

/// The text of a polynomial is that of its form, and its form is what the text is read as.
pub proof fn lemma_poly_text(p: Poly)
    requires
        named_poly(p),
    ensures
        squeezed(poly_text(p)) == written(poly_form(p)),
        is_read_so(poly_form(p)),
{
    match p {
        Poly::Bit(x) => {
            lemma_bit_text(x);
        },
        Poly::Twit(x) => {
            lemma_twit_text(x);
        },
        Poly::Bits(x, n) => {
            lemma_bits_text(x, n);
        },
        Poly::Same(a, b) => {
            lemma_squeezed_signs();
            lemma_squeezed_name(a);
            lemma_squeezed_name(b);
            lemma_squeezed_then(a + " - "@, b);
            lemma_squeezed_then(a, " - "@);
            reveal_with_fuel(written, 2);
            reveal_with_fuel(is_read_so, 2);
        },
        Poly::Equal(a, b) => {
            lemma_equal_text(a, b);
        },
        Poly::Product(x, e) => {
            lemma_product_text(x, e);
        },
        Poly::Differ(a, b) => {
            lemma_differ_text(a, b);
        },
        Poly::DifferSome(v) => {
            lemma_differ_some_text(v);
        },
    }
}

proof fn lemma_bit_text(x: Seq<char>)
    requires
        is_name(x),
    ensures
        squeezed(poly_text(Poly::Bit(x))) == written(poly_form(Poly::Bit(x))),
        is_read_so(poly_form(Poly::Bit(x))),
{
    lemma_squeezed_signs();
    lemma_squeezed_name(x);
    lemma_squeezed_then(x + "*"@ + x + " - "@, x);
    lemma_squeezed_then(x + "*"@ + x, " - "@);
    lemma_squeezed_then(x + "*"@, x);
    lemma_squeezed_then(x, "*"@);
    reveal_with_fuel(written, 3);
    reveal_with_fuel(is_read_so, 3);
}

proof fn lemma_bits_text(x: Seq<char>, n: nat)
    requires
        is_name(x),
        n > 0,
    ensures
        squeezed(poly_text(Poly::Bits(x, n))) == written(poly_form(Poly::Bits(x, n))),
        is_read_so(poly_form(Poly::Bits(x, n))),
{
    let m = |y: Seq<char>| 0int;
    lemma_bits_form(m, x, n);
    lemma_squeezed_name(x);
    let t = joined(weighted_bit_texts(x, n), " + "@);
    lemma_squeezed_signs();
    lemma_squeezed_openings();
    lemma_squeezed_then(x + " - ("@ + t, ")"@);
    lemma_squeezed_then(x + " - ("@, t);
    lemma_squeezed_then(x, " - ("@);
    let f = sum_form(bit_forms(x, n), n);
    assert(written(grouped(f)) == seq!['('] + written(f) + seq![')']);
    assert(written(Form::Name(x)) == x);
    assert(is_read_so(Form::Name(x)));
    assert(is_read_so(grouped(f)));
    let g = difference(Form::Name(x), grouped(f));
    assert(written(g) == x + seq!['-'] + written(grouped(f)));
    assert(x + seq!['-', '('] + written(f) + seq![')'] =~= x + seq!['-'] + (seq!['('] + written(f)
        + seq![')']));
}

proof fn lemma_equal_text(a: PolyExpr, b: PolyExpr)
    requires
        named_expr(a),
        named_expr(b),
    ensures
        squeezed(poly_text(Poly::Equal(a, b))) == written(poly_form(Poly::Equal(a, b))),
        is_read_so(poly_form(Poly::Equal(a, b))),
{
    let m = |y: Seq<char>| 0int;
    lemma_expr_form(m, a);
    lemma_expr_form(m, b);
    let s = poly_expr_text(a);
    let t = poly_expr_text(b);
    lemma_squeezed_signs();
    lemma_squeezed_openings();
    lemma_squeezed_then("("@ + s + ") - ("@ + t, ")"@);
    lemma_squeezed_then("("@ + s + ") - ("@, t);
    lemma_squeezed_then("("@ + s, ") - ("@);
    lemma_squeezed_then("("@, s);
    let f = expr_form(a);
    let g = expr_form(b);
    assert(written(grouped(f)) == seq!['('] + written(f) + seq![')']);
    assert(written(grouped(g)) == seq!['('] + written(g) + seq![')']);
    assert(is_read_so(grouped(f)) && is_read_so(grouped(g)));
    assert(written(difference(grouped(f), grouped(g))) == written(grouped(f)) + seq!['-'] + written(
        grouped(g),
    ));
    assert(seq!['('] + written(f) + seq![')', '-', '('] + written(g) + seq![')'] =~= (seq!['(']
        + written(f) + seq![')']) + seq!['-'] + (seq!['('] + written(g) + seq![')']));
}

proof fn lemma_product_text(x: Seq<char>, e: PolyExpr)
    requires
        is_name(x),
        named_expr(e),
    ensures
        squeezed(poly_text(Poly::Product(x, e))) == written(poly_form(Poly::Product(x, e))),
        is_read_so(poly_form(Poly::Product(x, e))),
{
    let m = |y: Seq<char>| 0int;
    lemma_expr_form(m, e);
    lemma_squeezed_name(x);
    let t = poly_expr_text(e);
    lemma_squeezed_signs();
    lemma_squeezed_openings();
    lemma_squeezed_then(x + " * ("@ + t, ")"@);
    lemma_squeezed_then(x + " * ("@, t);
    lemma_squeezed_then(x, " * ("@);
    let f = expr_form(e);
    assert(written(grouped(f)) == seq!['('] + written(f) + seq![')']);
    assert(written(Form::Name(x)) == x);
    assert(is_read_so(Form::Name(x)) && is_read_so(grouped(f)));
    assert(written(product(Form::Name(x), grouped(f))) == x + seq!['*'] + written(grouped(f)));
    assert(x + seq!['*', '('] + written(f) + seq![')'] =~= x + seq!['*'] + (seq!['('] + written(f)
        + seq![')']));
}

proof fn lemma_scaled_text(f: Form)
    requires
        is_read_so(f),
    ensures
        ({
            let g = difference(
                product(Form::Name("rabin_t"@), grouped(f)),
                Form::Numeral("1"@),
            );
            &&& written(g) == "rabin_t"@ + seq!['*', '('] + written(f) + (seq![')', '-'] + "1"@)
            &&& is_read_so(g)
        }),
{
    lemma_small_numerals();
    let t = Form::Name("rabin_t"@);
    let one = Form::Numeral("1"@);
    assert(written(t) == "rabin_t"@ && written(one) == "1"@);
    assert(written(grouped(f)) == seq!['('] + written(f) + seq![')']);
    assert(is_read_so(t) && is_read_so(one) && is_read_so(grouped(f)));
    let p = product(t, grouped(f));
    assert(written(p) == written(t) + seq!['*'] + written(grouped(f)));
    assert(is_read_so(p));
    let g = difference(p, one);
    assert(written(g) == written(p) + seq!['-'] + written(one));
    assert(written(g) =~= "rabin_t"@ + seq!['*', '('] + written(f) + (seq![')', '-'] + "1"@));
}

proof fn lemma_differ_text(a: Seq<char>, b: Seq<char>)
    requires
        is_name(a),
        is_name(b),
    ensures
        squeezed(poly_text(Poly::Differ(a, b))) == written(poly_form(Poly::Differ(a, b))),
        is_read_so(poly_form(Poly::Differ(a, b))),
{
    lemma_squeezed_name(a);
    lemma_squeezed_name(b);
    lemma_grouped(a, " - "@, b);
    lemma_squeezed_signs();
    lemma_squeezed_openings();
    lemma_squeezed_then("rabin_t*"@ + difference_text(a, b), " - 1"@);
    lemma_squeezed_then("rabin_t*"@, difference_text(a, b));
    let f = difference(Form::Name(a), Form::Name(b));
    assert(written(Form::Name(a)) == a && written(Form::Name(b)) == b);
    assert(is_read_so(Form::Name(a)) && is_read_so(Form::Name(b)));
    assert(written(f) == a + seq!['-'] + b);
    assert(is_read_so(f));
    lemma_scaled_text(f);
    assert("rabin_t"@ + seq!['*'] + (seq!['('] + (a + seq!['-'] + b) + seq![')']) + (seq!['-']
        + "1"@) =~= "rabin_t"@ + seq!['*', '('] + written(f) + (seq![')', '-'] + "1"@));
}

proof fn lemma_differ_some_text(v: Seq<(Seq<char>, Seq<char>)>)
    requires
        named_poly(Poly::DifferSome(v)),
    ensures
        squeezed(poly_text(Poly::DifferSome(v))) == written(poly_form(Poly::DifferSome(v))),
        is_read_so(poly_form(Poly::DifferSome(v))),
{
    let m = |y: Seq<char>| 0int;
    lemma_differences_form(m, v);
    let t = joined(difference_texts(v), " + "@);
    lemma_squeezed_openings();
    lemma_squeezed_then("rabin_t*("@ + t, ") - 1"@);
    lemma_squeezed_then("rabin_t*("@, t);
    lemma_scaled_text(sum_form(difference_forms(v), v.len()));
}

proof fn lemma_squeezed_openings()
    ensures
        squeezed(" - ("@) == seq!['-', '('],
        squeezed(") - ("@) == seq![')', '-', '('],
        squeezed(" * ("@) == seq!['*', '('],
        squeezed("rabin_t*"@) == "rabin_t"@ + seq!['*'],
        squeezed("rabin_t*("@) == "rabin_t"@ + seq!['*', '('],
        squeezed(" - 1"@) == seq!['-'] + "1"@,
        squeezed(") - 1"@) == seq![')', '-'] + "1"@,
{
    reveal_strlit(" - (");
    reveal_strlit(") - (");
    reveal_strlit(" * (");
    reveal_strlit("rabin_t*");
    reveal_strlit("rabin_t*(");
    reveal_strlit("rabin_t");
    reveal_strlit(" - 1");
    reveal_strlit(") - 1");
    reveal_strlit("1");
    reveal_strlit(" - ");
    reveal_strlit(" * ");
    lemma_squeezed_signs();
    assert(" - ("@ =~= " - "@ + "("@) by {
        reveal_strlit("(");
    }
    lemma_squeezed_then(" - "@, "("@);
    assert(seq!['-'] + seq!['('] =~= seq!['-', '(']);
    assert(") - ("@ =~= ")"@ + " - ("@) by {
        reveal_strlit(")");
    }
    lemma_squeezed_then(")"@, " - ("@);
    assert(seq![')'] + seq!['-', '('] =~= seq![')', '-', '(']);
    assert(" * ("@ =~= " * "@ + "("@) by {
        reveal_strlit("(");
    }
    lemma_squeezed_then(" * "@, "("@);
    assert(seq!['*'] + seq!['('] =~= seq!['*', '(']);
    lemma_squeezed_plain("rabin_t*"@);
    assert("rabin_t*"@ =~= "rabin_t"@ + seq!['*']);
    lemma_squeezed_plain("rabin_t*("@);
    assert("rabin_t*("@ =~= "rabin_t"@ + seq!['*', '(']);
    assert(" - 1"@ =~= " - "@ + "1"@);
    lemma_squeezed_then(" - "@, "1"@);
    lemma_squeezed_plain("1"@);
    assert(") - 1"@ =~= ")"@ + " - 1"@) by {
        reveal_strlit(")");
    }
    lemma_squeezed_then(")"@, " - 1"@);
    assert(seq![')'] + (seq!['-'] + "1"@) =~= seq![')', '-'] + "1"@);
}

proof fn lemma_twit_text(x: Seq<char>)
    requires
        is_name(x),
    ensures
        squeezed(poly_text(Poly::Twit(x))) == written(poly_form(Poly::Twit(x))),
        is_read_so(poly_form(Poly::Twit(x))),
{
    lemma_small_numerals();
    lemma_squeezed_name(x);
    reveal_strlit("*(");
    reveal_strlit("-1)*(");
    reveal_strlit("-2)*(");
    reveal_strlit("-3)");
    reveal_strlit("1");
    reveal_strlit("2");
    reveal_strlit("3");
    lemma_squeezed_plain("*("@);
    lemma_squeezed_plain("-1)*("@);
    lemma_squeezed_plain("-2)*("@);
    lemma_squeezed_plain("-3)"@);
    let t1 = x + "*("@;
    let t2 = t1 + x + "-1)*("@;
    let t3 = t2 + x + "-2)*("@;
    let t4 = t3 + x + "-3)"@;
    assert(poly_text(Poly::Twit(x)) == t4);
    lemma_squeezed_then(x, "*("@);
    lemma_squeezed_then(t1, x);
    lemma_squeezed_then(t1 + x, "-1)*("@);
    lemma_squeezed_then(t2, x);
    lemma_squeezed_then(t2 + x, "-2)*("@);
    lemma_squeezed_then(t3, x);
    lemma_squeezed_then(t3 + x, "-3)"@);
    assert(squeezed(t4) == t4);
    let f0 = Form::Name(x);
    let f1 = product(f0, grouped(difference(f0, Form::Numeral("1"@))));
    let f2 = product(f1, grouped(difference(f0, Form::Numeral("2"@))));
    let f3 = product(f2, grouped(difference(f0, Form::Numeral("3"@))));
    lemma_next_factor(f0, x, "1"@);
    lemma_next_factor(f1, x, "2"@);
    lemma_next_factor(f2, x, "3"@);
    assert("*("@ =~= seq!['*', '(']);
    assert("-1)*("@ =~= seq!['-'] + "1"@ + seq![')'] + seq!['*', '(']);
    assert("-2)*("@ =~= seq!['-'] + "2"@ + seq![')'] + seq!['*', '(']);
    assert("-3)"@ =~= seq!['-'] + "3"@ + seq![')']);
    assert(written(f0) == x);
    assert(written(f1) + seq!['*', '('] =~= t2);
    assert(written(f2) + seq!['*', '('] =~= t3);
    assert(written(f3) =~= t4);
    assert(poly_form(Poly::Twit(x)) == f3);
}

proof fn lemma_next_factor(f: Form, x: Seq<char>, d: Seq<char>)
    requires
        is_read_so(f),
        is_factor(f) || f is Product,
        is_name(x),
        is_number(d),
    ensures
        ({
            let g = product(f, grouped(difference(Form::Name(x), Form::Numeral(d))));
            &&& written(g) == written(f) + seq!['*', '('] + x + seq!['-'] + d + seq![')']
            &&& is_read_so(g)
            &&& g is Product
        }),
{
    let e = difference(Form::Name(x), Form::Numeral(d));
    assert(written(Form::Name(x)) == x);
    assert(written(Form::Numeral(d)) == d);
    assert(written(e) == x + seq!['-'] + d);
    assert(written(grouped(e)) == seq!['('] + written(e) + seq![')']);
    let g = product(f, grouped(e));
    assert(written(g) == written(f) + seq!['*'] + written(grouped(e)));
    assert(written(g) =~= written(f) + seq!['*', '('] + x + seq!['-'] + d + seq![')']);
    assert(is_read_so(Form::Name(x)));
    assert(is_read_so(Form::Numeral(d)));
    assert(is_read_so(e));
    assert(is_read_so(grouped(e)));
}

/// A polynomial is 0 in the field exactly where the value of its form is a multiple of the prime:
/// what the text of a polynomial says is what the polynomial says. The numeral before bit `i` of a
/// variable stands for 2 to the `i`.
pub proof fn lemma_poly_value(m: spec_fn(Seq<char>) -> int, p: Poly)
    requires
        named_poly(p),
    ensures
        poly_zero(m, p) <==> form_value(m, poly_form(p)) % prime() == 0,
{
    lemma_small_numerals();
    reveal_with_fuel(form_value, 6);
    let q = prime();
    match p {
        Poly::Bit(x) => {
            let v = m(x);
            lemma_mul_mod_noop(v, v, q);
            let a = (v % q) * (v % q);
            lemma_sub_mod_noop(a, v % q, q);
            lemma_sub_mod_noop(v * v, v, q);
            lemma_mod_twice(v, q);
        },
        Poly::Twit(x) => {
            let v = m(x);
            let w = v % q;
            lemma_mod_twice(v, q);
            lemma_sub_mod_noop(v, 1, q);
            lemma_sub_mod_noop(w, 1, q);
            lemma_sub_mod_noop(v, 2, q);
            lemma_sub_mod_noop(w, 2, q);
            lemma_sub_mod_noop(v, 3, q);
            lemma_sub_mod_noop(w, 3, q);
            lemma_mul_mod_noop(v, v - 1, q);
            lemma_mul_mod_noop(w, (w - 1) % q, q);
            lemma_mod_twice(w - 1, q);
            let a = (w * ((w - 1) % q)) % q;
            assert(a == (v * (v - 1)) % q);
            lemma_mul_mod_noop(v * (v - 1), v - 2, q);
            lemma_mul_mod_noop(a, (w - 2) % q, q);
            lemma_mod_twice(v * (v - 1), q);
            lemma_mod_twice(w - 2, q);
            let b = (a * ((w - 2) % q)) % q;
            assert(b == (v * (v - 1) * (v - 2)) % q);
            lemma_mul_mod_noop(v * (v - 1) * (v - 2), v - 3, q);
            lemma_mul_mod_noop(b, (w - 3) % q, q);
            lemma_mod_twice(v * (v - 1) * (v - 2), q);
            lemma_mod_twice(w - 3, q);
        },
        Poly::Bits(x, n) => {
            lemma_bits_form(m, x, n);
            lemma_bits_sum(m, x, n, n);
            let s = sum_value(m, bit_forms(x, n), n);
            let t = number(bit_values(m, x, n));
            lemma_sub_mod_noop(m(x), s, q);
            lemma_sub_mod_noop(m(x) % q, t, q);
            lemma_mod_twice(m(x), q);
        },
        Poly::Same(a, b) => {
            lemma_sub_mod_noop(m(a), m(b), q);
        },
        Poly::Equal(a, b) => {
            lemma_expr_form(m, a);
            lemma_expr_form(m, b);
            lemma_sub_mod_noop(form_value(m, expr_form(a)), form_value(m, expr_form(b)), q);
        },
        Poly::Product(x, e) => {
            lemma_expr_form(m, e);
            lemma_mul_mod_noop(m(x), form_value(m, expr_form(e)), q);
        },
        Poly::Differ(a, b) => {
            let t = m("rabin_t"@);
            let d = m(a) - m(b);
            lemma_mul_mod_noop(t, d, q);
            let c = (t % q) * (d % q);
            lemma_sub_mod_noop(t * d, 1, q);
            lemma_sub_mod_noop(c, 1, q);
        },
        Poly::DifferSome(v) => {
            lemma_differences_form(m, v);
            lemma_differences_sum(m, v, v.len());
            let t = m("rabin_t"@);
            let d = sum_value(m, difference_forms(v), v.len());
            lemma_mul_mod_noop(t, d, q);
            let c = (t % q) * (d % q);
            lemma_sub_mod_noop(t * d, 1, q);
            lemma_sub_mod_noop(c, 1, q);
        },
    }
}

/// The text of a system: the variables on the first line, the prime on the second, and then the
/// polynomials, one behind the other.
pub proof fn lemma_system_text(s: System)
    ensures
        system_text(s) == joined(s.variables, ", "@) + "\n"@ + digits(prime() as nat) + "\n"@
            + joined(Seq::new(s.polys.len(), |i: int| poly_text(s.polys[i])), ",\n"@) + "\n"@,
{
    assert(prime() == BABYBEAR_P);
    assert(poly_texts(s.polys) =~= Seq::new(s.polys.len(), |i: int| poly_text(s.polys[i])));
}

} // verus!
