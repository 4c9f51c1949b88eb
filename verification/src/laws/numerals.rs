//! What numerals stand for.

use vstd::prelude::*;
use crate::parser::lexer::{
    digit_value, in_class, is_digit, is_hex_digit, number, numeral, run_end, token_at, Class, Tok,
};
use crate::text::{digit_char, digits, signed_digits};

verus! {

/// The number with some digits in a base, the highest first.
pub open spec fn in_base(v: Seq<int>, base: int) -> int
    decreases v.len(),
{
    if v.len() == 0 {
        0
    } else {
        in_base(v.drop_last(), base) * base + v.last()
    }
}

/// Whether a character stands for a digit in bases up to 16: those from 10 on are the letters from
/// `a` or `A` on, in their order.
pub open spec fn stands_for(c: char, d: int) -> bool {
    if d < 10 {
        0 <= d && c as int == '0' as int + d
    } else {
        d < 16 && (c as int == 'a' as int + (d - 10) || c as int == 'A' as int + (d - 10))
    }
}

/// Whether a character stands for a digit of a base.
pub open spec fn is_digit_in(c: char, base: int) -> bool {
    exists|d: int| d < base && #[trigger] stands_for(c, d)
}

/// Whether a text is a numeral with some digits in a base.
pub open spec fn is_numeral(w: Seq<char>, v: Seq<int>, base: int) -> bool {
    &&& w.len() == v.len()
    &&& v.len() > 0
    &&& forall|i: int| 0 <= i < v.len() ==> stands_for(#[trigger] w[i], v[i]) && v[i] < base
}

/// The sixteen hexadecimal digits have the values 0 to 15, and no other character has one.
pub proof fn lemma_digit_values(c: char, d: int)
    ensures
        stands_for(c, d) ==> is_hex_digit(c) && digit_value(c) == d,
        is_hex_digit(c) ==> stands_for(c, digit_value(c) as int) && digit_value(c) < 16,
        is_digit(c) <==> is_hex_digit(c) && digit_value(c) < 10,
{
}

/// The value of a numeral is the number with its digits.
pub proof fn lemma_numeral(w: Seq<char>, v: Seq<int>, base: nat)
    requires
        w.len() == v.len(),
        forall|i: int| 0 <= i < v.len() ==> stands_for(#[trigger] w[i], v[i]),
    ensures
        numeral(w, base) == in_base(v, base as int),
    decreases w.len(),
{
    if w.len() > 0 {
        assert forall|i: int| 0 <= i < v.drop_last().len() implies stands_for(
            #[trigger] w.drop_last()[i],
            v.drop_last()[i],
        ) by {
            assert(stands_for(w[i], v[i]));
        }
        lemma_numeral(w.drop_last(), v.drop_last(), base);
        lemma_digit_values(w.last(), v.last());
        assert(stands_for(w[w.len() - 1], v[v.len() - 1]));
    }
}

proof fn lemma_run(s: Seq<char>, p: int, q: int, k: Class)
    requires
        0 <= p <= q <= s.len(),
        forall|i: int| p <= i < q ==> in_class(k, #[trigger] s[i]),
        q < s.len() ==> !in_class(k, s[q]),
    ensures
        run_end(s, p, k) == q,
    decreases q - p,
{
    if p < q {
        assert(in_class(k, s[p]));
        lemma_run(s, p + 1, q, k);
    }
}

/// What a literal is read as: the number, where it fits in 64 bits.
pub open spec fn literal(n: int, q: int, kind: Seq<char>) -> Result<(Tok, int), Seq<char>> {
    if n <= u64::MAX {
        Ok((Tok::IntLit(n as u64), q))
    } else {
        Err(kind + "number too large to fit in target type"@)
    }
}

/// A hexadecimal literal stands for its number in base 16: behind `0x` or `0X`, digits with no
/// further digit behind them are read as the number that has these digits.
pub proof fn lemma_hexadecimal_literal(s: Seq<char>, p: int, v: Seq<int>, line: nat)
    requires
        0 <= p,
        p + 2 + v.len() <= s.len(),
        s[p] == '0',
        s[p + 1] == 'x' || s[p + 1] == 'X',
        is_numeral(s.subrange(p + 2, p + 2 + v.len()), v, 16),
        p + 2 + v.len() < s.len() ==> !is_digit_in(s[p + 2 + v.len()], 16),
    ensures
        token_at(s, p, line) == literal(in_base(v, 16), p + 2 + v.len(), "hex: "@),
{
    let q = p + 2 + v.len();
    let w = s.subrange(p + 2, q);
    assert forall|i: int| p + 2 <= i < q implies in_class(Class::HexDigit, #[trigger] s[i]) by {
        assert(w[i - (p + 2)] == s[i]);
        lemma_digit_values(s[i], v[i - (p + 2)]);
    }
    if q < s.len() {
        lemma_digit_values(s[q], digit_value(s[q]) as int);
    }
    lemma_run(s, p + 2, q, Class::HexDigit);
    lemma_numeral(w, v, 16);
}

/// A decimal literal stands for its number in base 10: digits with no further digit behind them are
/// read as the number that has these digits. A `0` with `x` or `X` behind it starts no such literal.
pub proof fn lemma_decimal_literal(s: Seq<char>, p: int, v: Seq<int>, line: nat)
    requires
        0 <= p,
        p + v.len() <= s.len(),
        is_numeral(s.subrange(p, p + v.len()), v, 10),
        p + v.len() < s.len() ==> !is_digit_in(s[p + v.len()], 10),
        s[p] == '0' && p + 1 < s.len() ==> s[p + 1] != 'x' && s[p + 1] != 'X',
    ensures
        token_at(s, p, line) == literal(in_base(v, 10), p + v.len(), "int: "@),
{
    let q = p + v.len();
    let w = s.subrange(p, q);
    assert forall|i: int| p <= i < q implies in_class(Class::Digit, #[trigger] s[i]) by {
        assert(w[i - p] == s[i]);
        lemma_digit_values(s[i], v[i - p]);
    }
    if q < s.len() {
        lemma_digit_values(s[q], digit_value(s[q]) as int);
        if is_digit(s[q]) {
            assert(stands_for(s[q], digit_value(s[q]) as int));
        }
    }
    assert(in_class(Class::Digit, s[p]));
    lemma_run(s, p, q, Class::Digit);
    lemma_numeral(w, v, 10);
}

/// The digits with which a number is written in a base.
pub open spec fn written_in(n: nat, base: nat) -> Seq<int>
    decreases n,
{
    if n < base || base < 2 {
        seq![n as int]
    } else {
        proof {
            assert(n / base < n) by (nonlinear_arith)
                requires
                    2 <= base <= n,
            ;
        }
        written_in(n / base, base).push((n % base) as int)
    }
}

/// A number that is written in a base is the number with the digits that are written.
pub proof fn lemma_written_in(n: nat, base: nat)
    requires
        2 <= base,
    ensures
        in_base(written_in(n, base), base as int) == n,
        written_in(n, base).len() > 0,
        forall|i: int|
            0 <= i < written_in(n, base).len() ==> 0 <= #[trigger] written_in(n, base)[i] < base,
    decreases n,
{
    let v = written_in(n, base);
    reveal_with_fuel(in_base, 2);
    if n < base {
        assert(v.drop_last() =~= Seq::<int>::empty());
    } else {
        assert(n / base < n && n / base * base + n % base == n) by (nonlinear_arith)
            requires
                2 <= base <= n,
        ;
        lemma_written_in(n / base, base);
        assert(v.drop_last() =~= written_in(n / base, base));
    }
}

/// A number that is written in hexadecimal behind `0x` is read as that number, with large letters
/// and with small ones.
pub proof fn lemma_hexadecimal_is_read(s: Seq<char>, p: int, n: u64, line: nat)
    requires
        0 <= p,
        p + 2 + written_in(n as nat, 16).len() <= s.len(),
        s[p] == '0',
        s[p + 1] == 'x',
        is_numeral(
            s.subrange(p + 2, p + 2 + written_in(n as nat, 16).len()),
            written_in(n as nat, 16),
            16,
        ),
        p + 2 + written_in(n as nat, 16).len() < s.len() ==> !is_digit_in(
            s[p + 2 + written_in(n as nat, 16).len()],
            16,
        ),
    ensures
        token_at(s, p, line) == Ok::<(Tok, int), Seq<char>>(
            (Tok::IntLit(n), p + 2 + written_in(n as nat, 16).len()),
        ),
{
    lemma_written_in(n as nat, 16);
    lemma_hexadecimal_literal(s, p, written_in(n as nat, 16), line);
}

/// A number is written in decimal with its digits: the text of a number is the numeral whose value
/// is that number, without a 0 in front.
pub proof fn lemma_decimal_text(n: nat)
    ensures
        is_numeral(digits(n), written_in(n, 10), 10),
        in_base(written_in(n, 10), 10) == n,
        n > 0 ==> digits(n)[0] != '0',
    decreases n,
{
    lemma_written_in(n, 10);
    let v = written_in(n, 10);
    let c = digit_char(n % 10);
    assert(c as int == '0' as int + n % 10);
    if n >= 10 {
        lemma_decimal_text(n / 10);
        let w = digits(n / 10);
        assert forall|i: int| 0 <= i < v.len() implies stands_for(#[trigger] digits(n)[i], v[i])
            && v[i] < 10 by {
            if i < w.len() {
                assert(stands_for(w[i], written_in(n / 10, 10)[i]));
            }
        }
        assert(digits(n)[0] == w[0]);
    }
}

/// Different numbers have different texts.
pub proof fn lemma_decimal_texts_differ(n: nat, m: nat)
    requires
        digits(n) == digits(m),
    ensures
        n == m,
{
    lemma_decimal_text(n);
    lemma_decimal_text(m);
    let v = written_in(n, 10);
    let w = written_in(m, 10);
    assert(v =~= w) by {
        assert forall|i: int| 0 <= i < v.len() implies v[i] == w[i] by {
            assert(stands_for(digits(n)[i], v[i]));
            assert(stands_for(digits(m)[i], w[i]));
        }
    }
}

/// A negative number is written as a minus sign and the number without its sign, another one as it
/// is.
pub proof fn lemma_signed_text(n: int)
    ensures
        n >= 0 ==> signed_digits(n) == digits(n as nat),
        n < 0 ==> signed_digits(n) == "-"@ + digits((-n) as nat),
{
    reveal_strlit("-");
    assert(seq!['-'] =~= "-"@);
}

} // verus!
