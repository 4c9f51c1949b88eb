//! What the terms and formulas say that a solver is given, read from their texts: those over the
//! integers and those over words of 32 bits.

use vstd::arithmetic::div_mod::{lemma_div_denominator, lemma_fundamental_div_mod};
use vstd::arithmetic::power2::{lemma2_to64, lemma_pow2_pos, lemma_pow2_unfold, pow2};
use vstd::prelude::*;
use crate::laws::integers::{int_true, int_value, int_values};
use crate::laws::numerals::in_base;
use crate::laws::scripts::{
    application, flat, flats, goes_on, is_plain_word, lemma_application, lemma_application1,
    lemma_application2, lemma_numeral_value, lemma_spaced, lemma_word, numeral_value, reads, Tree,
};
use crate::laws::words::{bv_true, bv_value, words};
use crate::smt::{const_text, word_text};
use crate::text::{digits, joined};
use crate::verifier_bv::{BvFormula, BvTerm};
use crate::verifier_int::{term_texts, IntFormula, IntTerm};

verus! {

// ---------------------------------------------------------------------------
// Terms over the integers
// ---------------------------------------------------------------------------

/// Whether the names in a term are words, and its function symbols are no operations.
pub open spec fn plain_term(t: IntTerm) -> bool
    decreases t,
{
    match t {
        IntTerm::Var(x) => is_plain_word(x),
        IntTerm::Number(_) => true,
        IntTerm::Add(a, b) => plain_term(*a) && plain_term(*b),
        IntTerm::Sub(a, b) => plain_term(*a) && plain_term(*b),
        IntTerm::Mul(a, b) => plain_term(*a) && plain_term(*b),
        IntTerm::Div(a, b) => plain_term(*a) && plain_term(*b),
        IntTerm::Call(f, args) => is_plain_word(f) && is_symbol(f) && plain_terms(args),
    }
}

/// Whether the names in terms are words, and their function symbols are no operations.
pub open spec fn plain_terms(v: Seq<IntTerm>) -> bool
    decreases v,
{
    forall|i: int| 0 <= i < v.len() ==> plain_term(#[trigger] v[i])
}

/// Whether a word is neither an operation on integers nor a mark nor a numeral.
pub open spec fn is_symbol(w: Seq<char>) -> bool {
    &&& w != "as"@ && w != "+"@ && w != "-"@ && w != "*"@ && w != "div"@
    &&& !('0' <= w[0] <= '9')
}

/// The tree of an integer: a numeral, or the negative of one.
pub open spec fn number_tree(n: int) -> Tree {
    if n >= 0 {
        Tree::Word(digits(n as nat))
    } else {
        application("-"@, seq![Tree::Word(digits((0 - n) as nat))])
    }
}

/// The tree of a term.
pub open spec fn term_tree(t: IntTerm) -> Tree
    decreases t,
{
    match t {
        IntTerm::Var(x) => application("as"@, seq![Tree::Word(x), Tree::Word("Int"@)]),
        IntTerm::Number(n) => number_tree(n),
        IntTerm::Add(a, b) => application("+"@, seq![term_tree(*a), term_tree(*b)]),
        IntTerm::Sub(a, b) => application("-"@, seq![term_tree(*a), term_tree(*b)]),
        IntTerm::Mul(a, b) => application("*"@, seq![term_tree(*a), term_tree(*b)]),
        IntTerm::Div(a, b) => application("div"@, seq![term_tree(*a), term_tree(*b)]),
        IntTerm::Call(f, args) => if args.len() == 0 {
            Tree::Word(f)
        } else {
            application(f, term_trees(args))
        },
    }
}

/// The trees of terms.
pub open spec fn term_trees(v: Seq<IntTerm>) -> Seq<Tree>
    decreases v,
{
    Seq::new(
        v.len(),
        |i: int|
            if 0 <= i < v.len() {
                term_tree(v[i])
            } else {
                arbitrary()
            },
    )
}

proof fn lemma_symbols()
    ensures
        is_plain_word("as"@),
        is_plain_word("Int"@),
        is_plain_word("+"@),
        is_plain_word("-"@),
        is_plain_word("*"@),
        is_plain_word("div"@),
        is_plain_word("="@),
        is_plain_word(">="@),
        is_plain_word("<="@),
        is_plain_word("distinct"@),
        is_plain_word("and"@),
        is_plain_word("or"@),
        is_plain_word("_"@),
        is_plain_word("BitVec"@),
        is_plain_word("32"@),
        is_plain_word("bvadd"@),
        is_plain_word("bvneg"@),
        is_plain_word("bvmul"@),
        is_plain_word("bvudiv"@),
        is_plain_word("bvule"@),
{
    reveal_strlit("as");
    reveal_strlit("Int");
    reveal_strlit("+");
    reveal_strlit("-");
    reveal_strlit("*");
    reveal_strlit("div");
    reveal_strlit("=");
    reveal_strlit(">=");
    reveal_strlit("<=");
    reveal_strlit("distinct");
    reveal_strlit("and");
    reveal_strlit("or");
    reveal_strlit("_");
    reveal_strlit("BitVec");
    reveal_strlit("32");
    reveal_strlit("bvadd");
    reveal_strlit("bvneg");
    reveal_strlit("bvmul");
    reveal_strlit("bvudiv");
    reveal_strlit("bvule");
}

proof fn lemma_const(x: Seq<char>, sort: Seq<char>, t: Tree)
    requires
        is_plain_word(x),
        reads(sort, flat(t)),
    ensures
        reads(const_text(x, sort), flat(application("as"@, seq![Tree::Word(x), t]))),
{
    lemma_symbols();
    lemma_word(x);
    lemma_application2("as"@, x, sort, Tree::Word(x), t);
    reveal_strlit("(as ");
    reveal_strlit("(");
    reveal_strlit("as");
    reveal_strlit(" ");
    assert("(as "@ =~= "("@ + "as"@ + " "@);
}

/// The text of a term over the integers reads as its tree.
pub proof fn lemma_term_text(t: IntTerm)
    requires
        plain_term(t),
    ensures
        reads(crate::verifier_int::term_text(t), flat(term_tree(t))),
    decreases t,
{
    lemma_symbols();
    match t {
        IntTerm::Var(x) => {
            lemma_word("Int"@);
            lemma_const(x, "Int"@, Tree::Word("Int"@));
        },
        IntTerm::Number(n) => {
            if n >= 0 {
                lemma_numeral_value(n as nat);
                lemma_word(digits(n as nat));
            } else {
                let w = digits((0 - n) as nat);
                lemma_numeral_value((0 - n) as nat);
                lemma_word(w);
                lemma_application1("-"@, w, Tree::Word(w));
            }
        },
        IntTerm::Add(a, b) | IntTerm::Sub(a, b) | IntTerm::Mul(a, b) | IntTerm::Div(a, b) => {
            lemma_term_text(*a);
            lemma_term_text(*b);
            let op = match t {
                IntTerm::Add(_, _) => "+"@,
                IntTerm::Sub(_, _) => "-"@,
                IntTerm::Mul(_, _) => "*"@,
                _ => "div"@,
            };
            lemma_application2(
                op,
                crate::verifier_int::term_text(*a),
                crate::verifier_int::term_text(*b),
                term_tree(*a),
                term_tree(*b),
            );
        },
        IntTerm::Call(f, args) => {
            lemma_word(f);
            lemma_lengths(args);
            if args.len() > 0 {
                lemma_term_texts(args);
                lemma_application(f, joined(term_texts(args), " "@), term_trees(args));
            }
        },
    }
}

proof fn lemma_lengths(v: Seq<IntTerm>)
    ensures
        term_texts(v).len() == v.len(),
        term_trees(v).len() == v.len(),
{
}

proof fn lemma_term_texts(v: Seq<IntTerm>)
    requires
        plain_terms(v),
    ensures
        reads(joined(term_texts(v), " "@), flats(term_trees(v), term_trees(v).len())),
    decreases v,
{
    let texts = term_texts(v);
    let trees = term_trees(v);
    assert forall|i: int| 0 <= i < trees.len() implies reads(#[trigger] texts[i], flat(
        trees[i],
    )) by {
        assert(plain_term(v[i]));
        lemma_term_text(v[i]);
        assert(texts[i] == crate::verifier_int::term_text(v[i]));
        assert(trees[i] == term_tree(v[i]));
    }
    lemma_spaced(texts, trees, trees.len());
    assert(texts.take(trees.len() as int) =~= texts);
}

/// The value of a tree over the integers: a word is a numeral or a function symbol without
/// arguments, `(as x Int)` a variable, and the rest the operations and the function symbols.
pub open spec fn tree_value(
    m: spec_fn(Seq<char>) -> int,
    g: spec_fn(Seq<char>, Seq<int>) -> int,
    t: Tree,
) -> int
    decreases t,
{
    match t {
        Tree::Word(w) => if '0' <= w[0] <= '9' {
            numeral_value(w, 10)
        } else {
            g(w, Seq::empty())
        },
        Tree::List(v) => if v.len() == 0 {
            0
        } else if v[0] == Tree::Word("as"@) {
            m(v[1]->Word_0)
        } else {
            let u = tree_values(m, g, v);
            match v[0] {
                Tree::Word(op) => if op == "+"@ {
                    u[1] + u[2]
                } else if op == "-"@ {
                    if v.len() == 2 {
                        0 - u[1]
                    } else {
                        u[1] - u[2]
                    }
                } else if op == "*"@ {
                    u[1] * u[2]
                } else if op == "div"@ {
                    arbitrary()
                } else {
                    g(op, u.skip(1))
                },
                Tree::List(_) => 0,
            }
        },
    }
}

/// The values of trees.
pub open spec fn tree_values(
    m: spec_fn(Seq<char>) -> int,
    g: spec_fn(Seq<char>, Seq<int>) -> int,
    v: Seq<Tree>,
) -> Seq<int>
    decreases v,
{
    Seq::new(
        v.len(),
        |i: int|
            if 0 <= i < v.len() {
                tree_value(m, g, v[i])
            } else {
                0
            },
    )
}

proof fn lemma_tree_values(
    m: spec_fn(Seq<char>) -> int,
    g: spec_fn(Seq<char>, Seq<int>) -> int,
    v: Seq<Tree>,
)
    ensures
        tree_values(m, g, v).len() == v.len(),
        forall|i: int|
            0 <= i < v.len() ==> #[trigger] tree_values(m, g, v)[i] == tree_value(m, g, v[i]),
{
}

proof fn lemma_operations_differ()
    ensures
        "as"@ != "+"@,
        "as"@ != "-"@,
        "as"@ != "*"@,
        "as"@ != "div"@,
        "+"@ != "-"@,
        "+"@ != "*"@,
        "+"@ != "div"@,
        "-"@ != "*"@,
        "-"@ != "div"@,
        "*"@ != "div"@,
{
    reveal_strlit("as");
    reveal_strlit("+");
    reveal_strlit("-");
    reveal_strlit("*");
    reveal_strlit("div");
    assert("as"@.len() == 2 && "div"@.len() == 3);
    assert("+"@[0] == '+' && "-"@[0] == '-' && "*"@[0] == '*');
}

proof fn lemma_number_value(
    m: spec_fn(Seq<char>) -> int,
    g: spec_fn(Seq<char>, Seq<int>) -> int,
    n: int,
)
    ensures
        tree_value(m, g, number_tree(n)) == n,
{
    lemma_operations_differ();
    let k = if n >= 0 {
        n as nat
    } else {
        (0 - n) as nat
    };
    lemma_numeral_value(k);
    crate::laws::numerals::lemma_decimal_text(k);
    let w = digits(k);
    assert(crate::laws::numerals::stands_for(w[0], crate::laws::numerals::written_in(k, 10)[0]));
    assert(tree_value(m, g, Tree::Word(w)) == k);
    if n < 0 {
        let v = number_tree(n)->List_0;
        assert(v[0] == Tree::Word("-"@) && v[1] == Tree::Word(w));
        lemma_tree_values(m, g, v);
    }
}

/// The tree of a term over the integers has the value of the term.
pub proof fn lemma_term_value(
    m: spec_fn(Seq<char>) -> int,
    g: spec_fn(Seq<char>, Seq<int>) -> int,
    t: IntTerm,
)
    requires
        plain_term(t),
    ensures
        tree_value(m, g, term_tree(t)) == int_value(m, g, t),
    decreases t,
{
    lemma_operations_differ();
    let v = term_tree(t)->List_0;
    match t {
        IntTerm::Var(x) => {
            assert(v[0] == Tree::Word("as"@) && v[1] == Tree::Word(x));
        },
        IntTerm::Number(n) => {
            lemma_number_value(m, g, n);
        },
        IntTerm::Add(a, b) => {
            lemma_term_value(m, g, *a);
            lemma_term_value(m, g, *b);
            assert(v[0] == Tree::Word("+"@) && v[1] == term_tree(*a) && v[2] == term_tree(*b));
            lemma_tree_values(m, g, v);
        },
        IntTerm::Sub(a, b) => {
            lemma_term_value(m, g, *a);
            lemma_term_value(m, g, *b);
            assert(v[0] == Tree::Word("-"@) && v[1] == term_tree(*a) && v[2] == term_tree(*b));
            lemma_tree_values(m, g, v);
        },
        IntTerm::Mul(a, b) => {
            lemma_term_value(m, g, *a);
            lemma_term_value(m, g, *b);
            assert(v[0] == Tree::Word("*"@) && v[1] == term_tree(*a) && v[2] == term_tree(*b));
            lemma_tree_values(m, g, v);
        },
        IntTerm::Div(a, b) => {
            assert(v[0] == Tree::Word("div"@));
        },
        IntTerm::Call(f, args) => {
            lemma_lengths(args);
            if args.len() == 0 {
                assert(int_values(m, g, args) =~= Seq::empty());
            } else {
                assert(v[0] == Tree::Word(f));
                lemma_tree_values(m, g, v);
                lemma_term_values(m, g, args);
                let u = tree_values(m, g, v);
                assert(u.skip(1) =~= int_values(m, g, args)) by {
                    assert forall|i: int| 0 <= i < args.len() implies u.skip(1)[i] == int_values(
                        m,
                        g,
                        args,
                    )[i] by {
                        assert(v[i + 1] == term_trees(args)[i]);
                        assert(u[i + 1] == tree_value(m, g, v[i + 1]));
                        assert(tree_value(m, g, term_trees(args)[i]) == int_values(m, g, args)[i]);
                    }
                }
            }
        },
    }
}

proof fn lemma_term_values(
    m: spec_fn(Seq<char>) -> int,
    g: spec_fn(Seq<char>, Seq<int>) -> int,
    v: Seq<IntTerm>,
)
    requires
        plain_terms(v),
    ensures
        int_values(m, g, v).len() == v.len(),
        forall|i: int|
            0 <= i < v.len() ==> tree_value(m, g, #[trigger] term_trees(v)[i]) == int_values(
                m,
                g,
                v,
            )[i],
    decreases v,
{
    assert forall|i: int| 0 <= i < v.len() implies tree_value(
        m,
        g,
        #[trigger] term_trees(v)[i],
    ) == int_values(m, g, v)[i] by {
        assert(plain_term(v[i]));
        lemma_term_value(m, g, v[i]);
        assert(term_trees(v)[i] == term_tree(v[i]));
    }
}

/// Whether the names in a formula are words, and its function symbols are no operations.
pub open spec fn plain_formula(f: IntFormula) -> bool
    decreases f,
{
    match f {
        IntFormula::AtLeast(a, b) => plain_term(a) && plain_term(b),
        IntFormula::AtMost(a, b) => plain_term(a) && plain_term(b),
        IntFormula::Equal(a, b) => plain_term(a) && plain_term(b),
        IntFormula::Distinct(a, b) => plain_term(a) && plain_term(b),
        IntFormula::And(a, b) => plain_formula(*a) && plain_formula(*b),
        IntFormula::Or(a, b) => plain_formula(*a) && plain_formula(*b),
    }
}

/// The tree of a formula.
pub open spec fn formula_tree(f: IntFormula) -> Tree
    decreases f,
{
    match f {
        IntFormula::AtLeast(a, b) => application(">="@, seq![term_tree(a), term_tree(b)]),
        IntFormula::AtMost(a, b) => application("<="@, seq![term_tree(a), term_tree(b)]),
        IntFormula::Equal(a, b) => application("="@, seq![term_tree(a), term_tree(b)]),
        IntFormula::Distinct(a, b) => application("distinct"@, seq![term_tree(a), term_tree(b)]),
        IntFormula::And(a, b) => application("and"@, seq![formula_tree(*a), formula_tree(*b)]),
        IntFormula::Or(a, b) => application("or"@, seq![formula_tree(*a), formula_tree(*b)]),
    }
}

/// The text of a formula over the integers reads as its tree.
pub proof fn lemma_formula_text(f: IntFormula)
    requires
        plain_formula(f),
    ensures
        reads(crate::verifier_int::formula_text(f), flat(formula_tree(f))),
    decreases f,
{
    lemma_symbols();
    match f {
        IntFormula::AtLeast(a, b)
        | IntFormula::AtMost(a, b)
        | IntFormula::Equal(a, b)
        | IntFormula::Distinct(a, b) => {
            lemma_term_text(a);
            lemma_term_text(b);
            let op = match f {
                IntFormula::AtLeast(_, _) => ">="@,
                IntFormula::AtMost(_, _) => "<="@,
                IntFormula::Equal(_, _) => "="@,
                _ => "distinct"@,
            };
            lemma_application2(
                op,
                crate::verifier_int::term_text(a),
                crate::verifier_int::term_text(b),
                term_tree(a),
                term_tree(b),
            );
        },
        IntFormula::And(a, b) | IntFormula::Or(a, b) => {
            lemma_formula_text(*a);
            lemma_formula_text(*b);
            let op = match f {
                IntFormula::And(_, _) => "and"@,
                _ => "or"@,
            };
            lemma_application2(
                op,
                crate::verifier_int::formula_text(*a),
                crate::verifier_int::formula_text(*b),
                formula_tree(*a),
                formula_tree(*b),
            );
        },
    }
}

/// Whether the tree of a formula over the integers is true.
pub open spec fn tree_true(
    m: spec_fn(Seq<char>) -> int,
    g: spec_fn(Seq<char>, Seq<int>) -> int,
    t: Tree,
) -> bool
    decreases t,
{
    match t {
        Tree::Word(_) => false,
        Tree::List(v) => if v.len() != 3 {
            false
        } else if v[0] == Tree::Word("and"@) {
            tree_true(m, g, v[1]) && tree_true(m, g, v[2])
        } else if v[0] == Tree::Word("or"@) {
            tree_true(m, g, v[1]) || tree_true(m, g, v[2])
        } else {
            let x = tree_value(m, g, v[1]);
            let y = tree_value(m, g, v[2]);
            if v[0] == Tree::Word(">="@) {
                x >= y
            } else if v[0] == Tree::Word("<="@) {
                x <= y
            } else if v[0] == Tree::Word("="@) {
                x == y
            } else if v[0] == Tree::Word("distinct"@) {
                x != y
            } else {
                false
            }
        },
    }
}

proof fn lemma_relations_differ()
    ensures
        "and"@ != "or"@,
        "and"@ != ">="@,
        "and"@ != "<="@,
        "and"@ != "="@,
        "and"@ != "distinct"@,
        "and"@ != "bvule"@,
        "or"@ != ">="@,
        "or"@ != "<="@,
        "or"@ != "="@,
        "or"@ != "distinct"@,
        "or"@ != "bvule"@,
        ">="@ != "<="@,
        ">="@ != "="@,
        ">="@ != "distinct"@,
        "<="@ != "="@,
        "<="@ != "distinct"@,
        "="@ != "distinct"@,
        "="@ != "bvule"@,
        "distinct"@ != "bvule"@,
{
    reveal_strlit("and");
    reveal_strlit("or");
    reveal_strlit(">=");
    reveal_strlit("<=");
    reveal_strlit("=");
    reveal_strlit("distinct");
    reveal_strlit("bvule");
    assert("and"@.len() == 3 && "or"@.len() == 2 && "="@.len() == 1 && "distinct"@.len() == 8
        && "bvule"@.len() == 5);
    assert("or"@[0] == 'o' && ">="@[0] == '>' && "<="@[0] == '<');
    assert(">="@.len() == 2 && "<="@.len() == 2);
}

/// The tree of a formula over the integers says what the formula says.
pub proof fn lemma_formula_value(
    m: spec_fn(Seq<char>) -> int,
    g: spec_fn(Seq<char>, Seq<int>) -> int,
    f: IntFormula,
)
    requires
        plain_formula(f),
    ensures
        tree_true(m, g, formula_tree(f)) <==> int_true(m, g, f),
    decreases f,
{
    lemma_relations_differ();
    let v = formula_tree(f)->List_0;
    match f {
        IntFormula::AtLeast(a, b)
        | IntFormula::AtMost(a, b)
        | IntFormula::Equal(a, b)
        | IntFormula::Distinct(a, b) => {
            lemma_term_value(m, g, a);
            lemma_term_value(m, g, b);
            assert(v.len() == 3 && v[1] == term_tree(a) && v[2] == term_tree(b));
        },
        IntFormula::And(a, b) | IntFormula::Or(a, b) => {
            lemma_formula_value(m, g, *a);
            lemma_formula_value(m, g, *b);
            assert(v.len() == 3 && v[1] == formula_tree(*a) && v[2] == formula_tree(*b));
        },
    }
}

// ---------------------------------------------------------------------------
// Terms over words
// ---------------------------------------------------------------------------

/// Whether the names in a term are words.
pub open spec fn plain_word_term(t: BvTerm) -> bool
    decreases t,
{
    match t {
        BvTerm::Var(x) => is_plain_word(x),
        BvTerm::Number(_) => true,
        BvTerm::Neg(a) => plain_word_term(*a),
        BvTerm::Add(a, b) => plain_word_term(*a) && plain_word_term(*b),
        BvTerm::Mul(a, b) => plain_word_term(*a) && plain_word_term(*b),
        BvTerm::Div(a, b) => plain_word_term(*a) && plain_word_term(*b),
    }
}

/// The tree of the sort of words of 32 bits.
pub open spec fn word_sort() -> Tree {
    application("_"@, seq![Tree::Word("BitVec"@), Tree::Word("32"@)])
}

/// The tree of a term over words.
pub open spec fn word_term_tree(t: BvTerm) -> Tree
    decreases t,
{
    match t {
        BvTerm::Var(x) => application("as"@, seq![Tree::Word(x), word_sort()]),
        BvTerm::Number(n) => Tree::Word(word_text(n)),
        BvTerm::Neg(a) => application("bvneg"@, seq![word_term_tree(*a)]),
        BvTerm::Add(a, b) => application("bvadd"@, seq![word_term_tree(*a), word_term_tree(*b)]),
        BvTerm::Mul(a, b) => application("bvmul"@, seq![word_term_tree(*a), word_term_tree(*b)]),
        BvTerm::Div(a, b) => application("bvudiv"@, seq![word_term_tree(*a), word_term_tree(*b)]),
    }
}

proof fn lemma_bits_value(q: int, v: Seq<int>, k: nat)
    requires
        0 <= q < pow2(32),
        v.len() == 32,
        k <= 32,
        forall|i: int|
            0 <= i < 32 ==> #[trigger] v[i] == (q / (pow2((31 - i) as nat) as int)) % 2,
    ensures
        in_base(v.take(k as int), 2) == q / (pow2((32 - k) as nat) as int),
    decreases k,
{
    lemma_pow2_pos((32 - k) as nat);
    if k == 0 {
        assert(v.take(0) =~= Seq::empty());
        vstd::arithmetic::div_mod::lemma_basic_div(q, pow2(32) as int);
    } else {
        let j = (k - 1) as nat;
        lemma_bits_value(q, v, j);
        let d = pow2((32 - k) as nat) as int;
        lemma_pow2_unfold((32 - j) as nat);
        assert(pow2((32 - j) as nat) == 2 * d);
        lemma_div_denominator(q, d, 2);
        assert(d * 2 == 2 * d);
        let h = q / d;
        lemma_fundamental_div_mod(h, 2);
        assert(v.take(k as int).drop_last() =~= v.take(j as int));
        assert(v.take(k as int).last() == v[j as int]);
        assert(h / 2 == q / (2 * d));
    }
}

/// The text of a number over words is the word for it: `#b` and 32 binary digits, whose value is
/// the number modulo the number of words.
pub proof fn lemma_word_text(n: int)
    ensures
        is_plain_word(word_text(n)),
        word_text(n).len() == 34,
        word_text(n)[0] == '#',
        word_text(n)[1] == 'b',
        forall|i: int| 2 <= i < 34 ==> (#[trigger] word_text(n)[i] == '0' || word_text(n)[i] == '1'),
        numeral_value(word_text(n).skip(2), 2) == n % words(),
{
    reveal_strlit("#b");
    lemma2_to64();
    let w = word_text(n);
    let q = n % words();
    let b = w.skip(2);
    let v = b.map_values(|c: char| c as int - '0' as int);
    assert forall|i: int| 0 <= i < 32 implies #[trigger] v[i] == (q / (pow2((31 - i) as nat) as int))
        % 2 by {
        assert(b[i] == w[i + 2]);
    }
    assert(pow2(32) == words());
    lemma_bits_value(q, v, 32);
    assert(v.take(32) =~= v);
    lemma2_to64();
    assert(q / 1 == q);
    assert forall|i: int| 0 <= i < w.len() implies goes_on(#[trigger] w[i]) by {
        if i >= 2 {
            assert(b[i - 2] == w[i]);
        }
    }
}

/// The text of a term over words reads as its tree.
pub proof fn lemma_word_term_text(t: BvTerm)
    requires
        plain_word_term(t),
    ensures
        reads(crate::verifier_bv::term_text(t), flat(word_term_tree(t))),
    decreases t,
{
    lemma_symbols();
    match t {
        BvTerm::Var(x) => {
            lemma_word("BitVec"@);
            lemma_word("32"@);
            lemma_application2(
                "_"@,
                "BitVec"@,
                "32"@,
                Tree::Word("BitVec"@),
                Tree::Word("32"@),
            );
            reveal_strlit("(_ BitVec 32)");
            reveal_strlit("(");
            reveal_strlit(")");
            reveal_strlit("_");
            reveal_strlit(" ");
            reveal_strlit("BitVec");
            reveal_strlit("32");
            assert("(_ BitVec 32)"@ =~= "("@ + "_"@ + " "@ + "BitVec"@ + " "@ + "32"@ + ")"@);
            lemma_const(x, "(_ BitVec 32)"@, word_sort());
        },
        BvTerm::Number(n) => {
            lemma_word_text(n);
            lemma_word(word_text(n));
        },
        BvTerm::Neg(a) => {
            lemma_word_term_text(*a);
            lemma_application1("bvneg"@, crate::verifier_bv::term_text(*a), word_term_tree(*a));
        },
        BvTerm::Add(a, b) | BvTerm::Mul(a, b) | BvTerm::Div(a, b) => {
            lemma_word_term_text(*a);
            lemma_word_term_text(*b);
            let op = match t {
                BvTerm::Add(_, _) => "bvadd"@,
                BvTerm::Mul(_, _) => "bvmul"@,
                _ => "bvudiv"@,
            };
            lemma_application2(
                op,
                crate::verifier_bv::term_text(*a),
                crate::verifier_bv::term_text(*b),
                word_term_tree(*a),
                word_term_tree(*b),
            );
        },
    }
}

/// The value of a tree over words: a word of the text is a binary numeral, `(as x ..)` a variable,
/// and the rest the operations.
pub open spec fn word_tree_value(m: spec_fn(Seq<char>) -> int, t: Tree) -> int
    decreases t,
{
    match t {
        Tree::Word(w) => numeral_value(w.skip(2), 2),
        Tree::List(v) => if v.len() < 2 {
            0
        } else if v[0] == Tree::Word("as"@) {
            m(v[1]->Word_0)
        } else if v[0] == Tree::Word("bvneg"@) {
            (0 - word_tree_value(m, v[1])) % words()
        } else if v.len() < 3 {
            0
        } else if v[0] == Tree::Word("bvadd"@) {
            (word_tree_value(m, v[1]) + word_tree_value(m, v[2])) % words()
        } else if v[0] == Tree::Word("bvmul"@) {
            (word_tree_value(m, v[1]) * word_tree_value(m, v[2])) % words()
        } else {
            arbitrary()
        },
    }
}

proof fn lemma_word_operations_differ()
    ensures
        "as"@ != "bvneg"@,
        "as"@ != "bvadd"@,
        "as"@ != "bvmul"@,
        "as"@ != "bvudiv"@,
        "bvneg"@ != "bvadd"@,
        "bvneg"@ != "bvmul"@,
        "bvneg"@ != "bvudiv"@,
        "bvadd"@ != "bvmul"@,
        "bvadd"@ != "bvudiv"@,
        "bvmul"@ != "bvudiv"@,
{
    reveal_strlit("as");
    reveal_strlit("bvneg");
    reveal_strlit("bvadd");
    reveal_strlit("bvmul");
    reveal_strlit("bvudiv");
    assert("as"@.len() == 2 && "bvudiv"@.len() == 6);
    assert("bvneg"@[2] == 'n' && "bvadd"@[2] == 'a' && "bvmul"@[2] == 'm');
    assert("bvneg"@.len() == 5 && "bvadd"@.len() == 5 && "bvmul"@.len() == 5);
}

/// The tree of a term over words has the value of the term.
pub proof fn lemma_word_term_value(m: spec_fn(Seq<char>) -> int, t: BvTerm)
    ensures
        word_tree_value(m, word_term_tree(t)) == bv_value(m, t),
    decreases t,
{
    lemma_word_operations_differ();
    let v = word_term_tree(t)->List_0;
    match t {
        BvTerm::Var(x) => {
            assert(v[0] == Tree::Word("as"@) && v[1] == Tree::Word(x));
        },
        BvTerm::Number(n) => {
            lemma_word_text(n);
        },
        BvTerm::Neg(a) => {
            lemma_word_term_value(m, *a);
            assert(v[0] == Tree::Word("bvneg"@) && v[1] == word_term_tree(*a));
        },
        BvTerm::Add(a, b) => {
            lemma_word_term_value(m, *a);
            lemma_word_term_value(m, *b);
            assert(v[0] == Tree::Word("bvadd"@) && v[1] == word_term_tree(*a) && v[2]
                == word_term_tree(*b));
        },
        BvTerm::Mul(a, b) => {
            lemma_word_term_value(m, *a);
            lemma_word_term_value(m, *b);
            assert(v[0] == Tree::Word("bvmul"@) && v[1] == word_term_tree(*a) && v[2]
                == word_term_tree(*b));
        },
        BvTerm::Div(a, b) => {
            assert(v[0] == Tree::Word("bvudiv"@) && v.len() == 3);
        },
    }
}

/// Whether the names in a formula over words are words.
pub open spec fn plain_word_formula(f: BvFormula) -> bool
    decreases f,
{
    match f {
        BvFormula::AtMost(a, b) => plain_word_term(a) && plain_word_term(b),
        BvFormula::Equal(a, b) => plain_word_term(a) && plain_word_term(b),
        BvFormula::Distinct(a, b) => plain_word_term(a) && plain_word_term(b),
        BvFormula::And(a, b) => plain_word_formula(*a) && plain_word_formula(*b),
        BvFormula::Or(a, b) => plain_word_formula(*a) && plain_word_formula(*b),
    }
}

/// The tree of a formula over words.
pub open spec fn word_formula_tree(f: BvFormula) -> Tree
    decreases f,
{
    match f {
        BvFormula::AtMost(a, b) => application(
            "bvule"@,
            seq![word_term_tree(a), word_term_tree(b)],
        ),
        BvFormula::Equal(a, b) => application("="@, seq![word_term_tree(a), word_term_tree(b)]),
        BvFormula::Distinct(a, b) => application(
            "distinct"@,
            seq![word_term_tree(a), word_term_tree(b)],
        ),
        BvFormula::And(a, b) => application(
            "and"@,
            seq![word_formula_tree(*a), word_formula_tree(*b)],
        ),
        BvFormula::Or(a, b) => application(
            "or"@,
            seq![word_formula_tree(*a), word_formula_tree(*b)],
        ),
    }
}

/// The text of a formula over words reads as its tree.
pub proof fn lemma_word_formula_text(f: BvFormula)
    requires
        plain_word_formula(f),
    ensures
        reads(crate::verifier_bv::formula_text(f), flat(word_formula_tree(f))),
    decreases f,
{
    lemma_symbols();
    match f {
        BvFormula::AtMost(a, b) | BvFormula::Equal(a, b) | BvFormula::Distinct(a, b) => {
            lemma_word_term_text(a);
            lemma_word_term_text(b);
            let op = match f {
                BvFormula::AtMost(_, _) => "bvule"@,
                BvFormula::Equal(_, _) => "="@,
                _ => "distinct"@,
            };
            lemma_application2(
                op,
                crate::verifier_bv::term_text(a),
                crate::verifier_bv::term_text(b),
                word_term_tree(a),
                word_term_tree(b),
            );
        },
        BvFormula::And(a, b) | BvFormula::Or(a, b) => {
            lemma_word_formula_text(*a);
            lemma_word_formula_text(*b);
            let op = match f {
                BvFormula::And(_, _) => "and"@,
                _ => "or"@,
            };
            lemma_application2(
                op,
                crate::verifier_bv::formula_text(*a),
                crate::verifier_bv::formula_text(*b),
                word_formula_tree(*a),
                word_formula_tree(*b),
            );
        },
    }
}

/// Whether the tree of a formula over words is true; words are compared as unsigned numbers.
pub open spec fn word_tree_true(m: spec_fn(Seq<char>) -> int, t: Tree) -> bool
    decreases t,
{
    match t {
        Tree::Word(_) => false,
        Tree::List(v) => if v.len() != 3 {
            false
        } else if v[0] == Tree::Word("and"@) {
            word_tree_true(m, v[1]) && word_tree_true(m, v[2])
        } else if v[0] == Tree::Word("or"@) {
            word_tree_true(m, v[1]) || word_tree_true(m, v[2])
        } else {
            let x = word_tree_value(m, v[1]);
            let y = word_tree_value(m, v[2]);
            if v[0] == Tree::Word("bvule"@) {
                x <= y
            } else if v[0] == Tree::Word("="@) {
                x == y
            } else if v[0] == Tree::Word("distinct"@) {
                x != y
            } else {
                false
            }
        },
    }
}

/// The tree of a formula over words says what the formula says.
pub proof fn lemma_word_formula_value(m: spec_fn(Seq<char>) -> int, f: BvFormula)
    ensures
        word_tree_true(m, word_formula_tree(f)) <==> bv_true(m, f),
    decreases f,
{
    lemma_relations_differ();
    let v = word_formula_tree(f)->List_0;
    match f {
        BvFormula::AtMost(a, b) | BvFormula::Equal(a, b) | BvFormula::Distinct(a, b) => {
            lemma_word_term_value(m, a);
            lemma_word_term_value(m, b);
            assert(v.len() == 3 && v[1] == word_term_tree(a) && v[2] == word_term_tree(b));
        },
        BvFormula::And(a, b) | BvFormula::Or(a, b) => {
            lemma_word_formula_value(m, *a);
            lemma_word_formula_value(m, *b);
            assert(v.len() == 3 && v[1] == word_formula_tree(*a) && v[2] == word_formula_tree(*b));
        },
    }
}

} // verus!
