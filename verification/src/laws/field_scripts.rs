//! What a script over the field says, read from its text.

use vstd::prelude::*;
use crate::laws::field::prime;
use crate::laws::finite::{ff_true, ff_value, ff_values};
use crate::laws::scripts::{
    application, flat, flats, goes_on, is_plain_word, lemma_application, lemma_application1,
    lemma_application2, lemma_closed_then, lemma_flats_behind, lemma_flats_of_more, lemma_gap,
    lemma_nothing, lemma_numeral_value, lemma_parentheses, lemma_reads, lemma_spaced, lemma_word,
    numeral_value, reads, words_of, Tree,
};
use crate::text::{digits, joined};
use crate::verifier_ff::{
    command_text, formula_text, lines_text, number_text, script_text, term_text, term_texts,
    BABYBEAR_P, FfCommand, FfFormula, FfTerm,
};

verus! {

// ---------------------------------------------------------------------------
// Terms
// ---------------------------------------------------------------------------

/// Whether the names in a term are words.
pub open spec fn plain_term(t: FfTerm) -> bool
    decreases t,
{
    match t {
        FfTerm::Var(x) => is_plain_word(x),
        FfTerm::Number(_) => true,
        FfTerm::Neg(a) => plain_term(*a),
        FfTerm::Add(a, b) => plain_term(*a) && plain_term(*b),
        FfTerm::Mul(a, b) => plain_term(*a) && plain_term(*b),
        FfTerm::Call(f, args) => is_plain_word(f) && plain_terms(args),
    }
}

/// Whether the names in terms are words.
pub open spec fn plain_terms(v: Seq<FfTerm>) -> bool
    decreases v,
{
    forall|i: int| 0 <= i < v.len() ==> plain_term(#[trigger] v[i])
}

/// The tree of a term.
pub open spec fn term_tree(t: FfTerm) -> Tree
    decreases t,
{
    match t {
        FfTerm::Var(x) => Tree::Word(x),
        FfTerm::Number(n) => application(
            "as"@,
            seq![Tree::Word("ff"@ + digits(n)), Tree::Word("F"@)],
        ),
        FfTerm::Neg(a) => application("ff.neg"@, seq![term_tree(*a)]),
        FfTerm::Add(a, b) => application("ff.add"@, seq![term_tree(*a), term_tree(*b)]),
        FfTerm::Mul(a, b) => application("ff.mul"@, seq![term_tree(*a), term_tree(*b)]),
        FfTerm::Call(f, args) => application(f, term_trees(args)),
    }
}

/// The trees of terms.
pub open spec fn term_trees(v: Seq<FfTerm>) -> Seq<Tree>
    decreases v,
{
    Seq::new(
        v.len(),
        |i: int|
            if 0 <= i < v.len() {
                term_tree(v[i])
            } else {
                arbitrary()
            },
    )
}

proof fn lemma_symbols()
    ensures
        is_plain_word("as"@),
        is_plain_word("F"@),
        is_plain_word("ff.neg"@),
        is_plain_word("ff.add"@),
        is_plain_word("ff.mul"@),
        is_plain_word("="@),
        is_plain_word("not"@),
        is_plain_word("and"@),
        is_plain_word("or"@),
{
    reveal_strlit("as");
    reveal_strlit("F");
    reveal_strlit("ff.neg");
    reveal_strlit("ff.add");
    reveal_strlit("ff.mul");
    reveal_strlit("=");
    reveal_strlit("not");
    reveal_strlit("and");
    reveal_strlit("or");
}

proof fn lemma_openings()
    ensures
        "(as ff"@ == "("@ + "as"@ + " "@ + "ff"@,
        " F)"@ == " "@ + "F"@ + ")"@,
        "(ff.neg "@ == "("@ + "ff.neg"@ + " "@,
        "(ff.add "@ == "("@ + "ff.add"@ + " "@,
        "(ff.mul "@ == "("@ + "ff.mul"@ + " "@,
        "(= "@ == "("@ + "="@ + " "@,
        "(not "@ == "("@ + "not"@ + " "@,
        "(and "@ == "("@ + "and"@ + " "@,
        "(or "@ == "("@ + "or"@ + " "@,
{
    reveal_strlit("(");
    reveal_strlit(")");
    reveal_strlit(" ");
    reveal_strlit("(as ff");
    reveal_strlit("as");
    reveal_strlit("ff");
    reveal_strlit("F");
    reveal_strlit(" F)");
    reveal_strlit("(ff.neg ");
    reveal_strlit("(ff.add ");
    reveal_strlit("(ff.mul ");
    reveal_strlit("ff.neg");
    reveal_strlit("ff.add");
    reveal_strlit("ff.mul");
    reveal_strlit("(= ");
    reveal_strlit("(not ");
    reveal_strlit("(and ");
    reveal_strlit("(or ");
    reveal_strlit("=");
    reveal_strlit("not");
    reveal_strlit("and");
    reveal_strlit("or");
    assert("(as ff"@ =~= "("@ + "as"@ + " "@ + "ff"@);
    assert(" F)"@ =~= " "@ + "F"@ + ")"@);
    assert("(ff.neg "@ =~= "("@ + "ff.neg"@ + " "@);
    assert("(ff.add "@ =~= "("@ + "ff.add"@ + " "@);
    assert("(ff.mul "@ =~= "("@ + "ff.mul"@ + " "@);
    assert("(= "@ =~= "("@ + "="@ + " "@);
    assert("(not "@ =~= "("@ + "not"@ + " "@);
    assert("(and "@ =~= "("@ + "and"@ + " "@);
    assert("(or "@ =~= "("@ + "or"@ + " "@);
}

/// The words of the numbers of the field.
pub open spec fn number_word(n: nat) -> Seq<char> {
    "ff"@ + digits(n)
}

proof fn lemma_number_word(n: nat)
    ensures
        is_plain_word(number_word(n)),
        number_word(n).take(2) == "ff"@,
        number_word(n).skip(2) == digits(n),
{
    reveal_strlit("ff");
    lemma_numeral_value(n);
    let w = number_word(n);
    assert forall|i: int| 0 <= i < w.len() implies goes_on(#[trigger] w[i]) by {
        if i >= 2 {
            assert(w[i] == digits(n)[i - 2]);
        }
    }
    assert(w.take(2) =~= "ff"@);
    assert(w.skip(2) =~= digits(n));
}

/// The text of a term, whose names are words, reads as its tree.
pub proof fn lemma_term_text(t: FfTerm)
    requires
        plain_term(t),
    ensures
        reads(term_text(t), flat(term_tree(t))),
    decreases t,
{
    lemma_symbols();
    lemma_openings();
    match t {
        FfTerm::Var(x) => {
            lemma_word(x);
        },
        FfTerm::Number(n) => {
            let w = number_word(n);
            lemma_number_word(n);
            lemma_word(w);
            lemma_word("F"@);
            lemma_application2("as"@, w, "F"@, Tree::Word(w), Tree::Word("F"@));
            assert(number_text(n) =~= "("@ + "as"@ + " "@ + w + " "@ + "F"@ + ")"@);
        },
        FfTerm::Neg(a) => {
            lemma_term_text(*a);
            lemma_application1("ff.neg"@, term_text(*a), term_tree(*a));
        },
        FfTerm::Add(a, b) => {
            lemma_term_text(*a);
            lemma_term_text(*b);
            lemma_application2(
                "ff.add"@,
                term_text(*a),
                term_text(*b),
                term_tree(*a),
                term_tree(*b),
            );
        },
        FfTerm::Mul(a, b) => {
            lemma_term_text(*a);
            lemma_term_text(*b);
            lemma_application2(
                "ff.mul"@,
                term_text(*a),
                term_text(*b),
                term_tree(*a),
                term_tree(*b),
            );
        },
        FfTerm::Call(f, args) => {
            lemma_term_texts(args);
            lemma_application(f, joined(term_texts(args), " "@), term_trees(args));
        },
    }
}

proof fn lemma_term_texts(v: Seq<FfTerm>)
    requires
        plain_terms(v),
    ensures
        reads(joined(term_texts(v), " "@), flats(term_trees(v), term_trees(v).len())),
    decreases v,
{
    let texts = term_texts(v);
    let trees = term_trees(v);
    assert forall|i: int| 0 <= i < trees.len() implies reads(#[trigger] texts[i], flat(
        trees[i],
    )) by {
        assert(plain_term(v[i]));
        lemma_term_text(v[i]);
        assert(texts[i] == term_text(v[i]));
        assert(trees[i] == term_tree(v[i]));
    }
    lemma_spaced(texts, trees, trees.len());
    assert(texts.take(trees.len() as int) =~= texts);
}

// ---------------------------------------------------------------------------
// The meaning of terms
// ---------------------------------------------------------------------------

/// Whether a word is an operation of the field or a mark of a number of it.
pub open spec fn is_operation(w: Seq<char>) -> bool {
    w == "as"@ || w == "ff.neg"@ || w == "ff.add"@ || w == "ff.mul"@
}

/// The value of a tree, by the values of its variables and by what its function symbols stand for:
/// a word is a variable, `(as ffN F)` the number `N`, and the rest the operations of the field and
/// the function symbols.
pub open spec fn tree_value(
    m: spec_fn(Seq<char>) -> int,
    g: spec_fn(Seq<char>, Seq<int>) -> int,
    t: Tree,
) -> int
    decreases t,
{
    match t {
        Tree::Word(x) => m(x) % prime(),
        Tree::List(v) => if v.len() == 0 {
            0
        } else if v[0] == Tree::Word("as"@) {
            numeral_value(v[1]->Word_0.skip(2), 10) % prime()
        } else {
            let u = tree_values(m, g, v);
            match v[0] {
                Tree::Word(op) => if op == "ff.neg"@ {
                    (0 - u[1]) % prime()
                } else if op == "ff.add"@ {
                    (u[1] + u[2]) % prime()
                } else if op == "ff.mul"@ {
                    (u[1] * u[2]) % prime()
                } else {
                    g(op, u.skip(1)) % prime()
                },
                Tree::List(_) => 0,
            }
        },
    }
}

/// The values of trees.
pub open spec fn tree_values(
    m: spec_fn(Seq<char>) -> int,
    g: spec_fn(Seq<char>, Seq<int>) -> int,
    v: Seq<Tree>,
) -> Seq<int>
    decreases v,
{
    Seq::new(
        v.len(),
        |i: int|
            if 0 <= i < v.len() {
                tree_value(m, g, v[i])
            } else {
                0
            },
    )
}

/// Whether no function symbol of a term is an operation.
pub open spec fn own_symbols(t: FfTerm) -> bool
    decreases t,
{
    match t {
        FfTerm::Var(_) => true,
        FfTerm::Number(_) => true,
        FfTerm::Neg(a) => own_symbols(*a),
        FfTerm::Add(a, b) => own_symbols(*a) && own_symbols(*b),
        FfTerm::Mul(a, b) => own_symbols(*a) && own_symbols(*b),
        FfTerm::Call(f, args) => !is_operation(f) && all_own_symbols(args),
    }
}

/// Whether no function symbol of terms is an operation.
pub open spec fn all_own_symbols(v: Seq<FfTerm>) -> bool
    decreases v,
{
    forall|i: int| 0 <= i < v.len() ==> own_symbols(#[trigger] v[i])
}

proof fn lemma_operations_differ()
    ensures
        "as"@ != "ff.neg"@,
        "as"@ != "ff.add"@,
        "as"@ != "ff.mul"@,
        "ff.neg"@ != "ff.add"@,
        "ff.neg"@ != "ff.mul"@,
        "ff.add"@ != "ff.mul"@,
{
    reveal_strlit("as");
    reveal_strlit("ff.neg");
    reveal_strlit("ff.add");
    reveal_strlit("ff.mul");
    assert("as"@.len() == 2);
    assert("ff.neg"@[3] == 'n' && "ff.add"@[3] == 'a' && "ff.mul"@[3] == 'm');
}

/// The tree of a term has the value of the term: what the text of a term says is its value, and
/// that of the text of a number is the number.
pub proof fn lemma_term_value(
    m: spec_fn(Seq<char>) -> int,
    g: spec_fn(Seq<char>, Seq<int>) -> int,
    t: FfTerm,
)
    requires
        own_symbols(t),
    ensures
        tree_value(m, g, term_tree(t)) == ff_value(m, g, t),
    decreases t,
{
    lemma_operations_differ();
    match t {
        FfTerm::Var(x) => {},
        FfTerm::Number(n) => {
            let v = term_tree(t)->List_0;
            assert(v[0] == Tree::Word("as"@) && v[1] == Tree::Word(number_word(n)));
            lemma_number_word(n);
            lemma_numeral_value(n);
        },
        FfTerm::Neg(a) => {
            lemma_term_value(m, g, *a);
            let v = term_tree(t)->List_0;
            assert(v[0] == Tree::Word("ff.neg"@) && v[1] == term_tree(*a));
            lemma_tree_values(m, g, v);
        },
        FfTerm::Add(a, b) => {
            lemma_term_value(m, g, *a);
            lemma_term_value(m, g, *b);
            let v = term_tree(t)->List_0;
            assert(v[0] == Tree::Word("ff.add"@) && v[1] == term_tree(*a) && v[2] == term_tree(*b));
            lemma_tree_values(m, g, v);
        },
        FfTerm::Mul(a, b) => {
            lemma_term_value(m, g, *a);
            lemma_term_value(m, g, *b);
            let v = term_tree(t)->List_0;
            assert(v[0] == Tree::Word("ff.mul"@) && v[1] == term_tree(*a) && v[2] == term_tree(*b));
            lemma_tree_values(m, g, v);
        },
        FfTerm::Call(f, args) => {
            let v = term_tree(t)->List_0;
            assert(v[0] == Tree::Word(f));
            lemma_tree_values(m, g, v);
            lemma_term_values(m, g, args);
            lemma_as_many_trees(args, Seq::empty());
            let u = tree_values(m, g, v);
            assert(u.skip(1) =~= ff_values(m, g, args)) by {
                assert forall|i: int| 0 <= i < args.len() implies u.skip(1)[i] == ff_values(
                    m,
                    g,
                    args,
                )[i] by {
                    assert(v[i + 1] == term_trees(args)[i]);
                    assert(u[i + 1] == tree_value(m, g, v[i + 1]));
                    assert(tree_value(m, g, term_trees(args)[i]) == ff_values(m, g, args)[i]);
                }
            }
        },
    }
}

proof fn lemma_tree_values(
    m: spec_fn(Seq<char>) -> int,
    g: spec_fn(Seq<char>, Seq<int>) -> int,
    v: Seq<Tree>,
)
    ensures
        tree_values(m, g, v).len() == v.len(),
        forall|i: int|
            0 <= i < v.len() ==> #[trigger] tree_values(m, g, v)[i] == tree_value(m, g, v[i]),
{
}

proof fn lemma_as_many_trees(v: Seq<FfTerm>, w: Seq<FfFormula>)
    ensures
        term_trees(v).len() == v.len(),
        formula_trees(w).len() == w.len(),
{
}

proof fn lemma_term_values(
    m: spec_fn(Seq<char>) -> int,
    g: spec_fn(Seq<char>, Seq<int>) -> int,
    v: Seq<FfTerm>,
)
    requires
        all_own_symbols(v),
    ensures
        ff_values(m, g, v).len() == v.len(),
        forall|i: int|
            0 <= i < v.len() ==> tree_value(m, g, #[trigger] term_trees(v)[i]) == ff_values(
                m,
                g,
                v,
            )[i],
    decreases v,
{
    assert forall|i: int| 0 <= i < v.len() implies tree_value(
        m,
        g,
        #[trigger] term_trees(v)[i],
    ) == ff_values(m, g, v)[i] by {
        assert(own_symbols(v[i]));
        lemma_term_value(m, g, v[i]);
        assert(term_trees(v)[i] == term_tree(v[i]));
    }
}

/// Different numbers of the field have different texts.
pub proof fn lemma_number_texts_differ(n: nat, k: nat)
    requires
        number_text(n) == number_text(k),
    ensures
        n == k,
{
    lemma_term_text(FfTerm::Number(n));
    lemma_term_text(FfTerm::Number(k));
    lemma_reads(number_text(n), flat(term_tree(FfTerm::Number(n))));
    lemma_reads(number_text(k), flat(term_tree(FfTerm::Number(k))));
    lemma_number_word(n);
    lemma_number_word(k);
    lemma_words_of_number(n);
    lemma_words_of_number(k);
    lemma_numeral_value(n);
    lemma_numeral_value(k);
}

proof fn lemma_words_of_number(n: nat)
    ensures
        flat(term_tree(FfTerm::Number(n))).len() > 2,
        flat(term_tree(FfTerm::Number(n)))[2] == number_word(n),
{
    let v = seq![Tree::Word("as"@)] + seq![Tree::Word(number_word(n)), Tree::Word("F"@)];
    assert(term_tree(FfTerm::Number(n)) == Tree::List(v));
    assert(v[0] == Tree::Word("as"@) && v[1] == Tree::Word(number_word(n)) && v[2] == Tree::Word(
        "F"@,
    ));
    assert(flats(v, 0) == Seq::<Seq<char>>::empty());
    assert(flats(v, 1) == flats(v, 0) + flat(v[0]));
    assert(flats(v, 2) == flats(v, 1) + flat(v[1]));
    assert(flats(v, 3) == flats(v, 2) + flat(v[2]));
    assert(flat(v[0]) == seq!["as"@]);
    assert(flat(v[1]) == seq![number_word(n)]);
    assert(flat(v[2]) == seq!["F"@]);
    assert(flats(v, 3)[1] == number_word(n));
}

// ---------------------------------------------------------------------------
// Formulas
// ---------------------------------------------------------------------------

/// Whether the names in a formula are words, and its function symbols are no operations.
pub open spec fn plain_formula(f: FfFormula) -> bool
    decreases f,
{
    match f {
        FfFormula::Equal(a, b) => plain_term(a) && plain_term(b) && own_symbols(a) && own_symbols(
            b,
        ),
        FfFormula::Not(a) => plain_formula(*a),
        FfFormula::And(a, b) => plain_formula(*a) && plain_formula(*b),
        FfFormula::Or(a, b) => plain_formula(*a) && plain_formula(*b),
        FfFormula::Any(v) => forall|i: int| 0 <= i < v.len() ==> plain_formula(#[trigger] v[i]),
    }
}

/// The tree of a formula.
pub open spec fn formula_tree(f: FfFormula) -> Tree
    decreases f,
{
    match f {
        FfFormula::Equal(a, b) => application("="@, seq![term_tree(a), term_tree(b)]),
        FfFormula::Not(a) => application("not"@, seq![formula_tree(*a)]),
        FfFormula::And(a, b) => application("and"@, seq![formula_tree(*a), formula_tree(*b)]),
        FfFormula::Or(a, b) => application("or"@, seq![formula_tree(*a), formula_tree(*b)]),
        FfFormula::Any(v) => application("or"@, formula_trees(v)),
    }
}

/// The trees of formulas.
pub open spec fn formula_trees(v: Seq<FfFormula>) -> Seq<Tree>
    decreases v,
{
    Seq::new(
        v.len(),
        |i: int|
            if 0 <= i < v.len() {
                formula_tree(v[i])
            } else {
                arbitrary()
            },
    )
}

/// The text of a formula, whose names are words, reads as its tree.
pub proof fn lemma_formula_text(f: FfFormula)
    requires
        plain_formula(f),
    ensures
        reads(formula_text(f), flat(formula_tree(f))),
    decreases f, 0nat,
{
    lemma_symbols();
    lemma_openings();
    match f {
        FfFormula::Equal(a, b) => {
            lemma_term_text(a);
            lemma_term_text(b);
            lemma_application2("="@, term_text(a), term_text(b), term_tree(a), term_tree(b));
        },
        FfFormula::Not(a) => {
            lemma_formula_text(*a);
            lemma_application1("not"@, formula_text(*a), formula_tree(*a));
        },
        FfFormula::And(a, b) => {
            lemma_formula_text(*a);
            lemma_formula_text(*b);
            lemma_application2(
                "and"@,
                formula_text(*a),
                formula_text(*b),
                formula_tree(*a),
                formula_tree(*b),
            );
        },
        FfFormula::Or(a, b) => {
            lemma_formula_text(*a);
            lemma_formula_text(*b);
            lemma_application2(
                "or"@,
                formula_text(*a),
                formula_text(*b),
                formula_tree(*a),
                formula_tree(*b),
            );
        },
        FfFormula::Any(v) => {
            let trees = formula_trees(v);
            lemma_lines(v, v.len());
            let lines = lines_text(v, v.len());
            lemma_word("or"@);
            lemma_gap("or"@, '\n', lines, seq!["or"@], flats(trees, v.len()));
            let inner = "or"@ + seq!['\n'] + lines;
            lemma_parentheses(inner, seq!["or"@] + flats(trees, v.len()));
            lemma_any_tree(trees);
            reveal_strlit("(or\n");
            reveal_strlit("(");
            reveal_strlit("or");
            assert("(or\n"@ =~= "("@ + "or"@ + seq!['\n']);
            assert(formula_text(f) =~= "("@ + inner + ")"@);
        },
    }
}

proof fn lemma_any_tree(trees: Seq<Tree>)
    ensures
        flat(application("or"@, trees)) == seq!["("@] + (seq!["or"@] + flats(trees, trees.len()))
            + seq![")"@],
{
    lemma_flats_behind(Tree::Word("or"@), trees, trees.len());
    let all = seq![Tree::Word("or"@)] + trees;
    assert(flat(Tree::Word("or"@)) == seq!["or"@]);
    assert(flats(all, all.len()) == seq!["or"@] + flats(trees, trees.len()));
}

proof fn lemma_lines(v: Seq<FfFormula>, n: nat)
    requires
        n <= v.len(),
        forall|i: int| 0 <= i < v.len() ==> plain_formula(#[trigger] v[i]),
    ensures
        reads(lines_text(v, n), flats(formula_trees(v), n)),
    decreases v, n,
{
    if n == 0 {
        lemma_nothing();
    } else {
        let m = (n - 1) as nat;
        let trees = formula_trees(v);
        lemma_lines(v, m);
        assert(plain_formula(v[n - 1]));
        lemma_formula_text(v[n - 1]);
        let f = formula_text(v[n - 1]);
        let w = flat(trees[n - 1]);
        let none = Seq::<Seq<char>>::empty();
        let before = lines_text(v, m);
        assert(trees[n - 1] == formula_tree(v[n - 1]));
        lemma_nothing();
        lemma_gap(f, '\n', Seq::empty(), w, none);
        assert(w + none =~= w);
        lemma_gap(Seq::empty(), ' ', f + seq!['\n'] + Seq::empty(), none, w);
        assert(none + w =~= w);
        let line = Seq::empty() + seq![' '] + (f + seq!['\n'] + Seq::empty());
        lemma_gap(before, ' ', line, flats(trees, m), w);
        reveal_strlit("  ");
        reveal_strlit("\n");
        assert("  "@ =~= seq![' ', ' ']);
        assert("\n"@ =~= seq!['\n']);
        assert(lines_text(v, n) == before + ("  "@ + f + "\n"@));
        assert(before + ("  "@ + f + "\n"@) =~= before + seq![' '] + line);
        assert(flats(trees, n) == flats(trees, m) + flat(trees[n - 1]));
    }
}

/// Whether the tree of a formula is true, by the values of its variables and by what its function
/// symbols stand for.
pub open spec fn tree_true(
    m: spec_fn(Seq<char>) -> int,
    g: spec_fn(Seq<char>, Seq<int>) -> int,
    t: Tree,
) -> bool
    decreases t,
{
    match t {
        Tree::Word(_) => false,
        Tree::List(v) => if v.len() == 0 {
            false
        } else if v[0] == Tree::Word("="@) {
            tree_value(m, g, v[1]) == tree_value(m, g, v[2])
        } else if v[0] == Tree::Word("not"@) {
            v.len() > 1 && !tree_true(m, g, v[1])
        } else if v[0] == Tree::Word("and"@) {
            forall|i: int| 1 <= i < v.len() ==> tree_true(m, g, #[trigger] v[i])
        } else if v[0] == Tree::Word("or"@) {
            exists|i: int| 1 <= i < v.len() && tree_true(m, g, #[trigger] v[i])
        } else {
            false
        },
    }
}

proof fn lemma_connectives_differ()
    ensures
        "="@ != "not"@,
        "="@ != "and"@,
        "="@ != "or"@,
        "not"@ != "and"@,
        "not"@ != "or"@,
        "and"@ != "or"@,
{
    reveal_strlit("=");
    reveal_strlit("not");
    reveal_strlit("and");
    reveal_strlit("or");
    assert("="@.len() == 1 && "or"@.len() == 2);
    assert("not"@[0] == 'n' && "and"@[0] == 'a');
}

/// The tree of a formula says what the formula says.
pub proof fn lemma_formula_value(
    m: spec_fn(Seq<char>) -> int,
    g: spec_fn(Seq<char>, Seq<int>) -> int,
    f: FfFormula,
)
    requires
        plain_formula(f),
    ensures
        tree_true(m, g, formula_tree(f)) <==> ff_true(m, g, f),
    decreases f,
{
    lemma_connectives_differ();
    let v = formula_tree(f)->List_0;
    match f {
        FfFormula::Equal(a, b) => {
            lemma_term_value(m, g, a);
            lemma_term_value(m, g, b);
            assert(v[0] == Tree::Word("="@) && v[1] == term_tree(a) && v[2] == term_tree(b));
        },
        FfFormula::Not(a) => {
            lemma_formula_value(m, g, *a);
            assert(v[0] == Tree::Word("not"@) && v[1] == formula_tree(*a));
        },
        FfFormula::And(a, b) => {
            lemma_formula_value(m, g, *a);
            lemma_formula_value(m, g, *b);
            assert(v[0] == Tree::Word("and"@) && v[1] == formula_tree(*a) && v[2] == formula_tree(
                *b,
            ));
            assert(tree_true(m, g, formula_tree(f)) <==> tree_true(m, g, v[1]) && tree_true(
                m,
                g,
                v[2],
            ));
        },
        FfFormula::Or(a, b) => {
            lemma_formula_value(m, g, *a);
            lemma_formula_value(m, g, *b);
            assert(v[0] == Tree::Word("or"@) && v[1] == formula_tree(*a) && v[2] == formula_tree(
                *b,
            ));
            assert(tree_true(m, g, formula_tree(f)) <==> tree_true(m, g, v[1]) || tree_true(
                m,
                g,
                v[2],
            ));
        },
        FfFormula::Any(w) => {
            assert(v[0] == Tree::Word("or"@));
            lemma_as_many_trees(Seq::empty(), w);
            assert forall|i: int| 0 <= i < w.len() implies (tree_true(m, g, #[trigger] v[i + 1])
                <==> ff_true(m, g, w[i])) by {
                lemma_formula_value(m, g, w[i]);
                assert(v[i + 1] == formula_trees(w)[i]);
            }
            if ff_true(m, g, f) {
                let i = choose|i: int| 0 <= i < w.len() && ff_true(m, g, #[trigger] w[i]);
                assert(tree_true(m, g, v[i + 1]));
            }
            if tree_true(m, g, formula_tree(f)) {
                let i = choose|i: int| 1 <= i < v.len() && tree_true(m, g, #[trigger] v[i]);
                assert(tree_true(m, g, v[(i - 1) + 1]) <==> ff_true(m, g, w[i - 1]));
            }
        },
    }
}

// ---------------------------------------------------------------------------
// Scripts
// ---------------------------------------------------------------------------

/// Whether the names in a command are words.
pub open spec fn plain_command(c: FfCommand) -> bool {
    match c {
        FfCommand::SetLogic(l) => is_plain_word(l),
        FfCommand::DefineField => true,
        FfCommand::DeclareConst(x) => is_plain_word(x),
        FfCommand::DeclareFun(f, _) => is_plain_word(f),
        FfCommand::Assert(f) => plain_formula(f),
        FfCommand::CheckSat => true,
    }
}

/// The tree of a command. The field is that of the remainders modulo its prime.
pub open spec fn command_tree(c: FfCommand) -> Tree {
    match c {
        FfCommand::SetLogic(l) => application("set-logic"@, seq![Tree::Word(l)]),
        FfCommand::DefineField => application(
            "define-sort"@,
            seq![
                Tree::Word("F"@),
                Tree::List(Seq::empty()),
                application(
                    "_"@,
                    seq![Tree::Word("FiniteField"@), Tree::Word(digits(prime() as nat))],
                ),
            ],
        ),
        FfCommand::DeclareConst(x) => application(
            "declare-const"@,
            seq![Tree::Word(x), Tree::Word("F"@)],
        ),
        FfCommand::DeclareFun(f, n) => application(
            "declare-fun"@,
            seq![Tree::Word(f), Tree::List(Seq::new(n, |i: int| Tree::Word("F"@))), Tree::Word(
                "F"@,
            )],
        ),
        FfCommand::Assert(f) => application("assert"@, seq![formula_tree(f)]),
        FfCommand::CheckSat => Tree::List(seq![Tree::Word("check-sat"@)]),
    }
}

proof fn lemma_command_symbols()
    ensures
        is_plain_word("set-logic"@),
        is_plain_word("define-sort"@),
        is_plain_word("FiniteField"@),
        is_plain_word("_"@),
        is_plain_word("declare-const"@),
        is_plain_word("declare-fun"@),
        is_plain_word("assert"@),
        is_plain_word("check-sat"@),
        "(set-logic "@ == "("@ + "set-logic"@ + " "@,
        "(declare-const "@ == "("@ + "declare-const"@ + " "@,
        "(declare-fun "@ == "("@ + "declare-fun"@ + " "@,
        "(assert "@ == "("@ + "assert"@ + " "@,
        ")\n"@ == ")"@ + "\n"@,
        " F)\n"@ == " "@ + "F"@ + ")"@ + "\n"@,
        " ("@ == " "@ + "("@,
        ") F)\n"@ == ")"@ + " "@ + "F"@ + ")"@ + "\n"@,
        "(check-sat)\n"@ == "("@ + "check-sat"@ + ")"@ + "\n"@,
        "))\n"@ == ")"@ + ")"@ + "\n"@,
{
    reveal_strlit("(");
    reveal_strlit(")");
    reveal_strlit(" ");
    reveal_strlit("\n");
    reveal_strlit("F");
    reveal_strlit("set-logic");
    reveal_strlit("define-sort");
    reveal_strlit("FiniteField");
    reveal_strlit("_");
    reveal_strlit("declare-const");
    reveal_strlit("declare-fun");
    reveal_strlit("assert");
    reveal_strlit("check-sat");
    reveal_strlit("(set-logic ");
    reveal_strlit("(declare-const ");
    reveal_strlit("(declare-fun ");
    reveal_strlit("(assert ");
    reveal_strlit(")\n");
    reveal_strlit(" F)\n");
    reveal_strlit(" (");
    reveal_strlit(") F)\n");
    reveal_strlit("(check-sat)\n");
    reveal_strlit("))\n");
    assert("(set-logic "@ =~= "("@ + "set-logic"@ + " "@);
    assert("(declare-const "@ =~= "("@ + "declare-const"@ + " "@);
    assert("(declare-fun "@ =~= "("@ + "declare-fun"@ + " "@);
    assert("(assert "@ =~= "("@ + "assert"@ + " "@);
    assert(")\n"@ =~= ")"@ + "\n"@);
    assert(" F)\n"@ =~= " "@ + "F"@ + ")"@ + "\n"@);
    assert(" ("@ =~= " "@ + "("@);
    assert(") F)\n"@ =~= ")"@ + " "@ + "F"@ + ")"@ + "\n"@);
    assert("(check-sat)\n"@ =~= "("@ + "check-sat"@ + ")"@ + "\n"@);
    assert("))\n"@ =~= ")"@ + ")"@ + "\n"@);
}

proof fn lemma_field_head()
    ensures
        "(define-sort F () (_ FiniteField "@ == "("@ + "define-sort"@ + " "@ + "F"@ + " "@ + "("@
            + ")"@ + " "@ + "("@ + "_"@ + " "@ + "FiniteField"@ + " "@,
{
    reveal_strlit("(");
    reveal_strlit(")");
    reveal_strlit(" ");
    reveal_strlit("F");
    reveal_strlit("_");
    reveal_strlit("define-sort");
    reveal_strlit("FiniteField");
    reveal_strlit("(define-sort F () (_ FiniteField ");
    assert("(define-sort F () (_ FiniteField "@ =~= "("@ + "define-sort"@ + " "@ + "F"@ + " "@ + "("@
        + ")"@ + " "@ + "("@ + "_"@ + " "@ + "FiniteField"@ + " "@);
}

/// An operator and three operands.
proof fn lemma_application3(
    op: Seq<char>,
    a: Seq<char>,
    b: Seq<char>,
    c: Seq<char>,
    x: Tree,
    y: Tree,
    z: Tree,
)
    requires
        is_plain_word(op),
        reads(a, flat(x)),
        reads(b, flat(y)),
        reads(c, flat(z)),
    ensures
        reads(
            "("@ + op + " "@ + a + " "@ + b + " "@ + c + ")"@,
            flat(application(op, seq![x, y, z])),
        ),
{
    reveal_strlit(" ");
    assert(" "@ =~= seq![' ']);
    let v = seq![x, y, z];
    assert(v[0] == x && v[1] == y && v[2] == z);
    assert(flats(v, 0) == Seq::<Seq<char>>::empty());
    assert(flats(v, 1) == flats(v, 0) + flat(v[0]));
    assert(flats(v, 2) == flats(v, 1) + flat(v[1]));
    assert(flats(v, 3) == flats(v, 2) + flat(v[2]));
    assert(Seq::<Seq<char>>::empty() + flat(x) =~= flat(x));
    lemma_gap(a, ' ', b, flat(x), flat(y));
    lemma_gap(a + " "@ + b, ' ', c, flat(x) + flat(y), flat(z));
    lemma_application(op, a + " "@ + b + " "@ + c, v);
    assert("("@ + op + " "@ + (a + " "@ + b + " "@ + c) + ")"@ =~= "("@ + op + " "@ + a + " "@ + b
        + " "@ + c + ")"@);
}

proof fn lemma_list_of_words(n: nat)
    ensures
        reads(
            "("@ + joined(Seq::new(n, |i: int| "F"@), " "@) + ")"@,
            flat(Tree::List(Seq::new(n, |i: int| Tree::Word("F"@)))),
        ),
{
    lemma_symbols();
    let texts = Seq::new(n, |i: int| "F"@);
    let trees = Seq::new(n, |i: int| Tree::Word("F"@));
    assert forall|i: int| 0 <= i < trees.len() implies reads(#[trigger] texts[i], flat(
        trees[i],
    )) by {
        lemma_word("F"@);
        assert(flat(trees[i]) == seq!["F"@]);
    }
    lemma_spaced(texts, trees, n);
    assert(texts.take(n as int) =~= texts);
    lemma_parentheses(joined(texts, " "@), flats(trees, n));
}

/// The text of a command, without the line break behind it.
spec fn command_line(c: FfCommand) -> Seq<char> {
    let t = command_text(c);
    t.take(t.len() - 1)
}

proof fn lemma_command_line(c: FfCommand, line: Seq<char>)
    requires
        command_text(c) == line + "\n"@,
    ensures
        command_line(c) == line,
        command_text(c) == command_line(c) + seq!['\n'],
{
    reveal_strlit("\n");
    assert("\n"@ =~= seq!['\n']);
    let t = command_text(c);
    assert(t.take(t.len() - 1) =~= line);
}

proof fn lemma_command_text(c: FfCommand)
    requires
        plain_command(c),
    ensures
        reads(command_line(c), flat(command_tree(c))),
        command_text(c) == command_line(c) + seq!['\n'],
{
    lemma_command_symbols();
    lemma_symbols();
    match c {
        FfCommand::SetLogic(l) => {
            lemma_word(l);
            lemma_application1("set-logic"@, l, Tree::Word(l));
            let line = "("@ + "set-logic"@ + " "@ + l + ")"@;
            assert(command_text(c) =~= line + "\n"@);
            lemma_command_line(c, line);
        },
        FfCommand::DefineField => {
            lemma_define_field();
        },
        FfCommand::DeclareConst(x) => {
            lemma_word(x);
            lemma_word("F"@);
            lemma_application2("declare-const"@, x, "F"@, Tree::Word(x), Tree::Word("F"@));
            let line = "("@ + "declare-const"@ + " "@ + x + " "@ + "F"@ + ")"@;
            assert(command_text(c) =~= line + "\n"@);
            lemma_command_line(c, line);
        },
        FfCommand::DeclareFun(f, n) => {
            lemma_word(f);
            lemma_word("F"@);
            lemma_list_of_words(n);
            let args = joined(Seq::new(n, |i: int| "F"@), " "@);
            let trees = Seq::new(n, |i: int| Tree::Word("F"@));
            lemma_application3(
                "declare-fun"@,
                f,
                "("@ + args + ")"@,
                "F"@,
                Tree::Word(f),
                Tree::List(trees),
                Tree::Word("F"@),
            );
            let line = "("@ + "declare-fun"@ + " "@ + f + " "@ + ("("@ + args + ")"@) + " "@ + "F"@
                + ")"@;
            assert(command_text(c) =~= line + "\n"@);
            lemma_command_line(c, line);
        },
        FfCommand::Assert(f) => {
            lemma_formula_text(f);
            lemma_application1("assert"@, formula_text(f), formula_tree(f));
            let line = "("@ + "assert"@ + " "@ + formula_text(f) + ")"@;
            assert(command_text(c) =~= line + "\n"@);
            lemma_command_line(c, line);
        },
        FfCommand::CheckSat => {
            lemma_word("check-sat"@);
            lemma_parentheses("check-sat"@, seq!["check-sat"@]);
            let v = seq![Tree::Word("check-sat"@)];
            assert(v[0] == Tree::Word("check-sat"@));
            assert(flats(v, 0) == Seq::<Seq<char>>::empty());
            assert(flats(v, 1) == flats(v, 0) + flat(v[0]));
            assert(flats(v, 1) =~= seq!["check-sat"@]);
            let line = "("@ + "check-sat"@ + ")"@;
            assert(command_text(c) =~= line + "\n"@);
            lemma_command_line(c, line);
        },
    }
}

proof fn lemma_define_field()
    ensures
        reads(command_line(FfCommand::DefineField), flat(command_tree(FfCommand::DefineField))),
        command_text(FfCommand::DefineField) == command_line(FfCommand::DefineField) + seq!['\n'],
{
    lemma_command_symbols();
    lemma_symbols();
    lemma_field_head();
    let c = FfCommand::DefineField;
    let p = digits(BABYBEAR_P as nat);
    assert(prime() == BABYBEAR_P);
    lemma_numeral_value(BABYBEAR_P as nat);
    lemma_word("F"@);
    lemma_word("FiniteField"@);
    lemma_word(p);
    lemma_nothing();
    let none = Seq::<Tree>::empty();
    lemma_parentheses(Seq::empty(), Seq::empty());
    assert(flats(none, 0) == Seq::<Seq<char>>::empty());
    lemma_application2("_"@, "FiniteField"@, p, Tree::Word("FiniteField"@), Tree::Word(p));
    let kind = "("@ + "_"@ + " "@ + "FiniteField"@ + " "@ + p + ")"@;
    let kind_tree = application("_"@, seq![Tree::Word("FiniteField"@), Tree::Word(p)]);
    let empty = "("@ + Seq::empty() + ")"@;
    lemma_application3(
        "define-sort"@,
        "F"@,
        empty,
        kind,
        Tree::Word("F"@),
        Tree::List(none),
        kind_tree,
    );
    let line = "("@ + "define-sort"@ + " "@ + "F"@ + " "@ + empty + " "@ + kind + ")"@;
    assert(command_text(c) =~= line + "\n"@);
    lemma_command_line(c, line);
}

/// The trees of a script.
pub open spec fn script_trees(s: Seq<FfCommand>) -> Seq<Tree> {
    Seq::new(s.len(), |i: int| command_tree(s[i]))
}

/// The text of a script, whose names are words, reads as the trees of its commands, in their order.
pub proof fn lemma_script_text(s: Seq<FfCommand>)
    requires
        forall|i: int| 0 <= i < s.len() ==> plain_command(#[trigger] s[i]),
    ensures
        reads(script_text(s), flats(script_trees(s), s.len())),
        words_of(script_text(s)) == flats(script_trees(s), s.len()),
    decreases s.len(),
{
    if s.len() == 0 {
        lemma_nothing();
    } else {
        let less = s.drop_last();
        assert forall|i: int| 0 <= i < less.len() implies plain_command(#[trigger] less[i]) by {
            assert(plain_command(s[i]));
        }
        lemma_script_text(less);
        let c = s.last();
        assert(plain_command(s[s.len() - 1]));
        lemma_command_text(c);
        let trees = script_trees(s);
        let n = less.len();
        lemma_script_then(less, c);
        lemma_flats_of_more(script_trees(less), trees, n);
        assert(flats(trees, s.len()) == flats(trees, n) + flat(trees[n as int]));
        assert(trees[n as int] == command_tree(c));
    }
    lemma_reads(script_text(s), flats(script_trees(s), s.len()));
}

/// Whether a text ends where no word goes on.
spec fn is_closed_text(t: Seq<char>) -> bool {
    t.len() == 0 || t.last() == '\n'
}

proof fn lemma_script_closed(s: Seq<FfCommand>)
    requires
        forall|i: int| 0 <= i < s.len() ==> plain_command(#[trigger] s[i]),
    ensures
        is_closed_text(script_text(s)),
{
    if s.len() > 0 {
        assert(plain_command(s[s.len() - 1]));
        lemma_command_text(s.last());
        let t = command_text(s.last());
        assert(t[t.len() - 1] == '\n');
        assert(script_text(s).last() == t.last());
    }
}

proof fn lemma_script_then(s: Seq<FfCommand>, c: FfCommand)
    requires
        forall|i: int| 0 <= i < s.len() ==> plain_command(#[trigger] s[i]),
        plain_command(c),
        reads(script_text(s), flats(script_trees(s), s.len())),
    ensures
        reads(
            script_text(s) + command_text(c),
            flats(script_trees(s), s.len()) + flat(command_tree(c)),
        ),
{
    let none = Seq::<Seq<char>>::empty();
    let line = command_line(c);
    let w = flat(command_tree(c));
    lemma_command_text(c);
    lemma_nothing();
    lemma_gap(line, '\n', Seq::empty(), w, none);
    assert(w + none =~= w);
    assert(line + seq!['\n'] + Seq::empty() =~= command_text(c));
    lemma_script_closed(s);
    let t = script_text(s);
    let v = flats(script_trees(s), s.len());
    if t.len() == 0 {
        lemma_reads(t, v);
        assert(t =~= Seq::empty());
        lemma_reads(Seq::empty(), none);
        assert(v =~= none);
        assert(t + command_text(c) =~= command_text(c));
        assert(v + w =~= w);
    } else {
        lemma_closed_then(t, command_text(c), v, w);
    }
}

} // verus!
