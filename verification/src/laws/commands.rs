//! What the command line asks for, and what is reported.

use vstd::prelude::*;
use crate::cli::{
    abstracts_of, checked, command_of, count, counts_as, positionals, targets_of, CommandV, Finding,
    Row,
};
use crate::laws::texts::lemma_parts_of_texts;
use crate::text::{begins_with, finishes_with, listed, occurs};

verus! {

// ---------------------------------------------------------------------------
// The instructions of a file
// ---------------------------------------------------------------------------

/// The instructions of the file of 32-bit arithmetic.
pub open spec fn is_of_words(x: Seq<char>) -> bool {
    ||| x == "AddU32"@
    ||| x == "SubU32"@
    ||| x == "NormalizeU32"@
    ||| x == "CmpEqual"@
    ||| x == "CmpLessThanUnsigned"@
    ||| x == "CmpLessThan"@
    ||| x == "GetSignU32"@
    ||| x == "BitwiseAnd"@
    ||| x == "BitwiseOr"@
    ||| x == "BitwiseXor"@
    ||| x == "AssertEqU32"@
    ||| x == "CondDenormed"@
    ||| x == "Denorm"@
    ||| x == "Flat"@
}

/// The instructions of the file of multiplication.
pub open spec fn is_of_products(x: Seq<char>) -> bool {
    ||| x == "ExpandU32"@
    ||| x == "SplitTotal"@
    ||| x == "MultiplySettings"@
    ||| x == "MultiplyAccumulate"@
    ||| x == "Expand32TestCase"@
    ||| x == "MultiplyTestCase"@
}

/// The instructions of the file of division.
pub open spec fn is_of_quotients(x: Seq<char>) -> bool {
    x == "DoDivU16"@ || x == "DoDivU"@
}

proof fn lemma_names()
    ensures
        "AddU32"@ == seq!['A', 'd', 'd', 'U', '3', '2'],
        "SubU32"@ == seq!['S', 'u', 'b', 'U', '3', '2'],
        "NormalizeU32"@.len() == 12,
        "CmpEqual"@ == seq!['C', 'm', 'p', 'E', 'q', 'u', 'a', 'l'],
        "CmpLessThanUnsigned"@.len() == 19,
        "CmpLessThan"@.len() == 11,
        "CmpLessThan"@[0] == 'C',
        "GetSignU32"@.len() == 10,
        "GetSignU32"@[0] == 'G',
        "BitwiseAnd"@.len() == 10,
        "BitwiseAnd"@[0] == 'B',
        "BitwiseAnd"@[7] == 'A',
        "BitwiseOr"@.len() == 9,
        "BitwiseXor"@.len() == 10,
        "BitwiseXor"@[0] == 'B',
        "BitwiseXor"@[7] == 'X',
        "AssertEqU32"@.len() == 11,
        "AssertEqU32"@[0] == 'A',
        "CondDenormed"@.len() == 12,
        "CondDenormed"@[0] == 'C',
        "NormalizeU32"@[0] == 'N',
        "Denorm"@.len() == 6,
        "Denorm"@[0] == 'D',
        "Flat"@.len() == 4,
        "ExpandU32"@.len() == 9,
        "SplitTotal"@.len() == 10,
        "MultiplySettings"@.len() == 16,
        "MultiplySettings"@[8] == 'S',
        "MultiplyAccumulate"@.len() == 18,
        "Expand32TestCase"@.len() == 16,
        "Expand32TestCase"@[0] == 'E',
        "MultiplySettings"@[0] == 'M',
        "MultiplyTestCase"@.len() == 16,
        "MultiplyTestCase"@[0] == 'M',
        "MultiplyTestCase"@[8] == 'T',
        "DoDivU16"@.len() == 8,
        "DoDivU"@.len() == 6,
{
    reveal_strlit("AddU32");
    reveal_strlit("SubU32");
    reveal_strlit("NormalizeU32");
    reveal_strlit("CmpEqual");
    reveal_strlit("CmpLessThanUnsigned");
    reveal_strlit("CmpLessThan");
    reveal_strlit("GetSignU32");
    reveal_strlit("BitwiseAnd");
    reveal_strlit("BitwiseOr");
    reveal_strlit("BitwiseXor");
    reveal_strlit("AssertEqU32");
    reveal_strlit("CondDenormed");
    reveal_strlit("Denorm");
    reveal_strlit("Flat");
    reveal_strlit("ExpandU32");
    reveal_strlit("SplitTotal");
    reveal_strlit("MultiplySettings");
    reveal_strlit("MultiplyAccumulate");
    reveal_strlit("Expand32TestCase");
    reveal_strlit("MultiplyTestCase");
    reveal_strlit("DoDivU16");
    reveal_strlit("DoDivU");
    assert("AddU32"@ =~= seq!['A', 'd', 'd', 'U', '3', '2']);
    assert("SubU32"@ =~= seq!['S', 'u', 'b', 'U', '3', '2']);
    assert("CmpEqual"@ =~= seq!['C', 'm', 'p', 'E', 'q', 'u', 'a', 'l']);
}

/// No instruction is checked twice, whatever the file and the instruction that is named.
pub proof fn lemma_targets_are_different(file: Seq<char>, instruction: Seq<char>)
    ensures
        targets_of(file, instruction).no_duplicates(),
        targets_of(file, instruction).len() > 0,
{
    lemma_names();
    let v = targets_of(file, instruction);
    assert forall|i: int, j: int| 0 <= i < v.len() && 0 <= j < v.len() && i != j implies v[i]
        != v[j] by {
        if v.len() == 14 {
            assert(v[0] == "AddU32"@ && v[1] == "SubU32"@ && v[2] == "NormalizeU32"@ && v[3]
                == "CmpEqual"@ && v[4] == "CmpLessThanUnsigned"@ && v[5] == "CmpLessThan"@ && v[6]
                == "GetSignU32"@ && v[7] == "BitwiseAnd"@ && v[8] == "BitwiseOr"@ && v[9]
                == "BitwiseXor"@ && v[10] == "AssertEqU32"@ && v[11] == "CondDenormed"@ && v[12]
                == "Denorm"@ && v[13] == "Flat"@);
        }
    }
}

/// None of the instructions of a file goes unchecked, and nothing else is checked: with `all`,
/// exactly the instructions of the file are, by how its name ends.
pub proof fn lemma_targets_of_a_file(directory: Seq<char>, file: Seq<char>, x: Seq<char>)
    ensures
        targets_of(directory + "mult.zir"@, "all"@).contains(x) <==> is_of_products(x),
        targets_of(directory + "div.zir"@, "all"@).contains(x) <==> is_of_quotients(x),
        targets_of(directory + "u32.zir"@, "all"@).contains(x) <==> is_of_words(x),
        !finishes_with(file, "mult.zir"@) && !finishes_with(file, "div.zir"@) ==> (targets_of(
            file,
            "all"@,
        ).contains(x) <==> is_of_words(x)),
{
    lemma_endings(directory);
    lemma_products_are_checked(directory + "mult.zir"@, x);
    lemma_quotients_are_checked(directory + "div.zir"@, x);
    lemma_words_are_checked(directory + "u32.zir"@, x);
    if !finishes_with(file, "mult.zir"@) && !finishes_with(file, "div.zir"@) {
        lemma_words_are_checked(file, x);
    }
}

proof fn lemma_endings(directory: Seq<char>)
    ensures
        finishes_with(directory + "mult.zir"@, "mult.zir"@),
        finishes_with(directory + "div.zir"@, "div.zir"@),
        !finishes_with(directory + "div.zir"@, "mult.zir"@),
        !finishes_with(directory + "u32.zir"@, "mult.zir"@),
        !finishes_with(directory + "u32.zir"@, "div.zir"@),
{
    reveal_strlit("mult.zir");
    reveal_strlit("div.zir");
    reveal_strlit("u32.zir");
    let m = directory + "mult.zir"@;
    let d = directory + "div.zir"@;
    let u = directory + "u32.zir"@;
    lemma_parts_of_texts(m, "mult.zir"@, directory, Seq::empty());
    lemma_parts_of_texts(d, "div.zir"@, directory, Seq::empty());
    assert(d[d.len() - 5] == 'v');
    assert(u[u.len() - 5] == '2');
    if finishes_with(d, "mult.zir"@) {
        assert(d.subrange(d.len() - 8, d.len() as int)[3] == "mult.zir"@[3]);
    }
    if finishes_with(u, "mult.zir"@) {
        assert(u.subrange(u.len() - 8, u.len() as int)[3] == "mult.zir"@[3]);
    }
    if finishes_with(u, "div.zir"@) {
        assert(u.subrange(u.len() - 7, u.len() as int)[2] == "div.zir"@[2]);
    }
}

proof fn lemma_products_are_checked(file: Seq<char>, x: Seq<char>)
    requires
        finishes_with(file, "mult.zir"@),
    ensures
        targets_of(file, "all"@).contains(x) <==> is_of_products(x),
{
    let v = targets_of(file, "all"@);
    assert(v[0] == "ExpandU32"@ && v[1] == "SplitTotal"@ && v[2] == "MultiplySettings"@ && v[3]
        == "MultiplyAccumulate"@ && v[4] == "Expand32TestCase"@ && v[5] == "MultiplyTestCase"@);
}

proof fn lemma_quotients_are_checked(file: Seq<char>, x: Seq<char>)
    requires
        finishes_with(file, "div.zir"@),
        !finishes_with(file, "mult.zir"@),
    ensures
        targets_of(file, "all"@).contains(x) <==> is_of_quotients(x),
{
    let v = targets_of(file, "all"@);
    assert(v[0] == "DoDivU16"@ && v[1] == "DoDivU"@);
}

proof fn lemma_words_are_checked(file: Seq<char>, x: Seq<char>)
    requires
        !finishes_with(file, "mult.zir"@),
        !finishes_with(file, "div.zir"@),
    ensures
        targets_of(file, "all"@).contains(x) <==> is_of_words(x),
{
    let v = targets_of(file, "all"@);
    assert(v[0] == "AddU32"@ && v[1] == "SubU32"@ && v[2] == "NormalizeU32"@ && v[3]
        == "CmpEqual"@ && v[4] == "CmpLessThanUnsigned"@ && v[5] == "CmpLessThan"@ && v[6]
        == "GetSignU32"@ && v[7] == "BitwiseAnd"@ && v[8] == "BitwiseOr"@ && v[9]
        == "BitwiseXor"@ && v[10] == "AssertEqU32"@ && v[11] == "CondDenormed"@ && v[12]
        == "Denorm"@ && v[13] == "Flat"@);
}

/// The instructions of a file are checked in one order.
pub proof fn lemma_order_of_targets(directory: Seq<char>)
    ensures
        targets_of(directory + "mult.zir"@, "all"@) == seq![
            "ExpandU32"@,
            "SplitTotal"@,
            "MultiplySettings"@,
            "MultiplyAccumulate"@,
            "Expand32TestCase"@,
            "MultiplyTestCase"@,
        ],
        targets_of(directory + "div.zir"@, "all"@) == seq!["DoDivU16"@, "DoDivU"@],
        targets_of(directory + "u32.zir"@, "all"@) == seq![
            "AddU32"@,
            "SubU32"@,
            "NormalizeU32"@,
            "CmpEqual"@,
            "CmpLessThanUnsigned"@,
            "CmpLessThan"@,
            "GetSignU32"@,
            "BitwiseAnd"@,
            "BitwiseOr"@,
            "BitwiseXor"@,
            "AssertEqU32"@,
            "CondDenormed"@,
            "Denorm"@,
            "Flat"@,
        ],
{
    lemma_endings(directory);
}

/// An instruction that is named is checked, and nothing else, whatever the file.
pub proof fn lemma_target_that_is_named(file: Seq<char>, instruction: Seq<char>)
    requires
        instruction != "all"@,
    ensures
        targets_of(file, instruction) == seq![instruction],
{
}

// ---------------------------------------------------------------------------
// The words of a command
// ---------------------------------------------------------------------------

/// Whether a word is an option.
pub open spec fn is_option(w: Seq<char>) -> bool {
    begins_with(w, "--"@)
}

/// Whether a word names components whose calls are not to be expanded.
pub open spec fn names_abstracts(w: Seq<char>) -> bool {
    begins_with(w, "--abstract="@)
}

proof fn lemma_abstracts_are_options(w: Seq<char>)
    ensures
        names_abstracts(w) ==> is_option(w),
{
    reveal_strlit("--");
    reveal_strlit("--abstract=");
    if names_abstracts(w) {
        let p = "--abstract="@;
        assert(w.subrange(0, 11)[0] == p[0] && w.subrange(0, 11)[1] == p[1]);
        assert(w.subrange(0, 2) =~= "--"@);
    }
}

proof fn lemma_option_in_words(a: Seq<Seq<char>>, w: Seq<char>, b: Seq<Seq<char>>, n: int)
    requires
        2 <= a.len(),
        is_option(w),
        0 <= n <= b.len(),
    ensures
        positionals(a + seq![w] + b, a.len() + 1 + n) == positionals(a + b, a.len() + n),
        !names_abstracts(w) ==> abstracts_of(a + seq![w] + b, a.len() + 1 + n) == abstracts_of(
            a + b,
            a.len() + n,
        ),
        names_abstracts(w) && (forall|i: int| 0 <= i < n ==> !names_abstracts(#[trigger] b[i]))
            ==> abstracts_of(a + seq![w] + b, a.len() + 1 + n) == listed(
            w.skip("--abstract="@.len() as int),
        ),
        (exists|i: int| 0 <= i < n && names_abstracts(#[trigger] b[i])) ==> abstracts_of(
            a + seq![w] + b,
            a.len() + 1 + n,
        ) == abstracts_of(a + b, a.len() + n),
    decreases n,
{
    let long = a + seq![w] + b;
    let short = a + b;
    if n == 0 {
        assert(long[a.len() as int] == w);
        lemma_same_words(long, short, a.len() as int);
    } else {
        lemma_option_in_words(a, w, b, n - 1);
        assert(long[a.len() + n] == b[n - 1]);
        assert(short[a.len() + n - 1] == b[n - 1]);
    }
}

proof fn lemma_same_words(v: Seq<Seq<char>>, w: Seq<Seq<char>>, n: int)
    requires
        n <= v.len(),
        n <= w.len(),
        forall|i: int| 0 <= i < n ==> v[i] == #[trigger] w[i],
    ensures
        positionals(v, n) == positionals(w, n),
        abstracts_of(v, n) == abstracts_of(w, n),
    decreases n,
{
    if n > 2 {
        lemma_same_words(v, w, n - 1);
        assert(v[n - 1] == w[n - 1]);
    }
}

/// Whether words are those of a command that checks.
pub open spec fn checks(words: Seq<Seq<char>>) -> bool {
    words.len() >= 2 && (words[1] == "verify"@ || words[1] == "verify-int"@)
}

/// The command with other components whose calls are not to be expanded.
pub open spec fn with_abstracts(c: CommandV, names: Seq<Seq<char>>) -> CommandV {
    match c {
        CommandV::Verify { file, instruction, over_integers, .. } => CommandV::Verify {
            file,
            instruction,
            over_integers,
            abstracts: names,
        },
        _ => c,
    }
}

/// An option among the words of a command that checks says nothing about the file and the
/// instruction, wherever it stands. One that names components counts where no other does behind it.
pub proof fn lemma_options(a: Seq<Seq<char>>, w: Seq<char>, b: Seq<Seq<char>>)
    requires
        checks(a),
        is_option(w),
    ensures
        ({
            let with = command_of(a + seq![w] + b);
            let without = command_of(a + b);
            let later = exists|i: int| 0 <= i < b.len() && names_abstracts(#[trigger] b[i]);
            &&& without is Verify
            &&& names_abstracts(w) && !later ==> with == with_abstracts(
                without,
                listed(w.skip("--abstract="@.len() as int)),
            )
            &&& !names_abstracts(w) || later ==> with == without
        }),
{
    lemma_command_words();
    lemma_option_in_words(a, w, b, b.len() as int);
    assert((a + seq![w] + b)[1] == a[1]);
    assert((a + b)[1] == a[1]);
}

proof fn lemma_command_words()
    ensures
        "verify"@.len() == 6,
        "verify-int"@.len() == 10,
        "parse"@.len() == 5,
        "list"@.len() == 4,
        "ir"@.len() == 2,
        "help"@.len() == 4,
        "help"@ != "list"@,
{
    reveal_strlit("verify");
    reveal_strlit("verify-int");
    reveal_strlit("parse");
    reveal_strlit("list");
    reveal_strlit("ir");
    reveal_strlit("help");
    assert("help"@[0] == 'h' && "list"@[0] == 'l');
}

proof fn lemma_plain_words(words: Seq<Seq<char>>, n: int)
    requires
        2 <= n <= words.len(),
        forall|i: int| 2 <= i < n ==> !is_option(#[trigger] words[i]),
    ensures
        positionals(words, n) == words.subrange(2, n),
        abstracts_of(words, n) == Seq::<Seq<char>>::empty(),
    decreases n,
{
    if n > 2 {
        lemma_plain_words(words, n - 1);
        assert(!is_option(words[n - 1]));
        lemma_abstracts_are_options(words[n - 1]);
        assert(words.subrange(2, n) =~= words.subrange(2, n - 1).push(words[n - 1]));
    } else {
        assert(words.subrange(2, n) =~= Seq::empty());
    }
}

/// A word of a list, or else what stands for it.
pub open spec fn or_else(words: Seq<Seq<char>>, i: int, other: Seq<char>) -> Seq<char> {
    if i < words.len() {
        words[i]
    } else {
        other
    }
}

/// Without options, the words behind `verify` and `verify-int` are the file and the instruction,
/// with a file for each of the two and all instructions where they are left out, and no component is
/// left unexpanded.
pub proof fn lemma_words_of_a_check(words: Seq<Seq<char>>)
    requires
        checks(words),
        forall|i: int| 2 <= i < words.len() ==> !is_option(#[trigger] words[i]),
    ensures
        command_of(words) == (CommandV::Verify {
            file: or_else(
                words,
                2,
                if words[1] == "verify"@ {
                    "specs/u32.zir"@
                } else {
                    "specs/mult.zir"@
                },
            ),
            instruction: or_else(words, 3, "all"@),
            over_integers: words[1] == "verify-int"@,
            abstracts: Seq::empty(),
        }),
{
    lemma_command_words();
    lemma_plain_words(words, words.len() as int);
}

/// The other commands: the words behind `parse`, `list` and `ir` are the file and the instruction,
/// and any other word, or none, asks for help.
pub proof fn lemma_words_of_other_commands(words: Seq<Seq<char>>)
    requires
        !checks(words),
    ensures
        words.len() >= 2 && words[1] == "parse"@ ==> command_of(words) == (CommandV::Parse {
            file: or_else(words, 2, "specs/u32.zir"@),
        }),
        words.len() >= 2 && words[1] == "list"@ ==> command_of(words) == (CommandV::List {
            file: or_else(words, 2, "specs/u32.zir"@),
        }),
        words.len() >= 2 && words[1] == "ir"@ ==> command_of(words) == (CommandV::Ir {
            file: or_else(words, 2, "specs/u32.zir"@),
            instruction: or_else(words, 3, "AddU32"@),
        }),
        words.len() < 2 || (words[1] != "parse"@ && words[1] != "list"@ && words[1] != "ir"@)
            ==> command_of(words) == CommandV::Help,
{
    lemma_command_words();
}

// ---------------------------------------------------------------------------
// What is counted
// ---------------------------------------------------------------------------

/// What is counted of two lists of rows is what is counted of each.
pub proof fn lemma_counts_add_up(a: Seq<Row>, b: Seq<Row>, f: Finding)
    ensures
        count(a + b, f) == count(a, f) + count(b, f),
        checked(a + b) == checked(a) + checked(b),
    decreases b.len(),
{
    if b.len() == 0 {
        assert(a + b =~= a);
    } else {
        lemma_counts_add_up(a, b.drop_last(), f);
        assert((a + b).drop_last() =~= a + b.drop_last());
    }
}

/// A single row counts once: as what its result says where it was checked, and else as an error.
pub proof fn lemma_count_of_one(row: Row, f: Finding)
    ensures
        count(seq![row], f) == (if counts_as(row, f) {
            1nat
        } else {
            0nat
        }),
        checked(seq![row]) == (if row is Checked {
            1nat
        } else {
            0nat
        }),
        row is Failed ==> (counts_as(row, f) <==> f == Finding::Error),
        row is Checked && row->result.deterministic == Some(true) ==> (counts_as(row, f) <==> f
            == Finding::Deterministic),
        row is Checked && row->result.deterministic == Some(false) ==> (counts_as(row, f) <==> f
            == Finding::Nondeterministic),
        row is Checked && row->result.deterministic is None ==> (counts_as(row, f) ==> f
            == Finding::NoOutputs || f == Finding::Error),
        row is Checked && row->result.deterministic is None && row->result.error is Some ==> (
        counts_as(row, Finding::NoOutputs) <==> occurs(
            (row->result.error->Some_0)@,
            "No outputs"@,
        )),
{
    reveal_with_fuel(count, 2);
    reveal_with_fuel(checked, 2);
    assert(seq![row].drop_last() =~= Seq::empty());
}

} // verus!
