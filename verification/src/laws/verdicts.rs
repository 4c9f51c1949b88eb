//! What a check tells is true where the solver tells the truth.

use vstd::prelude::*;
use crate::cli::{finding_of, message_of, status_of, Finding};
use crate::ir::SpecV;
use crate::laws::determinism::{all_divisionless, deterministic, names_apart, Numbers};
use crate::laws::finite::{
    all_known, ff_satisfiable, field_deterministic, lemma_ff_answer, symbols_apart,
};
use crate::laws::integers::{int_satisfiable, lemma_int_answer};
use crate::laws::polynomials::{lemma_ms_answer, only_equations, solvable};
use crate::laws::texts::{is_blank, lemma_parts_of_texts, lemma_trimmed};
use crate::laws::words::{bv_satisfiable, lemma_bv_answer, words};
use crate::smt::Answer;
use crate::text::{is_white_space, occurs, stands_at, trimmed};
use crate::verifier_bv::{bv_plan, tells, text_of, verdict, VerifyResult};
use crate::verifier_ff::{ff_script, ff_verdict, has_calls, run_of};
use crate::verifier_int::int_plan;
use crate::verifier_msolve::{ms_system, ms_verdict, written};

verus! {

/// Whether an answer is right on a question: what was asserted can hold where it says so, and cannot
/// where it says so.
pub open spec fn is_right(a: Answer, satisfiable: bool) -> bool {
    (a == Answer::Sat ==> satisfiable) && (a == Answer::Unsat ==> !satisfiable)
}

/// Where the answer over 32-bit words is right, so is what is told, and something is told unless the
/// answer is open.
pub proof fn lemma_verdict_over_words(s: SpecV, a: Answer)
    requires
        s.outputs.len() > 0,
        bv_plan(s).stop is None,
        all_divisionless(s.constraints),
        names_apart(s.all_vars()),
        is_right(a, bv_satisfiable(bv_plan(s).steps)),
    ensures
        verdict(s.outputs.len(), Ok(a)) matches Ok(d) ==> d == deterministic(
            Numbers::Modulo(words()),
            s,
        ),
        verdict(s.outputs.len(), Ok(a)) is Ok <==> a != Answer::Unknown,
{
    lemma_bv_answer(s);
}

/// Where the answer over the integers is right, so is what is told, and something is told unless the
/// answer is open.
pub proof fn lemma_verdict_over_integers(s: SpecV, a: Answer)
    requires
        s.outputs.len() > 0,
        int_plan(s).stop is None,
        all_divisionless(s.constraints),
        names_apart(s.all_vars()),
        crate::laws::integers::symbols_apart(s.constraints),
        is_right(a, int_satisfiable(int_plan(s).steps)),
    ensures
        verdict(s.outputs.len(), Ok(a)) matches Ok(d) ==> d == deterministic(Numbers::Integers, s),
        verdict(s.outputs.len(), Ok(a)) is Ok <==> a != Answer::Unknown,
{
    lemma_int_answer(s);
}

proof fn lemma_trimmed_of(w: Seq<char>, t: Seq<char>, z: Seq<char>)
    requires
        is_blank(w),
        is_blank(z),
        t.len() > 0,
        !is_white_space(t[0]),
        !is_white_space(t.last()),
    ensures
        trimmed(w + t + z) == t,
    decreases w.len() + z.len(),
{
    let s = w + t + z;
    if w.len() > 0 {
        assert(s[0] == w[0]);
        assert(s.drop_first() =~= w.drop_first() + t + z);
        assert forall|i: int| 0 <= i < w.drop_first().len() implies is_white_space(
            #[trigger] w.drop_first()[i],
        ) by {
            assert(w.drop_first()[i] == w[i + 1]);
        }
        lemma_trimmed_of(w.drop_first(), t, z);
    } else if z.len() > 0 {
        assert(s[0] == t[0]);
        assert(s.last() == z[z.len() - 1]);
        assert(s.drop_last() =~= w + t + z.drop_last());
        assert forall|i: int| 0 <= i < z.drop_last().len() implies is_white_space(
            #[trigger] z.drop_last()[i],
        ) by {
            assert(z.drop_last()[i] == z[i]);
        }
        lemma_trimmed_of(w, t, z.drop_last());
    } else {
        assert(s =~= t);
    }
}

/// The word in which a solver writes an answer.
pub open spec fn answer_word(a: Answer) -> Seq<char> {
    match a {
        Answer::Sat => "sat"@,
        Answer::Unsat => "unsat"@,
        Answer::Unknown => "unknown"@,
    }
}

/// Where the answer over the field is right, so is what is told, whatever white space stands around
/// the word and whatever the solver wrote elsewhere, and something is told unless the answer is open.
pub proof fn lemma_verdict_over_the_field(
    s: SpecV,
    a: Answer,
    before: Seq<char>,
    behind: Seq<char>,
    err: Seq<char>,
)
    requires
        s.outputs.len() > 0,
        all_divisionless(s.constraints),
        all_known(s.all_vars(), s.constraints),
        names_apart(s.all_vars()),
        symbols_apart(s.constraints),
        is_blank(before),
        is_blank(behind),
        is_right(a, ff_satisfiable(ff_script(s))),
    ensures
        ff_verdict(s.outputs.len(), Ok((before + answer_word(a) + behind, err))) matches Ok(d)
            ==> d == field_deterministic(s),
        ff_verdict(s.outputs.len(), Ok((before + answer_word(a) + behind, err))) is Ok <==> a
            != Answer::Unknown,
{
    lemma_ff_answer(s);
    reveal_strlit("sat");
    reveal_strlit("unsat");
    reveal_strlit("unknown");
    lemma_trimmed_of(before, answer_word(a), behind);
    assert("sat"@.len() == 3 && "unsat"@.len() == 5 && "unknown"@.len() == 7);
}

/// Whether a solver wrote that the basis is 1: alone, or at the start of a line behind the first.
pub open spec fn wrote_one(out: Seq<char>) -> bool {
    ||| exists|a: Seq<char>, b: Seq<char>|
        is_blank(a) && is_blank(b) && out == #[trigger] (a + "[1]:"@ + b)
    ||| exists|a: Seq<char>, b: Seq<char>| out == #[trigger] (a + "\n[1]:"@ + b)
}

/// Whether a solver wrote a basis.
pub open spec fn wrote_basis(out: Seq<char>) -> bool {
    exists|i: int| 0 <= i < out.len() && #[trigger] out[i] == '['
}

proof fn lemma_wrote_basis(out: Seq<char>)
    ensures
        occurs(out, "["@) <==> wrote_basis(out),
{
    reveal_strlit("[");
    let p = "["@;
    assert(p =~= seq!['[']);
    if occurs(out, p) {
        let i = choose|i: int| stands_at(out, p, i);
        assert(out.subrange(i, i + 1)[0] == out[i]);
    }
    if wrote_basis(out) {
        let i = choose|i: int| 0 <= i < out.len() && #[trigger] out[i] == '[';
        assert(out.subrange(i, i + 1) =~= p);
        assert(stands_at(out, p, i));
    }
}

proof fn lemma_wrote_one_alone(out: Seq<char>)
    ensures
        trimmed(out) == "[1]:"@ <==> exists|a: Seq<char>, b: Seq<char>|
            is_blank(a) && is_blank(b) && out == #[trigger] (a + "[1]:"@ + b),
        trimmed(out) == "[1]:"@ ==> wrote_basis(out),
{
    reveal_strlit("[1]:");
    if trimmed(out) == "[1]:"@ {
        let (a, b) = lemma_trimmed(out);
        assert(out == a + "[1]:"@ + b);
        assert(out[a.len() as int] == '[');
    }
    if exists|a: Seq<char>, b: Seq<char>|
        is_blank(a) && is_blank(b) && out == #[trigger] (a + "[1]:"@ + b) {
        let (a, b) = choose|a: Seq<char>, b: Seq<char>|
            is_blank(a) && is_blank(b) && out == #[trigger] (a + "[1]:"@ + b);
        lemma_trimmed_of(a, "[1]:"@, b);
    }
}

proof fn lemma_wrote_one_behind(out: Seq<char>)
    ensures
        occurs(out, "\n[1]:"@) <==> exists|a: Seq<char>, b: Seq<char>|
            out == #[trigger] (a + "\n[1]:"@ + b),
        occurs(out, "\n[1]:"@) ==> wrote_basis(out),
{
    reveal_strlit("\n[1]:");
    let p = "\n[1]:"@;
    if occurs(out, p) {
        let i = choose|i: int| stands_at(out, p, i);
        assert(out =~= out.take(i) + p + out.skip(i + 5)) by {
            assert(out.subrange(i, i + 5) =~= p);
            assert forall|k: int| 0 <= k < 5 implies out[i + k] == p[k] by {
                assert(out.subrange(i, i + 5)[k] == out[i + k]);
            }
        }
        assert(out.subrange(i, i + 5)[1] == out[i + 1]);
        assert(out[i + 1] == '[');
    }
    if exists|a: Seq<char>, b: Seq<char>| out == #[trigger] (a + "\n[1]:"@ + b) {
        let (a, b) = choose|a: Seq<char>, b: Seq<char>| out == #[trigger] (a + "\n[1]:"@ + b);
        lemma_parts_of_texts(out, p, a, b);
    }
}

/// Where what a solver wrote of the polynomials is right, that is a basis 1 exactly where they have
/// no common root, then what is told is right: that an instruction is deterministic always, and that
/// it is not where there are only equations.
pub proof fn lemma_verdict_by_polynomials(s: SpecV, out: Seq<char>)
    requires
        s.outputs.len() > 0,
        !has_calls(s.constraints),
        all_divisionless(s.constraints),
        all_known(s.all_vars(), s.constraints),
        names_apart(s.all_vars()),
        wrote_one(out) ==> !solvable(ms_system(s)),
        wrote_basis(out) && !wrote_one(out) ==> solvable(ms_system(s)),
    ensures
        ms_verdict(s, Ok(out)) == Ok::<bool, Seq<char>>(true) ==> field_deterministic(s),
        ms_verdict(s, Ok(out)) == Ok::<bool, Seq<char>>(false) && only_equations(s.constraints)
            ==> !field_deterministic(s),
        ms_verdict(s, Ok(out)) is Ok <==> wrote_basis(out),
        wrote_one(out) ==> ms_verdict(s, Ok(out)) == Ok::<bool, Seq<char>>(true),
{
    lemma_ms_answer(s);
    lemma_wrote_basis(out);
    lemma_wrote_one_alone(out);
    lemma_wrote_one_behind(out);
}

/// An instruction without outputs has nothing to check, whatever the solvers say.
pub proof fn lemma_nothing_to_check(
    s: SpecV,
    answer: Result<Answer, Seq<char>>,
    run: Result<(Seq<char>, Seq<char>), Seq<char>>,
    out: Result<Seq<char>, Seq<char>>,
    r: VerifyResult,
    time_ms: u128,
)
    requires
        s.outputs.len() == 0,
        ({
            ||| tells(r, s, verdict(s.outputs.len(), answer), time_ms)
            ||| tells(r, s, ff_verdict(s.outputs.len(), run), time_ms)
            ||| tells(r, s, ms_verdict(s, out), time_ms)
        }),
    ensures
        finding_of(r) == Finding::NoOutputs,
{
    reveal_strlit("No outputs to check");
    reveal_strlit("No outputs");
    let m = "No outputs to check"@;
    let p = "No outputs"@;
    assert(m =~= Seq::<char>::empty() + p + m.skip(10));
    lemma_parts_of_texts(m, p, Seq::empty(), m.skip(10));
}

/// An error of a solver comes back as it is.
pub proof fn lemma_errors_come_back(s: SpecV, e: Seq<char>)
    requires
        s.outputs.len() > 0,
    ensures
        verdict(s.outputs.len(), Err(e)) == Err::<bool, Seq<char>>(e),
        ff_verdict(s.outputs.len(), Err(e)) == Err::<bool, Seq<char>>(e),
        !has_calls(s.constraints) ==> ms_verdict(s, Err(e)) == Err::<bool, Seq<char>>(e),
        has_calls(s.constraints) ==> forall|out: Result<Seq<char>, Seq<char>>|
            (#[trigger] ms_verdict(s, out)) is Err,
{
}

/// What is found of a result is what it tells, and it counts as an error where it tells nothing and
/// not because there was nothing to check. The words for it differ for each finding, and those for
/// an error end with its message.
pub proof fn lemma_findings(s: SpecV, r: VerifyResult, found: Result<bool, Seq<char>>, time_ms: u128)
    requires
        tells(r, s, found, time_ms),
    ensures
        found == Ok::<bool, Seq<char>>(true) <==> finding_of(r) == Finding::Deterministic,
        found == Ok::<bool, Seq<char>>(false) <==> finding_of(r) == Finding::Nondeterministic,
        found matches Err(e) ==> message_of(r) == e,
        r.name@ == s.name,
        r.time_ms == time_ms,
        r.num_vars == s.inputs.len() + s.outputs.len() + s.internals.len(),
        r.num_constraints == s.constraints.len(),
        finding_of(r) == Finding::Error ==> status_of(r).len() == 2 + message_of(r).len()
            && status_of(r).skip(2) == message_of(r),
{
    reveal_strlit("⚠ ");
    if finding_of(r) == Finding::Error {
        assert(status_of(r).skip(2) =~= message_of(r));
    }
}

/// The words for a result start with a sign for its finding: a check mark where the instruction is
/// deterministic, a cross where it is not, a dash where there is nothing to check, and a warning
/// where there is an error.
pub proof fn lemma_words_for_findings(r: VerifyResult)
    ensures
        status_of(r).len() > 0,
        status_of(r)[0] == '✓' <==> finding_of(r) == Finding::Deterministic,
        status_of(r)[0] == '✗' <==> finding_of(r) == Finding::Nondeterministic,
        status_of(r)[0] == '—' <==> finding_of(r) == Finding::NoOutputs,
        status_of(r)[0] == '⚠' <==> finding_of(r) == Finding::Error,
{
    reveal_strlit("✓ Детерминирован");
    reveal_strlit("✗ НЕдетерминирован!");
    reveal_strlit("— assertion-only (нечего проверять)");
    reveal_strlit("⚠ ");
}

/// What a solver wrote, or the error in its place, is taken as it is.
pub proof fn lemma_taken_as_written(
    answer: Result<Answer, String>,
    run: Result<(String, String), String>,
    out: Result<String, String>,
)
    ensures
        match answer {
            Ok(a) => text_of(answer) == Ok::<Answer, Seq<char>>(a),
            Err(e) => text_of(answer) == Err::<Answer, Seq<char>>(e@),
        },
        match run {
            Ok(r) => run_of(run) == Ok::<(Seq<char>, Seq<char>), Seq<char>>((r.0@, r.1@)),
            Err(e) => run_of(run) == Err::<(Seq<char>, Seq<char>), Seq<char>>(e@),
        },
        match out {
            Ok(r) => written(out) == Ok::<Seq<char>, Seq<char>>(r@),
            Err(e) => written(out) == Err::<Seq<char>, Seq<char>>(e@),
        },
{
}

} // verus!
