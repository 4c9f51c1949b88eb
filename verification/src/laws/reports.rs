//! What is printed tells what it is about.

use vstd::arithmetic::power2::{lemma2_to64, pow2};
use vstd::prelude::*;
use crate::cli::{
    checked, component_count, constraint_line, constraint_lines, count, counts_as, expr_form,
    header_lines, ir_lines, item_line, item_lines, list_lines, output_texts, param_texts,
    parse_lines, row_line, status_of, summary_lines, var_line, var_lines, word_for_type, Finding,
    Row,
};
use crate::ir::{max_value, ConstraintV, IrExprV, SpecV, VarType, VarV};
use crate::laws::numerals::{in_base, is_numeral, lemma_decimal_text, written_in};
use crate::parser::ast::{ComponentV, ItemV};
use crate::text::{
    begins_with, debug_form, digits, finishes_with, indented, joined, padded, repeated,
    signed_digits, stands_at,
};
use crate::verifier_bv::VerifyResult;

verus! {

/// How many components are among items.
pub open spec fn components(its: Seq<ItemV>) -> nat {
    its.filter(|it: ItemV| it is Component).len()
}

proof fn lemma_component_count(its: Seq<ItemV>, n: nat)
    requires
        n <= its.len(),
    ensures
        component_count(its, n) == components(its.take(n as int)),
    decreases n,
{
    reveal(Seq::filter);
    if n > 0 {
        let k = (n - 1) as nat;
        lemma_component_count(its, k);
        assert(its.take(n as int).drop_last() =~= its.take(k as int));
        assert(its.take(n as int).last() == its[n - 1]);
    } else {
        assert(its.take(0) =~= Seq::empty());
    }
}

proof fn lemma_item_lines_from(its: Seq<ItemV>, n: nat)
    requires
        n <= its.len(),
    ensures
        item_lines(its, n).len() == n,
        forall|i: int|
            0 <= i < n ==> #[trigger] item_lines(its, n)[i] == item_line(
                its[i],
                components(its.take(i)),
            ),
    decreases n,
{
    if n > 0 {
        lemma_item_lines_from(its, (n - 1) as nat);
        lemma_component_count(its, (n - 1) as nat);
    }
}

/// There is one line for each item, in their order, between a first line with the name of the file
/// and a last one with the number of components. The components are numbered from 1 on.
pub proof fn lemma_lines_of_items(file: Seq<char>, its: Seq<ItemV>)
    ensures
        parse_lines(file, its).len() == its.len() + 2,
        forall|i: int|
            0 <= i < its.len() ==> #[trigger] parse_lines(file, its)[i + 1] == item_line(
                its[i],
                components(its.take(i)),
            ),
        stands_at(parse_lines(file, its)[0], file, "=== Парсинг "@.len() as int),
        stands_at(
            parse_lines(file, its)[its.len() as int + 1],
            digits(components(its)),
            "\n  Итого: "@.len() as int,
        ),
{
    let n = its.len();
    lemma_item_lines_from(its, n);
    lemma_component_count(its, n);
    assert(its.take(n as int) =~= its);
    let v = parse_lines(file, its);
    assert forall|i: int| 0 <= i < n implies #[trigger] v[i + 1] == item_line(
        its[i],
        components(its.take(i)),
    ) by {
        assert(v[i + 1] == item_lines(its, n)[i]);
    }
    let a = "=== Парсинг "@.len() as int;
    assert(v[0].subrange(a, a + file.len()) =~= file);
    let b = "\n  Итого: "@.len() as int;
    let d = digits(components(its));
    assert(v[n as int + 1].subrange(b, b + d.len()) =~= d);
}

/// The line for an item names it: an import by its name, a function with the type of its result,
/// and a component with its number, its parameters, how many statements it has, and its line.
pub proof fn lemma_line_of_item(it: ItemV, n: nat)
    ensures
        it matches ItemV::Import(x) ==> finishes_with(item_line(it, n), " import "@ + x),
        it matches ItemV::Extern { name, return_type } ==> finishes_with(
            item_line(it, n),
            " extern "@ + name + " : "@ + return_type,
        ),
        it matches ItemV::Component(c) ==> {
            let number = indented(digits(n + 1), 2);
            let at = 2int + number.len() + ". component "@.len();
            &&& stands_at(item_line(it, n), number, 2)
            &&& stands_at(item_line(it, n), c.name + "("@, at)
            &&& stands_at(
                item_line(it, n),
                joined(param_texts(c.params), ", "@) + ") — "@ + digits(c.body.len()) + " stmts"@,
                at + c.name.len() + 1,
            )
            &&& finishes_with(item_line(it, n), " "@ + digits(c.source_line) + "]"@)
        },
{
    reveal_strlit("  import ");
    reveal_strlit(" import ");
    reveal_strlit("  extern ");
    reveal_strlit(" extern ");
    reveal_strlit("  ");
    reveal_strlit("(");
    reveal_strlit(" stmts [строка ");
    reveal_strlit(" stmts");
    reveal_strlit(" ");
    reveal_strlit("]");
    let line = item_line(it, n);
    match it {
        ItemV::Import(x) => {
            let t = " import "@ + x;
            assert(line.subrange(line.len() - t.len(), line.len() as int) =~= t);
        },
        ItemV::Extern { name, return_type } => {
            let t = " extern "@ + name + " : "@ + return_type;
            assert(line.subrange(line.len() - t.len(), line.len() as int) =~= t);
        },
        ItemV::Component(c) => {
            lemma_line_of_component(c, n);
        },
    }
}

proof fn lemma_line_of_component(c: ComponentV, n: nat)
    ensures
        ({
            let line = item_line(ItemV::Component(c), n);
            let number = indented(digits(n + 1), 2);
            let at = 2int + number.len() + ". component "@.len();
            &&& stands_at(line, number, 2)
            &&& stands_at(line, c.name + "("@, at)
            &&& stands_at(
                line,
                joined(param_texts(c.params), ", "@) + ") — "@ + digits(c.body.len()) + " stmts"@,
                at + c.name.len() + 1,
            )
            &&& finishes_with(line, " "@ + digits(c.source_line) + "]"@)
        }),
{
    reveal_strlit("  ");
    reveal_strlit("(");
    reveal_strlit(" stmts [строка ");
    reveal_strlit(" stmts");
    reveal_strlit(" ");
    reveal_strlit("]");
    let line = item_line(ItemV::Component(c), n);
    let number = indented(digits(n + 1), 2);
    let at = 2int + number.len() + ". component "@.len();
    assert(line.subrange(2, 2int + number.len()) =~= number);
    let t = c.name + "("@;
    assert(line.subrange(at, at + t.len()) =~= t);
    let u = joined(param_texts(c.params), ", "@) + ") — "@ + digits(c.body.len()) + " stmts"@;
    let from = at + c.name.len() + 1;
    assert(line.subrange(from, from + u.len()) =~= u);
    let w = " "@ + digits(c.source_line) + "]"@;
    assert(line.subrange(line.len() - w.len(), line.len() as int) =~= w);
}

/// A parameter is shown with its name before its type, and an output of a call with its field before
/// its variable, each list in its order.
pub proof fn lemma_texts_of_pairs(v: Seq<(Seq<char>, Seq<char>)>, i: int)
    requires
        0 <= i < v.len(),
    ensures
        param_texts(v).len() == v.len(),
        param_texts(v)[i].take(v[i].0.len() as int) == v[i].0,
        param_texts(v)[i].skip(v[i].0.len() as int) == ": "@ + v[i].1,
        output_texts(v).len() == v.len(),
        output_texts(v)[i].take(v[i].0.len() as int) == v[i].0,
        output_texts(v)[i].skip(v[i].0.len() as int) == "="@ + v[i].1,
{
    let n = v[i].0.len() as int;
    assert(param_texts(v)[i].take(n) =~= v[i].0);
    assert(param_texts(v)[i].skip(n) =~= ": "@ + v[i].1);
    assert(output_texts(v)[i].take(n) =~= v[i].0);
    assert(output_texts(v)[i].skip(n) =~= "="@ + v[i].1);
}

/// Each component is listed on a line of its own, behind the name of the file.
pub proof fn lemma_lines_of_names(file: Seq<char>, names: Seq<Seq<char>>)
    ensures
        list_lines(file, names).len() == names.len() + 1,
        stands_at(list_lines(file, names)[0], file + ":"@, "Компоненты в "@.len() as int),
        forall|i: int|
            0 <= i < names.len() ==> #[trigger] list_lines(file, names)[i + 1] == "  - "@ + names[i],
{
    let v = list_lines(file, names);
    let a = "Компоненты в "@.len() as int;
    let t = file + ":"@;
    assert(v[0].subrange(a, a + t.len()) =~= t);
}

/// How many bits the numbers of a type have, where it is one of numbers with so many bits.
pub open spec fn bits_of_type(t: VarType) -> Option<nat> {
    match t {
        VarType::U32 => Some(32),
        VarType::U16 => Some(16),
        VarType::U8 => Some(8),
        _ => None,
    }
}

/// A type of numbers with some bits is named after how many there are, and each other type by a word
/// that starts with a letter of its own.
pub proof fn lemma_names_of_types(t: VarType)
    ensures
        bits_of_type(t) matches Some(n) ==> word_for_type(t) == "U"@ + digits(n) && max_value(t) + 1
            == pow2(n),
        t == VarType::Bit <==> word_for_type(t)[0] == 'B',
        t == VarType::Twit <==> word_for_type(t)[0] == 'T',
        t == VarType::Val <==> word_for_type(t)[0] == 'V',
{
    reveal_strlit("U");
    reveal_strlit("U32");
    reveal_strlit("U16");
    reveal_strlit("U8");
    reveal_strlit("Bit");
    reveal_strlit("Twit");
    reveal_strlit("Val");
    lemma2_to64();
    if let Some(n) = bits_of_type(t) {
        assert(digits(32) =~= seq!['3', '2']) by {
            assert(digits(3) == seq!['3']);
            assert(digits(32) == digits(3).push('2'));
        }
        assert(digits(16) =~= seq!['1', '6']) by {
            assert(digits(1) == seq!['1']);
            assert(digits(16) == digits(1).push('6'));
        }
        assert(digits(8) =~= seq!['8']);
        assert(word_for_type(t) =~= "U"@ + digits(n));
    }
}

/// The line for a variable holds its name, its type, and its range: from 0 to a numeral that is read
/// as its largest value.
pub proof fn lemma_line_of_variable(v: VarV)
    ensures
        begins_with(var_line(v), "    "@ + v.name + " : "@ + word_for_type(v.vtype) + " [0, "@),
        exists|w: Seq<char>, d: Seq<int>|
            finishes_with(var_line(v), ", "@ + w + "]"@) && #[trigger] is_numeral(w, d, 10)
                && in_base(d, 10) == max_value(v.vtype),
{
    reveal_strlit(" [");
    reveal_strlit("0");
    reveal_strlit(", ");
    reveal_strlit(" [0, ");
    let n = max_value(v.vtype) as nat;
    lemma_decimal_text(n);
    let line = var_line(v);
    let w = digits(n);
    let t = ", "@ + w + "]"@;
    assert(line.subrange(line.len() - t.len(), line.len() as int) =~= t);
    assert(is_numeral(w, written_in(n, 10), 10));
    let h = "    "@ + v.name + " : "@ + word_for_type(v.vtype) + " [0, "@;
    assert(line.subrange(0, h.len() as int) =~= h);
}

/// The form of an operation starts with a letter that tells the operations apart, and holds the
/// forms of its operands in their order.
pub proof fn lemma_form_of_operation(e: IrExprV, a: IrExprV, b: IrExprV)
    requires
        ({
            ||| e == IrExprV::Add(Box::new(a), Box::new(b))
            ||| e == IrExprV::Sub(Box::new(a), Box::new(b))
            ||| e == IrExprV::Mul(Box::new(a), Box::new(b))
            ||| e == IrExprV::Div(Box::new(a), Box::new(b))
        }),
    ensures
        e is Add <==> expr_form(e)[0] == 'A',
        e is Sub <==> expr_form(e)[0] == 'S',
        e is Mul <==> expr_form(e)[0] == 'M',
        e is Div <==> expr_form(e)[0] == 'D',
        stands_at(expr_form(e), "("@ + expr_form(a) + ", "@ + expr_form(b) + ")"@, 3),
        expr_form(e).len() == 7 + expr_form(a).len() + expr_form(b).len(),
{
    reveal_strlit("Add(");
    reveal_strlit("Sub(");
    reveal_strlit("Mul(");
    reveal_strlit("Div(");
    reveal_strlit("(");
    reveal_strlit(")");
    reveal_strlit(", ");
    let t = "("@ + expr_form(a) + ", "@ + expr_form(b) + ")"@;
    assert(expr_form(e).subrange(3, 3int + t.len()) =~= t);
}

/// The form of a constant holds its numeral, and that of a variable its name.
pub proof fn lemma_form_of_operand(n: i64, x: Seq<char>)
    ensures
        stands_at(expr_form(IrExprV::Const(n)), signed_digits(n as int) + ")"@, 6),
        stands_at(expr_form(IrExprV::Var(x)), debug_form(x) + ")"@, 4),
        expr_form(IrExprV::Const(n))[0] == 'C',
        expr_form(IrExprV::Var(x))[0] == 'V',
{
    reveal_strlit("Const(");
    reveal_strlit("Var(");
    let s = signed_digits(n as int) + ")"@;
    let t = debug_form(x) + ")"@;
    assert(expr_form(IrExprV::Const(n)).subrange(6, 6int + s.len()) =~= s);
    assert(expr_form(IrExprV::Var(x)).subrange(4, 4int + t.len()) =~= t);
}

/// The line for a constraint starts with its number. That of an equation ends with both sides in
/// their order and its tag, that of a test with its result and its expression, and that of a call
/// with the number of its arguments and its outputs.
pub proof fn lemma_line_of_constraint(c: ConstraintV, n: nat)
    ensures
        stands_at(constraint_line(c, n), digits(n) + ". "@, 4),
        c matches ConstraintV::Eq { lhs, rhs, tag } ==> finishes_with(
            constraint_line(c, n),
            ". "@ + expr_form(lhs) + " = "@ + expr_form(rhs) + "  ["@ + tag + "]"@,
        ),
        c matches ConstraintV::IsZero { result, expr } ==> finishes_with(
            constraint_line(c, n),
            ". "@ + result + " = IsZero("@ + expr_form(expr) + ")"@,
        ),
        c matches ConstraintV::Call { component, args, outputs } ==> finishes_with(
            constraint_line(c, n),
            "["@ + component + "]("@ + digits(args.len()) + " args) → "@ + joined(
                output_texts(outputs),
                ", "@,
            ),
        ),
{
    reveal_strlit("    ");
    reveal_strlit("UF[");
    reveal_strlit("[");
    let line = constraint_line(c, n);
    let h = digits(n) + ". "@;
    assert(line.subrange(4, 4int + h.len()) =~= h);
    match c {
        ConstraintV::Eq { lhs, rhs, tag } => {
            let t = ". "@ + expr_form(lhs) + " = "@ + expr_form(rhs) + "  ["@ + tag + "]"@;
            assert(line.subrange(line.len() - t.len(), line.len() as int) =~= t);
        },
        ConstraintV::IsZero { result, expr } => {
            let t = ". "@ + result + " = IsZero("@ + expr_form(expr) + ")"@;
            assert(line.subrange(line.len() - t.len(), line.len() as int) =~= t);
        },
        ConstraintV::Call { component, args, outputs } => {
            let t = "["@ + component + "]("@ + digits(args.len()) + " args) → "@ + joined(
                output_texts(outputs),
                ", "@,
            );
            assert(line.subrange(line.len() - t.len(), line.len() as int) =~= t);
        },
    }
}

/// The report of an instruction has a line for each of its inputs, outputs, internal variables and
/// constraints, in this order and in theirs, behind a title with their number. The constraints are
/// numbered from 1 on.
pub proof fn lemma_lines_of_instruction(s: SpecV)
    ensures
        ({
            let v = ir_lines(s);
            let a = 2int;
            let b = a + s.inputs.len() + 1;
            let c = b + s.outputs.len() + 1;
            let d = c + s.internals.len() + 1;
            &&& v.len() == d + s.constraints.len()
            &&& stands_at(v[0], s.name, "=== IR: "@.len() as int)
            &&& finishes_with(v[0], digits(s.source_line) + ") ===\n"@)
            &&& stands_at(v[a - 1], "Входы"@, 2)
            &&& stands_at(v[b - 1], "Выходы"@, 2)
            &&& stands_at(v[c - 1], "Промежуточные"@, 2)
            &&& finishes_with(v[a - 1], "("@ + digits(s.inputs.len()) + "):"@)
            &&& finishes_with(v[b - 1], "("@ + digits(s.outputs.len()) + "):"@)
            &&& finishes_with(v[c - 1], "("@ + digits(s.internals.len()) + "):"@)
            &&& finishes_with(v[d - 1], "("@ + digits(s.constraints.len()) + "):"@)
            &&& forall|i: int| 0 <= i < s.inputs.len() ==> v[a + i] == var_line(#[trigger] s.inputs[i])
            &&& forall|i: int|
                0 <= i < s.outputs.len() ==> v[b + i] == var_line(#[trigger] s.outputs[i])
            &&& forall|i: int|
                0 <= i < s.internals.len() ==> v[c + i] == var_line(#[trigger] s.internals[i])
            &&& forall|i: int|
                0 <= i < s.constraints.len() ==> v[d + i] == constraint_line(
                    #[trigger] s.constraints[i],
                    (i + 1) as nat,
                )
        }),
{
    reveal_strlit(" (");
    reveal_strlit("(");
    reveal_strlit("  Ограничения (");
    let v = ir_lines(s);
    let p = var_lines("Входы"@, s.inputs);
    let q = var_lines("Выходы"@, s.outputs);
    let r = var_lines("Промежуточные"@, s.internals);
    let t = constraint_lines(s.constraints);
    let a = 2int;
    let b = a + s.inputs.len() + 1;
    let c = b + s.outputs.len() + 1;
    let d = c + s.internals.len() + 1;
    assert(v[a - 1] == p[0] && v[b - 1] == q[0] && v[c - 1] == r[0] && v[d - 1] == t[0]);
    lemma_title("Входы"@, s.inputs);
    lemma_title("Выходы"@, s.outputs);
    lemma_title("Промежуточные"@, s.internals);
    let w = "("@ + digits(s.constraints.len()) + "):"@;
    assert(t[0].subrange(t[0].len() - w.len(), t[0].len() as int) =~= w);
    let h = digits(s.source_line) + ") ===\n"@;
    assert(v[0].subrange(v[0].len() - h.len(), v[0].len() as int) =~= h);
    let k = "=== IR: "@.len() as int;
    assert(v[0].subrange(k, k + s.name.len()) =~= s.name);
    assert forall|i: int| 0 <= i < s.inputs.len() implies v[a + i] == var_line(
        #[trigger] s.inputs[i],
    ) by {
        assert(v[a + i] == p[1 + i]);
    }
    assert forall|i: int| 0 <= i < s.outputs.len() implies v[b + i] == var_line(
        #[trigger] s.outputs[i],
    ) by {
        assert(v[b + i] == q[1 + i]);
    }
    assert forall|i: int| 0 <= i < s.internals.len() implies v[c + i] == var_line(
        #[trigger] s.internals[i],
    ) by {
        assert(v[c + i] == r[1 + i]);
    }
    assert forall|i: int| 0 <= i < s.constraints.len() implies v[d + i] == constraint_line(
        #[trigger] s.constraints[i],
        (i + 1) as nat,
    ) by {
        assert(v[d + i] == t[1 + i]);
    }
}

proof fn lemma_title(title: Seq<char>, vs: Seq<VarV>)
    ensures
        stands_at(var_lines(title, vs)[0], title, 2),
        finishes_with(var_lines(title, vs)[0], "("@ + digits(vs.len()) + "):"@),
{
    reveal_strlit("  ");
    reveal_strlit(" (");
    reveal_strlit("(");
    let line = var_lines(title, vs)[0];
    let t = "("@ + digits(vs.len()) + "):"@;
    assert(line.subrange(2, 2int + title.len()) =~= title);
    assert(line.subrange(line.len() - t.len(), line.len() as int) =~= t);
}

/// The columns of a table.
pub open spec fn in_columns(
    line: Seq<char>,
    a: Seq<char>,
    b: Seq<char>,
    c: Seq<char>,
    d: Seq<char>,
) -> bool {
    &&& stands_at(line, a, 2)
    &&& stands_at(line, b, 31)
    &&& stands_at(line, c, 38)
    &&& stands_at(line, d, 45)
}

proof fn lemma_columns(a: Seq<char>, b: Seq<char>, c: Seq<char>, rest: Seq<char>, d: Seq<char>)
    requires
        a.len() <= 28,
        b.len() <= 6,
        c.len() <= 6,
        begins_with(rest, d),
    ensures
        in_columns(
            "  "@ + padded(a, 28) + " "@ + padded(b, 6) + " "@ + padded(c, 6) + " "@ + rest,
            a,
            b,
            c,
            d,
        ),
{
    reveal_strlit("  ");
    reveal_strlit(" ");
    let line = "  "@ + padded(a, 28) + " "@ + padded(b, 6) + " "@ + padded(c, 6) + " "@ + rest;
    assert(padded(a, 28).len() == 28 && padded(b, 6).len() == 6 && padded(c, 6).len() == 6);
    assert(line.subrange(2, 2int + a.len()) =~= a);
    assert(line.subrange(31, 31int + b.len()) =~= b);
    assert(line.subrange(38, 38int + c.len()) =~= c);
    assert(line.subrange(45, 45int + d.len()) =~= d) by {
        assert(rest.subrange(0, d.len() as int) == d);
        assert forall|i: int| 0 <= i < d.len() implies line[45 + i] == d[i] by {
            assert(rest.subrange(0, d.len() as int)[i] == rest[i]);
        }
    }
}

/// The row of an instruction that was checked shows its name, its number of variables, its number
/// of constraints and what was found, each in its column, and at the end how long it took.
pub proof fn lemma_row_of_check(target: String, result: VerifyResult)
    requires
        target@.len() <= 28,
        digits(result.num_vars as nat).len() <= 6,
        digits(result.num_constraints as nat).len() <= 6,
    ensures
        in_columns(
            row_line(Row::Checked { target, result }),
            target@,
            digits(result.num_vars as nat),
            digits(result.num_constraints as nat),
            status_of(result),
        ),
        finishes_with(
            row_line(Row::Checked { target, result }),
            " "@ + digits(result.time_ms as nat) + "ms"@,
        ),
{
    let line = row_line(Row::Checked { target, result });
    let st = status_of(result);
    let rest = padded(st, 36) + " "@ + digits(result.time_ms as nat) + "ms"@;
    assert(rest.subrange(0, st.len() as int) =~= st);
    let a = target@;
    let b = digits(result.num_vars as nat);
    let c = digits(result.num_constraints as nat);
    lemma_columns(a, b, c, rest, st);
    assert(line =~= "  "@ + padded(a, 28) + " "@ + padded(b, 6) + " "@ + padded(c, 6) + " "@
        + rest);
    let t = " "@ + digits(result.time_ms as nat) + "ms"@;
    assert(line.subrange(line.len() - t.len(), line.len() as int) =~= t);
}

/// The row of an instruction that could not be lowered shows its name and why, in the same columns,
/// and no numbers.
pub proof fn lemma_row_of_failure(target: String, error: String)
    requires
        target@.len() <= 28,
    ensures
        in_columns(
            row_line(Row::Failed { target, error }),
            target@,
            "-"@,
            "-"@,
            "⚠ "@ + error@,
        ),
{
    reveal_strlit("-");
    let line = row_line(Row::Failed { target, error });
    let t = "⚠ "@ + error@;
    let rest = padded(t, 36);
    assert(rest.subrange(0, t.len() as int) =~= t);
    lemma_columns(target@, "-"@, "-"@, rest, t);
    assert(line =~= "  "@ + padded(target@, 28) + " "@ + padded("-"@, 6) + " "@ + padded("-"@, 6)
        + " "@ + rest);
}

/// The head of the table names its source and its theory, lists the components whose calls are not
/// expanded where there are some, and has its titles in the columns of the rows.
pub proof fn lemma_head_of_table(file: Seq<char>, over_integers: bool, abstracts: Seq<Seq<char>>)
    ensures
        ({
            let v = header_lines(file, over_integers, abstracts);
            let extra: int = if abstracts.len() > 0 {
                1
            } else {
                0
            };
            &&& v.len() == 7 + extra
            &&& finishes_with(v[1], ": "@ + file)
            &&& finishes_with(
                v[3],
                if over_integers {
                    ": QF_NIA (Int)"@
                } else {
                    ": QF_BV (BitVec<32>)"@
                },
            )
            &&& abstracts.len() > 0 ==> finishes_with(v[4], ": "@ + joined(abstracts, ", "@))
            &&& in_columns(
                v[5 + extra],
                "Инструкция"@,
                "Пер."@,
                "Огр."@,
                "Результат"@,
            )
            &&& v[6 + extra] == "  "@ + repeated('-', 80)
            &&& v[0] == "\n=== zkVM RISC Zero — Верификатор инструкций ==="@
            &&& v[2] == "  Метод: dual-instance determinism check"@
            &&& v[4 + extra] == "  Решатель: cvc5\n"@
        }),
{
    reveal_strlit("  Источник: ");
    reveal_strlit("  Теория: ");
    reveal_strlit("  UF-абстракция: ");
    reveal_strlit(": ");
    reveal_strlit("QF_NIA (Int)");
    reveal_strlit(": QF_NIA (Int)");
    reveal_strlit("QF_BV (BitVec<32>)");
    reveal_strlit(": QF_BV (BitVec<32>)");
    reveal_strlit("Инструкция");
    reveal_strlit("Пер.");
    reveal_strlit("Огр.");
    reveal_strlit("Результат");
    let v = header_lines(file, over_integers, abstracts);
    let extra: int = if abstracts.len() > 0 {
        1
    } else {
        0
    };
    let f = ": "@ + file;
    assert(v[1].subrange(v[1].len() - f.len(), v[1].len() as int) =~= f);
    let t = if over_integers {
        ": QF_NIA (Int)"@
    } else {
        ": QF_BV (BitVec<32>)"@
    };
    assert(v[3].subrange(v[3].len() - t.len(), v[3].len() as int) =~= t);
    if abstracts.len() > 0 {
        let u = ": "@ + joined(abstracts, ", "@);
        assert(v[4].subrange(v[4].len() - u.len(), v[4].len() as int) =~= u);
    }
    let r = "Результат"@;
    let rest = padded(r, 28) + " "@ + "Время"@;
    assert(rest.subrange(0, r.len() as int) =~= r);
    lemma_columns("Инструкция"@, "Пер."@, "Огр."@, rest, r);
    let title = v[5 + extra];
    assert(title =~= "  "@ + padded("Инструкция"@, 28) + " "@ + padded("Пер."@, 6) + " "@
        + padded("Огр."@, 6) + " "@ + rest);
}

/// How many of some rows are such that a test holds of them.
pub open spec fn rows_that(rows: Seq<Row>, test: spec_fn(Row) -> bool) -> nat {
    rows.filter(test).len()
}

proof fn lemma_counts(rows: Seq<Row>, f: Finding)
    ensures
        count(rows, f) == rows_that(rows, |r: Row| counts_as(r, f)),
        checked(rows) == rows_that(rows, |r: Row| r is Checked),
    decreases rows.len(),
{
    reveal(Seq::filter);
    if rows.len() > 0 {
        lemma_counts(rows.drop_last(), f);
    }
}

/// The last line tells how many rows were checked and how many there are of each finding: first of
/// those that are deterministic, then of those that are not, of those with nothing to check, and of
/// errors.
pub proof fn lemma_end_of_table(rows: Seq<Row>)
    ensures
        summary_lines(rows).len() == 3,
        summary_lines(rows)[0] == "  "@ + repeated('-', 80),
        summary_lines(rows)[2].len() == 0,
        ({
            let n = |f: Finding| digits(rows_that(rows, |r: Row| counts_as(r, f)));
            let line = summary_lines(rows)[1];
            &&& stands_at(
                line,
                digits(rows_that(rows, |r: Row| r is Checked)) + " | Детерминированы: "@ + n(
                    Finding::Deterministic,
                ) + " | Недетерм.: "@ + n(Finding::Nondeterministic) + " | "@,
                "\n  Итого: "@.len() as int,
            )
            &&& finishes_with(
                line,
                "выходов: "@ + n(Finding::NoOutputs) + " | Ошибки: "@ + n(Finding::Error),
            )
        }),
{
    reveal_strlit("");
    reveal_strlit(" | Без выходов: ");
    reveal_strlit("выходов: ");
    reveal_strlit(" | ");
    lemma_counts(rows, Finding::Deterministic);
    lemma_counts(rows, Finding::Nondeterministic);
    lemma_counts(rows, Finding::NoOutputs);
    lemma_counts(rows, Finding::Error);
    let n = |f: Finding| digits(rows_that(rows, |r: Row| counts_as(r, f)));
    let line = summary_lines(rows)[1];
    let a = digits(rows_that(rows, |r: Row| r is Checked)) + " | Детерминированы: "@ + n(
        Finding::Deterministic,
    ) + " | Недетерм.: "@ + n(Finding::Nondeterministic) + " | "@;
    let at = "\n  Итого: "@.len() as int;
    assert(line.subrange(at, at + a.len()) =~= a);
    let b = "выходов: "@ + n(Finding::NoOutputs) + " | Ошибки: "@ + n(Finding::Error);
    assert(line.subrange(line.len() - b.len(), line.len() as int) =~= b);
}

} // verus!
