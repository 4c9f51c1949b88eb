//! What the commands of the program mean, and what they print.

use vstd::prelude::*;
use vstd::string::StringExecFns;
use crate::ir::{
    constraints, max_value, vars, ConstraintV, InstructionSpec, IrConstraint, IrExpr, IrExprV,
    SpecV, Var, VarType, VarV,
};
use crate::parser::ast::{items, pairs, ComponentDef, Item, ItemV};
use crate::text::{
    after_prefix, begins_with, cat2, cat3, cat4, cat5, cat6, cat7, contains, debug_form,
    debug_string, decimal, digits, ends_with, finishes_with, indent, indented, join, joined, listed,
    occurs, pad, padded, repeat, repeated, same, signed_decimal, signed_digits, split_list,
    starts_with, texts, wide_decimal,
};
use crate::verifier_bv::VerifyResult;

verus! {

// ---------------------------------------------------------------------------
// Commands
// ---------------------------------------------------------------------------

/// A command.
#[derive(Debug)]
pub enum Command {
    Parse { file: String },
    List { file: String },
    Ir { file: String, instruction: String },
    Verify { file: String, instruction: String, over_integers: bool, abstracts: Vec<String> },
    Help,
}

/// A command as a mathematical value.
pub enum CommandV {
    Parse { file: Seq<char> },
    List { file: Seq<char> },
    Ir { file: Seq<char>, instruction: Seq<char> },
    Verify {
        file: Seq<char>,
        instruction: Seq<char>,
        over_integers: bool,
        abstracts: Seq<Seq<char>>,
    },
    Help,
}

impl Command {
    /// The mathematical value of the command.
    pub open spec fn view(&self) -> CommandV {
        match self {
            Command::Parse { file } => CommandV::Parse { file: file@ },
            Command::List { file } => CommandV::List { file: file@ },
            Command::Ir { file, instruction } => CommandV::Ir {
                file: file@,
                instruction: instruction@,
            },
            Command::Verify { file, instruction, over_integers, abstracts } => CommandV::Verify {
                file: file@,
                instruction: instruction@,
                over_integers: *over_integers,
                abstracts: texts(abstracts@),
            },
            Command::Help => CommandV::Help,
        }
    }
}

/// The word at `i`, or else a default.
pub open spec fn word(args: Seq<Seq<char>>, i: int, default: Seq<char>) -> Seq<char> {
    if 0 <= i < args.len() {
        args[i]
    } else {
        default
    }
}

/// The components that the last `--abstract=` among the first `n` words names, from the
/// third word on.
pub open spec fn abstracts_of(args: Seq<Seq<char>>, n: int) -> Seq<Seq<char>>
    decreases n,
{
    if n <= 2 {
        Seq::empty()
    } else if begins_with(args[n - 1], "--abstract="@) {
        listed(args[n - 1].skip("--abstract="@.len() as int))
    } else {
        abstracts_of(args, n - 1)
    }
}

/// The words among the first `n` that are no options, from the third word on.
pub open spec fn positionals(args: Seq<Seq<char>>, n: int) -> Seq<Seq<char>>
    decreases n,
{
    if n <= 2 {
        Seq::empty()
    } else if begins_with(args[n - 1], "--abstract="@) || begins_with(args[n - 1], "--"@) {
        positionals(args, n - 1)
    } else {
        positionals(args, n - 1).push(args[n - 1])
    }
}

/// The command that words give; the first word is the name of the program.
pub open spec fn command_of(args: Seq<Seq<char>>) -> CommandV {
    let c = word(args, 1, "help"@);
    let len = args.len() as int;
    if c == "parse"@ {
        CommandV::Parse { file: word(args, 2, "specs/u32.zir"@) }
    } else if c == "list"@ {
        CommandV::List { file: word(args, 2, "specs/u32.zir"@) }
    } else if c == "ir"@ {
        CommandV::Ir {
            file: word(args, 2, "specs/u32.zir"@),
            instruction: word(args, 3, "AddU32"@),
        }
    } else if c == "verify"@ && len >= 2 {
        CommandV::Verify {
            file: word(positionals(args, len), 0, "specs/u32.zir"@),
            instruction: word(positionals(args, len), 1, "all"@),
            over_integers: false,
            abstracts: abstracts_of(args, len),
        }
    } else if c == "verify-int"@ && len >= 2 {
        CommandV::Verify {
            file: word(positionals(args, len), 0, "specs/mult.zir"@),
            instruction: word(positionals(args, len), 1, "all"@),
            over_integers: true,
            abstracts: abstracts_of(args, len),
        }
    } else {
        CommandV::Help
    }
}

/// The word at `i`, or else a default.
fn word_at(args: &Vec<String>, i: usize, default: &str) -> (r: String)
    ensures
        r@ == word(texts(args@), i as int, default@),
{
    if i < args.len() {
        args[i].clone()
    } else {
        default.to_owned()
    }
}

/// The file, the instruction and the components whose calls are not to be expanded, from
/// the words behind the name of a command.
pub fn parse_verify_args(args: &Vec<String>, default_file: &str) -> (r: (
    String,
    String,
    Vec<String>,
))
    requires
        args@.len() >= 2,
    ensures
        r.0@ == word(positionals(texts(args@), args@.len() as int), 0, default_file@),
        r.1@ == word(positionals(texts(args@), args@.len() as int), 1, "all"@),
        texts(r.2@) == abstracts_of(texts(args@), args@.len() as int),
{
    let ghost all = texts(args@);
    let mut abstracts: Vec<String> = Vec::new();
    let mut positional: Vec<String> = Vec::new();
    let mut i: usize = 2;
    proof {
        assert(texts(abstracts@) =~= abstracts_of(all, 2));
        assert(texts(positional@) =~= positionals(all, 2));
    }
    while i < args.len()
        invariant
            2 <= i <= args.len(),
            all == texts(args@),
            texts(abstracts@) == abstracts_of(all, i as int),
            texts(positional@) == positionals(all, i as int),
        decreases args.len() - i,
    {
        assert(all[i as int] == args@[i as int]@);
        match after_prefix(&args[i], "--abstract=") {
            Some(rest) => {
                abstracts = split_list(&rest);
            },
            None => {
                if !starts_with(&args[i], "--") {
                    let ghost was = texts(positional@);
                    positional.push(args[i].clone());
                    assert(texts(positional@) =~= was.push(all[i as int]));
                }
            },
        }
        i += 1;
    }
    (word_at(&positional, 0, default_file), word_at(&positional, 1, "all"), abstracts)
}

/// The command that words give; the first word is the name of the program.
pub fn command(args: &Vec<String>) -> (r: Command)
    ensures
        r@ == command_of(texts(args@)),
{
    let c = word_at(args, 1, "help");
    if same(&c, "parse") {
        Command::Parse { file: word_at(args, 2, "specs/u32.zir") }
    } else if same(&c, "list") {
        Command::List { file: word_at(args, 2, "specs/u32.zir") }
    } else if same(&c, "ir") {
        Command::Ir {
            file: word_at(args, 2, "specs/u32.zir"),
            instruction: word_at(args, 3, "AddU32"),
        }
    } else if same(&c, "verify") && args.len() >= 2 {
        let (file, instruction, abstracts) = parse_verify_args(args, "specs/u32.zir");
        Command::Verify { file, instruction, over_integers: false, abstracts }
    } else if same(&c, "verify-int") && args.len() >= 2 {
        let (file, instruction, abstracts) = parse_verify_args(args, "specs/mult.zir");
        Command::Verify { file, instruction, over_integers: true, abstracts }
    } else {
        Command::Help
    }
}

/// The instructions to check: the one that is named, or those that belong to the file.
pub open spec fn targets_of(file: Seq<char>, instruction: Seq<char>) -> Seq<Seq<char>> {
    if instruction == "all"@ {
        if finishes_with(file, "mult.zir"@) {
            seq![
                "ExpandU32"@,
                "SplitTotal"@,
                "MultiplySettings"@,
                "MultiplyAccumulate"@,
                "Expand32TestCase"@,
                "MultiplyTestCase"@,
            ]
        } else if finishes_with(file, "div.zir"@) {
            seq!["DoDivU16"@, "DoDivU"@]
        } else {
            seq![
                "AddU32"@,
                "SubU32"@,
                "NormalizeU32"@,
                "CmpEqual"@,
                "CmpLessThanUnsigned"@,
                "CmpLessThan"@,
                "GetSignU32"@,
                "BitwiseAnd"@,
                "BitwiseOr"@,
                "BitwiseXor"@,
                "AssertEqU32"@,
                "CondDenormed"@,
                "Denorm"@,
                "Flat"@,
            ]
        }
    } else {
        seq![instruction]
    }
}

/// Appends a line.
fn push_line(v: &mut Vec<String>, line: String)
    ensures
        texts(final(v)@) == texts(old(v)@).push(line@),
{
    v.push(line);
    assert(texts(v@) =~= texts(old(v)@).push(line@));
}

/// The instructions to check: the one that is named, or those that belong to the file.
pub fn targets(file: &str, instruction: &str) -> (r: Vec<String>)
    ensures
        texts(r@) == targets_of(file@, instruction@),
{
    let mut v: Vec<String> = Vec::new();
    if same(instruction, "all") {
        if ends_with(file, "mult.zir") {
            push_line(&mut v, "ExpandU32".to_owned());
            push_line(&mut v, "SplitTotal".to_owned());
            push_line(&mut v, "MultiplySettings".to_owned());
            push_line(&mut v, "MultiplyAccumulate".to_owned());
            push_line(&mut v, "Expand32TestCase".to_owned());
            push_line(&mut v, "MultiplyTestCase".to_owned());
        } else if ends_with(file, "div.zir") {
            push_line(&mut v, "DoDivU16".to_owned());
            push_line(&mut v, "DoDivU".to_owned());
        } else {
            push_line(&mut v, "AddU32".to_owned());
            push_line(&mut v, "SubU32".to_owned());
            push_line(&mut v, "NormalizeU32".to_owned());
            push_line(&mut v, "CmpEqual".to_owned());
            push_line(&mut v, "CmpLessThanUnsigned".to_owned());
            push_line(&mut v, "CmpLessThan".to_owned());
            push_line(&mut v, "GetSignU32".to_owned());
            push_line(&mut v, "BitwiseAnd".to_owned());
            push_line(&mut v, "BitwiseOr".to_owned());
            push_line(&mut v, "BitwiseXor".to_owned());
            push_line(&mut v, "AssertEqU32".to_owned());
            push_line(&mut v, "CondDenormed".to_owned());
            push_line(&mut v, "Denorm".to_owned());
            push_line(&mut v, "Flat".to_owned());
        }
    } else {
        push_line(&mut v, instruction.to_owned());
    }
    assert(texts(v@) =~= targets_of(file@, instruction@));
    v
}

// ---------------------------------------------------------------------------
// Items
// ---------------------------------------------------------------------------

/// The texts of parameters.
pub open spec fn param_texts(params: Seq<(Seq<char>, Seq<char>)>) -> Seq<Seq<char>> {
    params.map_values(|p: (Seq<char>, Seq<char>)| p.0 + ": "@ + p.1)
}

/// The line for an item; `n` components came before it.
pub open spec fn item_line(item: ItemV, n: nat) -> Seq<char> {
    match item {
        ItemV::Import(name) => "  import "@ + name,
        ItemV::Component(c) => "  "@ + indented(digits(n + 1), 2) + ". component "@ + c.name + "("@
            + joined(param_texts(c.params), ", "@) + ") — "@ + digits(c.body.len())
            + " stmts [строка "@ + digits(c.source_line) + "]"@,
        ItemV::Extern { name, return_type } => "  extern "@ + name + " : "@ + return_type,
    }
}

/// How many of the first `n` items are components.
pub open spec fn component_count(its: Seq<ItemV>, n: nat) -> nat
    decreases n,
{
    if n == 0 || n > its.len() {
        0
    } else {
        component_count(its, (n - 1) as nat) + if its[n - 1] is Component {
            1nat
        } else {
            0nat
        }
    }
}

/// The lines for the first `n` items.
pub open spec fn item_lines(its: Seq<ItemV>, n: nat) -> Seq<Seq<char>>
    decreases n,
{
    if n == 0 || n > its.len() {
        Seq::empty()
    } else {
        item_lines(its, (n - 1) as nat).push(
            item_line(its[n - 1], component_count(its, (n - 1) as nat)),
        )
    }
}

/// What is printed of the items of a file.
pub open spec fn parse_lines(file: Seq<char>, its: Seq<ItemV>) -> Seq<Seq<char>> {
    seq!["=== Парсинг "@ + file + " ===\n"@] + item_lines(its, its.len()) + seq![
        "\n  Итого: "@ + digits(component_count(its, its.len()))
            + " компонентов | Парсинг: OK ✓"@,
    ]
}

/// Writes the line for a component.
fn component_line(c: &ComponentDef, n: usize) -> (r: String)
    requires
        n < usize::MAX,
    ensures
        r@ == item_line(ItemV::Component(c@), n as nat),
{
    let mut params: Vec<String> = Vec::new();
    let mut i: usize = 0;
    let ghost all = pairs(c.params@);
    assert(texts(params@) =~= param_texts(all.take(0)));
    while i < c.params.len()
        invariant
            i <= c.params.len(),
            all == pairs(c.params@),
            texts(params@) == param_texts(all.take(i as int)),
        decreases c.params.len() - i,
    {
        let ghost was = texts(params@);
        push_line(&mut params, cat3(&c.params[i].0, ": ", &c.params[i].1));
        i += 1;
        assert(texts(params@) =~= param_texts(all.take(i as int)));
    }
    assert(all.take(i as int) =~= all);
    let number = indent(&decimal((n + 1) as u64), 2);
    let head = cat7("  ", &number, ". component ", &c.name, "(", &join(&params, ", "), ") — ");
    cat5(
        &head,
        &decimal(c.body.len() as u64),
        " stmts [строка ",
        &decimal(c.source_line as u64),
        "]",
    )
}

/// What is printed of the items of a file.
pub fn parse_report(file: &str, its: &Vec<Item>) -> (r: Vec<String>)
    ensures
        texts(r@) == parse_lines(file@, items(its@)),
{
    let ghost all = items(its@);
    let mut v: Vec<String> = Vec::new();
    let head = cat3("=== Парсинг ", file, " ===\n");
    let ghost first = seq![head@];
    push_line(&mut v, head);
    let mut n: usize = 0;
    let mut i: usize = 0;
    assert(texts(v@) =~= first + item_lines(all, 0));
    while i < its.len()
        invariant
            i <= its.len(),
            n <= i,
            all == items(its@),
            n == component_count(all, i as nat),
            texts(v@) == first + item_lines(all, i as nat),
        decreases its.len() - i,
    {
        assert(all[i as int] == its@[i as int]@);
        let ghost was = texts(v@);
        let line = match &its[i] {
            Item::Import(name) => cat2("  import ", name),
            Item::Component(c) => component_line(c, n),
            Item::Extern { name, return_type } => cat4("  extern ", name, " : ", return_type),
        };
        let is_component = match &its[i] {
            Item::Component(_) => true,
            _ => false,
        };
        assert(line@ == item_line(all[i as int], component_count(all, i as nat)));
        push_line(&mut v, line);
        if is_component {
            n += 1;
        }
        i += 1;
        assert(texts(v@) =~= first + item_lines(all, i as nat));
    }
    push_line(
        &mut v,
        cat3("\n  Итого: ", &decimal(n as u64), " компонентов | Парсинг: OK ✓"),
    );
    assert(texts(v@) =~= parse_lines(file@, all));
    v
}

/// What is printed of the names of components.
pub open spec fn list_lines(file: Seq<char>, names: Seq<Seq<char>>) -> Seq<Seq<char>> {
    seq!["Компоненты в "@ + file + ":"@] + names.map_values(|n: Seq<char>| "  - "@ + n)
}

/// What is printed of the names of components.
pub fn list_report(file: &str, names: &Vec<String>) -> (r: Vec<String>)
    ensures
        texts(r@) == list_lines(file@, texts(names@)),
{
    let ghost all = texts(names@);
    let mut v: Vec<String> = Vec::new();
    push_line(&mut v, cat3("Компоненты в ", file, ":"));
    let mut i: usize = 0;
    assert(texts(v@) =~= list_lines(file@, all.take(0)));
    while i < names.len()
        invariant
            i <= names.len(),
            all == texts(names@),
            texts(v@) == list_lines(file@, all.take(i as int)),
        decreases names.len() - i,
    {
        push_line(&mut v, cat2("  - ", &names[i]));
        i += 1;
        assert(texts(v@) =~= list_lines(file@, all.take(i as int)));
    }
    assert(all.take(i as int) =~= all);
    v
}

// ---------------------------------------------------------------------------
// Instructions
// ---------------------------------------------------------------------------

/// The name of a type of variables.
pub open spec fn word_for_type(t: VarType) -> Seq<char> {
    match t {
        VarType::U32 => "U32"@,
        VarType::U16 => "U16"@,
        VarType::U8 => "U8"@,
        VarType::Bit => "Bit"@,
        VarType::Twit => "Twit"@,
        VarType::Val => "Val"@,
    }
}

/// The debugging form of an expression.
pub open spec fn expr_form(e: IrExprV) -> Seq<char>
    decreases e,
{
    match e {
        IrExprV::Const(n) => "Const("@ + signed_digits(n as int) + ")"@,
        IrExprV::Var(x) => "Var("@ + debug_form(x) + ")"@,
        IrExprV::Add(a, b) => "Add("@ + expr_form(*a) + ", "@ + expr_form(*b) + ")"@,
        IrExprV::Sub(a, b) => "Sub("@ + expr_form(*a) + ", "@ + expr_form(*b) + ")"@,
        IrExprV::Mul(a, b) => "Mul("@ + expr_form(*a) + ", "@ + expr_form(*b) + ")"@,
        IrExprV::Div(a, b) => "Div("@ + expr_form(*a) + ", "@ + expr_form(*b) + ")"@,
    }
}

/// The line for a variable.
pub open spec fn var_line(v: VarV) -> Seq<char> {
    "    "@ + v.name + " : "@ + word_for_type(v.vtype) + " ["@ + "0"@ + ", "@ + digits(
        max_value(v.vtype) as nat,
    ) + "]"@
}

/// The texts of the outputs of a call.
pub open spec fn output_texts(outputs: Seq<(Seq<char>, Seq<char>)>) -> Seq<Seq<char>> {
    outputs.map_values(|p: (Seq<char>, Seq<char>)| p.0 + "="@ + p.1)
}

/// The line for constraint number `n`.
pub open spec fn constraint_line(c: ConstraintV, n: nat) -> Seq<char> {
    "    "@ + digits(n) + ". "@ + match c {
        ConstraintV::Eq { lhs, rhs, tag } => expr_form(lhs) + " = "@ + expr_form(rhs) + "  ["@ + tag
            + "]"@,
        ConstraintV::IsZero { result, expr } => result + " = IsZero("@ + expr_form(expr) + ")"@,
        ConstraintV::Call { component, args, outputs } => "UF["@ + component + "]("@ + digits(
            args.len(),
        ) + " args) → "@ + joined(output_texts(outputs), ", "@),
    }
}

/// The lines for variables, behind a title.
pub open spec fn var_lines(title: Seq<char>, vs: Seq<VarV>) -> Seq<Seq<char>> {
    seq!["  "@ + title + " ("@ + digits(vs.len()) + "):"@] + vs.map_values(|v: VarV| var_line(v))
}

/// The lines for constraints, behind a title.
pub open spec fn constraint_lines(cs: Seq<ConstraintV>) -> Seq<Seq<char>> {
    seq!["  Ограничения ("@ + digits(cs.len()) + "):"@] + Seq::new(
        cs.len(),
        |i: int| constraint_line(cs[i], (i + 1) as nat),
    )
}

/// What is printed of an instruction.
pub open spec fn ir_lines(s: SpecV) -> Seq<Seq<char>> {
    seq!["=== IR: "@ + s.name + " (строка "@ + digits(s.source_line) + ") ===\n"@] + var_lines(
        "Входы"@,
        s.inputs,
    ) + var_lines("Выходы"@, s.outputs) + var_lines("Промежуточные"@, s.internals)
        + constraint_lines(s.constraints)
}

/// Writes the name of a type of variables.
fn name_of_type(t: VarType) -> (r: String)
    ensures
        r@ == word_for_type(t),
{
    match t {
        VarType::U32 => "U32".to_owned(),
        VarType::U16 => "U16".to_owned(),
        VarType::U8 => "U8".to_owned(),
        VarType::Bit => "Bit".to_owned(),
        VarType::Twit => "Twit".to_owned(),
        VarType::Val => "Val".to_owned(),
    }
}

/// Writes the debugging form of an expression.
pub fn form_of_expr(e: &IrExpr) -> (r: String)
    ensures
        r@ == expr_form(e@),
    decreases e,
{
    match e {
        IrExpr::Const(n) => cat3("Const(", &signed_decimal(*n), ")"),
        IrExpr::Var(x) => cat3("Var(", &debug_string(x), ")"),
        IrExpr::Add(a, b) => cat5("Add(", &form_of_expr(a), ", ", &form_of_expr(b), ")"),
        IrExpr::Sub(a, b) => cat5("Sub(", &form_of_expr(a), ", ", &form_of_expr(b), ")"),
        IrExpr::Mul(a, b) => cat5("Mul(", &form_of_expr(a), ", ", &form_of_expr(b), ")"),
        IrExpr::Div(a, b) => cat5("Div(", &form_of_expr(a), ", ", &form_of_expr(b), ")"),
    }
}

/// Writes the line for a variable.
fn line_of_var(v: &Var) -> (r: String)
    ensures
        r@ == var_line(v@),
{
    let (_, max) = v.vtype.range();
    let head = cat6("    ", &v.name, " : ", &name_of_type(v.vtype), " [", "0");
    cat4(&head, ", ", &decimal(max as u64), "]")
}

/// Writes the line for constraint number `n`.
fn line_of_constraint(c: &IrConstraint, n: usize) -> (r: String)
    ensures
        r@ == constraint_line(c@, n as nat),
{
    let head = cat3("    ", &decimal(n as u64), ". ");
    let rest = match c {
        IrConstraint::Eq { lhs, rhs, tag } => cat6(
            &form_of_expr(lhs),
            " = ",
            &form_of_expr(rhs),
            "  [",
            tag,
            "]",
        ),
        IrConstraint::IsZero { result, expr } => cat4(
            result,
            " = IsZero(",
            &form_of_expr(expr),
            ")",
        ),
        IrConstraint::Call { component, args, outputs } => {
            let ghost all = pairs(outputs@);
            let mut outs: Vec<String> = Vec::new();
            let mut i: usize = 0;
            assert(texts(outs@) =~= output_texts(all.take(0)));
            while i < outputs.len()
                invariant
                    i <= outputs.len(),
                    all == pairs(outputs@),
                    texts(outs@) == output_texts(all.take(i as int)),
                decreases outputs.len() - i,
            {
                push_line(&mut outs, cat3(&outputs[i].0, "=", &outputs[i].1));
                i += 1;
                assert(texts(outs@) =~= output_texts(all.take(i as int)));
            }
            assert(all.take(i as int) =~= all);
            cat6(
                "UF[",
                component,
                "](",
                &decimal(args.len() as u64),
                " args) → ",
                &join(&outs, ", "),
            )
        },
    };
    cat2(&head, &rest)
}

/// Appends the lines for variables, behind a title.
fn push_vars(v: &mut Vec<String>, title: &str, vs: &Vec<Var>)
    ensures
        texts(final(v)@) == texts(old(v)@) + var_lines(title@, vars(vs@)),
{
    let ghost start = texts(v@);
    let ghost all = vars(vs@);
    let head = cat5("  ", title, " (", &decimal(vs.len() as u64), "):");
    let ghost first = seq![head@];
    push_line(v, head);
    let mut i: usize = 0;
    assert(texts(v@) =~= start + (first + all.take(0).map_values(|x: VarV| var_line(x))));
    while i < vs.len()
        invariant
            i <= vs.len(),
            all == vars(vs@),
            texts(v@) == start + (first + all.take(i as int).map_values(|x: VarV| var_line(x))),
        decreases vs.len() - i,
    {
        push_line(v, line_of_var(&vs[i]));
        i += 1;
        assert(all[i - 1] == vs@[i - 1]@);
        assert(texts(v@) =~= start + (first + all.take(i as int).map_values(
            |x: VarV| var_line(x),
        )));
    }
    assert(all.take(i as int) =~= all);
}

/// What is printed of an instruction.
pub fn ir_report(spec: &InstructionSpec) -> (r: Vec<String>)
    ensures
        texts(r@) == ir_lines(spec@),
{
    let mut v: Vec<String> = Vec::new();
    push_line(
        &mut v,
        cat5(
            "=== IR: ",
            &spec.name,
            " (строка ",
            &decimal(spec.source_line as u64),
            ") ===\n",
        ),
    );
    push_vars(&mut v, "Входы", &spec.inputs);
    push_vars(&mut v, "Выходы", &spec.outputs);
    push_vars(&mut v, "Промежуточные", &spec.internals);
    let ghost start = texts(v@);
    let ghost cs = spec@.constraints;
    let head = cat3("  Ограничения (", &decimal(spec.constraints.len() as u64), "):");
    let ghost first = seq![head@];
    push_line(&mut v, head);
    let mut i: usize = 0;
    assert(texts(v@) =~= start + (first + Seq::new(
        0,
        |j: int| constraint_line(cs[j], (j + 1) as nat),
    )));
    while i < spec.constraints.len()
        invariant
            i <= spec.constraints.len(),
            cs == spec@.constraints,
            texts(v@) == start + (first + Seq::new(
                i as nat,
                |j: int| constraint_line(cs[j], (j + 1) as nat),
            )),
        decreases spec.constraints.len() - i,
    {
        assert(cs[i as int] == spec.constraints@[i as int]@);
        push_line(&mut v, line_of_constraint(&spec.constraints[i], i + 1));
        i += 1;
        assert(texts(v@) =~= start + (first + Seq::new(
            i as nat,
            |j: int| constraint_line(cs[j], (j + 1) as nat),
        )));
    }
    assert(texts(v@) =~= ir_lines(spec@));
    v
}

// ---------------------------------------------------------------------------
// Checks
// ---------------------------------------------------------------------------

/// What became of the check of an instruction.
#[derive(Debug)]
pub enum Row {
    /// It was checked.
    Checked { target: String, result: VerifyResult },
    /// It could not be lowered.
    Failed { target: String, error: String },
}

/// What a check found.
#[derive(Debug, Clone, Copy, PartialEq, Eq, Structural)]
pub enum Finding {
    Deterministic,
    Nondeterministic,
    /// There are no outputs to check.
    NoOutputs,
    Error,
}

/// The message of a result without a verdict.
pub open spec fn message_of(r: VerifyResult) -> Seq<char> {
    match r.error {
        Some(e) => e@,
        None => "?"@,
    }
}

/// What a result says.
pub open spec fn finding_of(r: VerifyResult) -> Finding {
    match r.deterministic {
        Some(true) => Finding::Deterministic,
        Some(false) => Finding::Nondeterministic,
        None => if occurs(message_of(r), "No outputs"@) {
            Finding::NoOutputs
        } else {
            Finding::Error
        },
    }
}

/// The words for what a result says.
pub open spec fn status_of(r: VerifyResult) -> Seq<char> {
    match finding_of(r) {
        Finding::Deterministic => "✓ Детерминирован"@,
        Finding::Nondeterministic => "✗ НЕдетерминирован!"@,
        Finding::NoOutputs => "— assertion-only (нечего проверять)"@,
        Finding::Error => "⚠ "@ + message_of(r),
    }
}

/// The line for a row.
pub open spec fn row_line(row: Row) -> Seq<char> {
    match row {
        Row::Checked { target, result } => "  "@ + padded(target@, 28) + " "@ + padded(
            digits(result.num_vars as nat),
            6,
        ) + " "@ + padded(digits(result.num_constraints as nat), 6) + " "@ + padded(
            status_of(result),
            36,
        ) + " "@ + digits(result.time_ms as nat) + "ms"@,
        Row::Failed { target, error } => "  "@ + padded(target@, 28) + " "@ + padded("-"@, 6)
            + " "@ + padded("-"@, 6) + " "@ + padded("⚠ "@ + error@, 36),
    }
}

/// Whether a row counts as a finding. A component that could not be lowered is an error.
pub open spec fn counts_as(row: Row, f: Finding) -> bool {
    match row {
        Row::Checked { result, .. } => finding_of(result) == f,
        Row::Failed { .. } => f == Finding::Error,
    }
}

/// How many of the rows count as a finding.
pub open spec fn count(rows: Seq<Row>, f: Finding) -> nat
    decreases rows.len(),
{
    if rows.len() == 0 {
        0
    } else {
        count(rows.drop_last(), f) + if counts_as(rows.last(), f) {
            1nat
        } else {
            0nat
        }
    }
}

/// How many of the rows were checked.
pub open spec fn checked(rows: Seq<Row>) -> nat
    decreases rows.len(),
{
    if rows.len() == 0 {
        0
    } else {
        checked(rows.drop_last()) + if rows.last() is Checked {
            1nat
        } else {
            0nat
        }
    }
}

/// What is printed before the rows.
pub open spec fn header_lines(
    file: Seq<char>,
    over_integers: bool,
    abstracts: Seq<Seq<char>>,
) -> Seq<Seq<char>> {
    let theory = if over_integers {
        "QF_NIA (Int)"@
    } else {
        "QF_BV (BitVec<32>)"@
    };
    let uf = if abstracts.len() > 0 {
        seq!["  UF-абстракция: "@ + joined(abstracts, ", "@)]
    } else {
        Seq::empty()
    };
    seq![
        "\n=== zkVM RISC Zero — Верификатор инструкций ==="@,
        "  Источник: "@ + file,
        "  Метод: dual-instance determinism check"@,
        "  Теория: "@ + theory,
    ] + uf + seq![
        "  Решатель: cvc5\n"@,
        "  "@ + padded("Инструкция"@, 28) + " "@ + padded("Пер."@, 6) + " "@ + padded("Огр."@, 6)
            + " "@ + padded("Результат"@, 28) + " "@ + "Время"@,
        "  "@ + repeated('-', 80),
    ]
}

/// What is printed behind the rows.
pub open spec fn summary_lines(rows: Seq<Row>) -> Seq<Seq<char>> {
    seq![
        "  "@ + repeated('-', 80),
        "\n  Итого: "@ + digits(checked(rows)) + " | Детерминированы: "@ + digits(
            count(rows, Finding::Deterministic),
        ) + " | Недетерм.: "@ + digits(count(rows, Finding::Nondeterministic))
            + " | Без выходов: "@ + digits(count(rows, Finding::NoOutputs)) + " | Ошибки: "@
            + digits(count(rows, Finding::Error)),
        ""@,
    ]
}

/// The message of a result without a verdict.
fn message(r: &VerifyResult) -> (m: String)
    ensures
        m@ == message_of(*r),
{
    match &r.error {
        Some(e) => e.clone(),
        None => "?".to_owned(),
    }
}

/// What a result says.
pub fn finding(r: &VerifyResult) -> (f: Finding)
    ensures
        f == finding_of(*r),
{
    match r.deterministic {
        Some(true) => Finding::Deterministic,
        Some(false) => Finding::Nondeterministic,
        None => if contains(&message(r), "No outputs") {
            Finding::NoOutputs
        } else {
            Finding::Error
        },
    }
}

/// The words for what a result says.
pub fn status(r: &VerifyResult) -> (s: String)
    ensures
        s@ == status_of(*r),
{
    match finding(r) {
        Finding::Deterministic => "✓ Детерминирован".to_owned(),
        Finding::Nondeterministic => "✗ НЕдетерминирован!".to_owned(),
        Finding::NoOutputs => "— assertion-only (нечего проверять)".to_owned(),
        Finding::Error => cat2("⚠ ", &message(r)),
    }
}

/// Writes the line for a row.
pub fn row_report(row: &Row) -> (r: String)
    ensures
        r@ == row_line(*row),
{
    match row {
        Row::Checked { target, result } => {
            let head = cat7(
                "  ",
                &pad(target, 28),
                " ",
                &pad(&decimal(result.num_vars as u64), 6),
                " ",
                &pad(&decimal(result.num_constraints as u64), 6),
                " ",
            );
            cat5(&head, &pad(&status(result), 36), " ", &wide_decimal(result.time_ms), "ms")
        },
        Row::Failed { target, error } => {
            let head = cat7(
                "  ",
                &pad(target, 28),
                " ",
                &pad("-", 6),
                " ",
                &pad("-", 6),
                " ",
            );
            cat2(&head, &pad(&cat2("⚠ ", error), 36))
        },
    }
}

/// What is printed before the rows.
pub fn header_report(file: &str, over_integers: bool, abstracts: &Vec<String>) -> (r: Vec<String>)
    ensures
        texts(r@) == header_lines(file@, over_integers, texts(abstracts@)),
{
    let mut v: Vec<String> = Vec::new();
    push_line(&mut v, "\n=== zkVM RISC Zero — Верификатор инструкций ===".to_owned());
    push_line(&mut v, cat2("  Источник: ", file));
    push_line(&mut v, "  Метод: dual-instance determinism check".to_owned());
    let theory = if over_integers {
        "QF_NIA (Int)"
    } else {
        "QF_BV (BitVec<32>)"
    };
    push_line(&mut v, cat2("  Теория: ", theory));
    if abstracts.len() > 0 {
        push_line(&mut v, cat2("  UF-абстракция: ", &join(abstracts, ", ")));
    }
    push_line(&mut v, "  Решатель: cvc5\n".to_owned());
    let head = cat7(
        "  ",
        &pad("Инструкция", 28),
        " ",
        &pad("Пер.", 6),
        " ",
        &pad("Огр.", 6),
        " ",
    );
    push_line(&mut v, cat4(&head, &pad("Результат", 28), " ", "Время"));
    push_line(&mut v, cat2("  ", &repeat('-', 80)));
    assert(texts(v@) =~= header_lines(file@, over_integers, texts(abstracts@)));
    v
}

/// Whether a row counts as a finding.
fn row_counts_as(row: &Row, f: Finding) -> (r: bool)
    ensures
        r == counts_as(*row, f),
{
    match row {
        Row::Checked { target: _, result } => finding(result) == f,
        Row::Failed { .. } => f == Finding::Error,
    }
}

/// How many of the rows count as a finding.
pub fn count_rows(rows: &Vec<Row>, f: Finding) -> (r: usize)
    ensures
        r == count(rows@, f),
{
    let mut n: usize = 0;
    let mut i: usize = 0;
    while i < rows.len()
        invariant
            n <= i <= rows.len(),
            n == count(rows@.take(i as int), f),
        decreases rows.len() - i,
    {
        assert(rows@.take(i + 1).drop_last() =~= rows@.take(i as int));
        if row_counts_as(&rows[i], f) {
            n += 1;
        }
        i += 1;
    }
    assert(rows@.take(i as int) =~= rows@);
    n
}

/// How many of the rows were checked.
pub fn count_checked(rows: &Vec<Row>) -> (r: usize)
    ensures
        r == checked(rows@),
{
    let mut n: usize = 0;
    let mut i: usize = 0;
    while i < rows.len()
        invariant
            n <= i <= rows.len(),
            n == checked(rows@.take(i as int)),
        decreases rows.len() - i,
    {
        assert(rows@.take(i + 1).drop_last() =~= rows@.take(i as int));
        match &rows[i] {
            Row::Checked { .. } => {
                n += 1;
            },
            Row::Failed { .. } => {},
        }
        i += 1;
    }
    assert(rows@.take(i as int) =~= rows@);
    n
}

/// What is printed behind the rows.
pub fn summary_report(rows: &Vec<Row>) -> (r: Vec<String>)
    ensures
        texts(r@) == summary_lines(rows@),
{
    let mut v: Vec<String> = Vec::new();
    push_line(&mut v, cat2("  ", &repeat('-', 80)));
    let head = cat6(
        "\n  Итого: ",
        &decimal(count_checked(rows) as u64),
        " | Детерминированы: ",
        &decimal(count_rows(rows, Finding::Deterministic) as u64),
        " | Недетерм.: ",
        &decimal(count_rows(rows, Finding::Nondeterministic) as u64),
    );
    push_line(
        &mut v,
        cat5(
            &head,
            " | Без выходов: ",
            &decimal(count_rows(rows, Finding::NoOutputs) as u64),
            " | Ошибки: ",
            &decimal(count_rows(rows, Finding::Error) as u64),
        ),
    );
    push_line(&mut v, "".to_owned());
    assert(texts(v@) =~= summary_lines(rows@));
    v
}

/// Each row that was checked counts as one finding, and each other row as an error: the
/// findings of all kinds add up to the rows.
pub proof fn lemma_findings_add_up(rows: Seq<Row>)
    ensures
        count(rows, Finding::Deterministic) + count(rows, Finding::Nondeterministic) + count(
            rows,
            Finding::NoOutputs,
        ) + count(rows, Finding::Error) == rows.len(),
        checked(rows) <= rows.len(),
    decreases rows.len(),
{
    if rows.len() > 0 {
        lemma_findings_add_up(rows.drop_last());
    }
}

} // verus!
