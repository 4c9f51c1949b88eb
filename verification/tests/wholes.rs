use std::collections::{HashMap, HashSet};

use zkvm_verifier::cli::ir_report;
use zkvm_verifier::ir::{ComponentDB, InstructionSpec, IrConstraint, IrExpr};
use zkvm_verifier::parser::ast::{Expr, Item, Stmt};
use zkvm_verifier::parser::lexer::tokenize;
use zkvm_verifier::parser::Parser;

fn items(source: &str) -> Vec<Item> {
    Parser::parse_file(source).unwrap()
}

fn spec(source: &str, name: &str) -> InstructionSpec {
    ComponentDB::new(&items(source)).checked_lower(name).unwrap().unwrap()
}

/// An item in one line.
fn shown(it: &Item) -> String {
    match it {
        Item::Import(n) => format!("import {}", n),
        Item::Component(c) => format!("component {} at {}", c.name, c.source_line),
        Item::Extern { name, return_type } => format!("extern {}: {}", name, return_type),
    }
}

fn shown_items(source: &str) -> Vec<String> {
    items(source).iter().map(shown).collect()
}

fn variables(e: &IrExpr, into: &mut HashSet<String>) {
    match e {
        IrExpr::Const(_) => {}
        IrExpr::Var(x) => {
            into.insert(x.clone());
        }
        IrExpr::Add(a, b) | IrExpr::Sub(a, b) | IrExpr::Mul(a, b) | IrExpr::Div(a, b) => {
            variables(a, into);
            variables(b, into);
        }
    }
}

/// The variables in the constraints that are not declared, in order.
fn undeclared(s: &InstructionSpec) -> Vec<String> {
    let mut used: HashSet<String> = HashSet::new();
    for c in &s.constraints {
        match c {
            IrConstraint::Eq { lhs, rhs, .. } => {
                variables(lhs, &mut used);
                variables(rhs, &mut used);
            }
            IrConstraint::IsZero { result, expr } => {
                used.insert(result.clone());
                variables(expr, &mut used);
            }
            IrConstraint::Call { args, outputs, .. } => {
                for a in args {
                    variables(a, &mut used);
                }
                for o in outputs {
                    used.insert(o.1.clone());
                }
            }
        }
    }
    for v in s.inputs.iter().chain(&s.outputs).chain(&s.internals) {
        used.remove(&v.name);
    }
    let mut rest: Vec<String> = used.into_iter().collect();
    rest.sort();
    rest
}

#[test]
fn two_texts_stand_for_the_items_of_both() {
    let a = "import b;\n\ncomponent A(x: Val) { x } // end";
    let b = "/* two\nlines */ component B() { 1 }\nextern f(x: Val) : Val;";
    assert_eq!(shown_items(a), vec!["import b", "component A at 3"]);
    assert_eq!(shown_items(b), vec!["component B at 2", "extern f: Val"]);
    let both = format!("{}\n{}", a, b);
    assert_eq!(
        shown_items(&both),
        vec!["import b", "component A at 3", "component B at 5", "extern f: Val"]
    );
    assert_eq!(shown_items("\n"), Vec::<String>::new());
}

#[test]
fn a_comment_that_nothing_closes_swallows_what_follows() {
    let a = "component A() { 1 } /*";
    let b = "component B() { 1 }";
    assert_eq!(shown_items(a), vec!["component A at 1"]);
    assert!(Parser::parse_file(&format!("{}\n{}", a, b)).is_err());
}

#[test]
fn the_order_of_items_does_not_matter() {
    let parts = [
        "component P(a: Val) { public fst := Reg(a); }",
        "extern H(x: Val) : P;",
        "component A(x: Val) { p := P(x); H(x).fst + p.fst }",
    ];
    let first = ComponentDB::new(&items(&parts.join(" ")));
    for order in [[0, 2, 1], [1, 0, 2], [1, 2, 0], [2, 0, 1], [2, 1, 0]] {
        let text: Vec<&str> = order.iter().map(|i| parts[*i]).collect();
        let db = ComponentDB::new(&items(&text.join(" ")));
        assert_eq!(db.names(), first.names());
        for name in ["A", "P"] {
            assert_eq!(
                ir_report(&db.checked_lower(name).unwrap().unwrap()),
                ir_report(&first.checked_lower(name).unwrap().unwrap())
            );
        }
    }
}

#[test]
fn imports_define_nothing() {
    let with = ComponentDB::new(&items("import q; component A(x: Val) { x } import A;"));
    let without = ComponentDB::new(&items("component A(x: Val) { x }"));
    assert_eq!(with.names(), without.names());
    assert_eq!(
        ir_report(&with.checked_lower("A").unwrap().unwrap()),
        ir_report(&without.checked_lower("A").unwrap().unwrap())
    );
}

#[test]
fn the_last_of_several_definitions_counts() {
    let s = spec(
        "component P() { 1 } extern H() : Val; component P() { 2 } extern H() : ValU32;
         component A() { h := H(); P() + h.low }",
        "A",
    );
    assert_eq!(s.internals.len(), 2);
    assert_eq!(s.internals[0].name, "ext_low_1");
    match &s.constraints[0] {
        IrConstraint::Eq { rhs: IrExpr::Add(l, _), .. } => {
            assert!(matches!(**l, IrExpr::Const(2)));
        }
        _ => panic!(),
    }
}

fn the_expression(source: &str) -> Expr {
    let text = format!("component A() {{ {} }}", source);
    match items(&text).remove(0) {
        Item::Component(mut c) => match c.body.remove(0) {
            Stmt::ExprStmt(e) => e,
            _ => panic!(),
        },
        _ => panic!(),
    }
}

#[test]
fn an_expression_that_is_written_out_is_read_as_the_same() {
    for source in [
        "0",
        "18446744073709551615",
        "x_1",
        "a.b.c",
        "a + b * c - d / e & f",
        "(a - b) - (c - d)",
        "f()",
        "ToBits<16>(x, g(y), 3)[2].low",
        "for i : 0 .. 3 { x[i] * 2 }",
        "(for i : 0 .. 3 { x })[0] + 0.y",
    ] {
        let e = the_expression(source);
        let again = the_expression(&e.display());
        assert_eq!(again.display(), e.display());
        assert_eq!(format!("{:?}", again), format!("{:?}", e));
    }
    assert_eq!(the_expression("a+b*c").display(), "(a + (b * c))");
}

/// An expression and its parts.
fn parts<'a>(e: &'a Expr, into: &mut Vec<&'a Expr>) {
    into.push(e);
    match e {
        Expr::IntLit(_) | Expr::Ident(_) => {}
        Expr::Field { object, .. } => parts(object, into),
        Expr::BinOp { lhs, rhs, .. } => {
            parts(lhs, into);
            parts(rhs, into);
        }
        Expr::Call { args, .. } => args.iter().for_each(|a| parts(a, into)),
        Expr::Index { object, index } => {
            parts(object, into);
            parts(index, into);
        }
        Expr::For { body, .. } => parts(body, into),
    }
}

fn expressions<'a>(block: &'a [Stmt], into: &mut Vec<&'a Expr>) {
    for s in block {
        match s {
            Stmt::Binding { value, .. } => parts(value, into),
            Stmt::Constraint { lhs, rhs } => {
                parts(lhs, into);
                parts(rhs, into);
            }
            Stmt::ExprStmt(e) => parts(e, into),
            Stmt::Mux { guards, branches } => {
                guards.iter().for_each(|g| parts(g, into));
                branches.iter().for_each(|b| expressions(b, into));
            }
        }
    }
}

#[test]
fn every_expression_of_a_text_can_be_written_into_a_component() {
    let all = items(
        "component A(x: Val, v: ValU32) {
             public y := f<3>(x, v.low)[1 + 2] * 0x10;
             [x, 1 - x] -> ({ x & 3 = g(); }, { [y] ->! ({ 1; }); });
             note!(1 2 3);
             for i : 0 .. 3 { x[i] / 2 }
         }
         component B() { 7; a.b.c }",
    );
    let mut found: Vec<&Expr> = Vec::new();
    for it in &all {
        if let Item::Component(c) = it {
            expressions(&c.body, &mut found);
        }
    }
    assert_eq!(found.len(), 30);
    for e in found {
        let text = format!("component C() {{ {} }}", e.display());
        let again = items(&text);
        assert_eq!(again.len(), 1);
        match &again[0] {
            Item::Component(c) => {
                assert_eq!(c.name, "C");
                assert_eq!(c.source_line, 1);
                assert!(c.type_params.is_empty());
                assert!(c.params.is_empty());
                assert_eq!(c.body.len(), 1);
                match &c.body[0] {
                    Stmt::ExprStmt(x) => assert_eq!(format!("{:?}", x), format!("{:?}", e)),
                    _ => panic!(),
                }
            }
            _ => panic!(),
        }
    }
}

#[test]
fn a_mux_needs_a_semicolon_and_keeps_its_order() {
    for arrow in ["->", "->!"] {
        let bare = format!("component A() {{\n[a, b] {} ({{ 1 }},\n{{ 2 }})\n}}", arrow);
        assert_eq!(
            Parser::parse_file(&bare).err().unwrap(),
            "Expected Semicolon, got RBrace line 4"
        );
        let fewer = format!("component A() {{\n[a, b] {} ({{ 1 }}) ;\n}}", arrow);
        assert_eq!(
            Parser::parse_file(&fewer).err().unwrap(),
            "mux: 2 guards but 1 branches at line 3"
        );
        let text = format!("component A() {{ [a, b, c] {} ({{ 1 }}, {{ 2 }}, {{ 3 }}); }}", arrow);
        match &items(&text)[0] {
            Item::Component(c) => match &c.body[0] {
                Stmt::Mux { guards, branches } => {
                    let names: Vec<String> = guards.iter().map(|g| g.display()).collect();
                    assert_eq!(names, vec!["a", "b", "c"]);
                    let mut found: Vec<&Expr> = Vec::new();
                    branches.iter().for_each(|b| expressions(b, &mut found));
                    let values: Vec<String> = found.iter().map(|e| e.display()).collect();
                    assert_eq!(values, vec!["1", "2", "3"]);
                }
                _ => panic!(),
            },
            _ => panic!(),
        }
    }
}

#[test]
fn a_mux_needs_a_block_for_each_guard() {
    for arrow in ["->", "->!"] {
        for guards in 0..3 {
            for blocks in 0..3 {
                let text = format!(
                    "component A(g: Val) {{ [{}] {} ({}); }}",
                    vec!["g"; guards].join(", "),
                    arrow,
                    vec!["{}"; blocks].join(", ")
                );
                assert_eq!(Parser::parse_file(&text).is_ok(), guards == blocks);
            }
        }
    }
}

#[test]
fn variables_are_declared_where_every_name_is_bound() {
    let source = "
        component P(a: Val) { public fst := Reg(a); public snd := a / 3; }
        component Q(p: P, v: ValU32) { public q := BitwiseAndU16(p.fst, v.low); IsZero(v.high) }
        extern H(x: Val) : P;
        component A(x: Val, v: ValU32) {
            p := P(x);
            [x, 1 - x] -> ({ q := Q(p, v); q.q = 2; }, { public w := ValU32(x, p.snd); });
            b := for i : 0 .. 3 { NondetBitReg(i) };
            ToBits<3>(H(x).snd)[1] + b[2]
        }";
    let mut db = ComponentDB::new(&items(source));
    for _ in 0..2 {
        for name in ["A", "P", "Q"] {
            let s = db.checked_lower(name).unwrap().unwrap();
            assert_eq!(undeclared(&s), Vec::<String>::new());
            let names: HashSet<&String> = s.internals.iter().map(|v| &v.name).collect();
            assert_eq!(names.len(), s.internals.len());
        }
        db.set_abstract(&["P", "Q"]);
    }
    assert_eq!(undeclared(&spec("component A() { x.f = y; }", "A")), vec!["x.f", "y"]);
}

#[test]
fn only_components_that_are_not_expanded_are_called() {
    let source = "component P(a: Val) { public fst := a; } component A(x: Val) { P(P(x).fst).fst }";
    let mut db = ComponentDB::new(&items(source));
    let calls = |db: &ComponentDB| {
        let s = db.checked_lower("A").unwrap().unwrap();
        s.constraints.iter().filter(|c| matches!(c, IrConstraint::Call { .. })).count()
    };
    assert_eq!(calls(&db), 0);
    db.set_abstract(&["P"]);
    assert_eq!(calls(&db), 2);
    db.set_abstract(&[]);
    assert_eq!(calls(&db), 0);
}

#[test]
fn a_call_adds_no_output() {
    let s = spec(
        "component P(a: Val) { public fst := a; public v := ValU32(a, 1); }
         component A(x: Val) { p := P(x); public y := p.fst; }",
        "A",
    );
    let names: Vec<&String> = s.outputs.iter().map(|v| &v.name).collect();
    assert_eq!(names, vec!["y_2"]);
}

#[test]
fn a_structure_has_each_name_once() {
    let s = spec(
        "component P(a: Val) { public f := a; public f := a + 1; ValU32(a, 2) }
         component A(x: Val) { P(x) }",
        "A",
    );
    let names: Vec<&String> = s.outputs.iter().map(|v| &v.name).collect();
    assert_eq!(names, vec!["result.low", "result.high", "result.f"]);
}

#[test]
fn names_of_variables_are_made_once() {
    let s = spec(
        "component P(a: Val) { r := Reg(a); public r_1 := r; }
         component A(x: Val) { r := Reg(x); p := P(x); q := P(p.r_1); q.r_1 / r }",
        "A",
    );
    let mut count: HashMap<&String, usize> = HashMap::new();
    for v in &s.internals {
        *count.entry(&v.name).or_insert(0) += 1;
    }
    assert_eq!(count.len(), 6);
    assert!(count.values().all(|n| *n == 1));
}

#[test]
fn white_space_before_a_text_only_moves_it_down() {
    let text = "component A() { 1 }\nimport b;";
    assert_eq!(shown_items(text), vec!["component A at 1", "import b"]);
    assert_eq!(shown_items(&format!(" \n\t\r\n\u{2003}{}", text)), vec!["component A at 3", "import b"]);
}

#[test]
fn lines_of_tokens_count_the_line_breaks_before_them() {
    let source = "component\nA // a\n/* b\nc */ (\n\n)";
    let lines: Vec<usize> = tokenize(source).unwrap().iter().map(|t| t.line).collect();
    assert_eq!(lines, vec![1, 2, 4, 6, 6]);
}

#[test]
fn names_that_are_no_components_need_not_be_left_unexpanded() {
    let source = "component P(a: Val) { public fst := Reg(a); } extern H(x: Val) : P;
                  component A(x: Val) { P(x).fst + H(x).fst }";
    let plain = ComponentDB::new(&items(source));
    let mut other = ComponentDB::new(&items(source));
    other.set_abstract(&["Q", "H", "Reg", ""]);
    assert_eq!(
        ir_report(&plain.checked_lower("A").unwrap().unwrap()),
        ir_report(&other.checked_lower("A").unwrap().unwrap())
    );
    other.set_abstract(&["Q", "P"]);
    assert_ne!(
        ir_report(&plain.checked_lower("A").unwrap().unwrap()),
        ir_report(&other.checked_lower("A").unwrap().unwrap())
    );
}
