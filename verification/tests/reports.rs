use zkvm_verifier::cli::{
    command, count_checked, count_rows, finding, header_report, list_report, parse_report,
    parse_verify_args, row_report, status, summary_report, targets, Command, Finding, Row,
};
use zkvm_verifier::loader::{import_file, read_failure, Action, Loader};
use zkvm_verifier::parser::ast::Item;
use zkvm_verifier::parser::Parser;
use zkvm_verifier::text::{
    after_prefix, contains, decimal, ends_with, indent, is_before, join, pad, repeat, replace_dots,
    signed_decimal, split_list, starts_with, trim, wide_decimal,
};
use zkvm_verifier::verifier_bv::VerifyResult;

fn words(v: &[&str]) -> Vec<String> {
    v.iter().map(|s| s.to_string()).collect()
}

fn result(deterministic: Option<bool>, error: Option<&str>) -> VerifyResult {
    VerifyResult {
        name: "A".to_string(),
        deterministic,
        time_ms: 7,
        error: error.map(|s| s.to_string()),
        num_vars: 12,
        num_constraints: 3,
    }
}

fn checked(r: VerifyResult) -> Row {
    Row::Checked { target: "A".to_string(), result: r }
}

#[test]
fn commands_have_defaults() {
    match command(&words(&["z", "parse"])) {
        Command::Parse { file } => assert_eq!(file, "specs/u32.zir"),
        _ => panic!(),
    }
    match command(&words(&["z", "list", "a.zir"])) {
        Command::List { file } => assert_eq!(file, "a.zir"),
        _ => panic!(),
    }
    match command(&words(&["z", "ir", "a.zir"])) {
        Command::Ir { file, instruction } => {
            assert_eq!(file, "a.zir");
            assert_eq!(instruction, "AddU32");
        }
        _ => panic!(),
    }
    match command(&words(&["z", "verify"])) {
        Command::Verify { file, instruction, over_integers, abstracts } => {
            assert_eq!(file, "specs/u32.zir");
            assert_eq!(instruction, "all");
            assert!(!over_integers);
            assert_eq!(abstracts.len(), 0);
        }
        _ => panic!(),
    }
    match command(&words(&["z", "verify-int"])) {
        Command::Verify { file, over_integers, .. } => {
            assert_eq!(file, "specs/mult.zir");
            assert!(over_integers);
        }
        _ => panic!(),
    }
    assert!(matches!(command(&words(&[])), Command::Help));
    assert!(matches!(command(&words(&["z", "x"])), Command::Help));
}

#[test]
fn arguments_of_a_check() {
    let all = words(&["z", "verify", "--abstract=A,,B", "f.zir", "--quick", "Add", "more"]);
    assert_eq!(
        parse_verify_args(&all, "d.zir"),
        ("f.zir".to_string(), "Add".to_string(), words(&["A", "B"]))
    );
    let all = words(&["z", "verify", "--abstract=A", "--abstract="]);
    assert_eq!(
        parse_verify_args(&all, "d.zir"),
        ("d.zir".to_string(), "all".to_string(), vec![])
    );
}

#[test]
fn targets_depend_on_the_file() {
    assert_eq!(targets("x/u32.zir", "One"), words(&["One"]));
    assert_eq!(targets("x/div.zir", "all"), words(&["DoDivU16", "DoDivU"]));
    assert_eq!(
        targets("mult.zir", "all"),
        words(&[
            "ExpandU32",
            "SplitTotal",
            "MultiplySettings",
            "MultiplyAccumulate",
            "Expand32TestCase",
            "MultiplyTestCase"
        ])
    );
    let rest = targets("anything", "all");
    assert_eq!(rest.len(), 14);
    assert_eq!(rest[0], "AddU32");
    assert_eq!(rest[13], "Flat");
}

#[test]
fn a_file_is_shown_item_by_item() {
    let items = Parser::parse_file(
        "import bits;\nextern f() : T;\ncomponent A(x: Val, y: U32) { x; y }\ncomponent B() {}",
    )
    .unwrap();
    assert_eq!(
        parse_report("a.zir", &items),
        vec![
            "=== Парсинг a.zir ===\n",
            "  import bits",
            "  extern f : T",
            "   1. component A(x: Val, y: U32) — 2 stmts [строка 3]",
            "   2. component B() — 0 stmts [строка 4]",
            "\n  Итого: 2 компонентов | Парсинг: OK ✓"
        ]
    );
}

#[test]
fn components_are_listed() {
    assert_eq!(
        list_report("a.zir", &words(&["A", "B"])),
        vec!["Компоненты в a.zir:", "  - A", "  - B"]
    );
}

#[test]
fn findings_and_their_statuses() {
    let all = [
        (result(Some(true), None), Finding::Deterministic, "✓ Детерминирован"),
        (result(Some(false), None), Finding::Nondeterministic, "✗ НЕдетерминирован!"),
        (
            result(None, Some("No outputs to check")),
            Finding::NoOutputs,
            "— assertion-only (нечего проверять)",
        ),
        (result(None, Some("solve: x")), Finding::Error, "⚠ solve: x"),
        (result(None, None), Finding::Error, "⚠ ?"),
    ];
    for (r, f, s) in all {
        assert_eq!(finding(&r), f);
        assert_eq!(status(&r), s);
    }
}

#[test]
fn rows_are_aligned() {
    assert_eq!(
        row_report(&checked(result(Some(true), None))),
        format!("  {:<28} {:<6} {:<6} {:<36} {}ms", "A", 12, 3, "✓ Детерминирован", 7)
    );
    let failed = Row::Failed { target: "B".to_string(), error: "gone".to_string() };
    assert_eq!(
        row_report(&failed),
        format!("  {:<28} {:<6} {:<6} {:<36}", "B", "-", "-", "⚠ gone")
    );
}

#[test]
fn a_header_names_the_theory_and_the_abstractions() {
    let plain = header_report("f.zir", false, &vec![]);
    assert_eq!(
        plain,
        vec![
            "\n=== zkVM RISC Zero — Верификатор инструкций ===".to_string(),
            "  Источник: f.zir".to_string(),
            "  Метод: dual-instance determinism check".to_string(),
            "  Теория: QF_BV (BitVec<32>)".to_string(),
            "  Решатель: cvc5\n".to_string(),
            format!(
                "  {:<28} {:<6} {:<6} {:<28} {}",
                "Инструкция", "Пер.", "Огр.", "Результат", "Время"
            ),
            format!("  {}", "-".repeat(80)),
        ]
    );
    let ints = header_report("f.zir", true, &words(&["A", "B"]));
    assert_eq!(ints[3], "  Теория: QF_NIA (Int)");
    assert_eq!(ints[4], "  UF-абстракция: A, B");
    assert_eq!(ints.len(), 8);
}

#[test]
fn findings_add_up() {
    let rows = vec![
        checked(result(Some(true), None)),
        checked(result(Some(false), None)),
        checked(result(None, Some("No outputs to check"))),
        checked(result(None, Some("bad"))),
        Row::Failed { target: "B".to_string(), error: "gone".to_string() },
        checked(result(Some(true), None)),
    ];
    assert_eq!(count_checked(&rows), 5);
    assert_eq!(count_rows(&rows, Finding::Deterministic), 2);
    assert_eq!(count_rows(&rows, Finding::Nondeterministic), 1);
    assert_eq!(count_rows(&rows, Finding::NoOutputs), 1);
    assert_eq!(count_rows(&rows, Finding::Error), 2);
    assert_eq!(
        summary_report(&rows),
        vec![
            format!("  {}", "-".repeat(80)),
            "\n  Итого: 5 | Детерминированы: 2 | Недетерм.: 1 | Без выходов: 1 | Ошибки: 2".to_string(),
            String::new(),
        ]
    );
}

/// Loads files out of a list of paths and texts.
fn load(path: &str, files: &[(&str, &str)]) -> Result<(Vec<String>, Vec<String>), String> {
    let (mut loader, mut action) = Loader::new(path);
    let mut read: Vec<String> = Vec::new();
    loop {
        action = match action {
            Action::Read(p) => {
                read.push(p.clone());
                match files.iter().find(|f| f.0 == p) {
                    Some(f) => loader.on_source(&p, f.1),
                    None => return Err(read_failure(&p, "no such file")),
                }
            }
            Action::Find { importer, name } => {
                let dir = match importer.rfind('/') {
                    Some(i) => importer[..i + 1].to_string(),
                    None => String::new(),
                };
                let dep = format!("{}{}", dir, import_file(&name));
                if files.iter().any(|f| f.0 == dep) {
                    loader.on_found(Some(dep))
                } else {
                    loader.on_found(None)
                }
            }
            Action::Finish => break,
            Action::GiveUp(message) => return Err(message),
        };
    }
    let shown = loader
        .into_items()
        .iter()
        .map(|it| match it {
            Item::Import(n) => format!("import {}", n),
            Item::Component(c) => c.name.clone(),
            Item::Extern { name, .. } => name.clone(),
        })
        .collect();
    Ok((read, shown))
}

#[test]
fn imports_are_loaded_once_and_before_what_follows() {
    let files = [
        ("d/a.zir", "component A1() {} import b; import c; import bits; component A2() {}"),
        ("d/b.zir", "import c; import a; component B() {}"),
        ("d/c.zir", "component C() {}"),
    ];
    let (read, items) = load("d/a.zir", &files).unwrap();
    assert_eq!(read, words(&["d/a.zir", "d/b.zir", "d/c.zir"]));
    assert_eq!(
        items,
        words(&["C", "import c", "import a", "B", "A1", "import b", "import c", "import bits", "A2"])
    );
}

#[test]
fn loading_gives_up_with_a_message() {
    assert_eq!(
        load("x.zir", &[]),
        Err("Ошибка чтения x.zir: no such file".to_string())
    );
    assert_eq!(
        load("x.zir", &[("x.zir", "import y;"), ("y.zir", "5")]),
        Err("Ошибка парсинга y.zir: Unexpected IntLit(5) line 1".to_string())
    );
}

#[test]
fn texts_of_numbers() {
    assert_eq!(decimal(0), "0");
    assert_eq!(decimal(u64::MAX), "18446744073709551615");
    assert_eq!(signed_decimal(-42), "-42");
    assert_eq!(signed_decimal(i64::MIN), "-9223372036854775808");
    assert_eq!(signed_decimal(i64::MAX), "9223372036854775807");
    assert_eq!(wide_decimal(u128::MAX), "340282366920938463463374607431768211455");
    assert_eq!(wide_decimal(10), "10");
}

#[test]
fn parts_of_texts() {
    assert_eq!(replace_dots("a.b..c"), "a_b__c");
    assert_eq!(trim("\u{2003} a b \n\t"), "a b");
    assert_eq!(trim(" \n"), "");
    assert!(contains("abcd", "bc"));
    assert!(contains("abcd", ""));
    assert!(!contains("abcd", "ca"));
    assert!(starts_with("--x", "--"));
    assert!(!starts_with("-", "--"));
    assert!(ends_with("a/mult.zir", "mult.zir"));
    assert!(!ends_with("zir", "mult.zir"));
    assert_eq!(after_prefix("--abstract=A", "--abstract="), Some("A".to_string()));
    assert_eq!(after_prefix("abstract=A", "--abstract="), None);
    assert_eq!(split_list(",a,,bc,"), words(&["a", "bc"]));
    assert_eq!(split_list(""), words(&[]));
}

#[test]
fn texts_put_together() {
    assert_eq!(join(&words(&["a", "b", "c"]), ", "), "a, b, c");
    assert_eq!(join(&vec![], ", "), "");
    assert_eq!(repeat('ж', 3), "жжж");
    assert_eq!(pad("ab", 4), "ab  ");
    assert_eq!(pad("abcde", 4), "abcde");
    assert_eq!(indent("7", 2), " 7");
    assert_eq!(indent("100", 2), "100");
    assert!(is_before("A", "B"));
    assert!(is_before("Z", "a"));
    assert!(is_before("a", "ab"));
    assert!(!is_before("ab", "ab"));
}
