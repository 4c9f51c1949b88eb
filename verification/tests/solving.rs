use smtlib::Storage;
use zkvm_verifier::ir::{ComponentDB, InstructionSpec, IrConstraint, IrExpr, Var, VarType};
use zkvm_verifier::model::{all_variables, instance_of, suffix_of, unknown_warning, Side};
use zkvm_verifier::parser::Parser;
use zkvm_verifier::smt::{step_error, Answer, Plan, Step};
use zkvm_verifier::{verifier_bv, verifier_int};

fn spec(source: &str, name: &str) -> InstructionSpec {
    let db = ComponentDB::new(&Parser::parse_file(source).unwrap());
    db.checked_lower(name).unwrap().unwrap()
}

fn abstract_spec(source: &str, name: &str, abstracts: &[&str]) -> InstructionSpec {
    let mut db = ComponentDB::new(&Parser::parse_file(source).unwrap());
    db.set_abstract(abstracts);
    db.checked_lower(name).unwrap().unwrap()
}

/// The steps of a plan, one line each.
fn lines(p: &Plan) -> Vec<String> {
    p.steps
        .iter()
        .map(|s| match s {
            Step::Warn(text) => format!("warn {}", text),
            Step::Declare { label, function } => {
                format!("{}: {}", label, function.ast())
            }
            Step::Assert { label, formula } => format!("{}: {}", label, formula),
        })
        .collect()
}

fn constant(n: i64) -> IrExpr {
    IrExpr::Const(n)
}

fn var(name: &str) -> IrExpr {
    IrExpr::Var(name.to_string())
}

fn variable(name: &str, vtype: VarType) -> Var {
    Var { name: name.to_string(), vtype }
}

fn equation(lhs: IrExpr, rhs: IrExpr) -> IrConstraint {
    IrConstraint::Eq { lhs, rhs, tag: "t".to_string() }
}

fn made(outputs: Vec<Var>, constraints: Vec<IrConstraint>) -> InstructionSpec {
    InstructionSpec {
        name: "M".to_string(),
        source_line: 7,
        inputs: vec![variable("a.b", VarType::Bit)],
        outputs,
        internals: vec![variable("t", VarType::Twit)],
        constraints,
    }
}

fn boxed(e: IrExpr) -> Box<IrExpr> {
    Box::new(e)
}

const B: &str = "(_ BitVec 32)";
const ONE: &str = "#b00000000000000000000000000000001";
const ZERO: &str = "#b00000000000000000000000000000000";

#[test]
fn names_of_variables_in_the_runs() {
    assert_eq!(suffix_of(Side::First), "_1");
    assert_eq!(suffix_of(Side::Second), "_2");
    assert_eq!(instance_of("p.low", Side::First), "p_low_1");
    assert_eq!(instance_of("x", Side::Second), "x_2");
    assert_eq!(unknown_warning("q"), "  [warn] Variable 'q' not found");
    let s = made(vec![variable("y", VarType::Val)], vec![]);
    let all: Vec<&str> = all_variables(&s).iter().map(|v| v.name.as_str()).collect();
    assert_eq!(all, vec!["a.b", "y", "t"]);
}

#[test]
fn a_plan_over_words() {
    let s = spec("component Id(x: Val) { x }", "Id");
    let st = Storage::new();
    let p = verifier_bv::plan(&s, &st);
    assert_eq!(p.stop, None);
    let max = "#b01111000000000000000000000000000";
    let x1 = format!("(as x_1 {})", B);
    let x2 = format!("(as x_2 {})", B);
    let r1 = format!("(as result_1 {})", B);
    let r2 = format!("(as result_2 {})", B);
    assert_eq!(
        lines(&p),
        vec![
            format!("range: (bvule {} {})", x1, max),
            format!("range: (bvule {} {})", x2, max),
            format!("range: (bvule {} {})", r1, max),
            format!("range: (bvule {} {})", r2, max),
            format!("eq: (= {} {})", x1, x2),
            format!("eq: (= {} {})", r1, x1),
            format!("eq: (= {} {})", r2, x2),
            format!("diff: (distinct {} {})", r1, r2),
        ]
    );
}

#[test]
fn operations_over_words() {
    let e = IrExpr::Div(
        boxed(IrExpr::Sub(
            boxed(IrExpr::Mul(boxed(var("t")), boxed(var("a.b")))),
            boxed(IrExpr::Add(boxed(constant(-2)), boxed(constant(65536)))),
        )),
        boxed(var("y")),
    );
    let s = made(vec![variable("y", VarType::U8)], vec![equation(var("t"), e)]);
    let st = Storage::new();
    let p = verifier_bv::plan(&s, &st);
    let t = format!("(as t_2 {})", B);
    let a = format!("(as a_b_2 {})", B);
    let y = format!("(as y_2 {})", B);
    assert_eq!(
        lines(&p)[8],
        format!(
            "eq: (= {} (bvudiv (bvadd (bvmul {} {}) (bvneg (bvadd {} {}))) {}))",
            t,
            t,
            a,
            "#b11111111111111111111111111111110",
            "#b00000000000000010000000000000000",
            y
        )
    );
}

#[test]
fn zero_tests_over_words() {
    let s = spec("component Z(x: Val) { IsZero(x) }", "Z");
    let st = Storage::new();
    let p = verifier_bv::plan(&s, &st);
    let x = format!("(as x_1 {})", B);
    let z = format!("(as iz_1_1 {})", B);
    assert_eq!(
        lines(&p)[7],
        format!(
            "iszero: (or (and (= {} {}) (= {} {})) (and (distinct {} {}) (= {} {})))",
            x, ZERO, z, ONE, x, ZERO, z, ZERO
        )
    );
}

#[test]
fn several_outputs_over_words() {
    let s = spec("component S(x: ValU32) { ValU32(x.low, x.high) }", "S");
    let st = Storage::new();
    let p = verifier_bv::plan(&s, &st);
    let d = |n: &str| format!("(distinct (as result_{}_1 {}) (as result_{}_2 {}))", n, B, n, B);
    assert_eq!(
        lines(&p).last().unwrap(),
        &format!("diff: (or {} {})", d("low"), d("high"))
    );
}

#[test]
fn unknown_variables_are_zero_with_a_warning() {
    let s = made(
        vec![variable("y", VarType::Val)],
        vec![equation(var("y"), IrExpr::Add(boxed(var("q")), boxed(var("r"))))],
    );
    let st = Storage::new();
    let p = verifier_bv::plan(&s, &st);
    let all = lines(&p);
    assert_eq!(all[7], "warn   [warn] Variable 'q' not found");
    assert_eq!(all[8], "warn   [warn] Variable 'r' not found");
    assert_eq!(all[9], format!("eq: (= (as y_1 {}) (bvadd {} {}))", B, ZERO, ZERO));
    assert_eq!(all[10], "warn   [warn] Variable 'q' not found");
    let p = verifier_int::plan(&s, &st);
    let all = lines(&p);
    assert_eq!(all[7], "warn   [warn] Variable 'q' not found");
    let zero = "(- (as a_b_1 Int) (as a_b_1 Int))";
    assert_eq!(all[9], format!("eq: (= (as y_1 Int) (+ {} {}))", zero, zero));
}

#[test]
fn plans_stop_where_a_result_is_unknown() {
    let y = || vec![variable("y", VarType::Val)];
    let zero = IrConstraint::IsZero { result: "w".to_string(), expr: var("y") };
    let s = made(y(), vec![zero]);
    let st = Storage::new();
    let p = verifier_bv::plan(&s, &st);
    assert_eq!(p.stop, Some("IsZero var 'w' not found".to_string()));
    let p = verifier_int::plan(&s, &st);
    assert_eq!(p.stop, Some("IsZero var 'w' not found".to_string()));
    let call = IrConstraint::Call {
        component: "F".to_string(),
        args: vec![var("y")],
        outputs: vec![("f".to_string(), "w".to_string())],
    };
    let s = made(y(), vec![call]);
    let p = verifier_bv::plan(&s, &st);
    assert_eq!(
        p.stop,
        Some("Call constraint not supported in BV verifier (use verify-int)".to_string())
    );
    let p = verifier_int::plan(&s, &st);
    assert_eq!(p.stop, Some("output var 'w' not found".to_string()));
}

#[test]
fn a_plan_without_outputs_says_nothing() {
    let s = made(vec![], vec![]);
    let st = Storage::new();
    let p = verifier_bv::plan(&s, &st);
    assert_eq!(lines(&p).len(), 0);
    assert_eq!(p.stop, Some("No outputs to check".to_string()));
    let p = verifier_int::plan(&s, &st);
    assert_eq!(lines(&p).len(), 0);
    assert_eq!(p.stop, Some("No outputs to check".to_string()));
}

#[test]
fn a_plan_over_integers() {
    let s = spec("component Id(x: Val) { x - 1 }", "Id");
    let st = Storage::new();
    let p = verifier_int::plan(&s, &st);
    assert_eq!(p.stop, None);
    let range = |x: &str| format!("range: (and (>= (as {} Int) 0) (<= (as {} Int) 2013265920))", x, x);
    let one = |x: &str| format!("(+ (- (as {} Int) (as {} Int)) 1)", x, x);
    assert_eq!(
        lines(&p),
        vec![
            range("x_1"),
            range("x_2"),
            range("result_1"),
            range("result_2"),
            "eq: (= (as x_1 Int) (as x_2 Int))".to_string(),
            format!("eq: (= (as result_1 Int) (- (as x_1 Int) {}))", one("x_1")),
            format!("eq: (= (as result_2 Int) (- (as x_2 Int) {}))", one("x_2")),
            "diff: (distinct (as result_1 Int) (as result_2 Int))".to_string(),
        ]
    );
}

#[test]
fn operations_over_integers() {
    let e = IrExpr::Div(
        boxed(IrExpr::Mul(boxed(var("t")), boxed(constant(-3)))),
        boxed(IrExpr::Add(boxed(var("y")), boxed(var("y")))),
    );
    let s = made(vec![variable("y", VarType::U8)], vec![equation(var("t"), e)]);
    assert!(verifier_int::can_ask(&s));
    let st = Storage::new();
    let p = verifier_int::plan(&s, &st);
    let zero = "(- (as a_b_1 Int) (as a_b_1 Int))";
    assert_eq!(
        lines(&p)[7],
        format!(
            "eq: (= (as t_1 Int) (div (* (as t_1 Int) (+ {} (- 3))) (+ (as y_1 Int) (as y_1 Int))))",
            zero
        )
    );
}

#[test]
fn zero_tests_over_integers() {
    let s = spec("component Z(x: Val) { IsZero(x) }", "Z");
    let st = Storage::new();
    let p = verifier_int::plan(&s, &st);
    let x = "(as x_1 Int)";
    let z = "(as iz_1_1 Int)";
    assert_eq!(
        lines(&p)[7],
        format!(
            "iszero: (or (and (= {} 0) (= {} 1)) (and (distinct {} 0) (= {} 0)))",
            x, z, x, z
        )
    );
}

#[test]
fn calls_are_functions_over_integers() {
    let s = abstract_spec(
        "component H(v: ValU32) { public h := v.low; public g := 1; }
         component K() { public k := 1; }
         component A(v: ValU32) { a := H(v); b := H(v); c := K(); a.h + b.g + c.k }",
        "A",
        &["H", "K"],
    );
    assert!(verifier_int::can_ask(&s));
    let st = Storage::new();
    let p = verifier_int::plan(&s, &st);
    let all = lines(&p);
    let declared: Vec<&String> = all.iter().filter(|l| l.starts_with("declare_fun")).collect();
    assert_eq!(declared.len(), 3);
    assert!(declared[0].contains("H__h"));
    assert!(declared[1].contains("H__g"));
    assert!(declared[2].contains("K__k"));
    let args = "(as v_low_2 Int) (as v_high_2 Int)";
    assert!(all.contains(&format!("UF eq: (= (as h_h_1_2 Int) (H__h {}))", args)));
    assert!(all.contains(&format!("UF eq: (= (as h_g_4_2 Int) (H__g {}))", args)));
    assert!(all.contains(&"UF eq: (= (as k_k_5_1 Int) K__k)".to_string()));
}

#[test]
fn calls_with_other_numbers_of_arguments_cannot_be_asked() {
    let call = |args: Vec<IrExpr>| IrConstraint::Call {
        component: "F".to_string(),
        args,
        outputs: vec![("f".to_string(), "y".to_string())],
    };
    let y = || vec![variable("y", VarType::Val)];
    let s = made(y(), vec![call(vec![var("y")]), call(vec![var("y"), var("t")])]);
    assert!(!verifier_int::can_ask(&s));
    let s = made(y(), vec![call(vec![var("y")]), call(vec![var("t")])]);
    assert!(verifier_int::can_ask(&s));
}

#[test]
fn results_of_answers() {
    let s = spec("component Id(x: Val) { x }", "Id");
    let results = [
        (Ok(Answer::Unsat), Some(true), None),
        (Ok(Answer::Sat), Some(false), None),
        (Ok(Answer::Unknown), None, Some("Unknown")),
        (Err("solve: gone".to_string()), None, Some("solve: gone")),
    ];
    for (answer, deterministic, error) in results {
        for r in [
            verifier_bv::verify_determinism(&s, answer.clone(), 12),
            verifier_int::verify_determinism(&s, answer.clone(), 12),
        ] {
            assert_eq!(r.name, "Id");
            assert_eq!(r.deterministic, deterministic);
            assert_eq!(r.error.as_deref(), error);
            assert_eq!(r.time_ms, 12);
            assert_eq!(r.num_vars, 2);
            assert_eq!(r.num_constraints, 1);
        }
    }
}

#[test]
fn without_outputs_there_is_no_result() {
    let s = made(vec![], vec![]);
    for r in [
        verifier_bv::verify_determinism(&s, Ok(Answer::Unsat), 0),
        verifier_int::verify_determinism(&s, Ok(Answer::Sat), 0),
    ] {
        assert_eq!(r.deterministic, None);
        assert_eq!(r.error.as_deref(), Some("No outputs to check"));
        assert_eq!(r.num_vars, 2);
        assert_eq!(r.num_constraints, 0);
    }
}

#[test]
fn a_refused_step_is_named() {
    assert_eq!(step_error("range", "broken pipe"), "range: broken pipe");
}
