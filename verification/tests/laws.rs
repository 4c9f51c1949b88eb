use std::collections::HashMap;

use smtlib::Storage;
use zkvm_verifier::ir::{ComponentDB, InstructionSpec, IrConstraint, IrExpr};
use zkvm_verifier::model::{all_variables, instance_of, Side};
use zkvm_verifier::parser::Parser;
use zkvm_verifier::smt::{Plan, Step};
use zkvm_verifier::{verifier_bv, verifier_ff, verifier_int};

const P: i128 = 2013265921;

type Values = HashMap<String, i128>;

fn spec(source: &str, name: &str) -> InstructionSpec {
    let db = ComponentDB::new(&Parser::parse_file(source).unwrap());
    db.checked_lower(name).unwrap().unwrap()
}

fn norm(x: i128, modulus: Option<i128>) -> i128 {
    match modulus {
        Some(m) => x.rem_euclid(m),
        None => x,
    }
}

/// The value of an expression in a run.
fn value(e: &IrExpr, a: &Values, m: Option<i128>) -> i128 {
    let x = match e {
        IrExpr::Const(n) => *n as i128,
        IrExpr::Var(x) => a[x],
        IrExpr::Add(l, r) => value(l, a, m) + value(r, a, m),
        IrExpr::Sub(l, r) => value(l, a, m) - value(r, a, m),
        IrExpr::Mul(l, r) => value(l, a, m) * value(r, a, m),
        IrExpr::Div(_, _) => panic!("no division is left"),
    };
    norm(x, m)
}

fn holds(c: &IrConstraint, a: &Values, m: Option<i128>) -> bool {
    match c {
        IrConstraint::Eq { lhs, rhs, .. } => value(lhs, a, m) == value(rhs, a, m),
        IrConstraint::IsZero { result, expr } => {
            a[result] == if value(expr, a, m) == 0 { 1 } else { 0 }
        }
        IrConstraint::Call { .. } => panic!("no call"),
    }
}

fn is_run(s: &InstructionSpec, a: &Values, m: Option<i128>) -> bool {
    let in_ranges = all_variables(s).iter().all(|v| {
        let (low, high) = v.vtype.range();
        low as i128 <= a[&v.name] && a[&v.name] <= high as i128
    });
    in_ranges && s.constraints.iter().all(|c| holds(c, a, m))
}

fn is_counterexample(s: &InstructionSpec, a: &Values, b: &Values, m: Option<i128>) -> bool {
    is_run(s, a, m)
        && is_run(s, b, m)
        && s.inputs.iter().all(|v| a[&v.name] == b[&v.name])
        && !s.outputs.iter().all(|v| a[&v.name] == b[&v.name])
}

/// All values of some names up to a bound.
fn all_values(names: &[String], bound: i128) -> Vec<Values> {
    let mut out: Vec<Values> = vec![HashMap::new()];
    for name in names {
        let mut next: Vec<Values> = Vec::new();
        for a in &out {
            for x in 0..bound + 1 {
                let mut b = a.clone();
                b.insert(name.clone(), x);
                next.push(b);
            }
        }
        out = next;
    }
    out
}

// An expression in parentheses.
enum S {
    Atom(String),
    List(Vec<S>),
}

fn read(text: &str) -> Vec<S> {
    let spaced = text.replace('(', " ( ").replace(')', " ) ");
    let mut stack: Vec<Vec<S>> = vec![Vec::new()];
    for word in spaced.split_whitespace() {
        if word == "(" {
            stack.push(Vec::new());
        } else if word == ")" {
            let list = stack.pop().unwrap();
            stack.last_mut().unwrap().push(S::List(list));
        } else {
            stack.last_mut().unwrap().push(S::Atom(word.to_string()));
        }
    }
    stack.pop().unwrap()
}

fn head(v: &[S]) -> &str {
    match &v[0] {
        S::Atom(s) => s.as_str(),
        _ => panic!("no operator"),
    }
}

/// The value of a term as a solver reads it.
fn term(s: &S, a: &Values, m: Option<i128>) -> i128 {
    let x = match s {
        S::Atom(w) => {
            if let Some(bits) = w.strip_prefix("#b") {
                i128::from_str_radix(bits, 2).unwrap()
            } else {
                match w.parse::<i128>() {
                    Ok(n) => n,
                    Err(_) => a[w],
                }
            }
        }
        S::List(v) => match head(v) {
            "as" => match &v[1] {
                S::Atom(w) => match w.strip_prefix("ff") {
                    Some(n) => n.parse().unwrap(),
                    None => a[w],
                },
                _ => panic!("no name"),
            },
            "+" | "bvadd" | "ff.add" => term(&v[1], a, m) + term(&v[2], a, m),
            "*" | "bvmul" | "ff.mul" => term(&v[1], a, m) * term(&v[2], a, m),
            "bvneg" | "ff.neg" => -term(&v[1], a, m),
            "-" if v.len() == 2 => -term(&v[1], a, m),
            "-" => term(&v[1], a, m) - term(&v[2], a, m),
            other => panic!("operator {}", other),
        },
    };
    norm(x, m)
}

/// Whether a formula is true as a solver reads it.
fn formula(s: &S, a: &Values, m: Option<i128>) -> bool {
    match s {
        S::List(v) => match head(v) {
            "and" => v[1..].iter().all(|f| formula(f, a, m)),
            "or" => v[1..].iter().any(|f| formula(f, a, m)),
            "not" => !formula(&v[1], a, m),
            "=" => term(&v[1], a, m) == term(&v[2], a, m),
            "distinct" => term(&v[1], a, m) != term(&v[2], a, m),
            ">=" => term(&v[1], a, m) >= term(&v[2], a, m),
            "<=" | "bvule" => term(&v[1], a, m) <= term(&v[2], a, m),
            other => panic!("operator {}", other),
        },
        _ => panic!("no formula"),
    }
}

fn assertions(p: &Plan) -> Vec<S> {
    let mut out: Vec<S> = Vec::new();
    for step in &p.steps {
        if let Step::Assert { formula, .. } = step {
            out.append(&mut read(&format!("{}", formula)));
        }
    }
    out
}

/// Compares a question with its meaning for all small values, and tells whether it has an
/// answer among them.
fn compare(s: &InstructionSpec, question: &[S], m: Option<i128>) -> bool {
    let names: Vec<String> = all_variables(s).iter().map(|v| v.name.clone()).collect();
    let runs = all_values(&names, 2);
    let mut found = false;
    for a in &runs {
        for b in &runs {
            let mut both: Values = HashMap::new();
            for n in &names {
                both.insert(instance_of(n, Side::First), a[n]);
                both.insert(instance_of(n, Side::Second), b[n]);
            }
            let asked = question.iter().all(|f| formula(f, &both, m));
            assert_eq!(asked, is_counterexample(s, a, b, m));
            found = found || asked;
        }
    }
    found
}

const SOURCE: &str = "
    component Two(x: Val) { a := NondetBitReg(0); b := NondetBitReg(0); a + b = x; a }
    component One(x: Val) { a := NondetBitReg(0); a + a = x; a }
    component Zero(x: Val) { 2 - IsZero(x) * x }
    component Free(x: Val) { [x] -> ({ 3 * x = 3; }); NondetTwitReg(x) }";

const ANSWERS: [(&str, bool); 4] = [("Two", true), ("One", false), ("Zero", false), ("Free", true)];

#[test]
fn questions_over_integers_mean_determinism() {
    for (name, found) in ANSWERS {
        let s = spec(SOURCE, name);
        let st = Storage::new();
        let p = verifier_int::plan(&s, &st);
        assert_eq!(p.stop, None);
        assert_eq!(compare(&s, &assertions(&p), None), found);
    }
}

#[test]
fn questions_over_words_mean_determinism() {
    for (name, found) in ANSWERS {
        let s = spec(SOURCE, name);
        let st = Storage::new();
        let p = verifier_bv::plan(&s, &st);
        assert_eq!(p.stop, None);
        assert_eq!(compare(&s, &assertions(&p), Some(1 << 32)), found);
    }
}

#[test]
fn questions_over_the_field_mean_determinism() {
    for (name, found) in ANSWERS {
        let s = spec(SOURCE, name);
        let script = verifier_ff::generate_smt2(&s).unwrap();
        let mut question: Vec<S> = Vec::new();
        for command in read(&script) {
            if let S::List(mut v) = command {
                if head(&v) == "assert" {
                    question.push(v.remove(1));
                }
            }
        }
        assert_eq!(compare(&s, &question, Some(P)), found);
    }
}

#[test]
fn a_conjunction_of_bits_is_the_bitwise_one() {
    let s = spec("component A(x: Val, y: Val) { BitwiseAndU16(x, y) }", "A");
    for (x, y) in [(0, 0), (65535, 4660), (43690, 21845), (12345, 54321)] {
        let mut a: Values = HashMap::new();
        a.insert("x".to_string(), x);
        a.insert("y".to_string(), y);
        for i in 0..16 {
            a.insert(format!("xb{}_{}", i, 2 * i + 1), (x >> i) & 1);
            a.insert(format!("yb{}_{}", i, 2 * i + 2), (y >> i) & 1);
        }
        for wrong in [0, 1] {
            let r = (x & y) + wrong;
            a.insert("and16_33".to_string(), r);
            a.insert("result".to_string(), r);
            assert_eq!(s.constraints.iter().all(|c| holds(c, &a, None)), wrong == 0);
        }
    }
}

#[test]
fn a_conjunction_has_its_bits_in_one_way() {
    let s = spec("component A(x: Val, y: Val) { BitwiseAndU16(x, y) }", "A");
    let (x, y): (i128, i128) = (40000, 23456);
    let mut a: Values = HashMap::new();
    a.insert("x".to_string(), x);
    a.insert("y".to_string(), y);
    for i in 0..16 {
        a.insert(format!("xb{}_{}", i, 2 * i + 1), (x >> i) & 1);
        a.insert(format!("yb{}_{}", i, 2 * i + 2), (y >> i) & 1);
    }
    a.insert("and16_33".to_string(), x & y);
    a.insert("result".to_string(), x & y);
    assert!(is_run(&s, &a, None));
    for i in 0..16 {
        for name in [format!("xb{}_{}", i, 2 * i + 1), format!("yb{}_{}", i, 2 * i + 2)] {
            let mut b = a.clone();
            b.insert(name.clone(), 1 - a[&name]);
            assert!(!is_run(&s, &b, None));
        }
    }
}

#[test]
fn bits_make_up_the_number_they_were_taken_from() {
    let s = spec("component A(x: Val) { FromBits(ToBits<5>(x)) }", "A");
    for x in 0..32 {
        let mut a: Values = HashMap::new();
        a.insert("x".to_string(), x);
        for i in 0..5 {
            a.insert(format!("b{}_{}", i, i + 1), (x >> i) & 1);
        }
        for r in 0..33 {
            a.insert("result".to_string(), r);
            assert_eq!(s.constraints.iter().all(|c| holds(c, &a, None)), r == x);
        }
    }
}

#[test]
fn a_guard_switches_a_constraint() {
    let s = spec("component A(g: Val, h: Val, x: Val) { [g] -> ({ [h] -> ({ x = 5; }); }); }", "A");
    for (g, h) in [(0, 0), (0, 1), (1, 0), (1, 1)] {
        for x in 0..8 {
            let mut a: Values = HashMap::new();
            a.insert("g".to_string(), g);
            a.insert("h".to_string(), h);
            a.insert("x".to_string(), x);
            let active = g == 1 && h == 1;
            assert_eq!(holds(&s.constraints[0], &a, None), !active || x == 5);
            assert_eq!(holds(&s.constraints[0], &a, Some(P)), !active || x == 5);
        }
    }
}

#[test]
fn a_quotient_is_exact() {
    let s = spec("component A(x: Val, y: Val) { x / y }", "A");
    let division = &s.constraints[0];
    for x in 0..30 {
        for y in 1..7 {
            for q in 0..31 {
                let mut a: Values = HashMap::new();
                a.insert("x".to_string(), x);
                a.insert("y".to_string(), y);
                a.insert("div_1".to_string(), q);
                assert_eq!(holds(division, &a, None), x % y == 0 && q == x / y);
            }
        }
    }
    let mut a: Values = HashMap::new();
    a.insert("x".to_string(), 1);
    a.insert("y".to_string(), 2);
    a.insert("div_1".to_string(), (P + 1) / 2);
    assert!(holds(division, &a, Some(P)));
    a.insert("div_1".to_string(), (P - 1) / 2);
    assert!(!holds(division, &a, Some(P)));
}
