use zkvm_verifier::ir::{ComponentDB, InstructionSpec, IrConstraint, IrExpr, Var, VarType};
use zkvm_verifier::parser::Parser;
use zkvm_verifier::{verifier_ff, verifier_msolve};

fn spec(source: &str, name: &str) -> InstructionSpec {
    let db = ComponentDB::new(&Parser::parse_file(source).unwrap());
    db.checked_lower(name).unwrap().unwrap()
}

fn abstract_spec(source: &str, name: &str, abstracts: &[&str]) -> InstructionSpec {
    let mut db = ComponentDB::new(&Parser::parse_file(source).unwrap());
    db.set_abstract(abstracts);
    db.checked_lower(name).unwrap().unwrap()
}

fn with_constant(n: i64) -> InstructionSpec {
    InstructionSpec {
        name: "M".to_string(),
        source_line: 1,
        inputs: vec![],
        outputs: vec![Var { name: "y".to_string(), vtype: VarType::Val }],
        internals: vec![],
        constraints: vec![IrConstraint::Eq {
            lhs: IrExpr::Var("y".to_string()),
            rhs: IrExpr::Const(n),
            tag: "t".to_string(),
        }],
    }
}

#[test]
fn the_field_has_a_prime_number_of_elements() {
    let p = verifier_ff::BABYBEAR_P;
    assert_eq!(p, 2013265921);
    let mut d = 2;
    while d * d <= p {
        assert_ne!(p % d, 0);
        d += 1;
    }
}

#[test]
fn a_script_over_the_field() {
    let s = spec("component Id(x: Val) { x + 3 }", "Id");
    assert!(verifier_ff::can_write(&s));
    assert_eq!(
        verifier_ff::generate_smt2(&s).unwrap(),
        "(set-logic QF_FF)\n\
         (define-sort F () (_ FiniteField 2013265921))\n\
         (declare-const x_1 F)\n\
         (declare-const x_2 F)\n\
         (declare-const result_1 F)\n\
         (declare-const result_2 F)\n\
         (assert (= x_1 x_2))\n\
         (assert (= result_1 (ff.add x_1 (as ff3 F))))\n\
         (assert (= result_2 (ff.add x_2 (as ff3 F))))\n\
         (assert (not (= result_1 result_2)))\n\
         (check-sat)\n"
    );
}

#[test]
fn ranges_over_the_field() {
    let s = spec(
        "component R(v: ValU32) { a := NondetBitReg(0); b := NondetTwitReg(0); c := NondetU8Reg(0);
         d := NondetU16Reg(0); e := NondetU32Reg(0); ValU32(a, b) }",
        "R",
    );
    let text = verifier_ff::generate_smt2(&s).unwrap();
    assert!(text.contains(
        "(assert (= (ff.mul bit_1_1 (ff.add bit_1_1 (ff.neg (as ff1 F)))) (as ff0 F)))\n"
    ));
    assert!(text.contains(
        "(assert (= (ff.mul (ff.mul (ff.mul twit_2_2 (ff.add twit_2_2 (ff.neg (as ff1 F)))) \
         (ff.add twit_2_2 (ff.neg (ff.add (as ff1 F) (as ff1 F))))) (ff.add twit_2_2 (ff.neg \
         (ff.add (as ff1 F) (ff.add (as ff1 F) (as ff1 F)))))) (as ff0 F)))\n"
    ));
    assert!(text.contains("(declare-const u8_3_1_rb7 F)\n"));
    assert!(!text.contains("u8_3_1_rb8"));
    assert!(text.contains("(declare-const u16_4_2_rb15 F)\n"));
    assert!(text.contains("(ff.mul u16_4_2_rb15 (as ff32768 F)))))\n"));
    assert!(text.contains("(assert (= u8_3_1 (ff.add (ff.add (ff.add (ff.add (ff.add (ff.add (ff.add (ff.mul u8_3_1_rb0 (as ff1 F)) (ff.mul u8_3_1_rb1 (as ff2 F)))"));
    assert!(!text.contains("v_low_1_rb"));
    assert!(!text.contains("result_low_1_rb"));
    assert!(!text.contains("u32_5_1_rb"));
    assert!(text.contains(
        "(assert (or\n  (not (= result_low_1 result_low_2))\n  (not (= result_high_1 result_high_2))\n))\n"
    ));
}

#[test]
fn constraints_over_the_field() {
    let s = spec("component Z(x: Val) { IsZero(x - 2) }", "Z");
    let text = verifier_ff::generate_smt2(&s).unwrap();
    let e = "(ff.add x_1 (ff.neg (as ff2 F)))";
    assert!(text.contains(&format!(
        "(assert (or (and (= {} (as ff0 F)) (= iz_1_1 (as ff1 F))) (and (not (= {} (as ff0 F))) (= iz_1_1 (as ff0 F)))))\n",
        e, e
    )));
}

#[test]
fn calls_over_the_field() {
    let s = abstract_spec(
        "component H(v: ValU32) { public h := ValU32(v.low, 0); }
         component A(v: ValU32) { a := H(v); b := H(v); a.h.low + b.h.high }",
        "A",
        &["H"],
    );
    let text = verifier_ff::generate_smt2(&s).unwrap();
    assert!(text.starts_with("(set-logic QF_UFFF)\n"));
    assert_eq!(text.matches("(declare-fun H_h_low (F F) F)\n").count(), 1);
    assert_eq!(text.matches("(declare-fun H_h_high (F F) F)\n").count(), 1);
    assert!(text.contains("(assert (= h_h_low_1_1 (H_h_low v_low_1 v_high_1)))\n"));
    assert!(text.contains("(assert (= h_h_high_4_2 (H_h_high v_low_2 v_high_2)))\n"));
}

#[test]
fn negative_constants_over_the_field() {
    let s = with_constant(-7);
    assert!(verifier_ff::can_write(&s));
    assert!(verifier_ff::generate_smt2(&s).unwrap().contains("(= y_1 (ff.neg (as ff7 F)))"));
    assert!(!verifier_ff::can_write(&with_constant(i64::MIN)));
    assert!(verifier_ff::can_write(&with_constant(i64::MIN + 1)));
    assert!(verifier_msolve::generate_msolve_input(&with_constant(-7))
        .unwrap()
        .contains("(y_1) - (2013265914)"));
}

#[test]
fn results_over_the_field() {
    let s = spec("component Id(x: Val) { x }", "Id");
    let say = |out: &str, err: &str| {
        verifier_ff::verify_determinism(&s, Ok((out.to_string(), err.to_string())), 5)
    };
    let r = say(" unsat\n", "");
    assert_eq!(r.deterministic, Some(true));
    assert_eq!(r.error, None);
    assert_eq!(r.time_ms, 5);
    assert_eq!(r.num_vars, 2);
    assert_eq!(r.num_constraints, 1);
    assert_eq!(say("sat\n", "").deterministic, Some(false));
    assert_eq!(
        say("unknown", "").error.as_deref(),
        Some("Unknown (timeout or incomplete)")
    );
    assert_eq!(say("(error)\n", " bad \n").error.as_deref(), Some("cvc5: (error) bad"));
    let r = verifier_ff::verify_determinism(&s, Err("cvc5: none".to_string()), 5);
    assert_eq!(r.error.as_deref(), Some("cvc5: none"));
    let none = spec("component N(x: Val) { x = 1; }", "N");
    let r = verifier_ff::verify_determinism(&none, Ok(("unsat".to_string(), String::new())), 5);
    assert_eq!(r.error.as_deref(), Some("No outputs to check"));
    assert_eq!(r.deterministic, None);
}

#[test]
fn a_system_of_polynomials() {
    let s = spec("component Id(x: Val) { x * 3 }", "Id");
    assert_eq!(
        verifier_msolve::generate_msolve_input(&s).unwrap(),
        "x_1, x_2, result_1, result_2, rabin_t\n\
         2013265921\n\
         x_1 - x_2,\n\
         (result_1) - ((x_1 * 3)),\n\
         (result_2) - ((x_2 * 3)),\n\
         rabin_t*(result_1 - result_2) - 1\n"
    );
}

#[test]
fn ranges_as_polynomials() {
    let s = spec(
        "component R(v: ValU32) { a := NondetBitReg(0); b := NondetTwitReg(0); c := NondetU8Reg(0);
         ValU32(IsZero(c - a), b) }",
        "R",
    );
    let text = verifier_msolve::generate_msolve_input(&s).unwrap();
    assert!(text.contains("bit_1_1*bit_1_1 - bit_1_1,\n"));
    assert!(text.contains("twit_2_2*(twit_2_2-1)*(twit_2_2-2)*(twit_2_2-3),\n"));
    assert!(text.contains("u8_3_1_rb7*u8_3_1_rb7 - u8_3_1_rb7,\n"));
    assert!(text.contains(
        "u8_3_1 - (1*u8_3_1_rb0 + 2*u8_3_1_rb1 + 4*u8_3_1_rb2 + 8*u8_3_1_rb3 + 16*u8_3_1_rb4 + 32*u8_3_1_rb5 + 64*u8_3_1_rb6 + 128*u8_3_1_rb7),\n"
    ));
    assert!(text.contains("iz_4_2 * ((u8_3_2 - bit_1_2)),\n"));
    assert!(text.ends_with(
        "rabin_t*(rabin_w0*(result_low_1 - result_low_2) + rabin_w1*(result_high_1 - result_high_2)) - 1\n"
    ));
    assert!(text.lines().next().unwrap().ends_with("u8_3_2_rb7, rabin_w0, rabin_w1"));
}

#[test]
fn calls_are_no_polynomials() {
    let s = abstract_spec(
        "component H(x: Val) { public h := x; } component A(x: Val) { H(x) }",
        "A",
        &["H"],
    );
    assert_eq!(
        verifier_msolve::generate_msolve_input(&s),
        Err("Call (UF) не поддерживается в msolve".to_string())
    );
    let r = verifier_msolve::verify_determinism(&s, Ok("[1]:".to_string()), 1);
    assert_eq!(
        r.error.as_deref(),
        Some("msolve не поддерживает UF (Call-constraints)")
    );
}

#[test]
fn results_of_polynomials() {
    let s = spec("component Id(x: Val) { x }", "Id");
    let say = |out: &str| verifier_msolve::verify_determinism(&s, Ok(out.to_string()), 9);
    assert_eq!(say("#header\n[1]:\n").deterministic, Some(true));
    assert_eq!(say(" [1]: \n").deterministic, Some(true));
    assert_eq!(say("#x\n[y, 1]:").deterministic, Some(false));
    assert_eq!(say("x[1]:").deterministic, Some(false));
    assert_eq!(
        say(" what? \n").error.as_deref(),
        Some("msolve: непонятный вывод: what?")
    );
    let r = verifier_msolve::verify_determinism(&s, Err("msolve: none".to_string()), 9);
    assert_eq!(r.error.as_deref(), Some("msolve: none"));
    assert_eq!(verifier_msolve::run_failure(" no memory\n"), "msolve failed: no memory");
    let none = spec("component N(x: Val) { x = 1; }", "N");
    let r = verifier_msolve::verify_determinism(&none, Ok("[1]:".to_string()), 9);
    assert_eq!(r.error.as_deref(), Some("No outputs to check"));
}
