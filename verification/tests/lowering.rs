use zkvm_verifier::cli::{form_of_expr, ir_report};
use zkvm_verifier::ir::{ComponentDB, InstructionSpec, IrConstraint, IrExpr, Value, VarType};
use zkvm_verifier::parser::Parser;

fn database(source: &str) -> ComponentDB {
    ComponentDB::new(&Parser::parse_file(source).unwrap())
}

fn spec(source: &str, name: &str) -> InstructionSpec {
    database(source).checked_lower(name).unwrap().unwrap()
}

fn failure(source: &str, name: &str) -> String {
    database(source).checked_lower(name).unwrap().unwrap_err()
}

fn names(vars: &[zkvm_verifier::ir::Var]) -> Vec<(String, VarType)> {
    vars.iter().map(|v| (v.name.clone(), v.vtype)).collect()
}

fn named(name: &str, t: VarType) -> (String, VarType) {
    (name.to_string(), t)
}

/// A constraint in one line.
fn shown(c: &IrConstraint) -> String {
    match c {
        IrConstraint::Eq { lhs, rhs, tag } => {
            format!("{} = {} [{}]", short(lhs), short(rhs), tag)
        }
        IrConstraint::IsZero { result, expr } => format!("{} = IsZero({})", result, short(expr)),
        IrConstraint::Call { component, args, outputs } => {
            let a: Vec<String> = args.iter().map(short).collect();
            let o: Vec<String> = outputs.iter().map(|p| format!("{}={}", p.0, p.1)).collect();
            format!("{}({}) -> {}", component, a.join(","), o.join(","))
        }
    }
}

fn short(e: &IrExpr) -> String {
    match e {
        IrExpr::Const(n) => format!("{}", n),
        IrExpr::Var(x) => x.clone(),
        IrExpr::Add(a, b) => format!("({}+{})", short(a), short(b)),
        IrExpr::Sub(a, b) => format!("({}-{})", short(a), short(b)),
        IrExpr::Mul(a, b) => format!("({}*{})", short(a), short(b)),
        IrExpr::Div(a, b) => format!("({}/{})", short(a), short(b)),
    }
}

fn lines(s: &InstructionSpec) -> Vec<String> {
    s.constraints.iter().map(shown).collect()
}

#[test]
fn ranges_of_types() {
    assert_eq!(VarType::U32.range(), (0, 4294967295));
    assert_eq!(VarType::U16.range(), (0, 65535));
    assert_eq!(VarType::U8.range(), (0, 255));
    assert_eq!(VarType::Bit.range(), (0, 1));
    assert_eq!(VarType::Twit.range(), (0, 3));
    assert_eq!(VarType::Val.range(), (0, 2013265920));
}

#[test]
fn public_bindings_are_outputs() {
    let s = spec("\ncomponent Add(x: Val, y: U32) { public s := x + y; }", "Add");
    assert_eq!(s.name, "Add");
    assert_eq!(s.source_line, 2);
    assert_eq!(names(&s.inputs), vec![named("x", VarType::Val), named("y", VarType::U32)]);
    assert_eq!(names(&s.outputs), vec![named("s_1", VarType::Val)]);
    assert_eq!(names(&s.internals), vec![]);
    assert_eq!(lines(&s), vec!["s_1 = (x+y) [public_s]"]);
}

#[test]
fn the_last_expression_is_the_result() {
    let s = spec("component A(x: ValU32) { ValU32(x.high, x.low) }", "A");
    assert_eq!(
        names(&s.inputs),
        vec![named("x.low", VarType::U16), named("x.high", VarType::U16)]
    );
    assert_eq!(
        names(&s.outputs),
        vec![named("result.low", VarType::U16), named("result.high", VarType::U16)]
    );
    assert_eq!(
        lines(&s),
        vec![
            "result.low = x.high [output_result.low]",
            "result.high = x.low [output_result.high]"
        ]
    );
    let s = spec("component B(x: Val) { x }", "B");
    assert_eq!(names(&s.outputs), vec![named("result", VarType::Val)]);
    assert_eq!(lines(&s), vec!["result = x [output_result]"]);
    let s = spec("component C(x: Val) { x; y := x; }", "C");
    assert_eq!(names(&s.outputs), vec![]);
}

#[test]
fn registers_that_the_prover_chooses() {
    let s = spec(
        "component A() { a := NondetReg(1); b := NondetU16Reg(1); c := NondetU32Reg(1);
         d := NondetU8Reg(1); e := NondetBitReg(1); f := NondetTwitReg(1);
         g := NondetFakeTwitReg(1); }",
        "A",
    );
    assert_eq!(
        names(&s.internals),
        vec![
            named("nd_1", VarType::Val),
            named("u16_2", VarType::U16),
            named("u32_3", VarType::U32),
            named("u8_4", VarType::U8),
            named("bit_5", VarType::Bit),
            named("twit_6", VarType::Twit),
            named("twit_7", VarType::Twit)
        ]
    );
    assert_eq!(lines(&s), Vec::<String>::new());
}

#[test]
fn registers_that_equal_their_arguments() {
    let s = spec(
        "component A(x: Val) { a := Reg(x); b := U16Reg(x); FakeTwitReg(x); U32Reg(x); }",
        "A",
    );
    assert_eq!(
        names(&s.internals),
        vec![
            named("a_1", VarType::Val),
            named("u16r_2", VarType::U16),
            named("b_3", VarType::U16),
            named("ftwit_4", VarType::Twit),
            named("u32r_5", VarType::U32)
        ]
    );
    assert_eq!(
        lines(&s),
        vec![
            "a_1 = x [reg_a]",
            "u16r_2 = x [u16reg]",
            "b_3 = u16r_2 [reg_b]",
            "ftwit_4 = x [fake_twit_reg]",
            "u32r_5 = x [u32reg]",
            "result = u32r_5 [output_result]"
        ]
    );
}

#[test]
fn public_registers_have_the_types_of_their_calls() {
    let s = spec(
        "component A(x: Val) { public a := NondetU16Reg(x); public b := NondetBitReg(x);
         public c := NondetTwitReg(x); public d := Reg(x); public e := IsZero(x); public f := Isz(x);
         public g := NondetU32Reg(x); public h := U32Reg(x); }",
        "A",
    );
    assert_eq!(
        names(&s.outputs),
        vec![
            named("a_2", VarType::U16),
            named("b_4", VarType::Bit),
            named("c_6", VarType::Twit),
            named("d_8", VarType::Val),
            named("e_10", VarType::Bit),
            named("f_12", VarType::Bit),
            named("g_14", VarType::U32),
            named("h_16", VarType::U32)
        ]
    );
    assert_eq!(shown(&s.constraints[5]), "iz_9 = IsZero(x)");
}

#[test]
fn division_is_exact_or_folded() {
    let s = spec("component A(x: Val) { x / 3; 6 / 2; 0 / x; (x & 5) / x }", "A");
    assert_eq!(names(&s.internals), vec![named("div_1", VarType::Val)]);
    assert_eq!(lines(&s), vec!["(div_1*3) = x [exact_div]", "result = 0 [output_result]"]);
    let s = spec("component B(x: Val) { 6 / 2 }", "B");
    assert_eq!(names(&s.internals), vec![]);
    assert_eq!(lines(&s), vec!["result = 3 [output_result]"]);
    let s = spec("component C(x: Val) { 7 / 0 }", "C");
    assert_eq!(lines(&s)[0], "(div_1*0) = 7 [exact_div]");
}

#[test]
fn division_that_does_not_come_out_even_has_no_solution() {
    let s = spec("component A(x: Val) { 7 / 2 }", "A");
    assert_eq!(names(&s.internals), vec![named("div_1", VarType::Val)]);
    assert_eq!(
        lines(&s),
        vec!["(div_1*2) = 7 [exact_div]", "result = div_1 [output_result]"]
    );
    let s = spec("component B(x: Val) { 0xFFFFFFFFFFFFFFF8 / 4 }", "B");
    assert_eq!(lines(&s), vec!["result = -2 [output_result]"]);
    let s = spec("component C(x: Val) { 0xFFFFFFFFFFFFFFF9 / 2 }", "C");
    assert_eq!(lines(&s)[0], "(div_1*2) = -7 [exact_div]");
}

#[test]
fn large_literals_wrap() {
    let s = spec("component A() { 0xFFFFFFFFFFFFFFFF }", "A");
    assert_eq!(lines(&s), vec!["result = -1 [output_result]"]);
}

#[test]
fn numbers_are_taken_apart_into_bits_and_put_together() {
    let s = spec("component A(x: Val) { b := ToBits<3>(x); FromBits(b) }", "A");
    assert_eq!(
        names(&s.internals),
        vec![
            named("b0_1", VarType::Bit),
            named("b1_2", VarType::Bit),
            named("b2_3", VarType::Bit)
        ]
    );
    assert_eq!(
        lines(&s),
        vec![
            "x = (((b0_1*1)+(b1_2*2))+(b2_3*4)) [tobits_decompose]",
            "result = (((b0_1*1)+(b1_2*2))+(b2_3*4)) [output_result]"
        ]
    );
    assert_eq!(spec("component A(x: Val) { ToBits(x); x }", "A").internals.len(), 16);
    assert_eq!(
        failure("component A(x: Val) { FromBits(x) }", "A"),
        "FromBits: expected BitArray"
    );
}

#[test]
fn bitwise_conjunction_multiplies_bits() {
    let s = spec("component A(x: Val, y: Val) { BitwiseAndU16(x, y) }", "A");
    assert_eq!(s.internals.len(), 33);
    assert_eq!(s.internals[0].name, "xb0_1");
    assert_eq!(s.internals[1].name, "yb0_2");
    assert_eq!(s.internals[31].name, "yb15_32");
    assert_eq!(s.internals[32].name, "and16_33");
    let all = lines(&s);
    assert!(all[0].starts_with("x = "));
    assert!(all[0].ends_with("+(xb15_31*32768)) [tobits_x]"));
    assert!(all[1].ends_with("+(yb15_32*32768)) [tobits_y]"));
    assert!(all[2].starts_with("and16_33 = "));
    assert!(all[2].ends_with("+((xb15_31*yb15_32)*32768)) [and_result]"));
    assert_eq!(all[3], "result = and16_33 [output_result]");
}

#[test]
fn loops_make_arrays() {
    let s = spec(
        "component A(x: Val) { b := for i : 1 .. 4 { x + i }; b[2] }",
        "A",
    );
    assert_eq!(lines(&s), vec!["result = (x+3) [output_result]"]);
    assert_eq!(
        failure("component A(x: Val) { x[0] }", "A"),
        "Index: expected BitArray[Const]"
    );
}

#[test]
fn calls_are_expanded_with_names_of_their_own() {
    let s = spec(
        "component Half(v: Val) { public h := NondetReg(v); h + h = v; }
         component A(x: Val) { a := Half(x); a.h }",
        "A",
    );
    assert_eq!(
        names(&s.internals),
        vec![named("half_nd_1", VarType::Val), named("half_h_2", VarType::Val)]
    );
    assert_eq!(
        lines(&s),
        vec![
            "half_h_2 = half_nd_1 [public_h]",
            "(half_h_2+half_h_2) = x [constraint]",
            "result = half_h_2 [output_result]"
        ]
    );
}

#[test]
fn a_call_keeps_the_bindings_of_its_caller() {
    let s = spec(
        "component Inner(x: Val) { y := 5; x := 6; y }
         component A(x: Val) { y := x + 1; z := Inner(y); y + z + x }",
        "A",
    );
    assert_eq!(lines(&s), vec!["result = (((x+1)+5)+x) [output_result]"]);
}

#[test]
fn what_a_call_gives_has_its_public_bindings_as_fields() {
    let source = "component P(x: Val) { public a := x; x + 1 }
         component S(x: Val) { public a := x; ValU32(x, x) }
         component N(x: Val) { x = 1; }
         component A(x: Val) { P(x) }
         component B(x: Val) { S(x) }
         component C(x: Val) { N(x) }";
    assert_eq!(
        names(&spec(source, "A").outputs),
        vec![named("result.a", VarType::U16), named("result._value", VarType::U16)]
    );
    assert_eq!(
        names(&spec(source, "B").outputs),
        vec![
            named("result.low", VarType::U16),
            named("result.high", VarType::U16),
            named("result.a", VarType::U16)
        ]
    );
    assert_eq!(
        lines(&spec(source, "C")),
        vec!["x = 1 [constraint]", "result = 0 [output_result]"]
    );
}

#[test]
fn constraints_in_branches_have_guards() {
    let s = spec(
        "component A(g: Val, x: Val, y: Val) {
            [g, 1 - g] -> ({ x = y; U32Reg(x); [y] -> ({ x = 2; }); }, { y = 3; });
            x = 4;
        }",
        "A",
    );
    assert_eq!(
        lines(&s),
        vec![
            "(g*x) = (g*y) [constraint]",
            "(g*u32r_1) = (g*x) [u32reg]",
            "((g*y)*x) = ((g*y)*2) [constraint]",
            "((1-g)*y) = ((1-g)*3) [constraint]",
            "x = 4 [constraint]"
        ]
    );
}

#[test]
fn parameters_of_a_component_type_are_structures() {
    let s = spec(
        "component Pair(a: Val, b: Val) { public fst := a; public snd := b; }
         component Unit() {}
         component A(p: Pair, u: Unit) { p.fst + p.snd + p.third }",
        "A",
    );
    assert_eq!(
        names(&s.inputs),
        vec![
            named("p.fst", VarType::Val),
            named("p.snd", VarType::Val),
            named("u", VarType::Val)
        ]
    );
    assert_eq!(lines(&s), vec!["result = ((p.fst+p.snd)+p.third) [output_result]"]);
}

#[test]
fn externs_give_free_values() {
    let s = spec(
        "component Q(a: ValU32) { public quot := a; public rem := ValU32(1, 2); public ok := 1; }
         extern divide(n: Val) : Q;
         extern pick(n: Val) : Val;
         component A(x: Val) { q := divide(x); q.quot.high = q.rem.low; q.ok = pick(x); }",
        "A",
    );
    assert_eq!(
        names(&s.internals),
        vec![
            named("ext_low_1", VarType::Val),
            named("ext_high_2", VarType::Val),
            named("ext_low_3", VarType::Val),
            named("ext_high_4", VarType::Val),
            named("ok_5", VarType::Val),
            named("ext_6", VarType::Val)
        ]
    );
    assert_eq!(
        lines(&s),
        vec!["ext_high_2 = ext_low_3 [constraint]", "ok_5 = ext_6 [constraint]"]
    );
}

#[test]
fn the_value_of_an_extern_is_declared() {
    let s = spec("extern H(x: Val) : Val; component C(x: Val) { public y := H(x); }", "C");
    assert_eq!(names(&s.internals), vec![named("ext_1", VarType::Val)]);
    assert_eq!(names(&s.outputs), vec![named("y_2", VarType::Val)]);
    assert_eq!(lines(&s), vec!["y_2 = ext_1 [public_y]"]);
}

#[test]
fn an_extern_comes_before_a_component_of_its_name() {
    let mut db = database(
        "extern H(x: Val) : Val; component H(x: Val) { public y := x; }
         component C(x: Val) { H(x) + H(x + 1) }",
    );
    for _ in 0..2 {
        let s = db.checked_lower("C").unwrap().unwrap();
        assert_eq!(
            names(&s.internals),
            vec![named("ext_1", VarType::Val), named("ext_2", VarType::Val)]
        );
        assert_eq!(lines(&s), vec!["result = (ext_1+ext_2) [output_result]"]);
        db.set_abstract(&["H"]);
    }
}

#[test]
fn every_equation_of_a_branch_has_its_guard() {
    for params in ["", "g: Val, x: Val"] {
        let source = format!("component C({}) {{ [g] -> ({{ r := Reg(x); }}); }}", params);
        let s = spec(&source, "C");
        assert_eq!(names(&s.internals), vec![named("r_1", VarType::Val)]);
        assert_eq!(lines(&s), vec!["(g*r_1) = (g*x) [reg_r]"]);
    }
    let s = spec(
        "component C(g: Val, x: Val) { [g] -> ({ FakeTwitReg(x); U16Reg(x); U32Reg(x); x / 3;
         ToBits<1>(x); public y := x; IsZero(x); }); x = 1; }",
        "C",
    );
    assert_eq!(
        lines(&s),
        vec![
            "(g*ftwit_1) = (g*x) [fake_twit_reg]",
            "(g*u16r_2) = (g*x) [u16reg]",
            "(g*u32r_3) = (g*x) [u32reg]",
            "(g*(div_4*3)) = (g*x) [exact_div]",
            "(g*x) = (g*(b0_5*1)) [tobits_decompose]",
            "(g*y_6) = (g*x) [public_y]",
            "iz_7 = IsZero(x)",
            "x = 1 [constraint]"
        ]
    );
}

#[test]
fn equations_of_inner_branches_have_both_guards() {
    let s = spec(
        "component P(a: Val) { public fst := Reg(a); }
         component C(g: Val, h: Val, x: Val) {
             [g] -> ({ [h / 2, h] -> ({ P(x); }, { public v := ValU32(x, 1); }); });
             BitwiseAndU16(x, g) = 1;
         }",
        "C",
    );
    let l = lines(&s);
    assert_eq!(l[0], "(g*(div_1*2)) = (g*h) [exact_div]");
    assert_eq!(l[1], "((g*div_1)*p_fst_2) = ((g*div_1)*x) [reg_fst]");
    assert_eq!(l[2], "((g*div_1)*p_fst_3) = ((g*div_1)*p_fst_2) [public_fst]");
    assert_eq!(l[3], "((g*h)*v.low) = ((g*h)*x) [output_v.low]");
    assert_eq!(l[4], "((g*h)*v.high) = ((g*h)*1) [output_v.high]");
    assert!(l[5].starts_with("x = ") && l[5].ends_with("[tobits_x]"));
    let s = spec(
        "component C(g: Val, x: Val) { [g] -> ({ BitwiseAndU16(x, 1); }); }",
        "C",
    );
    let l = lines(&s);
    assert_eq!(l.len(), 3);
    assert!(l[0].starts_with("(g*x) = (g*(") && l[0].ends_with("[tobits_x]"));
    assert!(l[1].starts_with("(g*1) = (g*(") && l[1].ends_with("[tobits_y]"));
    assert!(l[2].starts_with("(g*and16_33) = (g*(") && l[2].ends_with("[and_result]"));
}

#[test]
fn macros_stand_for_nothing() {
    let s = spec("component C(x: Val) { public y := x; AssumeBit!(y); }", "C");
    assert_eq!(names(&s.outputs), vec![named("y_1", VarType::Val)]);
    assert_eq!(lines(&s), vec!["y_1 = x [public_y]"]);
    let s = spec("component D(x: Val) { x + 1; AssumeBit!(x); }", "D");
    assert_eq!(lines(&s), vec!["result = (x+1) [output_result]"]);
}

#[test]
fn abstract_components_are_functions() {
    let mut db = database(
        "component Pair(a: Val) { public fst := a; public snd := a; }
         component Split(v: ValU32, p: Pair, x: Val) { public w := ValU32(x, x); public bit := x; }
         component A(v: ValU32, p: Pair, x: Val) { s := Split(v, p, x); s.w.low + s.bit }",
    );
    db.set_abstract(&["Split"]);
    let s = db.checked_lower("A").unwrap().unwrap();
    assert_eq!(
        names(&s.internals),
        vec![
            named("split_w_low_1", VarType::U16),
            named("split_w_high_2", VarType::U16),
            named("split_bit_3", VarType::Val)
        ]
    );
    assert_eq!(
        lines(&s),
        vec![
            "Split(v.low,v.high,p.fst,p.snd,x) -> w.low=split_w_low_1,w.high=split_w_high_2,bit=split_bit_3",
            "result = (split_w_low_1+split_bit_3) [output_result]"
        ]
    );
    db.set_abstract(&[]);
    assert_eq!(db.checked_lower("A").unwrap().unwrap().internals.len(), 1);
}

#[test]
fn errors_of_lowering() {
    let source = "component Pair(a: Val) { public fst := a; }
         component W(v: ValU32) { public w := v; }
         component P(p: Pair) { public w := p; }
         component N(x: Val) { x = 1; }
         component A(x: Val) { W(x) } component B(x: Val) { P(x) } component C(x: Val) { N(x) }
         component D(x: Val) { N() } component E(x: Val) { (x + 1).f } component F(x: Val) { G(x) }";
    let mut db = database(source);
    let fails = |db: &ComponentDB, name: &str| db.checked_lower(name).unwrap().unwrap_err();
    assert_eq!(fails(&db, "Z"), "Component 'Z' not found");
    assert_eq!(fails(&db, "E"), "Cannot access field 'f' on non-struct");
    assert_eq!(fails(&db, "F"), "Unknown component: G");
    db.set_abstract(&["W", "P", "N"]);
    assert_eq!(fails(&db, "A"), "missing .low");
    assert_eq!(fails(&db, "B"), "missing field fst on Pair");
    assert_eq!(fails(&db, "C"), "abstract N: no public outputs");
    assert_eq!(fails(&db, "D"), "abstract N: param 0 out of args");
}

#[test]
fn lowering_stops_where_a_scalar_is_missing() {
    let db = database(
        "component A(x: ValU32) { x + 1 } component B() { Reg() } component C(x: Val) { ToBits<65>(x) }
         component D(x: Val) { for i : 0 .. 2 { x }[5] } component E(x: Val) { x }",
    );
    for name in ["A", "B", "C", "D"] {
        assert!(!db.lowers(name));
        assert!(db.checked_lower(name).is_none());
    }
    assert!(db.lowers("E"));
    assert_eq!(lines(&db.lower("E").unwrap()), vec!["result = x [output_result]"]);
    assert!(db.lowers("missing"));
    assert!(db.lower("missing").is_err());
}

#[test]
fn later_definitions_replace_earlier_ones_and_names_are_sorted() {
    let db = database(
        "component B() { 1 } component A(x: Val) { 2 } component a() { 3 } component B() { 4 }",
    );
    assert_eq!(db.names(), vec!["A", "B", "a"]);
    let s = db.checked_lower("B").unwrap().unwrap();
    assert_eq!(lines(&s), vec!["result = 4 [output_result]"]);
}

#[test]
fn internal_names_are_different() {
    let s = spec(
        "component H(v: Val) { public h := NondetReg(v); b := ToBits<4>(v); FromBits(b) }
         component A(x: Val) { a := H(x); b := H(x); a.h + b.h }",
        "A",
    );
    let mut all: Vec<String> = s.internals.iter().map(|v| v.name.clone()).collect();
    let n = all.len();
    all.sort();
    all.dedup();
    assert_eq!(all.len(), n);
}

#[test]
fn values_have_fields() {
    let v = Value::make_struct(Value::Expr(IrExpr::Const(1)), Value::BitArray(vec![]));
    match v.field("low") {
        Some(Value::Expr(IrExpr::Const(n))) => assert_eq!(*n, 1),
        _ => panic!(),
    }
    assert!(matches!(v.field("high"), Some(Value::BitArray(_))));
    assert!(v.field("middle").is_none());
    assert!(Value::Expr(IrExpr::Const(1)).field("low").is_none());
}

#[test]
fn an_instruction_is_shown_line_by_line() {
    let s = spec("component A(x: Val) { y := IsZero(x - 1); y = 1; x / 2 }", "A");
    assert_eq!(
        ir_report(&s),
        vec![
            "=== IR: A (строка 1) ===\n",
            "  Входы (1):",
            "    x : Val [0, 2013265920]",
            "  Выходы (1):",
            "    result : Val [0, 2013265920]",
            "  Промежуточные (2):",
            "    iz_1 : Bit [0, 1]",
            "    div_2 : Val [0, 2013265920]",
            "  Ограничения (4):",
            "    1. iz_1 = IsZero(Sub(Var(\"x\"), Const(1)))",
            "    2. Var(\"iz_1\") = Const(1)  [constraint]",
            "    3. Mul(Var(\"div_2\"), Const(2)) = Var(\"x\")  [exact_div]",
            "    4. Var(\"result\") = Var(\"div_2\")  [output_result]"
        ]
    );
}

#[test]
fn a_call_is_shown_with_its_outputs() {
    let mut db = database(
        "component H(v: Val) { public h := v; public g := v; } component A(x: Val) { H(x) }",
    );
    db.set_abstract(&["H"]);
    let s = db.checked_lower("A").unwrap().unwrap();
    let all = ir_report(&s);
    assert!(all.contains(&"    1. UF[H](1 args) → h=h_h_1, g=h_g_2".to_string()));
}

#[test]
fn expressions_are_shown_as_they_are_built() {
    let e = IrExpr::Div(
        Box::new(IrExpr::Add(Box::new(IrExpr::Const(-5)), Box::new(IrExpr::Var("a\"б".to_string())))),
        Box::new(IrExpr::Const(i64::MIN)),
    );
    assert_eq!(form_of_expr(&e), format!("{:?}", e));
    assert_eq!(
        form_of_expr(&e),
        "Div(Add(Const(-5), Var(\"a\\\"б\")), Const(-9223372036854775808))"
    );
}
