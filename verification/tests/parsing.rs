use zkvm_verifier::parser::ast::{Expr, Item, Op, Stmt};
use zkvm_verifier::parser::lexer::{tokenize, Token};
use zkvm_verifier::parser::Parser;

fn tokens(source: &str) -> Vec<(Token, usize)> {
    tokenize(source).unwrap().into_iter().map(|t| (t.token, t.line)).collect()
}

fn word(s: &str) -> Token {
    Token::Ident(s.to_string())
}

fn failure(source: &str) -> String {
    Parser::parse_file(source).unwrap_err()
}

/// The statements of the only component of a source text.
fn body(source: &str) -> Vec<Stmt> {
    let mut items = Parser::parse_file(source).unwrap();
    assert_eq!(items.len(), 1);
    match items.remove(0) {
        Item::Component(c) => c.body,
        _ => panic!("no component"),
    }
}

/// An expression as it is read in a body.
fn shown(text: &str) -> String {
    let source = format!("component A() {{ {} }}", text);
    let stmts = body(&source);
    assert_eq!(stmts.len(), 1);
    match &stmts[0] {
        Stmt::ExprStmt(e) => e.display(),
        _ => panic!("no expression"),
    }
}

#[test]
fn every_sign_is_a_token() {
    let all = tokens("( ) { } [ ] < > : := ; , . .. = + - * / & # !");
    let expected = vec![
        Token::LParen,
        Token::RParen,
        Token::LBrace,
        Token::RBrace,
        Token::LBracket,
        Token::RBracket,
        Token::LAngle,
        Token::RAngle,
        Token::Colon,
        Token::ColonEq,
        Token::Semicolon,
        Token::Comma,
        Token::Dot,
        Token::DotDot,
        Token::Eq,
        Token::Plus,
        Token::Minus,
        Token::Star,
        Token::Slash,
        Token::Ampersand,
        Token::Hash,
        Token::Bang,
        Token::Eof,
    ];
    assert_eq!(all.len(), expected.len());
    for (found, wanted) in all.into_iter().zip(expected) {
        assert_eq!(found, (wanted, 1));
    }
}

#[test]
fn keywords_are_not_identifiers() {
    let all = tokens("component import public for test extern component_ _x");
    let expected = vec![
        Token::Component,
        Token::Import,
        Token::Public,
        Token::For,
        Token::Test,
        Token::Extern,
        word("component_"),
        word("_x"),
        Token::Eof,
    ];
    for (found, wanted) in all.into_iter().zip(expected) {
        assert_eq!(found.0, wanted);
    }
}

#[test]
fn numbers_are_decimal_or_hexadecimal() {
    assert_eq!(
        tokens("0 007 0x1F 0XfF 18446744073709551615"),
        vec![
            (Token::IntLit(0), 1),
            (Token::IntLit(7), 1),
            (Token::IntLit(31), 1),
            (Token::IntLit(255), 1),
            (Token::IntLit(u64::MAX), 1),
            (Token::Eof, 1),
        ]
    );
}

#[test]
fn numbers_that_are_too_large_are_refused() {
    assert_eq!(
        tokenize("18446744073709551616").err(),
        Some("int: number too large to fit in target type".to_string())
    );
    assert_eq!(
        tokenize("0x10000000000000000").err(),
        Some("hex: number too large to fit in target type".to_string())
    );
    assert_eq!(
        tokenize("0x").err(),
        Some("hex: cannot parse integer from empty string".to_string())
    );
}

#[test]
fn comments_and_blanks_are_skipped_and_lines_are_counted() {
    assert_eq!(
        tokens("a // b\n\t/* c\n d */ e\u{a0}\n f"),
        vec![(word("a"), 1), (word("e"), 3), (word("f"), 4), (Token::Eof, 4)]
    );
}

#[test]
fn unknown_characters_are_refused_with_their_line() {
    assert_eq!(tokenize("a\n $").err(), Some("Unexpected '$' at line 2".to_string()));
    assert_eq!(tokenize("ж").err(), Some("Unexpected 'ж' at line 1".to_string()));
}

#[test]
fn the_end_stands_last() {
    for source in ["", "a", "a b\n", "/* c */", "( ( ("] {
        let all = tokens(source);
        let ends = all.iter().filter(|t| t.0 == Token::Eof).count();
        assert_eq!(ends, 1);
        assert_eq!(all.last().unwrap().0, Token::Eof);
    }
}

#[test]
fn imports_externs_and_components_are_items() {
    let items = Parser::parse_file(
        "import bits;\nextern hint(a: Val, b: Pair(c)) : Pair;\n#[picus]\ncomponent C<N: Val>(x: Val, y: ValU32) { x }",
    )
    .unwrap();
    assert_eq!(items.len(), 3);
    match &items[0] {
        Item::Import(name) => assert_eq!(name, "bits"),
        _ => panic!(),
    }
    match &items[1] {
        Item::Extern { name, return_type } => {
            assert_eq!(name, "hint");
            assert_eq!(return_type, "Pair");
        }
        _ => panic!(),
    }
    match &items[2] {
        Item::Component(c) => {
            assert_eq!(c.name, "C");
            assert_eq!(c.source_line, 4);
            assert_eq!(c.type_params, vec![("N".to_string(), "Val".to_string())]);
            assert_eq!(
                c.params,
                vec![
                    ("x".to_string(), "Val".to_string()),
                    ("y".to_string(), "ValU32".to_string())
                ]
            );
            assert_eq!(c.body.len(), 1);
        }
        _ => panic!(),
    }
}

#[test]
fn tests_are_skipped() {
    assert_eq!(Parser::parse_file("test t { a { b } c }").unwrap().len(), 0);
    assert_eq!(failure("test t {\n a {"), "EOF in test block line 2");
}

#[test]
fn products_bind_tighter_than_sums() {
    assert_eq!(shown("a + b * c - d / e"), "((a + (b * c)) - (d / e))");
    assert_eq!(shown("a & b * c & d"), "((a & b) * (c & d))");
    assert_eq!(shown("(a + b) * c"), "((a + b) * c)");
    assert_eq!(shown("a - b - c"), "((a - b) - c)");
}

#[test]
fn fields_indices_calls_and_loops_are_expressions() {
    assert_eq!(shown("a.b.c[1 + i].d"), "a.b.c[(1 + i)].d");
    assert_eq!(shown("ToBits<16>(x)[0]"), "ToBits<16>(x)[0]");
    assert_eq!(shown("f(a, g(), 3)"), "f(a, g(), 3)");
    assert_eq!(shown("for i : 0 .. 16 { x[i] * y[i] }"), "for i:0..16{(x[i] * y[i])}");
}

#[test]
fn statements_bind_constrain_or_stand_alone() {
    let stmts = body("component A() { x := 1; public y := x; x = y; AssumeBit!(x, (y)); x; y }");
    assert_eq!(stmts.len(), 5);
    match &stmts[0] {
        Stmt::Binding { is_public, name, value } => {
            assert!(!*is_public);
            assert_eq!(name, "x");
            assert_eq!(value.display(), "1");
        }
        _ => panic!(),
    }
    match &stmts[1] {
        Stmt::Binding { is_public, name, value } => {
            assert!(*is_public);
            assert_eq!(name, "y");
            assert_eq!(value.display(), "x");
        }
        _ => panic!(),
    }
    match &stmts[2] {
        Stmt::Constraint { lhs, rhs } => {
            assert_eq!(lhs.display(), "x");
            assert_eq!(rhs.display(), "y");
        }
        _ => panic!(),
    }
    match &stmts[3] {
        Stmt::ExprStmt(e) => assert_eq!(e.display(), "x"),
        _ => panic!(),
    }
    match &stmts[4] {
        Stmt::ExprStmt(e) => assert_eq!(e.display(), "y"),
        _ => panic!(),
    }
}

#[test]
fn a_mux_has_a_branch_for_each_guard() {
    for arrow in ["->", "->!"] {
        let source = format!("component A(g: Val) {{ [g, 1 - g] {} ({{ g = 1; }}, {{}}); }}", arrow);
        let stmts = body(&source);
        match &stmts[0] {
            Stmt::Mux { guards, branches } => {
                assert_eq!(guards.len(), 2);
                assert_eq!(guards[1].display(), "(1 - g)");
                assert_eq!(branches.len(), 2);
                assert_eq!(branches[0].len(), 1);
                assert_eq!(branches[1].len(), 0);
            }
            _ => panic!(),
        }
    }
    assert_eq!(
        failure("component A() {\n [a, b] -> ({}); }"),
        "mux: 2 guards but 1 branches at line 2"
    );
}

#[test]
fn wrong_texts_are_refused_with_the_line() {
    assert_eq!(failure("x"), "Unexpected Ident(\"x\") line 1");
    assert_eq!(failure("\n5"), "Unexpected IntLit(5) line 2");
    assert_eq!(failure("component (x: Val) {}"), "Expected ident line 1");
    assert_eq!(failure("component A[]"), "Expected LParen, got LBracket line 1");
    assert_eq!(failure("component A() { x"), "Expected ; or = line 1");
    assert_eq!(failure("component A() {\n + }"), "Unexpected Plus in expr line 2");
    assert_eq!(failure("component A() { public x; }"), "'public' needs binding line 1");
    assert_eq!(failure("component A() { public M!(x); }"), "'public' before macro line 1");
    assert_eq!(failure("component A() { M!(x"), "EOF in macro 'M' line 1");
    assert_eq!(failure("extern f(a"), "EOF in extern 'f' line 1");
    assert_eq!(failure("import bits"), "Expected Semicolon, got Eof line 1");
    assert_eq!(failure("component A() { for i : x .. 3 { i } }"), "Expected int line 1");
    assert_eq!(failure("component A() { f<x>(1) }"), "Expected int line 1");
    assert_eq!(failure("component A() { @ }"), "Unexpected '@' at line 1");
}

#[test]
fn operators_have_signs() {
    let all = [(Op::Add, "+"), (Op::Sub, "-"), (Op::Mul, "*"), (Op::Div, "/"), (Op::BitAnd, "&")];
    for (op, sign) in all {
        assert_eq!(op.display(), sign);
    }
}

#[test]
fn a_comment_without_an_end_leaves_the_last_character() {
    assert_eq!(tokens("/* ab"), vec![(word("b"), 1), (Token::Eof, 1)]);
    assert_eq!(tokens("/*/"), vec![(Token::Slash, 1), (Token::Eof, 1)]);
    assert_eq!(tokens("/*"), vec![(Token::Eof, 1)]);
    assert_eq!(tokens("/* a\n*"), vec![(Token::Star, 2), (Token::Eof, 2)]);
    assert_eq!(tokens("// a"), vec![(Token::Eof, 1)]);
}
