//! From source text to components.

use vstd::prelude::*;
use crate::text::{cat2, cat3, cat4, cat6, decimal};

pub mod ast;
pub mod grammar;
pub mod lexer;

use ast::{
    blocks, exprs, items, pairs, stmts, ComponentDef, Expr, ExprV, Item, ItemV, Op, Stmt, StmtV,
};
use grammar::Parsed;
use lexer::{lemma_eof_stands_last, spanned, tokenize, tokens_of, Spanned, SpannedToken, Tok, Token};

verus! {

/// The items that a text stands for, or the message for the first place that does
/// not fit the grammar.
pub open spec fn items_of_text(s: Seq<char>) -> Result<Seq<ItemV>, Seq<char>> {
    match tokens_of(s) {
        Err(e) => Err(e),
        Ok(ts) => grammar::items_of(ts),
    }
}

/// A position among the tokens of a text.
pub struct Parser {
    tokens: Vec<SpannedToken>,
    pos: usize,
}

/// Names a token in messages.
fn token_name(t: &Token) -> (r: String)
    ensures
        r@ == grammar::token_text(t@),
{
    match t {
        Token::Ident(s) => cat3("Ident(\"", s, "\")"),
        Token::IntLit(n) => cat3("IntLit(", &decimal(*n), ")"),
        Token::Component => "Component".to_owned(),
        Token::Import => "Import".to_owned(),
        Token::Public => "Public".to_owned(),
        Token::For => "For".to_owned(),
        Token::Test => "Test".to_owned(),
        Token::Extern => "Extern".to_owned(),
        Token::LParen => "LParen".to_owned(),
        Token::RParen => "RParen".to_owned(),
        Token::LBrace => "LBrace".to_owned(),
        Token::RBrace => "RBrace".to_owned(),
        Token::LBracket => "LBracket".to_owned(),
        Token::RBracket => "RBracket".to_owned(),
        Token::LAngle => "LAngle".to_owned(),
        Token::RAngle => "RAngle".to_owned(),
        Token::Colon => "Colon".to_owned(),
        Token::ColonEq => "ColonEq".to_owned(),
        Token::Semicolon => "Semicolon".to_owned(),
        Token::Comma => "Comma".to_owned(),
        Token::Dot => "Dot".to_owned(),
        Token::DotDot => "DotDot".to_owned(),
        Token::Eq => "Eq".to_owned(),
        Token::Plus => "Plus".to_owned(),
        Token::Minus => "Minus".to_owned(),
        Token::Star => "Star".to_owned(),
        Token::Slash => "Slash".to_owned(),
        Token::Ampersand => "Ampersand".to_owned(),
        Token::Hash => "Hash".to_owned(),
        Token::Bang => "Bang".to_owned(),
        Token::Eof => "Eof".to_owned(),
    }
}

/// Whether a parser that stood at `before` and stands at `after` has found the
/// phrase that the grammar gives, or failed with its message.
spec fn agrees<T, V>(
    before: Parser,
    after: Parser,
    r: Result<T, String>,
    value: spec_fn(T) -> V,
    s: Parsed<V>,
) -> bool {
    &&& after.wf()
    &&& after.tokens@ == before.tokens@
    &&& match s {
        Ok((v, q)) => r is Ok && value(r->Ok_0) == v && after.pos == q && before.pos <= q,
        Err(m) => r is Err && r->Err_0@ == m,
    }
}

impl Parser {
    /// The parser stands at a token, and the last token is `Eof`.
    spec fn wf(self) -> bool {
        &&& self.pos < self.tokens@.len()
        &&& self.tokens@.last().token@ == Tok::Eof
    }

    /// The tokens, as mathematical values.
    spec fn ts(self) -> Seq<Spanned> {
        spanned(self.tokens@)
    }

    /// Parses a source text.
    pub fn parse_file(source: &str) -> (r: Result<Vec<Item>, String>)
        ensures
            match items_of_text(source@) {
                Ok(v) => r is Ok && items(r->Ok_0@) == v,
                Err(e) => r is Err && r->Err_0@ == e,
            },
    {
        let tokens = tokenize(source)?;
        proof {
            lemma_eof_stands_last(source@, 0, 1);
            assert(spanned(tokens@).last() == tokens@.last()@);
        }
        let mut p = Parser { tokens, pos: 0 };
        p.items()
    }

    fn peek(&self) -> (t: &Token)
        requires
            self.wf(),
        ensures
            t@ == grammar::tok_at(self.ts(), self.pos as int),
    {
        &self.tokens[self.pos].token
    }

    /// Whether the parser stands at the token `t`.
    fn at(&self, t: &Token) -> (r: bool)
        requires
            self.wf(),
        ensures
            r == (grammar::tok_at(self.ts(), self.pos as int) == t@),
    {
        self.peek().is(t)
    }

    fn line(&self) -> (r: String)
        requires
            self.wf(),
        ensures
            r@ == grammar::line_text(self.ts(), self.pos as int),
    {
        decimal(self.tokens[self.pos].line as u64)
    }

    fn advance(&mut self)
        requires
            old(self).wf(),
            grammar::tok_at(old(self).ts(), old(self).pos as int) != Tok::Eof,
        ensures
            final(self).wf(),
            final(self).tokens@ == old(self).tokens@,
            final(self).pos == old(self).pos + 1,
    {
        assert(self.ts()[self.pos as int] == self.tokens@[self.pos as int]@);
        assert(self.pos < self.tokens.len());
        self.pos += 1;
    }

    fn expect(&mut self, t: &Token) -> (r: Result<(), String>)
        requires
            old(self).wf(),
            t@ != Tok::Eof,
        ensures
            agrees(
                *old(self),
                *final(self),
                r,
                |u: ()| u,
                grammar::expected(old(self).ts(), old(self).pos as int, t@),
            ),
    {
        if self.at(t) {
            self.advance();
            Ok(())
        } else {
            Err(
                cat6(
                    "Expected ",
                    &token_name(t),
                    ", got ",
                    &token_name(self.peek()),
                    " line ",
                    &self.line(),
                ),
            )
        }
    }

    fn ident(&mut self) -> (r: Result<String, String>)
        requires
            old(self).wf(),
        ensures
            agrees(
                *old(self),
                *final(self),
                r,
                |s: String| s@,
                grammar::identifier(old(self).ts(), old(self).pos as int),
            ),
    {
        match self.peek() {
            Token::Ident(s) => {
                let name = s.clone();
                self.advance();
                Ok(name)
            },
            _ => Err(cat2("Expected ident line ", &self.line())),
        }
    }

    fn int_lit(&mut self) -> (r: Result<u64, String>)
        requires
            old(self).wf(),
        ensures
            agrees(
                *old(self),
                *final(self),
                r,
                |n: u64| n,
                grammar::integer(old(self).ts(), old(self).pos as int),
            ),
    {
        match self.peek() {
            Token::IntLit(n) => {
                let value = *n;
                self.advance();
                Ok(value)
            },
            _ => Err(cat2("Expected int line ", &self.line())),
        }
    }

    fn expr(&mut self) -> (r: Result<Expr, String>)
        requires
            old(self).wf(),
        ensures
            agrees(
                *old(self),
                *final(self),
                r,
                |e: Expr| e@,
                grammar::expr(old(self).ts(), old(self).pos as int),
            ),
            r is Ok ==> old(self).pos < final(self).pos,
        decreases old(self).tokens@.len() - old(self).pos, 5int,
    {
        proof {
            reveal(grammar::expr);
            reveal(grammar::additive);
        }
        self.additive()
    }

    /// The operator `+` or `-` at which the parser stands, if any.
    fn add_op(&self) -> (r: Option<Op>)
        requires
            self.wf(),
        ensures
            r == grammar::add_op(grammar::tok_at(self.ts(), self.pos as int)),
    {
        match self.peek() {
            Token::Plus => Some(Op::Add),
            Token::Minus => Some(Op::Sub),
            _ => None,
        }
    }

    /// The operator `*` or `/` at which the parser stands, if any.
    fn mul_op(&self) -> (r: Option<Op>)
        requires
            self.wf(),
        ensures
            r == grammar::mul_op(grammar::tok_at(self.ts(), self.pos as int)),
    {
        match self.peek() {
            Token::Star => Some(Op::Mul),
            Token::Slash => Some(Op::Div),
            _ => None,
        }
    }

    fn additive(&mut self) -> (r: Result<Expr, String>)
        requires
            old(self).wf(),
        ensures
            agrees(
                *old(self),
                *final(self),
                r,
                |e: Expr| e@,
                grammar::additive(old(self).ts(), old(self).pos as int),
            ),
            r is Ok ==> old(self).pos < final(self).pos,
        decreases old(self).tokens@.len() - old(self).pos, 4int,
    {
        proof {
            reveal(grammar::additive);
            reveal(grammar::additive_rest);
            reveal(grammar::multiplicative);
        }
        let ghost start = *self;
        let ghost ts = self.ts();
        let mut l = self.multiplicative()?;
        loop
            invariant
                self.wf(),
                start == *old(self),
                self.tokens@ == start.tokens@,
                ts == start.ts(),
                start.pos < self.pos,
                grammar::additive(ts, start.pos as int) == grammar::additive_rest(
                    ts,
                    l@,
                    self.pos as int,
                ),
            decreases self.tokens@.len() - self.pos,
        {
            proof {
                reveal(grammar::additive);
                reveal(grammar::additive_rest);
                reveal(grammar::multiplicative);
            }
            let op = match self.add_op() {
                Some(op) => op,
                None => {
                    return Ok(l);
                },
            };
            self.advance();
            let r = self.multiplicative()?;
            l = Expr::BinOp { op, lhs: Box::new(l), rhs: Box::new(r) };
        }
    }

    fn multiplicative(&mut self) -> (r: Result<Expr, String>)
        requires
            old(self).wf(),
        ensures
            agrees(
                *old(self),
                *final(self),
                r,
                |e: Expr| e@,
                grammar::multiplicative(old(self).ts(), old(self).pos as int),
            ),
            r is Ok ==> old(self).pos < final(self).pos,
        decreases old(self).tokens@.len() - old(self).pos, 3int,
    {
        proof {
            reveal(grammar::multiplicative);
            reveal(grammar::multiplicative_rest);
            reveal(grammar::bitwise);
        }
        let ghost start = *self;
        let ghost ts = self.ts();
        let mut l = self.bitwise()?;
        loop
            invariant
                self.wf(),
                start == *old(self),
                self.tokens@ == start.tokens@,
                ts == start.ts(),
                start.pos < self.pos,
                grammar::multiplicative(ts, start.pos as int) == grammar::multiplicative_rest(
                    ts,
                    l@,
                    self.pos as int,
                ),
            decreases self.tokens@.len() - self.pos,
        {
            proof {
                reveal(grammar::multiplicative);
                reveal(grammar::multiplicative_rest);
                reveal(grammar::bitwise);
            }
            let op = match self.mul_op() {
                Some(op) => op,
                None => {
                    return Ok(l);
                },
            };
            self.advance();
            let r = self.bitwise()?;
            l = Expr::BinOp { op, lhs: Box::new(l), rhs: Box::new(r) };
        }
    }

    fn bitwise(&mut self) -> (r: Result<Expr, String>)
        requires
            old(self).wf(),
        ensures
            agrees(
                *old(self),
                *final(self),
                r,
                |e: Expr| e@,
                grammar::bitwise(old(self).ts(), old(self).pos as int),
            ),
            r is Ok ==> old(self).pos < final(self).pos,
        decreases old(self).tokens@.len() - old(self).pos, 2int,
    {
        proof {
            reveal(grammar::bitwise);
            reveal(grammar::bitwise_rest);
            reveal(grammar::postfix);
        }
        let ghost start = *self;
        let ghost ts = self.ts();
        let mut l = self.postfix()?;
        while self.at(&Token::Ampersand)
            invariant
                self.wf(),
                start == *old(self),
                self.tokens@ == start.tokens@,
                ts == start.ts(),
                start.pos < self.pos,
                grammar::bitwise(ts, start.pos as int) == grammar::bitwise_rest(
                    ts,
                    l@,
                    self.pos as int,
                ),
            decreases self.tokens@.len() - self.pos,
        {
            proof {
                reveal(grammar::bitwise);
                reveal(grammar::bitwise_rest);
                reveal(grammar::postfix);
            }
            self.advance();
            let r = self.postfix()?;
            l = Expr::BinOp { op: Op::BitAnd, lhs: Box::new(l), rhs: Box::new(r) };
        }
        Ok(l)
    }

    fn postfix(&mut self) -> (r: Result<Expr, String>)
        requires
            old(self).wf(),
        ensures
            agrees(
                *old(self),
                *final(self),
                r,
                |e: Expr| e@,
                grammar::postfix(old(self).ts(), old(self).pos as int),
            ),
            r is Ok ==> old(self).pos < final(self).pos,
        decreases old(self).tokens@.len() - old(self).pos, 1int,
    {
        proof {
            reveal(grammar::postfix);
            reveal(grammar::postfix_rest);
            reveal(grammar::primary);
            reveal(grammar::expr);
        }
        let ghost start = *self;
        let ghost ts = self.ts();
        let mut e = self.primary()?;
        loop
            invariant
                self.wf(),
                start == *old(self),
                self.tokens@ == start.tokens@,
                ts == start.ts(),
                start.pos < self.pos,
                grammar::postfix(ts, start.pos as int) == grammar::postfix_rest(
                    ts,
                    e@,
                    self.pos as int,
                ),
            decreases self.tokens@.len() - self.pos,
        {
            proof {
                reveal(grammar::postfix);
                reveal(grammar::postfix_rest);
                reveal(grammar::primary);
                reveal(grammar::expr);
            }
            if self.at(&Token::Dot) {
                self.advance();
                let field = self.ident()?;
                e = Expr::Field { object: Box::new(e), field };
            } else if self.at(&Token::LBracket) {
                self.advance();
                let index = self.expr()?;
                self.expect(&Token::RBracket)?;
                e = Expr::Index { object: Box::new(e), index: Box::new(index) };
            } else {
                return Ok(e);
            }
        }
    }

    /// `for VAR : START .. END {`
    fn for_head(&mut self) -> (r: Result<(String, u64, u64), String>)
        requires
            old(self).wf(),
            grammar::tok_at(old(self).ts(), old(self).pos as int) == Tok::For,
        ensures
            agrees(
                *old(self),
                *final(self),
                r,
                |h: (String, u64, u64)| (h.0@, h.1, h.2),
                grammar::for_head(old(self).ts(), old(self).pos as int),
            ),
            r is Ok ==> old(self).pos < final(self).pos,
    {
        proof {
            reveal(grammar::for_head);
        }
        self.advance();
        let var = self.ident()?;
        self.expect(&Token::Colon)?;
        let start = self.int_lit()?;
        self.expect(&Token::DotDot)?;
        let end = self.int_lit()?;
        self.expect(&Token::LBrace)?;
        Ok((var, start, end))
    }

    /// `< N > (`, behind the name of a call.
    fn type_arg(&mut self) -> (r: Result<u64, String>)
        requires
            old(self).wf(),
            grammar::tok_at(old(self).ts(), old(self).pos as int) == Tok::LAngle,
        ensures
            agrees(
                *old(self),
                *final(self),
                r,
                |n: u64| n,
                grammar::type_arg(old(self).ts(), old(self).pos - 1),
            ),
            r is Ok ==> old(self).pos < final(self).pos,
    {
        proof {
            reveal(grammar::type_arg);
        }
        self.advance();
        let n = self.int_lit()?;
        self.expect(&Token::RAngle)?;
        self.expect(&Token::LParen)?;
        Ok(n)
    }

    /// Arguments and the parenthesis that closes them.
    fn arguments(&mut self) -> (r: Result<Vec<Expr>, String>)
        requires
            old(self).wf(),
        ensures
            agrees(
                *old(self),
                *final(self),
                r,
                |v: Vec<Expr>| exprs(v@),
                grammar::arguments(old(self).ts(), old(self).pos as int),
            ),
        decreases old(self).tokens@.len() - old(self).pos, 7int,
    {
        proof {
            reveal(grammar::arguments);
            reveal(grammar::expr_list);
        }
        let args = self.args(&Token::RParen)?;
        self.expect(&Token::RParen)?;
        Ok(args)
    }

    /// An identifier, or a call of it.
    fn call(&mut self, name: String) -> (r: Result<Expr, String>)
        requires
            old(self).wf(),
            old(self).pos > 0,
            grammar::tok_at(old(self).ts(), old(self).pos - 1) == Tok::Ident(name@),
        ensures
            agrees(
                *old(self),
                *final(self),
                r,
                |e: Expr| e@,
                grammar::primary(old(self).ts(), old(self).pos - 1),
            ),
        decreases old(self).tokens@.len() - old(self).pos, 8int,
    {
        proof {
            reveal(grammar::primary);
            reveal(grammar::arguments);
        }
        if self.at(&Token::LAngle) {
            let n = self.type_arg()?;
            let args = self.arguments()?;
            let mut type_args: Vec<u64> = Vec::new();
            type_args.push(n);
            proof {
                ast::lemma_call_view(name, type_args, args);
                assert(type_args@ =~= seq![n]);
            }
            Ok(Expr::Call { name, type_args, args })
        } else if self.at(&Token::LParen) {
            self.advance();
            let args = self.arguments()?;
            let type_args: Vec<u64> = Vec::new();
            proof {
                ast::lemma_call_view(name, type_args, args);
            }
            Ok(Expr::Call { name, type_args, args })
        } else {
            Ok(Expr::Ident(name))
        }
    }

    #[verifier::spinoff_prover]
    #[verifier::rlimit(40)]
    fn primary(&mut self) -> (r: Result<Expr, String>)
        requires
            old(self).wf(),
        ensures
            agrees(
                *old(self),
                *final(self),
                r,
                |e: Expr| e@,
                grammar::primary(old(self).ts(), old(self).pos as int),
            ),
            r is Ok ==> old(self).pos < final(self).pos,
        decreases old(self).tokens@.len() - old(self).pos, 0int,
    {
        proof {
            reveal(grammar::primary);
            reveal(grammar::expr);
        }
        match self.peek() {
            Token::IntLit(n) => {
                let value = *n;
                self.advance();
                Ok(Expr::IntLit(value))
            },
            Token::LParen => {
                self.advance();
                let e = self.expr()?;
                self.expect(&Token::RParen)?;
                Ok(e)
            },
            Token::For => {
                let (var, start, end) = self.for_head()?;
                let body = self.expr()?;
                self.expect(&Token::RBrace)?;
                Ok(Expr::For { var, start, end, body: Box::new(body) })
            },
            Token::Ident(s) => {
                let name = s.clone();
                self.advance();
                self.call(name)
            },
            _ => Err(
                cat4("Unexpected ", &token_name(self.peek()), " in expr line ", &self.line()),
            ),
        }
    }

    /// Expressions with commas between them, up to the token `close`.
    fn args(&mut self, close: &Token) -> (r: Result<Vec<Expr>, String>)
        requires
            old(self).wf(),
        ensures
            agrees(
                *old(self),
                *final(self),
                r,
                |v: Vec<Expr>| exprs(v@),
                grammar::expr_list(old(self).ts(), old(self).pos as int, close@),
            ),
        decreases old(self).tokens@.len() - old(self).pos, 6int,
    {
        proof {
            reveal(grammar::expr_list);
            reveal(grammar::expr_list_rest);
            reveal(grammar::expr);
        }
        let ghost start = *self;
        let ghost ts = self.ts();
        let mut v: Vec<Expr> = Vec::new();
        if self.at(close) {
            assert(exprs(v@) =~= Seq::<ExprV>::empty());
            return Ok(v);
        }
        let first = self.expr()?;
        v.push(first);
        assert(exprs(v@) =~= seq![first@]);
        while self.at(&Token::Comma)
            invariant
                self.wf(),
                start == *old(self),
                self.tokens@ == start.tokens@,
                ts == start.ts(),
                start.pos < self.pos,
                grammar::expr_list(ts, start.pos as int, close@) == grammar::expr_list_rest(
                    ts,
                    exprs(v@),
                    self.pos as int,
                ),
            decreases self.tokens@.len() - self.pos,
        {
            proof {
                reveal(grammar::expr_list);
                reveal(grammar::expr_list_rest);
                reveal(grammar::expr);
            }
            let ghost before = exprs(v@);
            self.advance();
            let e = self.expr()?;
            v.push(e);
            assert(exprs(v@) =~= before.push(e@));
        }
        Ok(v)
    }

    /// Skips to behind the bracket that closes the one before the parser. Where
    /// there is none the parser stands at the end, and the result is `false`.
    fn skip_balanced(&mut self, open: &Token, close: &Token) -> (closed: bool)
        requires
            old(self).wf(),
            open@ != Tok::Eof,
            close@ != Tok::Eof,
        ensures
            final(self).wf(),
            final(self).tokens@ == old(self).tokens@,
            match grammar::skip_balanced(
                old(self).ts(),
                old(self).pos as int,
                open@,
                close@,
                1,
            ) {
                Ok(q) => closed && final(self).pos == q && old(self).pos <= q,
                Err(z) => !closed && final(self).pos == z,
            },
    {
        proof {
            reveal(grammar::skip_balanced);
        }
        let ghost start = *self;
        let ghost ts = self.ts();
        let mut depth: usize = 1;
        while depth > 0
            invariant
                self.wf(),
                start == *old(self),
                self.tokens@ == start.tokens@,
                ts == start.ts(),
                start.pos <= self.pos,
                depth <= self.pos - start.pos + 1,
                grammar::skip_balanced(ts, start.pos as int, open@, close@, 1)
                    == grammar::skip_balanced(ts, self.pos as int, open@, close@, depth as nat),
            decreases self.tokens@.len() - self.pos,
        {
            proof {
                reveal(grammar::skip_balanced);
            }
            if self.at(&Token::Eof) {
                return false;
            }
            assert(depth <= self.pos + 1 <= self.tokens.len());
            assert(self.ts()[self.pos as int] == self.tokens@[self.pos as int]@);
            if self.at(open) {
                depth += 1;
            } else if self.at(close) {
                depth -= 1;
            }
            self.advance();
        }
        true
    }

    /// The statement before the parser, where what stands there is one.
    fn stmt(&mut self) -> (r: Result<Option<Stmt>, String>)
        requires
            old(self).wf(),
        ensures
            agrees(
                *old(self),
                *final(self),
                r,
                |s: Option<Stmt>|
                    match s {
                        Some(x) => Some(x@),
                        None => None,
                    },
                grammar::stmt(old(self).ts(), old(self).pos as int),
            ),
            r is Ok ==> old(self).pos < final(self).pos,
        decreases old(self).tokens@.len() - old(self).pos, 1int,
    {
        proof {
            reveal(grammar::stmt);
            reveal(grammar::mux_stmt);
            reveal(grammar::macro_stmt);
            reveal(grammar::binding);
            reveal(grammar::plain_stmt);
        }
        if self.at(&Token::LBracket) {
            let s = self.mux_stmt()?;
            return Ok(Some(s));
        }
        let is_public = self.at(&Token::Public);
        if is_public {
            self.advance();
        }
        let word = match self.peek() {
            Token::Ident(s) => Some(s.clone()),
            _ => None,
        };
        if let Some(name) = word {
            let saved = self.pos;
            self.advance();
            if self.at(&Token::Bang) {
                if is_public {
                    return Err(cat2("'public' before macro line ", &self.line()));
                }
                self.advance();
                self.expect(&Token::LParen)?;
                if !self.skip_balanced(&Token::LParen, &Token::RParen) {
                    return Err(cat4("EOF in macro '", &name, "' line ", &self.line()));
                }
                self.expect(&Token::Semicolon)?;
                return Ok(None);
            }
            if self.at(&Token::ColonEq) {
                self.advance();
                let value = self.expr()?;
                self.expect(&Token::Semicolon)?;
                return Ok(Some(Stmt::Binding { is_public, name, value }));
            }
            self.pos = saved;
        }
        if is_public {
            return Err(cat2("'public' needs binding line ", &self.line()));
        }
        let e = self.expr()?;
        if self.at(&Token::Eq) {
            self.advance();
            let rhs = self.expr()?;
            self.expect(&Token::Semicolon)?;
            Ok(Some(Stmt::Constraint { lhs: e, rhs }))
        } else if self.at(&Token::Semicolon) {
            self.advance();
            Ok(Some(Stmt::ExprStmt(e)))
        } else if self.at(&Token::RBrace) {
            Ok(Some(Stmt::ExprStmt(e)))
        } else {
            Err(cat2("Expected ; or = line ", &self.line()))
        }
    }

    fn mux_stmt(&mut self) -> (r: Result<Stmt, String>)
        requires
            old(self).wf(),
        ensures
            agrees(
                *old(self),
                *final(self),
                r,
                |s: Stmt| s@,
                grammar::mux_stmt(old(self).ts(), old(self).pos as int),
            ),
            r is Ok ==> old(self).pos < final(self).pos,
        decreases old(self).tokens@.len() - old(self).pos, 0int,
    {
        proof {
            reveal(grammar::mux_stmt);
            reveal(grammar::block_list);
        }
        self.expect(&Token::LBracket)?;
        let guards = self.args(&Token::RBracket)?;
        self.expect(&Token::RBracket)?;
        self.expect(&Token::Minus)?;
        self.expect(&Token::RAngle)?;
        if self.at(&Token::Bang) {
            self.advance();
        }
        self.expect(&Token::LParen)?;
        let branches = self.block_list()?;
        self.expect(&Token::RParen)?;
        self.expect(&Token::Semicolon)?;
        if guards.len() != branches.len() {
            return Err(
                cat6(
                    "mux: ",
                    &decimal(guards.len() as u64),
                    " guards but ",
                    &decimal(branches.len() as u64),
                    " branches at line ",
                    &self.line(),
                ),
            );
        }
        proof {
            ast::lemma_mux_view(guards, branches);
        }
        Ok(Stmt::Mux { guards, branches })
    }

    /// Blocks with commas between them, up to `)`.
    fn block_list(&mut self) -> (r: Result<Vec<Vec<Stmt>>, String>)
        requires
            old(self).wf(),
        ensures
            agrees(
                *old(self),
                *final(self),
                r,
                |v: Vec<Vec<Stmt>>| blocks(v@),
                grammar::block_list(old(self).ts(), old(self).pos as int),
            ),
        decreases old(self).tokens@.len() - old(self).pos, 4int,
    {
        proof {
            reveal(grammar::block_list);
            reveal(grammar::block_list_rest);
            reveal(grammar::block);
        }
        let ghost start = *self;
        let ghost ts = self.ts();
        let mut v: Vec<Vec<Stmt>> = Vec::new();
        if self.at(&Token::RParen) {
            assert(blocks(v@) =~= Seq::<Seq<StmtV>>::empty());
            return Ok(v);
        }
        let first = self.block_stmts()?;
        v.push(first);
        assert(blocks(v@) =~= seq![stmts(first@)]);
        while self.at(&Token::Comma)
            invariant
                self.wf(),
                start == *old(self),
                self.tokens@ == start.tokens@,
                ts == start.ts(),
                start.pos < self.pos,
                grammar::block_list(ts, start.pos as int) == grammar::block_list_rest(
                    ts,
                    blocks(v@),
                    self.pos as int,
                ),
            decreases self.tokens@.len() - self.pos,
        {
            proof {
                reveal(grammar::block_list);
                reveal(grammar::block_list_rest);
                reveal(grammar::block);
            }
            let ghost before = blocks(v@);
            self.advance();
            let b = self.block_stmts()?;
            v.push(b);
            assert(blocks(v@) =~= before.push(stmts(b@)));
        }
        Ok(v)
    }

    /// Statements in braces.
    fn block_stmts(&mut self) -> (r: Result<Vec<Stmt>, String>)
        requires
            old(self).wf(),
        ensures
            agrees(
                *old(self),
                *final(self),
                r,
                |v: Vec<Stmt>| stmts(v@),
                grammar::block(old(self).ts(), old(self).pos as int),
            ),
            r is Ok ==> old(self).pos < final(self).pos,
        decreases old(self).tokens@.len() - old(self).pos, 3int,
    {
        proof {
            reveal(grammar::block);
            reveal(grammar::stmt_list);
            reveal(grammar::stmt);
        }
        let ghost entry = *self;
        self.expect(&Token::LBrace)?;
        let ghost start = *self;
        let ghost ts = self.ts();
        let mut body: Vec<Stmt> = Vec::new();
        assert(stmts(body@) =~= Seq::<StmtV>::empty());
        while !self.at(&Token::RBrace)
            invariant
                self.wf(),
                entry == *old(self),
                entry.pos < start.pos,
                entry.tokens@ == start.tokens@,
                grammar::behind(ts, entry.pos as int, Tok::LBrace) == Ok::<int, Seq<char>>(start.pos as int),
                self.tokens@ == start.tokens@,
                ts == start.ts(),
                start.pos <= self.pos,
                grammar::stmt_list(ts, Seq::empty(), start.pos as int) == grammar::stmt_list(
                    ts,
                    stmts(body@),
                    self.pos as int,
                ),
            decreases self.tokens@.len() - self.pos,
        {
            proof {
                reveal(grammar::block);
                reveal(grammar::stmt_list);
                reveal(grammar::stmt);
            }
            let ghost before = stmts(body@);
            if let Some(s) = self.stmt()? {
                body.push(s);
                assert(stmts(body@) =~= before.push(s@));
            }
        }
        self.expect(&Token::RBrace)?;
        Ok(body)
    }

    /// Parameters, each a name and a type, up to the token `close`.
    fn param_list(&mut self, close: &Token) -> (r: Result<Vec<(String, String)>, String>)
        requires
            old(self).wf(),
        ensures
            agrees(
                *old(self),
                *final(self),
                r,
                |v: Vec<(String, String)>| pairs(v@),
                grammar::param_list(
                    old(self).ts(),
                    Seq::empty(),
                    old(self).pos as int,
                    close@,
                ),
            ),
    {
        proof {
            reveal(grammar::param_list);
        }
        let ghost start = *self;
        let ghost ts = self.ts();
        let mut v: Vec<(String, String)> = Vec::new();
        assert(pairs(v@) =~= Seq::<(Seq<char>, Seq<char>)>::empty());
        while !self.at(close)
            invariant
                self.wf(),
                start == *old(self),
                self.tokens@ == start.tokens@,
                ts == start.ts(),
                start.pos <= self.pos,
                grammar::param_list(ts, Seq::empty(), start.pos as int, close@)
                    == grammar::param_list(ts, pairs(v@), self.pos as int, close@),
            decreases self.tokens@.len() - self.pos,
        {
            proof {
                reveal(grammar::param_list);
            }
            let ghost before = pairs(v@);
            let n = self.ident()?;
            self.expect(&Token::Colon)?;
            let t = self.ident()?;
            let ghost added = (n@, t@);
            v.push((n, t));
            assert(pairs(v@) =~= before.push(added));
            if self.at(&Token::Comma) {
                self.advance();
            }
        }
        Ok(v)
    }

    fn component(&mut self) -> (r: Result<ComponentDef, String>)
        requires
            old(self).wf(),
        ensures
            agrees(
                *old(self),
                *final(self),
                r,
                |c: ComponentDef| c@,
                grammar::component(old(self).ts(), old(self).pos as int),
            ),
            r is Ok ==> old(self).pos < final(self).pos,
    {
        proof {
            reveal(grammar::component);
        }
        let source_line = self.tokens[self.pos].line;
        self.expect(&Token::Component)?;
        let name = self.ident()?;
        let type_params = if self.at(&Token::LAngle) {
            self.advance();
            let v = self.param_list(&Token::RAngle)?;
            self.expect(&Token::RAngle)?;
            v
        } else {
            let v: Vec<(String, String)> = Vec::new();
            assert(pairs(v@) =~= Seq::<(Seq<char>, Seq<char>)>::empty());
            v
        };
        self.expect(&Token::LParen)?;
        let params = self.param_list(&Token::RParen)?;
        self.expect(&Token::RParen)?;
        let body = self.block_stmts()?;
        Ok(ComponentDef { name, type_params, params, body, source_line })
    }

    /// The item before the parser, where what stands there is one.
    fn item(&mut self) -> (r: Result<Option<Item>, String>)
        requires
            old(self).wf(),
        ensures
            agrees(
                *old(self),
                *final(self),
                r,
                |i: Option<Item>|
                    match i {
                        Some(x) => Some(x@),
                        None => None,
                    },
                grammar::item(old(self).ts(), old(self).pos as int),
            ),
            r is Ok ==> old(self).pos < final(self).pos,
    {
        proof {
            reveal(grammar::item);
        }
        match self.peek() {
            Token::Hash => {
                self.advance();
                self.expect(&Token::LBracket)?;
                let _ = self.ident()?;
                self.expect(&Token::RBracket)?;
                Ok(None)
            },
            Token::Test => {
                self.advance();
                let _ = self.ident()?;
                self.expect(&Token::LBrace)?;
                if !self.skip_balanced(&Token::LBrace, &Token::RBrace) {
                    return Err(cat2("EOF in test block line ", &self.line()));
                }
                Ok(None)
            },
            Token::Import => {
                self.advance();
                let name = self.ident()?;
                self.expect(&Token::Semicolon)?;
                Ok(Some(Item::Import(name)))
            },
            Token::Extern => {
                self.advance();
                let name = self.ident()?;
                self.expect(&Token::LParen)?;
                if !self.skip_balanced(&Token::LParen, &Token::RParen) {
                    return Err(cat4("EOF in extern '", &name, "' line ", &self.line()));
                }
                self.expect(&Token::Colon)?;
                let return_type = self.ident()?;
                self.expect(&Token::Semicolon)?;
                Ok(Some(Item::Extern { name, return_type }))
            },
            Token::Component => {
                let c = self.component()?;
                Ok(Some(Item::Component(c)))
            },
            _ => Err(cat4("Unexpected ", &token_name(self.peek()), " line ", &self.line())),
        }
    }

    fn items(&mut self) -> (r: Result<Vec<Item>, String>)
        requires
            old(self).wf(),
        ensures
            match grammar::items_from(old(self).ts(), Seq::empty(), old(self).pos as int) {
                Ok(v) => r is Ok && items(r->Ok_0@) == v,
                Err(e) => r is Err && r->Err_0@ == e,
            },
    {
        proof {
            reveal(grammar::items_from);
        }
        let ghost start = *self;
        let ghost ts = self.ts();
        let mut v: Vec<Item> = Vec::new();
        assert(items(v@) =~= Seq::<ItemV>::empty());
        while !self.at(&Token::Eof)
            invariant
                self.wf(),
                start == *old(self),
                self.tokens@ == start.tokens@,
                ts == start.ts(),
                grammar::items_from(ts, Seq::empty(), start.pos as int) == grammar::items_from(
                    ts,
                    items(v@),
                    self.pos as int,
                ),
            decreases self.tokens@.len() - self.pos,
        {
            proof {
                reveal(grammar::items_from);
            }
            let ghost before = items(v@);
            if let Some(i) = self.item()? {
                v.push(i);
                assert(items(v@) =~= before.push(i@));
            }
        }
        Ok(v)
    }
}

} // verus!
