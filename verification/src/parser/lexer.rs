//! From source text to tokens.

use vstd::prelude::*;
use crate::text::{characters, cat2, cat4, decimal, digits, is_white_space, same, slice_of};

verus! {

/// A token of the component language.
#[derive(Debug, PartialEq)]
pub enum Token {
    Component,
    Import,
    Public,
    For,
    Test,
    Extern,
    Ident(String),
    IntLit(u64),
    LParen,
    RParen,
    LBrace,
    RBrace,
    LBracket,
    RBracket,
    LAngle,
    RAngle,
    Colon,
    ColonEq,
    Semicolon,
    Comma,
    Dot,
    DotDot,
    Eq,
    Plus,
    Minus,
    Star,
    Slash,
    Ampersand,
    Hash,
    Bang,
    Eof,
}

/// A token as a mathematical value.
pub enum Tok {
    Component,
    Import,
    Public,
    For,
    Test,
    Extern,
    Ident(Seq<char>),
    IntLit(u64),
    LParen,
    RParen,
    LBrace,
    RBrace,
    LBracket,
    RBracket,
    LAngle,
    RAngle,
    Colon,
    ColonEq,
    Semicolon,
    Comma,
    Dot,
    DotDot,
    Eq,
    Plus,
    Minus,
    Star,
    Slash,
    Ampersand,
    Hash,
    Bang,
    Eof,
}

impl Token {
    /// The mathematical value of the token.
    pub open spec fn view(&self) -> Tok {
        match self {
            Token::Component => Tok::Component,
            Token::Import => Tok::Import,
            Token::Public => Tok::Public,
            Token::For => Tok::For,
            Token::Test => Tok::Test,
            Token::Extern => Tok::Extern,
            Token::Ident(s) => Tok::Ident(s@),
            Token::IntLit(n) => Tok::IntLit(*n),
            Token::LParen => Tok::LParen,
            Token::RParen => Tok::RParen,
            Token::LBrace => Tok::LBrace,
            Token::RBrace => Tok::RBrace,
            Token::LBracket => Tok::LBracket,
            Token::RBracket => Tok::RBracket,
            Token::LAngle => Tok::LAngle,
            Token::RAngle => Tok::RAngle,
            Token::Colon => Tok::Colon,
            Token::ColonEq => Tok::ColonEq,
            Token::Semicolon => Tok::Semicolon,
            Token::Comma => Tok::Comma,
            Token::Dot => Tok::Dot,
            Token::DotDot => Tok::DotDot,
            Token::Eq => Tok::Eq,
            Token::Plus => Tok::Plus,
            Token::Minus => Tok::Minus,
            Token::Star => Tok::Star,
            Token::Slash => Tok::Slash,
            Token::Ampersand => Tok::Ampersand,
            Token::Hash => Tok::Hash,
            Token::Bang => Tok::Bang,
            Token::Eof => Tok::Eof,
        }
    }
}

impl Clone for Token {
    fn clone(&self) -> (r: Self)
        ensures
            r@ == self@,
    {
        match self {
            Token::Ident(s) => Token::Ident(s.clone()),
            Token::IntLit(n) => Token::IntLit(*n),
            Token::Component => Token::Component,
            Token::Import => Token::Import,
            Token::Public => Token::Public,
            Token::For => Token::For,
            Token::Test => Token::Test,
            Token::Extern => Token::Extern,
            Token::LParen => Token::LParen,
            Token::RParen => Token::RParen,
            Token::LBrace => Token::LBrace,
            Token::RBrace => Token::RBrace,
            Token::LBracket => Token::LBracket,
            Token::RBracket => Token::RBracket,
            Token::LAngle => Token::LAngle,
            Token::RAngle => Token::RAngle,
            Token::Colon => Token::Colon,
            Token::ColonEq => Token::ColonEq,
            Token::Semicolon => Token::Semicolon,
            Token::Comma => Token::Comma,
            Token::Dot => Token::Dot,
            Token::DotDot => Token::DotDot,
            Token::Eq => Token::Eq,
            Token::Plus => Token::Plus,
            Token::Minus => Token::Minus,
            Token::Star => Token::Star,
            Token::Slash => Token::Slash,
            Token::Ampersand => Token::Ampersand,
            Token::Hash => Token::Hash,
            Token::Bang => Token::Bang,
            Token::Eof => Token::Eof,
        }
    }
}

impl Token {
    /// Whether two tokens are the same.
    pub fn is(&self, other: &Token) -> (r: bool)
        ensures
            r == (self@ == other@),
    {
        match (self, other) {
            (Token::Ident(a), Token::Ident(b)) => same(a, b),
            (Token::IntLit(a), Token::IntLit(b)) => *a == *b,
            (Token::Component, Token::Component) => true,
            (Token::Import, Token::Import) => true,
            (Token::Public, Token::Public) => true,
            (Token::For, Token::For) => true,
            (Token::Test, Token::Test) => true,
            (Token::Extern, Token::Extern) => true,
            (Token::LParen, Token::LParen) => true,
            (Token::RParen, Token::RParen) => true,
            (Token::LBrace, Token::LBrace) => true,
            (Token::RBrace, Token::RBrace) => true,
            (Token::LBracket, Token::LBracket) => true,
            (Token::RBracket, Token::RBracket) => true,
            (Token::LAngle, Token::LAngle) => true,
            (Token::RAngle, Token::RAngle) => true,
            (Token::Colon, Token::Colon) => true,
            (Token::ColonEq, Token::ColonEq) => true,
            (Token::Semicolon, Token::Semicolon) => true,
            (Token::Comma, Token::Comma) => true,
            (Token::Dot, Token::Dot) => true,
            (Token::DotDot, Token::DotDot) => true,
            (Token::Eq, Token::Eq) => true,
            (Token::Plus, Token::Plus) => true,
            (Token::Minus, Token::Minus) => true,
            (Token::Star, Token::Star) => true,
            (Token::Slash, Token::Slash) => true,
            (Token::Ampersand, Token::Ampersand) => true,
            (Token::Hash, Token::Hash) => true,
            (Token::Bang, Token::Bang) => true,
            (Token::Eof, Token::Eof) => true,
            _ => false,
        }
    }
}

/// A token with the number of the line on which it starts.
pub struct SpannedToken {
    pub token: Token,
    pub line: usize,
}

/// A token with its line, as a mathematical value.
pub struct Spanned {
    pub tok: Tok,
    pub line: nat,
}

impl SpannedToken {
    /// The mathematical value of the token and its line.
    pub open spec fn view(&self) -> Spanned {
        Spanned { tok: self.token@, line: self.line as nat }
    }
}

/// The mathematical values of a sequence of tokens.
pub open spec fn spanned(ts: Seq<SpannedToken>) -> Seq<Spanned> {
    ts.map_values(|t: SpannedToken| t@)
}

// ---------------------------------------------------------------------------
// Character classes and numerals
// ---------------------------------------------------------------------------

/// An ASCII decimal digit.
#[verifier::allow_in_spec]
pub fn is_digit(c: char) -> bool
    returns
        '0' <= c && c <= '9',
{
    '0' <= c && c <= '9'
}

/// An ASCII hexadecimal digit.
#[verifier::allow_in_spec]
pub fn is_hex_digit(c: char) -> bool
    returns
        is_digit(c) || ('a' <= c && c <= 'f') || ('A' <= c && c <= 'F'),
{
    is_digit(c) || ('a' <= c && c <= 'f') || ('A' <= c && c <= 'F')
}

/// A character with which an identifier starts.
#[verifier::allow_in_spec]
pub fn is_word_start(c: char) -> bool
    returns
        ('a' <= c && c <= 'z') || ('A' <= c && c <= 'Z') || c == '_',
{
    ('a' <= c && c <= 'z') || ('A' <= c && c <= 'Z') || c == '_'
}

/// A character with which an identifier goes on.
#[verifier::allow_in_spec]
pub fn is_word(c: char) -> bool
    returns
        is_word_start(c) || is_digit(c),
{
    is_word_start(c) || is_digit(c)
}

/// The kinds of characters of which a run is one token.
#[derive(Clone, Copy)]
pub enum Class {
    Digit,
    HexDigit,
    Word,
}

/// Whether `c` belongs to a class.
#[verifier::allow_in_spec]
pub fn in_class(k: Class, c: char) -> bool
    returns
        (match k {
            Class::Digit => is_digit(c),
            Class::HexDigit => is_hex_digit(c),
            Class::Word => is_word(c),
        }),
{
    match k {
        Class::Digit => is_digit(c),
        Class::HexDigit => is_hex_digit(c),
        Class::Word => is_word(c),
    }
}

/// Where the longest run of characters of class `k` that starts at `p` ends.
pub open spec fn run_end(s: Seq<char>, p: int, k: Class) -> int
    decreases s.len() - p,
{
    if 0 <= p < s.len() && in_class(k, s[p]) {
        run_end(s, p + 1, k)
    } else {
        p
    }
}

/// The value of a digit.
pub open spec fn digit_value(c: char) -> nat {
    if is_digit(c) {
        (c as u32 - '0' as u32) as nat
    } else if 'a' <= c <= 'f' {
        (c as u32 - 'a' as u32 + 10) as nat
    } else {
        (c as u32 - 'A' as u32 + 10) as nat
    }
}

/// The value of a numeral in the given base.
pub open spec fn numeral(s: Seq<char>, base: nat) -> nat
    decreases s.len(),
{
    if s.len() == 0 {
        0
    } else {
        numeral(s.drop_last(), base) * base + digit_value(s.last())
    }
}

/// The number that a non-empty run of digits stands for, or why it stands for none.
pub open spec fn number(s: Seq<char>, base: nat) -> Result<u64, Seq<char>> {
    if s.len() == 0 {
        Err("cannot parse integer from empty string"@)
    } else if numeral(s, base) > u64::MAX {
        Err("number too large to fit in target type"@)
    } else {
        Ok(numeral(s, base) as u64)
    }
}

proof fn lemma_numeral_prefix(s: Seq<char>, base: nat, i: int)
    requires
        base >= 1,
        0 <= i <= s.len(),
    ensures
        numeral(s.take(i), base) <= numeral(s, base),
    decreases s.len() - i,
{
    if i == s.len() {
        assert(s.take(i) =~= s);
    } else {
        lemma_numeral_prefix(s, base, i + 1);
        assert(s.take(i + 1).drop_last() =~= s.take(i));
        let v = numeral(s.take(i), base);
        assert(v * base >= v) by (nonlinear_arith)
            requires
                base >= 1,
        ;
    }
}

/// The same characters. A vector to which one more element can be added holds
/// fewer than `usize::MAX`.
fn countable(cs: Vec<char>) -> (r: Vec<char>)
    ensures
        r@ == cs@,
        r.len() < usize::MAX,
{
    let mut r = cs;
    r.push(' ');
    let _ = r.len();
    r.pop();
    assert(r@ =~= cs@);
    r
}

fn run(cs: &Vec<char>, from: usize, k: Class) -> (to: usize)
    requires
        from <= cs.len(),
    ensures
        from <= to <= cs.len(),
        to == run_end(cs@, from as int, k),
        from < cs.len() && in_class(k, cs@[from as int]) ==> from < to,
        forall|i: int| from <= i < to ==> in_class(k, #[trigger] cs@[i]),
{
    let mut to: usize = from;
    while to < cs.len() && in_class(k, cs[to])
        invariant
            from <= to <= cs.len(),
            run_end(cs@, to as int, k) == run_end(cs@, from as int, k),
            forall|i: int| from <= i < to ==> in_class(k, #[trigger] cs@[i]),
        decreases cs.len() - to,
    {
        to += 1;
    }
    to
}

fn digit_of(c: char) -> (d: u64)
    requires
        is_hex_digit(c),
    ensures
        d == digit_value(c),
{
    if is_digit(c) {
        c as u64 - 48
    } else if 'a' <= c && c <= 'f' {
        c as u64 - 97 + 10
    } else {
        c as u64 - 65 + 10
    }
}

fn read_number(cs: &Vec<char>, from: usize, to: usize, base: u64) -> (r: Result<u64, String>)
    requires
        from <= to <= cs.len(),
        base == 10 || base == 16,
        forall|i: int| from <= i < to ==> is_hex_digit(#[trigger] cs@[i]),
    ensures
        match number(cs@.subrange(from as int, to as int), base as nat) {
            Ok(n) => r == Ok::<u64, String>(n),
            Err(e) => r is Err && r->Err_0@ == e,
        },
{
    let ghost s = cs@.subrange(from as int, to as int);
    if from == to {
        return Err("cannot parse integer from empty string".to_owned());
    }
    let mut v: u64 = 0;
    let mut i: usize = from;
    assert(s.take(0) =~= Seq::<char>::empty());
    while i < to
        invariant
            from <= i <= to <= cs.len(),
            base == 10 || base == 16,
            s == cs@.subrange(from as int, to as int),
            s.len() > 0,
            forall|j: int| from <= j < to ==> is_hex_digit(#[trigger] cs@[j]),
            v == numeral(s.take(i - from), base as nat),
        decreases to - i,
    {
        let d = digit_of(cs[i]);
        let ghost k = i - from;
        assert(s.take(k + 1).drop_last() =~= s.take(k));
        assert(s.take(k + 1).last() == cs@[i as int]);
        proof {
            lemma_numeral_prefix(s, base as nat, k + 1);
        }
        match v.checked_mul(base) {
            Some(w) => match w.checked_add(d) {
                Some(x) => {
                    v = x;
                },
                None => {
                    return Err("number too large to fit in target type".to_owned());
                },
            },
            None => {
                return Err("number too large to fit in target type".to_owned());
            },
        }
        i += 1;
    }
    assert(s.take(s.len() as int) =~= s);
    Ok(v)
}

// ---------------------------------------------------------------------------
// Blanks
// ---------------------------------------------------------------------------

/// Whether the two characters `a` and `b` stand at `p`.
pub open spec fn pair_at(s: Seq<char>, p: int, a: char, b: char) -> bool {
    0 <= p && p + 1 < s.len() && s[p] == a && s[p + 1] == b
}

/// `line`, counted up where `c` ends a line.
pub open spec fn next_line(line: nat, c: char) -> nat {
    if c == '\n' {
        line + 1
    } else {
        line
    }
}

/// The end of the line comment in which `p` stands: the next line break, or the
/// end of the text.
pub open spec fn line_comment_end(s: Seq<char>, p: int) -> int
    decreases s.len() - p,
{
    if 0 <= p < s.len() && s[p] != '\n' {
        line_comment_end(s, p + 1)
    } else {
        p
    }
}

/// Where the text goes on after the block comment in which `p` stands, and the
/// line there. A comment that nothing closes ends before the last character.
pub open spec fn block_comment_end(s: Seq<char>, p: int, line: nat) -> (int, nat)
    decreases s.len() - p,
{
    if 0 <= p && p + 1 < s.len() {
        if pair_at(s, p, '*', '/') {
            (p + 2, line)
        } else {
            block_comment_end(s, p + 1, next_line(line, s[p]))
        }
    } else {
        (p, line)
    }
}

/// Where the first character at or after `p` stands that belongs neither to white
/// space nor to a comment, and the line there.
pub open spec fn skip_blank(s: Seq<char>, p: int, line: nat) -> (int, nat)
    decreases s.len() - p,
{
    if !(0 <= p < s.len()) {
        (p, line)
    } else if is_white_space(s[p]) {
        skip_blank(s, p + 1, next_line(line, s[p]))
    } else if pair_at(s, p, '/', '/') {
        let q = line_comment_end(s, p);
        if p < q <= s.len() {
            skip_blank(s, q, line)
        } else {
            (p, line)
        }
    } else if pair_at(s, p, '/', '*') {
        let (q, l) = block_comment_end(s, p + 2, line);
        if p < q <= s.len() {
            skip_blank(s, q, l)
        } else {
            (p, line)
        }
    } else {
        (p, line)
    }
}

fn after_line_comment(cs: &Vec<char>, from: usize) -> (to: usize)
    requires
        from <= cs.len(),
    ensures
        from <= to <= cs.len(),
        to == line_comment_end(cs@, from as int),
{
    let mut to: usize = from;
    while to < cs.len() && cs[to] != '\n'
        invariant
            from <= to <= cs.len(),
            line_comment_end(cs@, to as int) == line_comment_end(cs@, from as int),
        decreases cs.len() - to,
    {
        to += 1;
    }
    to
}

fn after_block_comment(cs: &Vec<char>, from: usize, line: usize) -> (r: (usize, usize))
    requires
        from <= cs.len() < usize::MAX,
        line <= from + 1,
    ensures
        from <= r.0 <= cs.len(),
        r.1 <= r.0 + 1,
        (r.0 as int, r.1 as nat) == block_comment_end(cs@, from as int, line as nat),
{
    let mut to: usize = from;
    let mut l: usize = line;
    let n = cs.len();
    while n - to > 1 && !(cs[to] == '*' && cs[to + 1] == '/')
        invariant
            n == cs.len(),
            n < usize::MAX,
            from <= to <= cs.len(),
            l <= to + 1,
            block_comment_end(cs@, to as int, l as nat) == block_comment_end(
                cs@,
                from as int,
                line as nat,
            ),
        decreases n - to,
    {
        if cs[to] == '\n' {
            l += 1;
        }
        to += 1;
    }
    if n - to > 1 {
        to += 2;
    }
    (to, l)
}

fn after_blank(cs: &Vec<char>, from: usize, line: usize) -> (r: (usize, usize))
    requires
        from <= cs.len() < usize::MAX,
        line <= from + 1,
    ensures
        from <= r.0 <= cs.len(),
        r.1 <= r.0 + 1,
        (r.0 as int, r.1 as nat) == skip_blank(cs@, from as int, line as nat),
{
    let mut to: usize = from;
    let mut l: usize = line;
    let n = cs.len();
    loop
        invariant
            n == cs.len(),
            n < usize::MAX,
            from <= to <= n,
            l <= to + 1,
            skip_blank(cs@, to as int, l as nat) == skip_blank(cs@, from as int, line as nat),
        ensures
            from <= to <= n,
            l <= to + 1,
            (to as int, l as nat) == skip_blank(cs@, from as int, line as nat),
        decreases n - to,
    {
        if to == n {
            break;
        }
        if cs[to].is_whitespace() {
            if cs[to] == '\n' {
                l += 1;
            }
            to += 1;
        } else if n - to > 1 && cs[to] == '/' && cs[to + 1] == '/' {
            to = after_line_comment(cs, to + 1);
        } else if n - to > 1 && cs[to] == '/' && cs[to + 1] == '*' {
            let (t, k) = after_block_comment(cs, to + 2, l);
            to = t;
            l = k;
        } else {
            break;
        }
    }
    (to, l)
}

// ---------------------------------------------------------------------------
// Tokens
// ---------------------------------------------------------------------------

/// The token that a word is: a keyword, or else an identifier.
pub open spec fn word_token(w: Seq<char>) -> Tok {
    if w == "component"@ {
        Tok::Component
    } else if w == "import"@ {
        Tok::Import
    } else if w == "public"@ {
        Tok::Public
    } else if w == "for"@ {
        Tok::For
    } else if w == "test"@ {
        Tok::Test
    } else if w == "extern"@ {
        Tok::Extern
    } else {
        Tok::Ident(w)
    }
}

/// The token that starts at `p` on line `line`, and where it ends.
pub open spec fn token_at(s: Seq<char>, p: int, line: nat) -> Result<(Tok, int), Seq<char>> {
    let c = s[p];
    let next_is = |x: char| p + 1 < s.len() && s[p + 1] == x;
    if c == '(' {
        Ok((Tok::LParen, p + 1))
    } else if c == ')' {
        Ok((Tok::RParen, p + 1))
    } else if c == '{' {
        Ok((Tok::LBrace, p + 1))
    } else if c == '}' {
        Ok((Tok::RBrace, p + 1))
    } else if c == '[' {
        Ok((Tok::LBracket, p + 1))
    } else if c == ']' {
        Ok((Tok::RBracket, p + 1))
    } else if c == '<' {
        Ok((Tok::LAngle, p + 1))
    } else if c == '>' {
        Ok((Tok::RAngle, p + 1))
    } else if c == ';' {
        Ok((Tok::Semicolon, p + 1))
    } else if c == ',' {
        Ok((Tok::Comma, p + 1))
    } else if c == '+' {
        Ok((Tok::Plus, p + 1))
    } else if c == '-' {
        Ok((Tok::Minus, p + 1))
    } else if c == '*' {
        Ok((Tok::Star, p + 1))
    } else if c == '/' {
        Ok((Tok::Slash, p + 1))
    } else if c == '&' {
        Ok((Tok::Ampersand, p + 1))
    } else if c == '#' {
        Ok((Tok::Hash, p + 1))
    } else if c == '!' {
        Ok((Tok::Bang, p + 1))
    } else if c == '=' {
        Ok((Tok::Eq, p + 1))
    } else if c == ':' {
        if next_is('=') {
            Ok((Tok::ColonEq, p + 2))
        } else {
            Ok((Tok::Colon, p + 1))
        }
    } else if c == '.' {
        if next_is('.') {
            Ok((Tok::DotDot, p + 2))
        } else {
            Ok((Tok::Dot, p + 1))
        }
    } else if c == '0' && (next_is('x') || next_is('X')) {
        let q = run_end(s, p + 2, Class::HexDigit);
        match number(s.subrange(p + 2, q), 16) {
            Ok(n) => Ok((Tok::IntLit(n), q)),
            Err(e) => Err("hex: "@ + e),
        }
    } else if is_digit(c) {
        let q = run_end(s, p, Class::Digit);
        match number(s.subrange(p, q), 10) {
            Ok(n) => Ok((Tok::IntLit(n), q)),
            Err(e) => Err("int: "@ + e),
        }
    } else if is_word_start(c) {
        let q = run_end(s, p, Class::Word);
        Ok((word_token(s.subrange(p, q)), q))
    } else {
        Err("Unexpected '"@ + seq![c] + "' at line "@ + digits(line))
    }
}

/// The tokens of the text from `p` on, where `line` is the line at `p`. The last
/// one, and no other, is `Eof`.
pub open spec fn tokens_from(s: Seq<char>, p: int, line: nat) -> Result<Seq<Spanned>, Seq<char>>
    decreases s.len() - p,
{
    let (q, l) = skip_blank(s, p, line);
    if !(0 <= p <= q < s.len()) {
        Ok(seq![Spanned { tok: Tok::Eof, line: l }])
    } else {
        match token_at(s, q, l) {
            Err(e) => Err(e),
            Ok((t, r)) => if q < r <= s.len() {
                match tokens_from(s, r, l) {
                    Err(e) => Err(e),
                    Ok(rest) => Ok(seq![Spanned { tok: t, line: l }] + rest),
                }
            } else {
                Err(Seq::empty())
            },
        }
    }
}

/// The tokens of a text, or the message for the first place that holds none.
pub open spec fn tokens_of(s: Seq<char>) -> Result<Seq<Spanned>, Seq<char>> {
    tokens_from(s, 0, 1)
}

/// No token but the one at the end of the text is `Eof`.
proof fn lemma_token_is_not_eof(s: Seq<char>, p: int, line: nat)
    ensures
        token_at(s, p, line) matches Ok((t, _)) ==> t != Tok::Eof,
{
}

/// The tokens of a text end with `Eof`, and no other of them is `Eof`.
pub proof fn lemma_eof_stands_last(s: Seq<char>, p: int, line: nat)
    ensures
        tokens_from(s, p, line) matches Ok(ts) ==> {
            &&& ts.len() > 0
            &&& ts.last().tok == Tok::Eof
            &&& forall|i: int| 0 <= i < ts.len() - 1 ==> (#[trigger] ts[i]).tok != Tok::Eof
        },
    decreases s.len() - p,
{
    let (q, l) = skip_blank(s, p, line);
    if 0 <= p <= q < s.len() {
        lemma_token_is_not_eof(s, q, l);
        if let Ok((t, r)) = token_at(s, q, l) {
            if q < r <= s.len() {
                lemma_eof_stands_last(s, r, l);
                if let Ok(rest) = tokens_from(s, r, l) {
                    let ts = seq![Spanned { tok: t, line: l }] + rest;
                    assert(ts.last() == rest.last());
                    assert forall|i: int| 0 <= i < ts.len() - 1 implies (#[trigger] ts[i]).tok
                        != Tok::Eof by {
                        if i > 0 {
                            assert(ts[i] == rest[i - 1]);
                        }
                    }
                }
            }
        }
    }
}

fn word(w: String) -> (t: Token)
    ensures
        t@ == word_token(w@),
{
    if same(&w, "component") {
        Token::Component
    } else if same(&w, "import") {
        Token::Import
    } else if same(&w, "public") {
        Token::Public
    } else if same(&w, "for") {
        Token::For
    } else if same(&w, "test") {
        Token::Test
    } else if same(&w, "extern") {
        Token::Extern
    } else {
        Token::Ident(w)
    }
}

fn next_is(cs: &Vec<char>, p: usize, x: char) -> (r: bool)
    requires
        p < cs.len(),
    ensures
        r == (p + 1 < cs.len() && cs@[p + 1] == x),
{
    cs.len() - p > 1 && cs[p + 1] == x
}

fn char_text(c: char) -> (r: String)
    ensures
        r@ == seq![c],
{
    let mut r = String::new();
    r.push(c);
    assert(r@ =~= seq![c]);
    r
}

fn read_token(cs: &Vec<char>, p: usize, line: usize) -> (r: Result<(Token, usize), String>)
    requires
        p < cs.len(),
    ensures
        match token_at(cs@, p as int, line as nat) {
            Ok((t, q)) => r is Ok && r->Ok_0.0@ == t && r->Ok_0.1 == q && p < q <= cs.len(),
            Err(e) => r is Err && r->Err_0@ == e,
        },
{
    let c = cs[p];
    if c == '(' {
        Ok((Token::LParen, p + 1))
    } else if c == ')' {
        Ok((Token::RParen, p + 1))
    } else if c == '{' {
        Ok((Token::LBrace, p + 1))
    } else if c == '}' {
        Ok((Token::RBrace, p + 1))
    } else if c == '[' {
        Ok((Token::LBracket, p + 1))
    } else if c == ']' {
        Ok((Token::RBracket, p + 1))
    } else if c == '<' {
        Ok((Token::LAngle, p + 1))
    } else if c == '>' {
        Ok((Token::RAngle, p + 1))
    } else if c == ';' {
        Ok((Token::Semicolon, p + 1))
    } else if c == ',' {
        Ok((Token::Comma, p + 1))
    } else if c == '+' {
        Ok((Token::Plus, p + 1))
    } else if c == '-' {
        Ok((Token::Minus, p + 1))
    } else if c == '*' {
        Ok((Token::Star, p + 1))
    } else if c == '/' {
        Ok((Token::Slash, p + 1))
    } else if c == '&' {
        Ok((Token::Ampersand, p + 1))
    } else if c == '#' {
        Ok((Token::Hash, p + 1))
    } else if c == '!' {
        Ok((Token::Bang, p + 1))
    } else if c == '=' {
        Ok((Token::Eq, p + 1))
    } else if c == ':' {
        if next_is(cs, p, '=') {
            Ok((Token::ColonEq, p + 2))
        } else {
            Ok((Token::Colon, p + 1))
        }
    } else if c == '.' {
        if next_is(cs, p, '.') {
            Ok((Token::DotDot, p + 2))
        } else {
            Ok((Token::Dot, p + 1))
        }
    } else if c == '0' && (next_is(cs, p, 'x') || next_is(cs, p, 'X')) {
        let q = run(cs, p + 2, Class::HexDigit);
        assert forall|i: int| p + 2 <= i < q implies is_hex_digit(#[trigger] cs@[i]) by {
            assert(in_class(Class::HexDigit, cs@[i]));
        }
        match read_number(cs, p + 2, q, 16) {
            Ok(n) => Ok((Token::IntLit(n), q)),
            Err(e) => Err(cat2("hex: ", &e)),
        }
    } else if is_digit(c) {
        let q = run(cs, p, Class::Digit);
        assert forall|i: int| p <= i < q implies is_hex_digit(#[trigger] cs@[i]) by {
            assert(in_class(Class::Digit, cs@[i]));
        }
        match read_number(cs, p, q, 10) {
            Ok(n) => Ok((Token::IntLit(n), q)),
            Err(e) => Err(cat2("int: ", &e)),
        }
    } else if is_word_start(c) {
        let q = run(cs, p, Class::Word);
        Ok((word(slice_of(cs, p, q)), q))
    } else {
        Err(cat4("Unexpected '", &char_text(c), "' at line ", &decimal(line as u64)))
    }
}

/// Splits a text into tokens.
pub fn tokenize(input: &str) -> (r: Result<Vec<SpannedToken>, String>)
    ensures
        match tokens_of(input@) {
            Ok(ts) => r is Ok && spanned(r->Ok_0@) == ts,
            Err(e) => r is Err && r->Err_0@ == e,
        },
{
    let cs = countable(characters(input));
    let mut pos: usize = 0;
    let mut line: usize = 1;
    let mut tokens: Vec<SpannedToken> = Vec::new();
    let ghost whole = tokens_of(input@);
    assert(spanned(tokens@) =~= Seq::<Spanned>::empty());
    assert(forall|r: Seq<Spanned>| Seq::<Spanned>::empty() + r =~= r);
    loop
        invariant
            cs@ == input@,
            pos <= cs.len() < usize::MAX,
            line <= pos + 1,
            whole == tokens_of(input@),
            match tokens_from(cs@, pos as int, line as nat) {
                Ok(rest) => whole == Ok::<Seq<Spanned>, Seq<char>>(spanned(tokens@) + rest),
                Err(e) => whole == Err::<Seq<Spanned>, Seq<char>>(e),
            },
        decreases cs.len() - pos,
    {
        let (p, l) = after_blank(&cs, pos, line);
        let ghost before = spanned(tokens@);
        if p >= cs.len() {
            tokens.push(SpannedToken { token: Token::Eof, line: l });
            assert(spanned(tokens@) =~= before + seq![Spanned { tok: Tok::Eof, line: l as nat }]);
            return Ok(tokens);
        }
        match read_token(&cs, p, l) {
            Ok((token, q)) => {
                let ghost t = Spanned { tok: token@, line: l as nat };
                tokens.push(SpannedToken { token, line: l });
                assert(spanned(tokens@) =~= before.push(t));
                assert(forall|r: Seq<Spanned>| before + (seq![t] + r) =~= before.push(t) + r);
                pos = q;
                line = l;
            },
            Err(e) => {
                return Err(e);
            },
        }
    }
}

} // verus!
