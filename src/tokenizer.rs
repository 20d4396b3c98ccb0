use vstd::prelude::*;
use vstd::std_specs::iter::IteratorSpec;

verus! {

/// The four binary operators.
#[derive(Clone, Copy, Debug, PartialEq, Eq, Structural)]
pub enum Operations {
    Subtract,
    Add,
    Mul,
    Div,
}

/// Binding strength of an operator: `*` and `/` bind tighter than `+` and `-`.
pub open spec fn spec_rank(op: Operations) -> nat {
    match op {
        Operations::Add | Operations::Subtract => 1,
        Operations::Mul | Operations::Div => 2,
    }
}

impl Operations {
    /// The binding strength of the operator.
    pub fn rank(&self) -> (r: u8)
        ensures
            r == spec_rank(*self),
    {
        match self {
            Operations::Add | Operations::Subtract => 1,
            Operations::Mul | Operations::Div => 2,
        }
    }
}


/// A numeric literal as written: a non-empty run of digits with at most one
/// decimal point. Its value is the nearest double to that decimal.
#[derive(Clone, Debug, PartialEq)]
pub struct Number {
    pub text: Vec<char>,
}

impl View for Number {
    type V = Seq<char>;

    open spec fn view(&self) -> Seq<char> {
        self.text@
    }
}

/// A lexical unit.
#[derive(Clone, Debug, PartialEq)]
pub enum Tokens {
    Operand(Number),
    Expression(Operations),
    BracketOpen,
    BracketClose,
}

/// The mathematical model of a token.
pub enum Token {
    Num(Seq<char>),
    Op(Operations),
    Open,
    Close,
}

impl View for Tokens {
    type V = Token;

    open spec fn view(&self) -> Token {
        match self {
            Tokens::Operand(n) => Token::Num(n@),
            Tokens::Expression(op) => Token::Op(*op),
            Tokens::BracketOpen => Token::Open,
            Tokens::BracketClose => Token::Close,
        }
    }
}

pub open spec fn view_tokens(v: Seq<Tokens>) -> Seq<Token> {
    v.map_values(|t: Tokens| t@)
}

/// Why a text could not be split into tokens.
#[derive(Clone, Copy, Debug, PartialEq, Eq, Structural)]
pub enum LexError {
    /// A character that is no digit, point, operator, bracket or whitespace.
    UnknownCharacter(char),
    /// A run of digits and points that is not a number (no digit, or two points).
    MalformedLiteral,
}

pub open spec fn is_numeric(c: char) -> bool {
    ('0' <= c && c <= '9') || c == '.'
}

/// Unicode White_Space.
pub open spec fn is_space(c: char) -> bool {
    ('\u{9}' <= c && c <= '\u{d}') || c == ' ' || c == '\u{85}' || c == '\u{a0}'
        || c == '\u{1680}' || ('\u{2000}' <= c && c <= '\u{200a}') || c == '\u{2028}'
        || c == '\u{2029}' || c == '\u{202f}' || c == '\u{205f}' || c == '\u{3000}'
}

/// A run of digits and points reads as a number when it holds a digit and
/// at most one point.
pub open spec fn valid_literal(s: Seq<char>) -> bool {
    &&& exists|k: int| 0 <= k < s.len() && '0' <= s[k] && s[k] <= '9'
    &&& forall|a: int, b: int| 0 <= a < s.len() && 0 <= b < s.len() && s[a] == '.' && s[b] == '.' ==> a == b
}

/// The token that a single character stands for, if any.
pub open spec fn symbol_token(c: char) -> Option<Token> {
    if c == '+' {
        Some(Token::Op(Operations::Add))
    } else if c == '-' {
        Some(Token::Op(Operations::Subtract))
    } else if c == '*' {
        Some(Token::Op(Operations::Mul))
    } else if c == '/' {
        Some(Token::Op(Operations::Div))
    } else if c == '(' {
        Some(Token::Open)
    } else if c == ')' {
        Some(Token::Close)
    } else {
        None
    }
}

/// Ends the pending literal `buf`: nothing when it is empty, else a number token.
pub open spec fn flush(buf: Seq<char>, acc: Seq<Token>) -> Result<Seq<Token>, LexError> {
    if buf.len() == 0 {
        Ok(acc)
    } else if valid_literal(buf) {
        Ok(acc.push(Token::Num(buf)))
    } else {
        Err(LexError::MalformedLiteral)
    }
}

/// Lexes `s` from position `i`, with the pending literal `buf` and the tokens
/// `acc` made so far. Whitespace is skipped and leaves the pending literal open.
pub open spec fn lex_from(s: Seq<char>, i: int, buf: Seq<char>, acc: Seq<Token>) -> Result<Seq<Token>, LexError>
    decreases s.len() - i,
{
    if i >= s.len() {
        flush(buf, acc)
    } else if is_numeric(s[i]) {
        lex_from(s, i + 1, buf.push(s[i]), acc)
    } else if is_space(s[i]) {
        lex_from(s, i + 1, buf, acc)
    } else {
        match flush(buf, acc) {
            Err(e) => Err(e),
            Ok(acc2) => match symbol_token(s[i]) {
                None => Err(LexError::UnknownCharacter(s[i])),
                Some(t) => lex_from(s, i + 1, Seq::empty(), acc2.push(t)),
            },
        }
    }
}

/// The tokens of a whole text.
pub open spec fn lex(s: Seq<char>) -> Result<Seq<Token>, LexError> {
    lex_from(s, 0, Seq::empty(), Seq::empty())
}

/// The text with its whitespace taken out.
pub open spec fn strip_spaces(s: Seq<char>) -> Seq<char>
    decreases s.len(),
{
    if s.len() == 0 {
        s
    } else if is_space(s[0]) {
        strip_spaces(s.drop_first())
    } else {
        seq![s[0]] + strip_spaces(s.drop_first())
    }
}

/// Lexing from position `i` depends on the text from `i` on alone.
proof fn lemma_lex_from_suffix(s: Seq<char>, i: int, buf: Seq<char>, acc: Seq<Token>)
    requires
        0 <= i <= s.len(),
    ensures
        lex_from(s, i, buf, acc) == lex_from(s.skip(i), 0, buf, acc),
    decreases s.len() - i,
{
    let t = s.skip(i);
    if i < s.len() {
        assert(t[0] == s[i]);
        assert(t.skip(1) =~= s.skip(i + 1));
        let c = s[i];
        if is_numeric(c) {
            lemma_lex_from_suffix(s, i + 1, buf.push(c), acc);
            lemma_lex_from_suffix(t, 1, buf.push(c), acc);
        } else if is_space(c) {
            lemma_lex_from_suffix(s, i + 1, buf, acc);
            lemma_lex_from_suffix(t, 1, buf, acc);
        } else {
            match flush(buf, acc) {
                Err(_) => {},
                Ok(acc2) => match symbol_token(c) {
                    None => {},
                    Some(tok) => {
                        lemma_lex_from_suffix(s, i + 1, Seq::empty(), acc2.push(tok));
                        lemma_lex_from_suffix(t, 1, Seq::empty(), acc2.push(tok));
                    },
                },
            }
        }
    }
}

proof fn lemma_lex_from_strip(s: Seq<char>, buf: Seq<char>, acc: Seq<Token>)
    ensures
        lex_from(s, 0, buf, acc) == lex_from(strip_spaces(s), 0, buf, acc),
    decreases s.len(),
{
    if s.len() > 0 {
        let c = s[0];
        let rest = s.drop_first();
        let st = strip_spaces(s);
        assert(s.skip(1) =~= rest);
        if is_space(c) {
            lemma_lex_from_suffix(s, 1, buf, acc);
            lemma_lex_from_strip(rest, buf, acc);
        } else {
            assert(st[0] == c);
            assert(st.skip(1) =~= strip_spaces(rest));
            if is_numeric(c) {
                lemma_lex_from_suffix(s, 1, buf.push(c), acc);
                lemma_lex_from_suffix(st, 1, buf.push(c), acc);
                lemma_lex_from_strip(rest, buf.push(c), acc);
            } else {
                match flush(buf, acc) {
                    Err(_) => {},
                    Ok(acc2) => match symbol_token(c) {
                        None => {},
                        Some(tok) => {
                            lemma_lex_from_suffix(s, 1, Seq::empty(), acc2.push(tok));
                            lemma_lex_from_suffix(st, 1, Seq::empty(), acc2.push(tok));
                            lemma_lex_from_strip(rest, Seq::empty(), acc2.push(tok));
                        },
                    },
                }
            }
        }
    }
}

/// Whitespace does not matter: a text lexes exactly as the same text with
/// every whitespace character taken out.
pub proof fn lemma_whitespace_invariance(s: Seq<char>)
    ensures
        lex(s) == lex(strip_spaces(s)),
{
    lemma_lex_from_strip(s, Seq::empty(), Seq::empty());
}

/// Lexing keeps no state between texts: lexing the same characters twice
/// gives the same tokens, or the same error.
pub proof fn lemma_lex_deterministic(s1: Seq<char>, s2: Seq<char>)
    requires
        s1 == s2,
    ensures
        lex(s1) == lex(s2),
{
}

fn is_space_char(c: char) -> (r: bool)
    ensures
        r == is_space(c),
{
    ('\u{9}' <= c && c <= '\u{d}') || c == ' ' || c == '\u{85}' || c == '\u{a0}'
        || c == '\u{1680}' || ('\u{2000}' <= c && c <= '\u{200a}') || c == '\u{2028}'
        || c == '\u{2029}' || c == '\u{202f}' || c == '\u{205f}' || c == '\u{3000}'
}

fn is_valid_literal(s: &Vec<char>) -> (r: bool)
    ensures
        r == valid_literal(s@),
{
    let mut has_digit = false;
    let mut point: Option<usize> = None;
    let mut two_points = false;
    let mut i: usize = 0;
    while i < s.len()
        invariant
            i <= s@.len(),
            has_digit <==> exists|k: int| 0 <= k < i && '0' <= s@[k] && s@[k] <= '9',
            !two_points ==> match point {
                None => forall|k: int| 0 <= k < i ==> s@[k] != '.',
                Some(p) => p < i && s@[p as int] == '.' && forall|k: int| 0 <= k < i && s@[k] == '.' ==> k == p,
            },
            two_points ==> exists|a: int, b: int| 0 <= a < b < i && s@[a] == '.' && s@[b] == '.',
        decreases s@.len() - i,
    {
        let c = s[i];
        if '0' <= c && c <= '9' {
            has_digit = true;
        }
        if c == '.' && !two_points {
            match point {
                None => {
                    point = Some(i);
                },
                Some(p) => {
                    two_points = true;
                    assert(s@[p as int] == '.' && s@[i as int] == '.');
                },
            }
        }
        i = i + 1;
    }
    has_digit && !two_points
}


fn symbol(c: char) -> (r: Option<Tokens>)
    ensures
        match symbol_token(c) {
            None => r is None,
            Some(t) => r is Some && r->0@ == t,
        },
{
    match c {
        '+' => Some(Tokens::Expression(Operations::Add)),
        '-' => Some(Tokens::Expression(Operations::Subtract)),
        '*' => Some(Tokens::Expression(Operations::Mul)),
        '/' => Some(Tokens::Expression(Operations::Div)),
        '(' => Some(Tokens::BracketOpen),
        ')' => Some(Tokens::BracketClose),
        _ => None,
    }
}

fn flush_literal(buf: Vec<char>, acc: &mut Vec<Tokens>) -> (r: Result<(), LexError>)
    ensures
        match flush(buf@, view_tokens(old(acc)@)) {
            Ok(a) => r is Ok && view_tokens(final(acc)@) == a,
            Err(e) => r == Err::<(), LexError>(e),
        },
{
    if buf.len() == 0 {
        Ok(())
    } else if is_valid_literal(&buf) {
        acc.push(Tokens::Operand(Number { text: buf }));
        assert(view_tokens(acc@) =~= view_tokens(old(acc)@).push(acc@.last()@));
        Ok(())
    } else {
        Err(LexError::MalformedLiteral)
    }
}

fn chars_of(s: &str) -> (r: Vec<char>)
    ensures
        r@ == s@,
{
    let mut it = s.chars();
    let mut out: Vec<char> = Vec::new();
    loop
        invariant
            out@ + it.remaining() == s@,
            it.decrease() is Some,
        ensures
            out@ == s@,
        decreases it.decrease()->0,
    {
        match it.next() {
            Some(c) => {
                out.push(c);
            },
            None => {
                assert(out@ + it.remaining() =~= out@);
                break;
            },
        }
    }
    out
}

/// The tokens of a text.
pub struct Tokenizer {
    token_tree: Vec<Tokens>,
}

impl View for Tokenizer {
    type V = Seq<Token>;

    closed spec fn view(&self) -> Seq<Token> {
        view_tokens(self.token_tree@)
    }
}

impl Tokenizer {
    /// Splits `input` into tokens, left to right. Digits and points gather into
    /// a literal; whitespace is skipped without ending the literal; every other
    /// character ends it and must be an operator or a bracket.
    pub fn tokenize(input: &str) -> (r: Result<Tokenizer, LexError>)
        ensures
            match r {
                Ok(t) => lex(input@) == Ok::<Seq<Token>, LexError>(t@),
                Err(e) => lex(input@) == Err::<Seq<Token>, LexError>(e),
            },
    {
        let s = chars_of(input);
        let mut acc: Vec<Tokens> = Vec::new();
        let mut buf: Vec<char> = Vec::new();
        let mut i: usize = 0;
        assert(view_tokens(acc@) =~= Seq::<Token>::empty());
        while i < s.len()
            invariant
                s@ == input@,
                i <= s@.len(),
                lex(s@) == lex_from(s@, i as int, buf@, view_tokens(acc@)),
            decreases s@.len() - i,
        {
            let c = s[i];
            if ('0' <= c && c <= '9') || c == '.' {
                buf.push(c);
            } else if is_space_char(c) {
            } else {
                let f = flush_literal(buf, &mut acc);
                buf = Vec::new();
                if let Err(e) = f {
                    return Err(e);
                }
                match symbol(c) {
                    None => {
                        return Err(LexError::UnknownCharacter(c));
                    },
                    Some(t) => {
                        let ghost before = acc@;
                        acc.push(t);
                        assert(view_tokens(acc@) =~= view_tokens(before).push(acc@.last()@));
                    },
                }
            }
            i = i + 1;
        }
        match flush_literal(buf, &mut acc) {
            Ok(()) => Ok(Tokenizer { token_tree: acc }),
            Err(e) => Err(e),
        }
    }

    /// The tokens, in the order of the text.
    pub fn get(&self) -> (r: &Vec<Tokens>)
        ensures
            view_tokens(r@) == self@,
    {
        &self.token_tree
    }
}

} // verus!
