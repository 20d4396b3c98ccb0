use vstd::prelude::*;

use crate::tokenizer::{spec_rank, view_tokens, Number, Operations, Token, Tokens};

verus! {

/// A node of the expression tree: a literal leaf or a binary operation.
#[derive(Debug, PartialEq)]
pub enum ParsedElement {
    Atom(Number),
    CompoundItem(Compound),
}

/// A binary operation that owns its two operands.
#[derive(Debug, PartialEq)]
pub struct Compound {
    pub operand1: Box<ParsedElement>,
    pub operand2: Box<ParsedElement>,
    pub operation: Operations,
}

/// The mathematical model of an expression tree.
pub enum Tree {
    Lit(Seq<char>),
    Bin(Box<Tree>, Operations, Box<Tree>),
}

pub open spec fn tree_of(e: ParsedElement) -> Tree
    decreases e,
{
    match e {
        ParsedElement::Atom(n) => Tree::Lit(n@),
        ParsedElement::CompoundItem(c) => Tree::Bin(
            Box::new(tree_of(*c.operand1)),
            c.operation,
            Box::new(tree_of(*c.operand2)),
        ),
    }
}

impl View for ParsedElement {
    type V = Tree;

    open spec fn view(&self) -> Tree {
        tree_of(*self)
    }
}

/// Why a token sequence does not form one expression.
#[derive(Clone, Copy, Debug, PartialEq, Eq, Structural)]
pub enum ParseError {
    /// An expression, or the inside of a pair of brackets, holds nothing.
    EmptyExpression,
    /// An expression starts with an operator.
    LeadingOperator,
    /// An expression ends with an operator.
    TrailingOperator,
    /// An opening bracket has no matching closing bracket.
    UnclosedGroup,
    /// Operands and operators do not alternate, or a closing bracket has no
    /// opening one.
    InvalidTokenOrder,
}

/// An item of the flat list of one bracket level: an operand or an operator.
pub enum Item {
    El(Tree),
    Op(Operations),
}

/// The position of the bracket that closes the level entered `depth` levels
/// above position `i`, or the length when there is none.
pub open spec fn match_close(t: Seq<Token>, i: int, depth: nat) -> int
    decreases t.len() - i,
{
    if i >= t.len() {
        t.len() as int
    } else {
        match t[i] {
            Token::Close => if depth == 0 {
                i
            } else {
                match_close(t, i + 1, (depth - 1) as nat)
            },
            Token::Open => match_close(t, i + 1, depth + 1),
            _ => match_close(t, i + 1, depth),
        }
    }
}

pub proof fn lemma_match_close_bounds(t: Seq<Token>, i: int, depth: nat)
    requires
        0 <= i <= t.len(),
    ensures
        i <= match_close(t, i, depth) <= t.len(),
        match_close(t, i, depth) < t.len() ==> t[match_close(t, i, depth)] is Close,
    decreases t.len() - i,
{
    if i < t.len() {
        lemma_match_close_bounds(t, i + 1, (depth - 1) as nat);
        lemma_match_close_bounds(t, i + 1, depth + 1);
        lemma_match_close_bounds(t, i + 1, depth);
    }
}

/// Builds the flat list of the level that spans positions `i` to `end`,
/// after the items `acc`: numbers and operators become items, and each
/// bracketed group is parsed into a single operand.
pub open spec fn scan(t: Seq<Token>, i: int, end: int, acc: Seq<Item>) -> Result<Seq<Item>, ParseError>
    decreases end - i, 0int,
{
    if i >= end || i < 0 || end > t.len() {
        Ok(acc)
    } else {
        match t[i] {
            Token::Num(n) => scan(t, i + 1, end, acc.push(Item::El(Tree::Lit(n)))),
            Token::Op(o) => scan(t, i + 1, end, acc.push(Item::Op(o))),
            Token::Close => Ok(acc),
            Token::Open => {
                let m = match_close(t, i + 1, 0);
                if m >= end {
                    Err(ParseError::UnclosedGroup)
                } else {
                    proof {
                        lemma_match_close_bounds(t, i + 1, 0);
                    }
                    match parse_range(t, i + 1, m) {
                        Err(e) => Err(e),
                        Ok(x) => scan(t, m + 1, end, acc.push(Item::El(x))),
                    }
                }
            },
        }
    }
}

/// Parses the tokens from `lo` up to `hi` as one expression.
pub open spec fn parse_range(t: Seq<Token>, lo: int, hi: int) -> Result<Tree, ParseError>
    decreases hi - lo, 1int,
{
    match scan(t, lo, hi, Seq::empty()) {
        Err(e) => Err(e),
        Ok(items) => reduce(items),
    }
}

/// Items alternate operand, operator, operand, ...
pub open spec fn alternating(items: Seq<Item>) -> bool {
    forall|k: int| 0 <= k < items.len() ==> (#[trigger] items[k] is El <==> k % 2 == 0)
}

pub open spec fn operands(items: Seq<Item>) -> Seq<Tree> {
    Seq::new(((items.len() + 1) / 2) as nat, |m: int| items[2 * m]->El_0)
}

pub open spec fn operators(items: Seq<Item>) -> Seq<Operations> {
    Seq::new((items.len() / 2) as nat, |m: int| items[2 * m + 1]->Op_0)
}

/// The position of the last `+` or `-`, or -1 when there is none.
pub open spec fn last_additive(os: Seq<Operations>) -> int
    decreases os.len(),
{
    if os.len() == 0 {
        -1
    } else if spec_rank(os.last()) == 1 {
        os.len() - 1
    } else {
        last_additive(os.drop_last())
    }
}

pub proof fn lemma_last_additive_bounds(os: Seq<Operations>)
    ensures
        -1 <= last_additive(os) < os.len(),
        last_additive(os) >= 0 ==> spec_rank(os[last_additive(os)]) == 1,
    decreases os.len(),
{
    if os.len() > 0 {
        lemma_last_additive_bounds(os.drop_last());
    }
}

/// Operands `es` joined by operators `os` that all share one rank: grouped to the left.
pub open spec fn chain(es: Seq<Tree>, os: Seq<Operations>) -> Tree
    decreases os.len(),
{
    if os.len() == 0 {
        es[0]
    } else {
        Tree::Bin(Box::new(chain(es.drop_last(), os.drop_last())), os.last(), Box::new(es.last()))
    }
}

/// The tree of operands `es` joined by operators `os` under the usual rules:
/// `*` and `/` bind tighter than `+` and `-`, and equal ranks group to the left.
/// The expression splits at its last `+` or `-`; with none, it is a chain.
pub open spec fn precedence_tree(es: Seq<Tree>, os: Seq<Operations>) -> Tree
    decreases os.len(),
{
    let k = last_additive(os);
    if k < 0 {
        chain(es, os)
    } else {
        proof {
            lemma_last_additive_bounds(os);
        }
        Tree::Bin(
            Box::new(precedence_tree(es.take(k + 1), os.take(k))),
            os[k],
            Box::new(chain(es.skip(k + 1), os.skip(k + 1))),
        )
    }
}

/// Precedence and associativity on three operands: `a o1 b o2 c` groups to the
/// right only when `o2` binds strictly tighter than `o1`, and to the left
/// otherwise (so equal ranks group to the left).
pub proof fn lemma_three_operands(a: Tree, b: Tree, c: Tree, o1: Operations, o2: Operations)
    ensures
        precedence_tree(seq![a, b, c], seq![o1, o2]) == if spec_rank(o1) < spec_rank(o2) {
            Tree::Bin(Box::new(a), o1, Box::new(Tree::Bin(Box::new(b), o2, Box::new(c))))
        } else {
            Tree::Bin(Box::new(Tree::Bin(Box::new(a), o1, Box::new(b))), o2, Box::new(c))
        },
{
    let es = seq![a, b, c];
    let os = seq![o1, o2];
    assert(os.drop_last() =~= seq![o1]);
    assert(seq![o1].drop_last() =~= Seq::<Operations>::empty());
    assert(es.drop_last() =~= seq![a, b]);
    assert(seq![a, b].drop_last() =~= seq![a]);
    assert(es.take(1) =~= seq![a]);
    assert(os.take(0) =~= Seq::<Operations>::empty());
    assert(es.take(2) =~= seq![a, b]);
    assert(os.take(1) =~= seq![o1]);
    assert(es.skip(1) =~= seq![b, c]);
    assert(os.skip(1) =~= seq![o2]);
    assert(es.skip(2) =~= seq![c]);
    assert(os.skip(2) =~= Seq::<Operations>::empty());
    assert(seq![b, c].drop_last() =~= seq![b]);
    assert(seq![o2].drop_last() =~= Seq::<Operations>::empty());
    assert(last_additive(Seq::<Operations>::empty()) == -1);
    assert(last_additive(seq![o1]) == if spec_rank(o1) == 1 { 0int } else { -1int });
    assert(chain(seq![a], Seq::empty()) == a);
    assert(chain(seq![b], Seq::empty()) == b);
    assert(chain(seq![c], Seq::empty()) == c);
    assert(precedence_tree(seq![a], Seq::empty()) == a);
    assert(chain(seq![a, b], seq![o1]) == Tree::Bin(Box::new(a), o1, Box::new(b)));
    assert(chain(seq![b, c], seq![o2]) == Tree::Bin(Box::new(b), o2, Box::new(c)));
    assert(precedence_tree(seq![a, b], seq![o1]) == Tree::Bin(Box::new(a), o1, Box::new(b)));
}

/// Turns the flat list of one level into its tree, or says why it is malformed.
pub open spec fn reduce(items: Seq<Item>) -> Result<Tree, ParseError> {
    if items.len() == 0 {
        Err(ParseError::EmptyExpression)
    } else if items[0] is Op {
        Err(ParseError::LeadingOperator)
    } else if items.last() is Op {
        Err(ParseError::TrailingOperator)
    } else if !alternating(items) {
        Err(ParseError::InvalidTokenOrder)
    } else {
        Ok(precedence_tree(operands(items), operators(items)))
    }
}

/// The tree of a whole token sequence. A closing bracket with no opening one
/// ends the expression and makes it malformed.
pub open spec fn parse_tokens(t: Seq<Token>) -> Result<Tree, ParseError> {
    let end = match_close(t, 0, 0);
    match parse_range(t, 0, end) {
        Err(e) => Err(e),
        Ok(x) => if end < t.len() {
            Err(ParseError::InvalidTokenOrder)
        } else {
            Ok(x)
        },
    }
}


/// The tokens `t` inside one pair of brackets.
pub open spec fn bracketed(t: Seq<Token>) -> Seq<Token> {
    seq![Token::Open] + t + seq![Token::Close]
}

/// Once the level entered `c` levels above `j` closes at `m`, a walk from `j`
/// that started `d + 1` levels deeper goes on from `m + 1` at depth `d`.
proof fn lemma_close_after_group(t: Seq<Token>, j: int, c: nat, d: nat)
    requires
        0 <= j <= t.len(),
        match_close(t, j, c) < t.len(),
    ensures
        match_close(t, j, c + d + 1) == match_close(t, match_close(t, j, c) + 1, d),
    decreases t.len() - j,
{
    if j < t.len() {
        match t[j] {
            Token::Close => {
                if c > 0 {
                    lemma_close_after_group(t, j + 1, (c - 1) as nat, d);
                    assert((c + d + 1 - 1) as nat == (c - 1) as nat + d + 1);
                }
            },
            Token::Open => {
                lemma_close_after_group(t, j + 1, c + 1, d);
                assert(c + d + 1 + 1 == (c + 1) + d + 1);
            },
            _ => {
                lemma_close_after_group(t, j + 1, c, d);
            },
        }
    }
}

/// A level that scans without error from `i` up to `end`, with no closing
/// bracket of its own before `end`, is balanced: a walk at any depth leaves
/// it at the depth it entered with.
proof fn lemma_scanned_level_balanced(t: Seq<Token>, i: int, end: int, acc: Seq<Item>, d: nat)
    requires
        0 <= i <= end <= t.len(),
        scan(t, i, end, acc) is Ok,
        match_close(t, i, 0) >= end,
    ensures
        match_close(t, i, d) == match_close(t, end, d),
    decreases end - i,
{
    if i < end {
        match t[i] {
            Token::Num(n) => {
                lemma_scanned_level_balanced(t, i + 1, end, acc.push(Item::El(Tree::Lit(n))), d);
            },
            Token::Op(o) => {
                lemma_scanned_level_balanced(t, i + 1, end, acc.push(Item::Op(o)), d);
            },
            Token::Close => {},
            Token::Open => {
                let m = match_close(t, i + 1, 0);
                lemma_match_close_bounds(t, i + 1, 0);
                lemma_close_after_group(t, i + 1, 0, 0);
                lemma_close_after_group(t, i + 1, 0, d);
                let x = parse_range(t, i + 1, m)->Ok_0;
                lemma_scanned_level_balanced(t, m + 1, end, acc.push(Item::El(x)), d);
            },
        }
    }
}

proof fn lemma_bracketed_close(t: Seq<Token>, j: int, d: nat)
    requires
        0 <= j <= t.len(),
    ensures
        match_close(t, j, d) < t.len() ==> match_close(bracketed(t), j + 1, d) == match_close(t, j, d) + 1,
        match_close(t, j, d) >= t.len() ==> match_close(bracketed(t), j + 1, d) >= t.len() + 1,
    decreases t.len() - j,
{
    let w = bracketed(t);
    let n = t.len() as int;
    if j == n {
        assert(w[n + 1] == Token::Close);
        if d > 0 {
            assert(match_close(w, n + 2, (d - 1) as nat) == n + 2);
        }
    } else {
        assert(w[j + 1] == t[j]);
        lemma_bracketed_close(t, j + 1, (d - 1) as nat);
        lemma_bracketed_close(t, j + 1, d + 1);
        lemma_bracketed_close(t, j + 1, d);
    }
}

proof fn lemma_bracketed_scan(t: Seq<Token>, i: int, end: int, acc: Seq<Item>)
    requires
        0 <= i,
        end <= t.len(),
    ensures
        scan(bracketed(t), i + 1, end + 1, acc) == scan(t, i, end, acc),
    decreases end - i, 0int,
{
    let w = bracketed(t);
    if i < end {
        assert(w[i + 1] == t[i]);
        match t[i] {
            Token::Num(n) => {
                lemma_bracketed_scan(t, i + 1, end, acc.push(Item::El(Tree::Lit(n))));
            },
            Token::Op(o) => {
                lemma_bracketed_scan(t, i + 1, end, acc.push(Item::Op(o)));
            },
            Token::Close => {},
            Token::Open => {
                let m = match_close(t, i + 1, 0);
                lemma_bracketed_close(t, i + 1, 0);
                lemma_match_close_bounds(t, i + 1, 0);
                if m < end {
                    lemma_bracketed_range(t, i + 1, m);
                    match parse_range(t, i + 1, m) {
                        Err(_) => {},
                        Ok(x) => {
                            lemma_bracketed_scan(t, m + 1, end, acc.push(Item::El(x)));
                        },
                    }
                }
            },
        }
    }
}

proof fn lemma_bracketed_range(t: Seq<Token>, lo: int, hi: int)
    requires
        0 <= lo <= hi <= t.len(),
    ensures
        parse_range(bracketed(t), lo + 1, hi + 1) == parse_range(t, lo, hi),
    decreases hi - lo, 1int,
{
    lemma_bracketed_scan(t, lo, hi, Seq::empty());
}

/// Brackets around a whole expression change nothing: when `t` parses,
/// `( t )` parses to the same tree.
pub proof fn lemma_brackets_keep_tree(t: Seq<Token>)
    requires
        parse_tokens(t) is Ok,
    ensures
        parse_tokens(bracketed(t)) == parse_tokens(t),
{
    let n = t.len() as int;
    let w = bracketed(t);
    lemma_match_close_bounds(t, 0, 0);
    assert(match_close(t, 0, 0) == n);
    let x = parse_range(t, 0, n)->Ok_0;
    lemma_bracketed_range(t, 0, n);
    lemma_bracketed_scan(t, 0, n, Seq::empty());
    lemma_bracketed_close(t, 0, 0);
    lemma_scanned_level_balanced(w, 1, n + 1, Seq::empty(), 0);
    lemma_scanned_level_balanced(w, 1, n + 1, Seq::empty(), 1);
    assert(w[n + 1] == Token::Close);
    assert(w[0] == Token::Open);
    assert(match_close(w, n + 2, 0) == n + 2);
    assert(match_close(w, 1, 0) == n + 1);
    assert(match_close(w, 0, 0) == n + 2);
    let items = seq![Item::El(x)];
    assert(scan(w, n + 2, n + 2, items) == Ok::<Seq<Item>, ParseError>(items));
    assert(Seq::<Item>::empty().push(Item::El(x)) == items);
    assert(scan(w, 0, n + 2, Seq::empty()) == Ok::<Seq<Item>, ParseError>(items));
    assert(alternating(items));
    assert(operands(items) =~= seq![x]);
    assert(operators(items) =~= Seq::<Operations>::empty());
    assert(precedence_tree(seq![x], Seq::empty()) == x);
}

/// A parse result agrees with its model.
pub open spec fn agrees(r: Result<ParsedElement, ParseError>, m: Result<Tree, ParseError>) -> bool {
    match r {
        Ok(e) => m == Ok::<Tree, ParseError>(e@),
        Err(x) => m == Err::<Tree, ParseError>(x),
    }
}

enum ParseList {
    El(ParsedElement),
    Op(Operations),
}

impl View for ParseList {
    type V = Item;

    closed spec fn view(&self) -> Item {
        match self {
            ParseList::El(e) => Item::El(e@),
            ParseList::Op(o) => Item::Op(*o),
        }
    }
}

impl ParseList {
    fn is_operator(&self) -> (r: bool)
        ensures
            r == self@ is Op,
    {
        match self {
            ParseList::El(_) => false,
            ParseList::Op(_) => true,
        }
    }
}

spec fn view_items(v: Seq<ParseList>) -> Seq<Item> {
    v.map_values(|x: ParseList| x@)
}

fn copy_number(n: &Number) -> (r: Number)
    ensures
        r@ == n@,
{
    let text = n.text.clone();
    assert(text@ =~= n.text@);
    Number { text }
}

fn copy_tree(e: &ParsedElement) -> (r: ParsedElement)
    ensures
        r@ == e@,
    decreases e,
{
    match e {
        ParsedElement::Atom(n) => ParsedElement::Atom(copy_number(n)),
        ParsedElement::CompoundItem(c) => {
            let left = copy_tree(&c.operand1);
            let right = copy_tree(&c.operand2);
            ParsedElement::CompoundItem(
                Compound { operand1: Box::new(left), operand2: Box::new(right), operation: c.operation },
            )
        },
    }
}

fn binary(left: ParsedElement, op: Operations, right: ParsedElement) -> (r: ParsedElement)
    ensures
        r@ == Tree::Bin(Box::new(left@), op, Box::new(right@)),
{
    ParsedElement::CompoundItem(Compound { operand1: Box::new(left), operand2: Box::new(right), operation: op })
}

fn combine(sum: Option<(ParsedElement, Operations)>, term: ParsedElement) -> (r: ParsedElement)
    ensures
        r@ == match sum {
            None => term@,
            Some(p) => Tree::Bin(Box::new(p.0@), p.1, Box::new(term@)),
        },
{
    match sum {
        None => term,
        Some((s, op)) => binary(s, op, term),
    }
}

proof fn lemma_split_prefix(es: Seq<Tree>, os: Seq<Operations>, c: int)
    requires
        es.len() == os.len() + 1,
        0 <= c <= os.len(),
    ensures
        ({
            let j = last_additive(os.take(c)) + 1;
            precedence_tree(es.take(c + 1), os.take(c)) == if j == 0 {
                chain(es.take(c + 1).skip(0), os.take(c).skip(0))
            } else {
                Tree::Bin(
                    Box::new(precedence_tree(es.take(j), os.take(j - 1))),
                    os[j - 1],
                    Box::new(chain(es.take(c + 1).skip(j), os.take(c).skip(j))),
                )
            }
        }),
{
    let a = es.take(c + 1);
    let b = os.take(c);
    lemma_last_additive_bounds(b);
    let k = last_additive(b);
    if k >= 0 {
        assert(a.take(k + 1) =~= es.take(k + 1));
        assert(b.take(k) =~= os.take(k));
    } else {
        assert(a.skip(0) =~= a);
        assert(b.skip(0) =~= b);
    }
}

proof fn lemma_step_mul(es: Seq<Tree>, os: Seq<Operations>, c: int)
    requires
        es.len() == os.len() + 1,
        0 <= c < os.len(),
        spec_rank(os[c]) == 2,
    ensures
        last_additive(os.take(c + 1)) == last_additive(os.take(c)),
        ({
            let j = last_additive(os.take(c)) + 1;
            chain(es.take(c + 2).skip(j), os.take(c + 1).skip(j)) == Tree::Bin(
                Box::new(chain(es.take(c + 1).skip(j), os.take(c).skip(j))),
                os[c],
                Box::new(es[c + 1]),
            )
        }),
{
    assert(os.take(c + 1).drop_last() =~= os.take(c));
    lemma_last_additive_bounds(os.take(c));
    let j = last_additive(os.take(c)) + 1;
    let e = es.take(c + 2).skip(j);
    let o = os.take(c + 1).skip(j);
    assert(e.drop_last() =~= es.take(c + 1).skip(j));
    assert(o.drop_last() =~= os.take(c).skip(j));
}

proof fn lemma_step_add(es: Seq<Tree>, os: Seq<Operations>, c: int)
    requires
        es.len() == os.len() + 1,
        0 <= c < os.len(),
        spec_rank(os[c]) == 1,
    ensures
        last_additive(os.take(c + 1)) == c,
        chain(es.take(c + 2).skip(c + 1), os.take(c + 1).skip(c + 1)) == es[c + 1],
{
    assert(os.take(c + 1).last() == os[c]);
    assert(os.take(c + 1).skip(c + 1).len() == 0);
}

/// What the operands and operators read so far, up to operator `c`, have built:
/// the chain since the last `+` or `-` in `term`, and before it the tree of
/// everything up to that operator in `sum`.
spec fn accumulated(
    es: Seq<Tree>,
    os: Seq<Operations>,
    c: int,
    sum: Option<(ParsedElement, Operations)>,
    term: ParsedElement,
) -> bool {
    let j = last_additive(os.take(c)) + 1;
    &&& term@ == chain(es.take(c + 1).skip(j), os.take(c).skip(j))
    &&& match sum {
        None => j == 0,
        Some(p) => j != 0 && p.0@ == precedence_tree(es.take(j), os.take(j - 1)) && p.1 == os[j - 1],
    }
}

fn check_items(items: &Vec<ParseList>) -> (r: Result<(), ParseError>)
    ensures
        match reduce(view_items(items@)) {
            Ok(_) => r is Ok,
            Err(e) => r == Err::<(), ParseError>(e),
        },
{
    let ghost v = view_items(items@);
    let n = items.len();
    if n == 0 {
        return Err(ParseError::EmptyExpression);
    }
    if items[0].is_operator() {
        return Err(ParseError::LeadingOperator);
    }
    if items[n - 1].is_operator() {
        return Err(ParseError::TrailingOperator);
    }
    let mut k: usize = 0;
    while k < n
        invariant
            n == items@.len(),
            v == view_items(items@),
            k <= n,
            0 < n,
            !(v[0] is Op),
            !(v.last() is Op),
            forall|q: int| 0 <= q < k ==> (#[trigger] v[q] is El <==> q % 2 == 0),
        decreases n - k,
    {
        if items[k].is_operator() == (k % 2 == 0) {
            assert(!(v[k as int] is El <==> (k as int) % 2 == 0));
            return Err(ParseError::InvalidTokenOrder);
        }
        k = k + 1;
    }
    assert(alternating(v));
    Ok(())
}

#[verifier::rlimit(40)]
fn reduce_items(items: Vec<ParseList>) -> (r: Result<ParsedElement, ParseError>)
    ensures
        agrees(r, reduce(view_items(items@))),
{
    let ghost v = view_items(items@);
    if let Err(e) = check_items(&items) {
        return Err(e);
    }
    let n = items.len();
    let ghost es = operands(v);
    let ghost os = operators(v);
    let ghost total = os.len() as int;
    assert(v[n - 1] is El);
    assert(n == 2 * total + 1);
    assert(es.len() == os.len() + 1);
    let mut items = items;
    let mut term = match items.remove(0) {
        ParseList::El(e) => e,
        ParseList::Op(_) => {
            return Err(ParseError::InvalidTokenOrder);
        },
    };
    let mut sum: Option<(ParsedElement, Operations)> = None;
    let ghost mut c: int = 0;
    assert(view_items(items@) =~= v.skip(1));
    assert(es.take(1).skip(0) =~= seq![es[0]]);
    assert(os.take(0).skip(0) =~= Seq::<Operations>::empty());
    while items.len() > 0
        invariant
            0 <= c <= total,
            es == operands(v),
            os == operators(v),
            es.len() == os.len() + 1,
            total == os.len(),
            v.len() == 2 * total + 1,
            alternating(v),
            items@.len() == 2 * (total - c),
            view_items(items@) == v.skip(2 * c + 1),
            accumulated(es, os, c, sum, term),
        decreases items@.len(),
    {
        let ghost before = items@;
        assert(view_items(before)[0] == v[2 * c + 1]);
        assert(view_items(before)[1] == v[2 * c + 2]);
        let op = match items.remove(0) {
            ParseList::Op(o) => o,
            ParseList::El(_) => {
                return Err(ParseError::InvalidTokenOrder);
            },
        };
        let e = match items.remove(0) {
            ParseList::El(e) => e,
            ParseList::Op(_) => {
                return Err(ParseError::InvalidTokenOrder);
            },
        };
        assert(op == os[c]);
        assert(e@ == es[c + 1]);
        assert(items@ =~= before.skip(2));
        assert(view_items(items@) =~= view_items(before).skip(2));
        assert(view_items(items@) =~= v.skip(2 * (c + 1) + 1));
        if op.rank() == 2 {
            proof {
                lemma_step_mul(es, os, c);
            }
            term = binary(term, op, e);
        } else {
            proof {
                lemma_step_add(es, os, c);
                lemma_split_prefix(es, os, c);
            }
            let s = combine(sum, term);
            sum = Some((s, op));
            term = e;
        }
        proof {
            c = c + 1;
        }
    }
    proof {
        lemma_split_prefix(es, os, total);
        assert(es.take(total + 1) =~= es);
        assert(os.take(total) =~= os);
    }
    Ok(combine(sum, term))
}

fn find_close(t: &[Tokens], start: usize) -> (m: usize)
    requires
        start <= t@.len(),
    ensures
        m == match_close(view_tokens(t@), start as int, 0),
{
    let ghost v = view_tokens(t@);
    let mut i = start;
    let mut depth: usize = 0;
    while i < t.len()
        invariant
            start <= i <= t@.len(),
            depth <= i - start,
            v == view_tokens(t@),
            match_close(v, start as int, 0) == match_close(v, i as int, depth as nat),
        decreases t@.len() - i,
    {
        match &t[i] {
            Tokens::BracketClose => {
                if depth == 0 {
                    return i;
                }
                depth = depth - 1;
            },
            Tokens::BracketOpen => {
                depth = depth + 1;
            },
            _ => {},
        }
        i = i + 1;
    }
    i
}

fn parse_level(t: &[Tokens], lo: usize, hi: usize) -> (r: Result<ParsedElement, ParseError>)
    requires
        lo <= hi <= t@.len(),
    ensures
        agrees(r, parse_range(view_tokens(t@), lo as int, hi as int)),
    decreases hi - lo,
{
    let ghost v = view_tokens(t@);
    let mut items: Vec<ParseList> = Vec::new();
    let mut i = lo;
    assert(view_items(items@) =~= Seq::<Item>::empty());
    while i < hi
        invariant_except_break
            lo <= i <= hi,
            scan(v, lo as int, hi as int, Seq::empty()) == scan(v, i as int, hi as int, view_items(items@)),
        invariant
            hi <= t@.len(),
            v == view_tokens(t@),
        ensures
            scan(v, lo as int, hi as int, Seq::empty()) == Ok::<Seq<Item>, ParseError>(view_items(items@)),
        decreases hi - i,
    {
        let ghost before = items@;
        match &t[i] {
            Tokens::Operand(n) => {
                items.push(ParseList::El(ParsedElement::Atom(copy_number(n))));
                assert(view_items(items@) =~= view_items(before).push(items@.last()@));
            },
            Tokens::Expression(o) => {
                items.push(ParseList::Op(*o));
                assert(view_items(items@) =~= view_items(before).push(items@.last()@));
            },
            Tokens::BracketClose => {
                break;
            },
            Tokens::BracketOpen => {
                let m = find_close(t, i + 1);
                if m >= hi {
                    return Err(ParseError::UnclosedGroup);
                }
                proof {
                    lemma_match_close_bounds(v, i + 1, 0);
                }
                match parse_level(t, i + 1, m) {
                    Err(e) => {
                        return Err(e);
                    },
                    Ok(x) => {
                        items.push(ParseList::El(x));
                        assert(view_items(items@) =~= view_items(before).push(items@.last()@));
                        i = m;
                    },
                }
            },
        }
        i = i + 1;
    }
    reduce_items(items)
}

/// The expression tree of a token sequence.
pub struct Parser {
    root_compound: ParsedElement,
}

impl View for Parser {
    type V = Tree;

    closed spec fn view(&self) -> Tree {
        self.root_compound@
    }
}

impl Parser {
    /// Builds the tree of `token_tree`: each bracket level is read into a flat
    /// list of operands and operators, a group becoming one operand, and the
    /// list is grouped by rank, equal ranks to the left.
    pub fn parse(token_tree: &[Tokens]) -> (r: Result<Parser, ParseError>)
        ensures
            match r {
                Ok(p) => parse_tokens(view_tokens(token_tree@)) == Ok::<Tree, ParseError>(p@),
                Err(e) => parse_tokens(view_tokens(token_tree@)) == Err::<Tree, ParseError>(e),
            },
    {
        let end = find_close(token_tree, 0);
        proof {
            lemma_match_close_bounds(view_tokens(token_tree@), 0, 0);
        }
        match parse_level(token_tree, 0, end) {
            Err(e) => Err(e),
            Ok(x) => if end < token_tree.len() {
                Err(ParseError::InvalidTokenOrder)
            } else {
                Ok(Parser { root_compound: x })
            },
        }
    }

    /// A copy of the root of the tree.
    pub fn get(&self) -> (r: ParsedElement)
        ensures
            r@ == self@,
    {
        copy_tree(&self.root_compound)
    }
}

} // verus!
