use calculator::parser::{Compound, ParseError, ParsedElement, Parser};
use calculator::tokenizer::{LexError, Number, Operations, Tokenizer, Tokens};

fn lit(s: &str) -> ParsedElement {
    ParsedElement::Atom(Number { text: s.chars().collect() })
}

fn bin(l: ParsedElement, op: Operations, r: ParsedElement) -> ParsedElement {
    ParsedElement::CompoundItem(Compound {
        operand1: Box::new(l),
        operand2: Box::new(r),
        operation: op,
    })
}

fn num_token(s: &str) -> Tokens {
    Tokens::Operand(Number { text: s.chars().collect() })
}

fn value(e: &ParsedElement) -> f64 {
    match e {
        ParsedElement::Atom(n) => n.text.iter().collect::<String>().parse::<f64>().unwrap(),
        ParsedElement::CompoundItem(c) => {
            let l = value(&c.operand1);
            let r = value(&c.operand2);
            match c.operation {
                Operations::Add => l + r,
                Operations::Subtract => l - r,
                Operations::Mul => l * r,
                Operations::Div => l / r,
            }
        }
    }
}

fn tree(input: &str) -> Result<ParsedElement, ParseError> {
    let tokens = Tokenizer::tokenize(input).expect("lexes");
    Parser::parse(tokens.get()).map(|p| p.get())
}

fn eval_text(input: &str) -> f64 {
    value(&tree(input).expect("parses"))
}

#[test]
fn precedence_mul_over_add() {
    assert_eq!(
        tree("2+3*4"),
        Ok(bin(lit("2"), Operations::Add, bin(lit("3"), Operations::Mul, lit("4"))))
    );
    assert_eq!(eval_text("2+3*4"), 14.0);
}

#[test]
fn equal_ranks_group_left() {
    assert_eq!(
        tree("10-2-3"),
        Ok(bin(bin(lit("10"), Operations::Subtract, lit("2")), Operations::Subtract, lit("3")))
    );
    assert_eq!(eval_text("10-2-3"), 5.0);
    assert_eq!(eval_text("8/4/2"), 1.0);
    assert_eq!(eval_text("6/3*2"), 4.0);
}

#[test]
fn brackets_override_precedence() {
    assert_eq!(
        tree("(2+3)*4"),
        Ok(bin(bin(lit("2"), Operations::Add, lit("3")), Operations::Mul, lit("4")))
    );
    assert_eq!(eval_text("(2+3)*4"), 20.0);
}

#[test]
fn mixed_chain() {
    assert_eq!(eval_text("2*(3+4)-5/(1+1)"), 11.5);
    assert_eq!(eval_text("1+2*3*4-5"), 20.0);
    assert_eq!(eval_text("((7))"), 7.0);
    assert_eq!(tree("((7))"), Ok(lit("7")));
    assert_eq!(tree("42"), Ok(lit("42")));
}

#[test]
fn division_by_zero_gives_infinity_or_nan() {
    let inf = eval_text("1/0");
    assert!(inf.is_infinite() && inf > 0.0);
    assert!(eval_text("0/0").is_nan());
}

#[test]
fn trailing_operator() {
    assert_eq!(tree("2+"), Err(ParseError::TrailingOperator));
}

#[test]
fn unclosed_group() {
    assert_eq!(tree("(2+3"), Err(ParseError::UnclosedGroup));
    assert_eq!(tree("1+((2)"), Err(ParseError::UnclosedGroup));
}

#[test]
fn unknown_character() {
    assert!(matches!(
        Tokenizer::tokenize("2@3"),
        Err(LexError::UnknownCharacter('@'))
    ));
}

#[test]
fn leading_operator() {
    assert_eq!(tree("+2"), Err(ParseError::LeadingOperator));
    assert_eq!(tree("1+(-2)"), Err(ParseError::LeadingOperator));
}

#[test]
fn empty_expressions() {
    assert_eq!(tree(""), Err(ParseError::EmptyExpression));
    assert_eq!(tree("   "), Err(ParseError::EmptyExpression));
    assert_eq!(tree("1+()"), Err(ParseError::EmptyExpression));
}

#[test]
fn invalid_token_order() {
    assert_eq!(tree("2(3)"), Err(ParseError::InvalidTokenOrder));
    assert_eq!(tree("2+*3"), Err(ParseError::InvalidTokenOrder));
    assert_eq!(tree("2)+3"), Err(ParseError::InvalidTokenOrder));
}

#[test]
fn malformed_literals() {
    assert!(matches!(Tokenizer::tokenize("1.2.3"), Err(LexError::MalformedLiteral)));
    assert!(matches!(Tokenizer::tokenize("1+."), Err(LexError::MalformedLiteral)));
    assert_eq!(eval_text("1.+.5"), 1.5);
}

#[test]
fn tokens_of_expression() {
    let t = Tokenizer::tokenize(" (1.5+2)/3 \n").unwrap();
    assert_eq!(
        t.get(),
        &vec![
            Tokens::BracketOpen,
            num_token("1.5"),
            Tokens::Expression(Operations::Add),
            num_token("2"),
            Tokens::BracketClose,
            Tokens::Expression(Operations::Div),
            num_token("3"),
        ]
    );
}

#[test]
fn lexing_twice_gives_equal_tokens() {
    let a = Tokenizer::tokenize("3 * (4 - 1)").unwrap();
    let b = Tokenizer::tokenize("3 * (4 - 1)").unwrap();
    assert_eq!(a.get(), b.get());
}

#[test]
fn whitespace_does_not_matter() {
    let a = Tokenizer::tokenize("2 + 3").unwrap();
    let b = Tokenizer::tokenize("2+3").unwrap();
    assert_eq!(a.get(), b.get());
    assert_eq!(eval_text("2 + 3"), eval_text("2+3"));
}

#[test]
fn whitespace_inside_a_literal_keeps_it_open() {
    let t = Tokenizer::tokenize("1 2\t. 5").unwrap();
    assert_eq!(t.get(), &vec![num_token("12.5")]);
}

#[test]
fn operator_ranks() {
    assert_eq!(Operations::Add.rank(), 1);
    assert_eq!(Operations::Subtract.rank(), 1);
    assert_eq!(Operations::Mul.rank(), 2);
    assert_eq!(Operations::Div.rank(), 2);
}

#[test]
fn brackets_around_everything_keep_the_tree() {
    assert_eq!(tree("(2+3*4)"), tree("2+3*4"));
    assert_eq!(tree("((10-2-3))"), tree("10-2-3"));
}
