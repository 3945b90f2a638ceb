use lambda_calculator::errors::LambdaError;
use lambda_calculator::parser::{Lexeme, Parser, Token};

fn var(s: &str) -> Token {
    Token::Var(s.to_string())
}

fn func(s: &str) -> Token {
    Token::Func(s.to_string())
}

fn tokens(text: &str) -> Result<Vec<Token>, LambdaError> {
    Parser::new().tokenize(text.to_string(), None)
}

fn word(text: &str, variable: bool) -> Lexeme {
    Lexeme { text: text.to_string(), variable }
}

#[test]
fn a_text_is_cut_into_lexemes() {
    assert_eq!(
        Parser::lexemes("  (λx.x1 y_2)+= 12ab  "),
        Ok(vec![
            word("(", false),
            word("λ", false),
            word("x", true),
            word(".", false),
            word("x1", true),
            word("y_2", true),
            word(")", false),
            word("+=", false),
            word("12", false),
            word("ab", true),
        ])
    );
    assert_eq!(Parser::lexemes(""), Ok(vec![]));
}

#[test]
fn an_application_opens_the_outer_group() {
    assert_eq!(
        tokens("a b"),
        Ok(vec![Token::Open, var("a"), var("b"), Token::Close])
    );
}

#[test]
fn an_abstraction_opens_the_outer_group() {
    assert_eq!(
        tokens("λx.x"),
        Ok(vec![Token::Open, func("x"), var("x"), Token::Close])
    );
}

#[test]
fn a_group_at_the_start_opens_no_outer_group() {
    assert_eq!(
        tokens("(λx.x) a"),
        Ok(vec![Token::Open, func("x"), var("x"), Token::Close, var("a")])
    );
}

#[test]
fn open_groups_are_closed_at_the_end() {
    assert_eq!(
        tokens("((a"),
        Ok(vec![Token::Open, Token::Open, var("a"), Token::Close, Token::Close])
    );
}

#[test]
fn several_parameters_after_one_lambda() {
    assert_eq!(
        tokens("λa b.a"),
        Ok(vec![Token::Open, func("a"), func("b"), var("a"), Token::Close])
    );
}

#[test]
fn numerals_expand_to_church_encoding() {
    assert_eq!(
        tokens("0"),
        Ok(vec![Token::Open, func("$#$f"), func("$#$x"), var("$#$x"), Token::Close])
    );
    assert_eq!(
        tokens("1"),
        Ok(vec![
            Token::Open,
            func("$#$f"),
            func("$#$x"),
            var("$#$f"),
            var("$#$x"),
            Token::Close
        ])
    );
    assert_eq!(
        tokens("3"),
        Ok(vec![
            Token::Open,
            func("$#$f"),
            func("$#$x"),
            var("$#$f"),
            Token::Open,
            var("$#$f"),
            Token::Open,
            var("$#$f"),
            var("$#$x"),
            Token::Close,
            Token::Close,
            Token::Close
        ])
    );
    assert_eq!(tokens("255").map(|t| t.len()), Ok(3 + 2 * 254 + 2 + 254 + 1));
    assert_eq!(tokens("007"), tokens("7"));
}

#[test]
fn names_in_a_keyword_body_are_qualified() {
    let p = Parser::new();
    assert_eq!(
        p.tokenize("λx. x y".to_string(), Some("id")),
        Ok(vec![Token::Open, func("$id$x"), var("$id$x"), var("$id$y"), Token::Close])
    );
}

#[test]
fn a_keyword_gives_its_tokens() {
    let mut p = Parser::new();
    assert_eq!(p.add_keyword("id".to_string(), "λx.x".to_string()), Ok(()));
    assert_eq!(
        p.tokenize("id a".to_string(), None),
        Ok(vec![Token::Open, func("$id$x"), var("$id$x"), Token::Close, var("a")])
    );
    assert_eq!(
        p.tokenize("a id".to_string(), None),
        Ok(vec![
            Token::Open,
            var("a"),
            Token::Open,
            func("$id$x"),
            var("$id$x"),
            Token::Close,
            Token::Close
        ])
    );
}

#[test]
fn scanning_takes_the_lexemes_as_they_are_given() {
    let p = Parser::new();
    assert_eq!(
        p.scan(&vec![word("λ", false), word("q", true), word(".", false), word("q", true)], None),
        Ok(vec![Token::Open, func("q"), var("q"), Token::Close])
    );
    assert_eq!(
        p.scan(&vec![word("q", false)], None),
        Err(LambdaError::InvalidName("q".to_string()))
    );
    assert_eq!(p.scan(&vec![], None), Ok(vec![]));
}

#[test]
fn every_syntax_error_has_its_input() {
    assert_eq!(tokens("x."), Err(LambdaError::UnexpectedCharacter('.')));
    assert_eq!(tokens("λx("), Err(LambdaError::UnexpectedCharacter('(')));
    assert_eq!(tokens("(λx)"), Err(LambdaError::UnexpectedCharacter(')')));
    assert_eq!(tokens("λx λ"), Err(LambdaError::UnexpectedCharacter('λ')));
    assert_eq!(tokens("λx 2."), Err(LambdaError::UnexpectedCharacter('.')));
    assert_eq!(tokens("λ("), Err(LambdaError::InvalidName("(".to_string())));
    assert_eq!(tokens("λ)"), Err(LambdaError::InvalidName(")".to_string())));
    assert_eq!(tokens("λλ"), Err(LambdaError::InvalidName("λ".to_string())));
    assert_eq!(tokens("λ."), Err(LambdaError::InvalidName(".".to_string())));
    assert_eq!(tokens("λ2.x"), Err(LambdaError::InvalidName("2".to_string())));
    assert_eq!(tokens("$a"), Err(LambdaError::InvalidName("$a".to_string())));
    assert_eq!(tokens("a +"), Err(LambdaError::InvalidName("+".to_string())));
    assert_eq!(tokens("λ"), Err(LambdaError::IncompleteFunction));
    assert_eq!(tokens("λx"), Err(LambdaError::IncompleteFunction));
    assert_eq!(tokens(")"), Err(LambdaError::UnmatchedParenthesis));
    assert_eq!(tokens("(a))"), Err(LambdaError::UnmatchedParenthesis));
    assert_eq!(tokens("256"), Err(LambdaError::NumberTooLarge(256)));
    assert_eq!(
        tokens("99999999999999999999999999999999999999999999"),
        Err(LambdaError::InternalFailure)
    );
}

#[test]
fn keywords_are_reserved() {
    let mut p = Parser::new();
    assert_eq!(p.add_keyword("id".to_string(), "λx.x".to_string()), Ok(()));
    assert_eq!(
        p.tokenize("λid.id".to_string(), None),
        Err(LambdaError::ReservedName("id".to_string()))
    );
    assert_eq!(
        p.tokenize("λid.a".to_string(), Some("other")),
        Err(LambdaError::ReservedName("id".to_string()))
    );
    assert_eq!(
        p.tokenize("λid.a".to_string(), Some("id")),
        Ok(vec![Token::Open, func("$id$id"), var("$id$a"), Token::Close])
    );
    assert_eq!(
        p.tokenize("a id".to_string(), Some("id")),
        Err(LambdaError::ActiveName("id".to_string()))
    );
}
