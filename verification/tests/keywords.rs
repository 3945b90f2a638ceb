use lambda_calculator::errors::LambdaError;
use lambda_calculator::parser::{Parser, Token};
use lambda_calculator::simplify;

#[test]
fn a_keyword_is_registered_under_its_trimmed_name() {
    let mut p = Parser::new();
    assert_eq!(p.create_keyword("  twice ".to_string(), "  λf.λx.f (f x)  ".to_string()), "λf.λx.f (f x)");
    assert_eq!(simplify("twice g a".to_string(), &p), "g (g a)");
}

#[test]
fn an_operator_can_be_a_keyword() {
    let mut p = Parser::new();
    assert_eq!(p.create_keyword("<=>".to_string(), "λa.a".to_string()), "λa.a");
    assert_eq!(simplify("<=> b".to_string(), &p), "b");
}

#[test]
fn what_cannot_be_registered_gives_an_empty_text() {
    let mut p = Parser::new();
    assert_eq!(p.create_keyword("".to_string(), "λx.x".to_string()), "");
    assert_eq!(p.create_keyword("id".to_string(), "   ".to_string()), "");
    assert_eq!(p.create_keyword("two words".to_string(), "λx.x".to_string()), "");
    assert_eq!(p.create_keyword("a+".to_string(), "λx.x".to_string()), "");
    assert_eq!(p.create_keyword("id".to_string(), "λx".to_string()), "");
    assert_eq!(simplify("id".to_string(), &p), "id");
}

#[test]
fn the_failures_of_registering_are_told_apart() {
    let mut p = Parser::new();
    assert_eq!(
        p.add_keyword(" ".to_string(), "λx.x".to_string()),
        Err(LambdaError::InternalFailure)
    );
    assert_eq!(
        p.add_keyword("id".to_string(), "".to_string()),
        Err(LambdaError::InternalFailure)
    );
    assert_eq!(
        p.add_keyword("1x".to_string(), "λx.x".to_string()),
        Err(LambdaError::InvalidKeyword("1x".to_string()))
    );
    assert_eq!(
        p.add_keyword("rec".to_string(), "λx.rec x".to_string()),
        Ok(())
    );
    assert_eq!(
        p.add_keyword("rec".to_string(), "λx.rec x".to_string()),
        Err(LambdaError::ActiveName("rec".to_string()))
    );
    assert_eq!(
        p.add_keyword("bad".to_string(), "x.".to_string()),
        Err(LambdaError::UnexpectedCharacter('.'))
    );
}

#[test]
fn a_removed_keyword_is_a_name_again() {
    let mut p = Parser::new();
    assert_eq!(p.create_keyword("id".to_string(), "λx.x".to_string()), "λx.x");
    assert_eq!(simplify("id a".to_string(), &p), "a");
    p.remove_keyword("  id ".to_string());
    assert_eq!(simplify("id a".to_string(), &p), "id a");
    assert_eq!(
        p.tokenize("id".to_string(), None),
        Ok(vec![Token::Open, Token::Var("id".to_string()), Token::Close])
    );
}

#[test]
fn a_keyword_may_use_an_earlier_keyword() {
    let mut p = Parser::new();
    assert_eq!(p.create_keyword("id".to_string(), "λx.x".to_string()), "λx.x");
    assert_eq!(p.create_keyword("same".to_string(), "id id".to_string()), "id id");
    assert_eq!(simplify("same a".to_string(), &p), "a");
}
