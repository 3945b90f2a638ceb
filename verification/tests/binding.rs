use lambda_calculator::builder::{build, strip_all, Builder, Name};
use lambda_calculator::errors::LambdaError;
use lambda_calculator::objects::Object;
use lambda_calculator::parser::Token;
use std::collections::VecDeque;

fn var(s: &str) -> Token {
    Token::Var(s.to_string())
}

fn func(s: &str) -> Token {
    Token::Func(s.to_string())
}

fn bound(depth: usize, queue_position: usize) -> Object {
    Object::Var { depth, queue_position }
}

fn free(name: usize) -> Object {
    Object::Term { name }
}

fn abstraction(vars: Vec<(usize, usize)>, inner: Vec<Object>) -> Object {
    Object::Func { vars: VecDeque::from(vars), inner: VecDeque::from(inner) }
}

#[test]
fn an_application_of_an_abstraction() {
    let expr = build(vec![Token::Open, func("x"), var("x"), Token::Close, var("a")]).unwrap();
    assert_eq!(
        expr.object,
        abstraction(vec![], vec![abstraction(vec![(0, 0)], vec![bound(0, 0)]), free(1)])
    );
    assert_eq!(expr.name_space.len(), 2);
    assert_eq!(expr.name_space.name(0), "x");
    assert_eq!(expr.name_space.name(1), "a");
    assert_eq!(expr.name_space.get_copies(), &vec![1, 0]);
    assert_eq!(expr.name_space.get_absolute_name_index(0), 0);
}

#[test]
fn a_group_of_one_element_gives_way_to_it() {
    let expr = build(vec![Token::Open, func("x"), var("x"), Token::Close]).unwrap();
    assert_eq!(expr.object, abstraction(vec![(0, 0)], vec![bound(0, 0)]));
    let expr = build(vec![var("a")]).unwrap();
    assert_eq!(expr.object, free(0));
    let expr = build(vec![Token::Open, Token::Open, var("a"), Token::Close, Token::Close]).unwrap();
    assert_eq!(expr.object, free(0));
}

#[test]
fn a_reference_counts_the_abstractions_between() {
    // λx.(λy.(x y) x)
    let expr = build(vec![
        func("x"),
        Token::Open,
        func("y"),
        Token::Open,
        var("x"),
        var("y"),
        Token::Close,
        var("x"),
        Token::Close,
    ])
    .unwrap();
    assert_eq!(
        expr.object,
        abstraction(
            vec![(0, 0)],
            vec![abstraction(
                vec![(1, 0)],
                vec![abstraction(vec![], vec![bound(2, 0), bound(1, 0)]), bound(1, 0)]
            )]
        )
    );
}

#[test]
fn a_hoisted_element_is_lowered() {
    // λx.((x)): the inner groups give way, and x refers to its abstraction
    let expr = build(vec![
        func("x"),
        Token::Open,
        Token::Open,
        var("x"),
        Token::Close,
        Token::Close,
    ])
    .unwrap();
    assert_eq!(expr.object, abstraction(vec![(0, 0)], vec![bound(0, 0)]));
}

#[test]
fn several_parameters_have_their_positions() {
    let expr = build(vec![func("a"), func("b"), var("b"), var("a")]).unwrap();
    assert_eq!(
        expr.object,
        abstraction(vec![(0, 0), (1, 0)], vec![bound(0, 1), bound(0, 0)])
    );
}

#[test]
fn a_binder_in_a_spine_opens_an_abstraction() {
    let expr = build(vec![var("a"), func("x"), var("x"), Token::Close, var("b")]).unwrap();
    assert_eq!(
        expr.object,
        abstraction(
            vec![],
            vec![free(0), abstraction(vec![(1, 0)], vec![bound(0, 0)]), free(2)]
        )
    );
}

#[test]
fn a_closed_spelling_is_bound_again_with_the_next_id() {
    let expr = build(vec![
        Token::Open,
        func("x"),
        var("x"),
        Token::Close,
        Token::Open,
        func("x"),
        var("x"),
        Token::Close,
    ])
    .unwrap();
    assert_eq!(
        expr.object,
        abstraction(
            vec![],
            vec![
                abstraction(vec![(0, 0)], vec![bound(0, 0)]),
                abstraction(vec![(0, 1)], vec![bound(0, 0)])
            ]
        )
    );
    assert_eq!(expr.name_space.get_copies(), &vec![2]);
}

#[test]
fn no_tokens_are_an_internal_failure() {
    assert_eq!(build(vec![]).unwrap_err(), LambdaError::InternalFailure);
}

#[test]
fn the_naming_errors() {
    assert_eq!(
        build(vec![func("x"), func("x"), var("x")]).unwrap_err(),
        LambdaError::ActiveName("x".to_string())
    );
    assert_eq!(
        build(vec![func("x"), Token::Open, func("x"), var("x")]).unwrap_err(),
        LambdaError::ActiveName("x".to_string())
    );
    assert_eq!(
        build(vec![var("a"), func("a"), var("a")]).unwrap_err(),
        LambdaError::ReservedName("a".to_string())
    );
    assert_eq!(
        build(vec![Token::Open, func("x"), var("x"), Token::Close, var("x")]).unwrap_err(),
        LambdaError::UnavailableName("x".to_string())
    );
}

#[test]
fn qualifiers_are_stripped() {
    let names: Vec<String> = ["$id$x", "$#$f", "$a$b$c", "x", "", "$x", "$$", "$a b$c", "a$b$c", "$$$x"]
        .iter()
        .map(|s| s.to_string())
        .collect();
    assert_eq!(
        strip_all(&names),
        Ok(vec![
            Some("x".to_string()),
            Some("f".to_string()),
            Some("b$c".to_string()),
            None,
            None,
            None,
            None,
            None,
            None,
            Some("x".to_string()),
        ])
    );
    assert_eq!(strip_all(&vec![]), Ok(vec![]));
    assert_eq!(strip_all(&vec!["plain".to_string()]), Ok(vec![None]));
}

#[test]
fn qualified_names_are_unified() {
    // a keyword's free variable y beside the user's y, and the keyword's own x
    let expr = build(vec![
        Token::Open,
        func("$k$x"),
        var("$k$x"),
        var("$k$y"),
        Token::Close,
        var("y"),
    ])
    .unwrap();
    assert_eq!(expr.name_space.name(0), "x");
    assert_eq!(expr.name_space.name(1), "$k$y");
    assert_eq!(expr.name_space.name(2), "y");
    assert_eq!(expr.name_space.get_absolute_name_index(0), 0);
    assert_eq!(expr.name_space.get_absolute_name_index(1), 2);
    assert_eq!(expr.name_space.get_absolute_name_index(2), 2);
    assert_eq!(expr.name_space.get_copies(), &vec![1, 0, 0]);
}

#[test]
fn the_binder_works_step_by_step() {
    let mut b = Builder::new();
    b.level = 1;
    let mut vars = VecDeque::new();
    assert_eq!(b.add_func_name(&mut vars, "x".to_string()), Ok(()));
    assert_eq!(vars, VecDeque::from(vec![(0, 0)]));
    assert_eq!(b.lookup("x"), Some(Name::Var { level: 1, queue_position: 0, copy_id: 0 }));
    assert_eq!(b.make_variable("x".to_string()), Ok(bound(0, 0)));
    assert_eq!(b.make_variable("a".to_string()), Ok(free(1)));
    assert_eq!(b.lookup("a"), Some(Name::Term { name_id: 1 }));
    let closed = b.end_closure(vars, VecDeque::from(vec![bound(0, 0), free(1)]));
    assert_eq!(closed, Ok(abstraction(vec![(0, 0)], vec![bound(0, 0), free(1)])));
    assert_eq!(b.level, 0);
    assert_eq!(b.lookup("x"), Some(Name::DeadVar { name_id: 0, copy_id: 0 }));
    assert_eq!(
        b.end_closure(VecDeque::new(), VecDeque::new()),
        Err(LambdaError::InternalFailure)
    );
}

#[test]
fn a_failed_step_leaves_the_binder_as_it_was() {
    let mut b = Builder::new();
    b.level = 1;
    let mut vars = VecDeque::new();
    assert_eq!(b.add_func_name(&mut vars, "x".to_string()), Ok(()));
    assert_eq!(
        b.add_func_name(&mut vars, "x".to_string()),
        Err(LambdaError::ActiveName("x".to_string()))
    );
    assert_eq!(vars, VecDeque::from(vec![(0, 0)]));
    assert_eq!(b.listings, vec!["x".to_string()]);
    assert_eq!(b.lookup("x"), Some(Name::Var { level: 1, queue_position: 0, copy_id: 0 }));
    assert_eq!(
        b.end_closure(VecDeque::from(vec![(0, 0), (7, 0)]), VecDeque::new()),
        Err(LambdaError::InternalFailure)
    );
    assert_eq!(b.level, 1);
    assert_eq!(b.lookup("x"), Some(Name::Var { level: 1, queue_position: 0, copy_id: 0 }));
    assert_eq!(b.end_closure(vars, VecDeque::new()), Ok(abstraction(vec![(0, 0)], vec![])));
    assert_eq!(
        b.make_variable("x".to_string()),
        Err(LambdaError::UnavailableName("x".to_string()))
    );
    assert_eq!(b.listings, vec!["x".to_string()]);
    assert_eq!(b.lookup("x"), Some(Name::DeadVar { name_id: 0, copy_id: 0 }));
}
