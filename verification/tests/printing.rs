use lambda_calculator::errors::LambdaError;
use lambda_calculator::naming::NameSpace;
use lambda_calculator::objects::{Expr, Object};
use lambda_calculator::printer::{try_format, Printer};
use std::collections::{HashMap, VecDeque};

fn bound(depth: usize, queue_position: usize) -> Object {
    Object::Var { depth, queue_position }
}

fn free(name: usize) -> Object {
    Object::Term { name }
}

fn abstraction(vars: Vec<(usize, usize)>, inner: Vec<Object>) -> Object {
    Object::Func { vars: VecDeque::from(vars), inner: VecDeque::from(inner) }
}

fn space(list: &[&str]) -> NameSpace {
    NameSpace::new(
        list.iter().map(|s| s.to_string()).collect(),
        vec![0; list.len()],
        HashMap::new(),
    )
}

fn show(tree: Object, list: &[&str]) -> String {
    lambda_calculator::printer::format(&Expr::new(tree, space(list)))
}

#[test]
fn a_free_variable_is_its_spelling() {
    assert_eq!(show(free(1), &["a", "b"]), "b");
}

#[test]
fn the_root_has_no_parentheses_and_nested_abstractions_have() {
    assert_eq!(show(abstraction(vec![], vec![free(0), free(1)]), &["a", "b"]), "a b");
    assert_eq!(
        show(
            abstraction(vec![], vec![free(0), abstraction(vec![], vec![free(1), free(0)])]),
            &["a", "b"]
        ),
        "a (b a)"
    );
    assert_eq!(
        show(
            abstraction(vec![], vec![free(0), abstraction(vec![(1, 0)], vec![bound(0, 0)])]),
            &["a", "x"]
        ),
        "a (λx.x)"
    );
}

#[test]
fn a_spine_under_a_binder_stands_in_parentheses() {
    assert_eq!(show(abstraction(vec![(0, 0)], vec![bound(0, 0)]), &["x"]), "λx.x");
    assert_eq!(
        show(abstraction(vec![(0, 0)], vec![bound(0, 0), bound(0, 0)]), &["x"]),
        "λx.(x x)"
    );
    assert_eq!(
        show(abstraction(vec![(0, 0), (1, 0)], vec![bound(0, 1), bound(0, 0), free(2)]), &["x", "y", "a"]),
        "λx.λy.(y x a)"
    );
}

#[test]
fn an_empty_body_has_no_last_dot() {
    assert_eq!(show(abstraction(vec![(0, 0)], vec![]), &["x"]), "λx");
    assert_eq!(show(abstraction(vec![(0, 0), (1, 0)], vec![]), &["x", "y"]), "λx.λy");
    assert_eq!(show(abstraction(vec![], vec![]), &["x"]), "");
    assert_eq!(
        show(abstraction(vec![], vec![free(0), abstraction(vec![], vec![])]), &["a"]),
        "a ()"
    );
}

#[test]
fn open_parameters_of_one_name_are_told_apart_by_suffixes() {
    let tree = abstraction(
        vec![(0, 0)],
        vec![abstraction(
            vec![(0, 1)],
            vec![bound(1, 0), bound(0, 0), abstraction(vec![(0, 2)], vec![bound(0, 0), bound(2, 0)])],
        )],
    );
    assert_eq!(show(tree, &["x"]), "λx.(λx_1.(x x_1 (λx_2.(x_2 x))))");
}

#[test]
fn sibling_scopes_start_without_suffix() {
    let tree = abstraction(
        vec![],
        vec![
            abstraction(vec![(0, 0)], vec![bound(0, 0)]),
            abstraction(vec![(0, 1)], vec![bound(0, 0)]),
        ],
    );
    assert_eq!(show(tree, &["x"]), "(λx.x) (λx.x)");
}

#[test]
fn one_abstraction_may_bind_a_name_twice() {
    let tree = abstraction(vec![(0, 0), (0, 1)], vec![bound(0, 0), bound(0, 1)]);
    assert_eq!(show(tree, &["x"]), "λx.λx_1.(x x_1)");
}

#[test]
fn names_go_through_the_renames() {
    let mut renames = HashMap::new();
    renames.insert(1, 0);
    let registry = NameSpace::new(vec!["y".to_string(), "$k$y".to_string()], vec![0, 0], renames);
    let tree = abstraction(
        vec![],
        vec![free(1), free(0), abstraction(vec![(1, 0)], vec![abstraction(vec![(0, 0)], vec![bound(1, 0), bound(0, 0)])])],
    );
    assert_eq!(
        lambda_calculator::printer::format(&Expr::new(tree, registry)),
        "y y (λy.(λy_1.(y y_1)))"
    );
}

#[test]
fn printing_twice_gives_the_same_text() {
    let expr = Expr::new(
        abstraction(vec![(0, 0)], vec![abstraction(vec![(0, 1)], vec![bound(1, 0), bound(0, 0)])]),
        space(&["x"]),
    );
    let first = lambda_calculator::printer::format(&expr);
    let second = lambda_calculator::printer::format(&expr);
    assert_eq!(first, "λx.(λx_1.(x x_1))");
    assert_eq!(first, second);
}

#[test]
fn a_text_of_more_than_255_bytes_gives_way_to_the_limit_message() {
    let long = "a".repeat(126);
    let tree = abstraction(vec![], vec![free(0), free(0)]);
    assert_eq!(show(tree, &[long.as_str()]).len(), 253);
    let longer = "a".repeat(127);
    let tree = abstraction(vec![], vec![free(0), free(0)]);
    assert_eq!(show(tree, &[longer.as_str()]).len(), 255);
    let longest = "a".repeat(128);
    let tree = abstraction(vec![], vec![free(0), free(0)]);
    assert_eq!(show(tree, &[longest.as_str()]), "error: character limit exceeded");
    // the length is counted in bytes
    let greek = "λ".repeat(64);
    let tree = abstraction(vec![], vec![free(0), free(0)]);
    assert_eq!(show(tree, &[greek.as_str()]), "error: character limit exceeded");
    // a leaf at the root is held to the limit as well
    let name = "a".repeat(255);
    assert_eq!(show(free(0), &[name.as_str()]), name);
    let name = "a".repeat(256);
    assert_eq!(show(free(0), &[name.as_str()]), "error: character limit exceeded");
}

#[test]
fn what_cannot_be_shown_is_an_internal_failure() {
    let dangling = Expr::new(bound(0, 0), space(&["x"]));
    assert_eq!(try_format(&dangling), Err(LambdaError::InternalFailure));
    let beyond = Expr::new(abstraction(vec![(0, 0)], vec![bound(0, 1)]), space(&["x"]));
    assert_eq!(try_format(&beyond), Err(LambdaError::InternalFailure));
    let outside = Expr::new(abstraction(vec![(0, 0)], vec![bound(1, 0)]), space(&["x"]));
    assert_eq!(try_format(&outside), Err(LambdaError::InternalFailure));
    let unnamed = Expr::new(free(3), space(&["x"]));
    assert_eq!(try_format(&unnamed), Err(LambdaError::InternalFailure));
    let unbound = Expr::new(abstraction(vec![(4, 0)], vec![]), space(&["x"]));
    assert_eq!(try_format(&unbound), Err(LambdaError::InternalFailure));
    let fine = Expr::new(abstraction(vec![(0, 0)], vec![bound(0, 0)]), space(&["x"]));
    assert_eq!(try_format(&fine), Ok("λx.x".to_string()));
}

#[test]
fn the_printer_leaves_its_state_as_it_found_it() {
    let mut p = Printer { active_copies: vec![0, 0], local_ids: Vec::new() };
    let registry = space(&["x", "a"]);
    let tree = abstraction(vec![(0, 0)], vec![bound(0, 0), free(1)]);
    assert_eq!(p.string_this(&tree, &registry, false), Ok("(λx.(x a))".to_string()));
    assert_eq!(p.active_copies, vec![0, 0]);
    assert!(p.local_ids.is_empty());
    assert_eq!(p.string_this(&tree, &registry, true), Ok("λx.(x a)".to_string()));
}

#[test]
fn a_failed_rendering_leaves_the_printer_as_it_was() {
    let mut p = Printer { active_copies: vec![0, 0], local_ids: Vec::new() };
    let registry = space(&["x", "a"]);
    let tree = abstraction(
        vec![(0, 0)],
        vec![bound(0, 0), abstraction(vec![(1, 0)], vec![bound(0, 0), bound(5, 0)])],
    );
    assert_eq!(p.string_this(&tree, &registry, true), Err(LambdaError::InternalFailure));
    assert_eq!(p.active_copies, vec![0, 0]);
    assert!(p.local_ids.is_empty());
    let unnamed = abstraction(vec![(0, 0), (9, 0)], vec![]);
    assert_eq!(p.string_this(&unnamed, &registry, true), Err(LambdaError::InternalFailure));
    assert_eq!(p.active_copies, vec![0, 0]);
    assert!(p.local_ids.is_empty());
}
