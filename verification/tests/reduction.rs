use lambda_calculator::builder::build;
use lambda_calculator::errors::LambdaError;
use lambda_calculator::naming::NameSpace;
use lambda_calculator::objects::{Expr, Object};
use lambda_calculator::parser::Parser;
use std::collections::{HashMap, VecDeque};

fn bound(depth: usize, queue_position: usize) -> Object {
    Object::Var { depth, queue_position }
}

fn free(name: usize) -> Object {
    Object::Term { name }
}

fn abstraction(vars: Vec<(usize, usize)>, inner: Vec<Object>) -> Object {
    Object::Func { vars: VecDeque::from(vars), inner: VecDeque::from(inner) }
}

fn names(list: &[&str]) -> Vec<String> {
    list.iter().map(|s| s.to_string()).collect()
}

fn expression(text: &str) -> Expr {
    build(Parser::new().tokenize(text.to_string(), None).unwrap()).unwrap()
}

#[test]
fn the_identity_gives_its_argument() {
    let tree = abstraction(vec![], vec![abstraction(vec![(0, 0)], vec![bound(0, 0)]), free(1)]);
    let mut expr = Expr::new(tree, NameSpace::new(names(&["x", "a"]), vec![1, 0], HashMap::new()));
    assert_eq!(expr.reduce(), Ok(()));
    assert_eq!(expr.object, free(1));
    assert_eq!(expr.name_space.get_copies(), &vec![1, 0]);
}

#[test]
fn leaves_and_empty_abstractions_stay() {
    let mut space = NameSpace::new(names(&["a"]), vec![0], HashMap::new());
    let mut leaf = free(0);
    assert_eq!(leaf.reduce(&mut space), Ok(()));
    assert_eq!(leaf, free(0));
    let mut reference = bound(3, 1);
    assert_eq!(reference.reduce(&mut space), Ok(()));
    assert_eq!(reference, bound(3, 1));
    let mut empty = abstraction(vec![(0, 0)], vec![]);
    assert_eq!(empty.reduce(&mut space), Ok(()));
    assert_eq!(empty, abstraction(vec![(0, 0)], vec![]));
}

#[test]
fn later_parameters_move_down_when_the_first_is_consumed() {
    // (λa b. b a) c  =>  λb. b c
    let tree = abstraction(
        vec![],
        vec![abstraction(vec![(0, 0), (1, 0)], vec![bound(0, 1), bound(0, 0)]), free(2)],
    );
    let mut expr =
        Expr::new(tree, NameSpace::new(names(&["a", "b", "c"]), vec![1, 1, 0], HashMap::new()));
    assert_eq!(expr.reduce(), Ok(()));
    assert_eq!(expr.object, abstraction(vec![(1, 0)], vec![bound(0, 0), free(2)]));
}

#[test]
fn an_argument_is_shifted_to_its_site() {
    // λz. (λx. λy. x) z   =>   λz. λy. z, where z is then one abstraction further out
    let tree = abstraction(
        vec![(0, 0)],
        vec![
            abstraction(vec![(1, 0)], vec![abstraction(vec![(2, 0)], vec![bound(1, 0)])]),
            bound(0, 0),
        ],
    );
    let mut expr =
        Expr::new(tree, NameSpace::new(names(&["z", "x", "y"]), vec![1, 1, 1], HashMap::new()));
    assert_eq!(expr.reduce(), Ok(()));
    assert_eq!(
        expr.object,
        abstraction(vec![(0, 0)], vec![abstraction(vec![(2, 0)], vec![bound(1, 0)])])
    );
}

#[test]
fn copies_keep_the_ids_and_the_source_gets_new_ones() {
    // (λx. x x) (λy. y)  =>  λy. y
    let tree = abstraction(
        vec![],
        vec![
            abstraction(vec![(0, 0)], vec![bound(0, 0), bound(0, 0)]),
            abstraction(vec![(1, 0)], vec![bound(0, 0)]),
        ],
    );
    let mut expr = Expr::new(tree, NameSpace::new(names(&["x", "y"]), vec![1, 1], HashMap::new()));
    assert_eq!(expr.reduce(), Ok(()));
    assert_eq!(expr.object, abstraction(vec![(1, 1)], vec![bound(0, 0)]));
    assert_eq!(expr.name_space.get_copies(), &vec![1, 4]);
}

#[test]
fn cloning_gives_the_copy_and_the_renumbered_source() {
    let tree = abstraction(vec![(0, 7)], vec![bound(0, 0), bound(1, 0), free(1)]);
    let mut copies = vec![3, 0];
    let (copy, source) = tree.cloned(&mut copies, 2, 0).unwrap();
    assert_eq!(copy, abstraction(vec![(0, 7)], vec![bound(0, 0), bound(4, 0), free(1)]));
    assert_eq!(source, abstraction(vec![(0, 3)], vec![bound(0, 0), bound(1, 0), free(1)]));
    assert_eq!(copies, vec![4, 0]);
}

#[test]
fn cloning_too_deep_is_a_size_failure() {
    let mut copies = vec![0];
    assert_eq!(free(0).cloned(&mut copies, 512, 1), Err(LambdaError::ExpressionSizeLimit));
    assert_eq!(free(0).cloned(&mut copies, 513, 0), Err(LambdaError::ExpressionSizeLimit));
    assert_eq!(free(0).cloned(&mut copies, 512, 0), Ok((free(0), free(0))));
    assert_eq!(
        bound(usize::MAX, 0).cloned(&mut copies, 0, 0),
        Err(LambdaError::ExpressionSizeLimit)
    );
}

#[test]
fn cloning_an_unregistered_parameter_is_an_internal_failure() {
    let mut copies = vec![0];
    assert_eq!(
        abstraction(vec![(5, 0)], vec![]).cloned(&mut copies, 0, 0),
        Err(LambdaError::InternalFailure)
    );
    let mut full = vec![usize::MAX];
    assert_eq!(
        abstraction(vec![(0, 0)], vec![]).cloned(&mut full, 0, 0),
        Err(LambdaError::ExpressionSizeLimit)
    );
}

#[test]
fn lowering_moves_outward_references_only() {
    let tree = abstraction(vec![(0, 0)], vec![bound(0, 0), bound(1, 0), bound(2, 1), free(3)]);
    assert_eq!(
        tree.lower(0),
        abstraction(vec![(0, 0)], vec![bound(0, 0), bound(1, 0), bound(1, 1), free(3)])
    );
    assert_eq!(bound(1, 2).lowered(), bound(0, 2));
    assert_eq!(bound(0, 2).lowered(), bound(0, 2));
    assert_eq!(bound(3, 0).lower(3), bound(3, 0));
    assert_eq!(bound(4, 0).lower(3), bound(3, 0));
}

#[test]
fn substitution_replaces_the_first_parameter() {
    let body = abstraction(vec![(1, 0)], vec![bound(1, 0), bound(1, 1), bound(0, 0), bound(2, 0)]);
    let mut copies = vec![0, 1];
    let (out, beta) = body.apply_beta(&mut copies, free(0), 0).unwrap();
    assert_eq!(
        out,
        abstraction(vec![(1, 0)], vec![free(0), bound(1, 0), bound(0, 0), bound(2, 0)])
    );
    assert_eq!(beta, free(0));
    assert_eq!(copies, vec![0, 1]);
}

#[test]
fn wrappers_at_the_head_are_taken_away() {
    let head = abstraction(
        vec![],
        vec![abstraction(vec![], vec![free(0), bound(2, 0)]), bound(1, 0), free(1)],
    );
    let mut rest = VecDeque::from(vec![free(2)]);
    let out = head.expand_closures(&mut rest);
    assert_eq!(out, free(0));
    assert_eq!(rest, VecDeque::from(vec![bound(0, 0), bound(0, 0), free(1), free(2)]));
    let mut none = VecDeque::new();
    assert_eq!(abstraction(vec![(0, 0)], vec![free(1)]).expand_closures(&mut none), abstraction(vec![(0, 0)], vec![free(1)]));
    assert_eq!(abstraction(vec![], vec![]).expand_closures(&mut none), abstraction(vec![], vec![]));
    assert!(none.is_empty());
}

#[test]
fn a_failed_reduction_leaves_the_expression_as_it_was() {
    let mut expr = expression("(λx.x x)(λx.x x)");
    let before = expr.object.duplicate();
    let counters = expr.name_space.get_copies().clone();
    assert_eq!(expr.reduce(), Err(LambdaError::ExpressionSizeLimit));
    assert_eq!(expr.object, before);
    assert_eq!(expr.name_space.get_copies(), &counters);
}

#[test]
fn the_nesting_budget_counts_the_reductions() {
    let mut copies = vec![0];
    let spine = abstraction(vec![], vec![free(0), abstraction(vec![], vec![free(0), free(0)])]);
    assert_eq!(spine.duplicate().reduce_within(&mut copies, 0), Err(LambdaError::ExpressionSizeLimit));
    assert_eq!(spine.duplicate().reduce_within(&mut copies, 1), Err(LambdaError::ExpressionSizeLimit));
    assert_eq!(spine.duplicate().reduce_within(&mut copies, 2), Ok(spine.duplicate()));
    assert_eq!(free(0).reduce_within(&mut copies, 0), Ok(free(0)));
}

#[test]
fn reducing_twice_is_reducing_once() {
    for text in [
        "(λx.x) a",
        "(λm.λn.λf.λx. m f (n f x)) 2 3",
        "2 3",
        "(λf.λx.f (f x)) (λf.λx.f (f x))",
        "a (b c) (λx.x x)",
        "(λx.λy.y x) a",
        "λx.x (λy.y x)",
        "7",
    ] {
        let mut expr = expression(text);
        assert_eq!(expr.reduce(), Ok(()));
        let once = expr.object.duplicate();
        let counters = expr.name_space.get_copies().clone();
        let shown = lambda_calculator::printer::format(&expr);
        assert_eq!(expr.reduce(), Ok(()));
        assert_eq!(expr.object, once);
        assert_eq!(expr.name_space.get_copies(), &counters);
        assert_eq!(lambda_calculator::printer::format(&expr), shown);
    }
}

#[test]
fn the_identity_applied_to_a_closed_normal_form_gives_it_back() {
    for text in ["λf.λx.f (f x)", "a", "a b", "a (λy.y b)", "λx.x (λy.y x) c", "4"] {
        let mut normal = expression(text);
        assert_eq!(normal.reduce(), Ok(()));
        let width = normal.name_space.len();
        let mut listed: Vec<String> = (0..width).map(|i| normal.name_space.name(i).clone()).collect();
        listed.push("i".to_string());
        let mut counters = normal.name_space.get_copies().clone();
        counters.push(1);
        let applied = abstraction(
            vec![],
            vec![abstraction(vec![(width, 0)], vec![bound(0, 0)]), normal.object.duplicate()],
        );
        let mut expr = Expr::new(applied, NameSpace::new(listed, counters, HashMap::new()));
        assert_eq!(expr.reduce(), Ok(()));
        assert_eq!(expr.object, normal.object);
    }
}
