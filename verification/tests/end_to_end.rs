use lambda_calculator::errors::LambdaError;
use lambda_calculator::parser::Parser;
use lambda_calculator::{simplify, solve};

fn run(text: &str) -> String {
    simplify(text.to_string(), &Parser::new())
}

fn arithmetic() -> Parser {
    let mut p = Parser::new();
    assert_eq!(
        p.create_keyword("double".to_string(), "λf.λx. f (f x)".to_string()),
        "λf.λx. f (f x)"
    );
    assert_eq!(
        p.create_keyword("+".to_string(), "λm.λn.λf.λx. m f (n f x)".to_string()),
        "λm.λn.λf.λx. m f (n f x)"
    );
    p
}

#[test]
fn identity_applied_to_a_free_variable() {
    assert_eq!(run("(λx.x) a"), "a");
}

#[test]
fn numeral_zero() {
    assert_eq!(run("0"), "λf.λx.x");
}

#[test]
fn numeral_one() {
    assert_eq!(run("1"), "λf.λx.(f x)");
}

#[test]
fn numeral_three() {
    assert_eq!(run("3"), "λf.λx.(f (f (f x)))");
}

#[test]
fn empty_input_gives_empty_output() {
    assert_eq!(run(""), "");
}

#[test]
fn blank_input_is_not_empty_input() {
    assert_eq!(run("   "), "internal error: an unforeseen error has occurred");
}

#[test]
fn rebinding_an_open_parameter_is_a_naming_error() {
    assert_eq!(
        run("(λx x. x)"),
        "naming error: \"x\" cannot be assigned multiple times in the same function"
    );
    assert_eq!(
        run("(λx.λx.x)"),
        "naming error: \"x\" cannot be assigned multiple times in the same function"
    );
}

#[test]
fn a_closed_parameter_is_not_a_free_variable() {
    assert_eq!(
        run("(λx.x) x"),
        "naming error: \"x\" has already been used as a function variable, so it cannot be used as a free term"
    );
    assert_eq!(
        solve("(λx.λy.x y) y".to_string(), &Parser::new()),
        Err(LambdaError::UnavailableName("y".to_string()))
    );
}

#[test]
fn self_application_is_cut_off() {
    assert_eq!(
        run("(λx.x x)(λx.x x)"),
        "internal error: expression reached the maximum size limit"
    );
    assert_eq!(
        solve("(λx.x x)(λx.x x)".to_string(), &Parser::new()),
        Err(LambdaError::ExpressionSizeLimit)
    );
}

#[test]
fn self_application_that_grows_is_cut_off() {
    assert_eq!(
        solve("(λx.x x x)(λx.x x x)".to_string(), &Parser::new()),
        Err(LambdaError::ExpressionSizeLimit)
    );
}

#[test]
fn church_addition() {
    assert_eq!(
        run("(λm.λn.λf.λx. m f (n f x)) 2 3"),
        "λf.λx.(f (f (f (f (f x)))))"
    );
    assert_eq!(run("5"), "λf.λx.(f (f (f (f (f x)))))");
    assert_eq!(simplify("+ 2 3".to_string(), &arithmetic()), run("5"));
}

#[test]
fn church_exponentiation() {
    assert_eq!(
        run("2 3"),
        "λx.(λx_1.(x (x (x (x (x (x (x (x (x x_1))))))))))"
    );
}

#[test]
fn a_keyword_expanded_twice_keeps_its_names_apart() {
    let p = arithmetic();
    assert_eq!(simplify("double f x".to_string(), &p), "f (f x)");
    assert_eq!(
        simplify("double g (double g y)".to_string(), &p),
        "g (g (g (g y)))"
    );
    assert_eq!(
        simplify("double double".to_string(), &p),
        "λx.(λx_1.(x (x (x (x x_1)))))"
    );
    assert_eq!(simplify("(λf.double f x) g".to_string(), &p), "g (g x)");
}

#[test]
fn a_free_variable_of_two_keywords_is_one_variable() {
    let mut p = Parser::new();
    assert_eq!(p.create_keyword("first".to_string(), "λx. x y".to_string()), "λx. x y");
    assert_eq!(p.create_keyword("second".to_string(), "λz. z y".to_string()), "λz. z y");
    assert_eq!(simplify("first second".to_string(), &p), "y y");
    assert_eq!(simplify("first y".to_string(), &p), "y y");
    assert_eq!(simplify("first".to_string(), &p), "λx.(x y)");
}

#[test]
fn nested_parameters_of_one_spelling_get_suffixes() {
    assert_eq!(
        run("(λf.λx.f (f x)) (λf.λx.f (f x))"),
        "λx.(λx_1.(x (x (x (x x_1)))))"
    );
}

#[test]
fn groups_and_applications() {
    assert_eq!(run("a"), "a");
    assert_eq!(run("((a))"), "a");
    assert_eq!(run("a b"), "a b");
    assert_eq!(run("(a b) c"), "a b c");
    assert_eq!(run("a (b c)"), "a (b c)");
    assert_eq!(run("()"), "");
    assert_eq!(run("a ()"), "a ()");
    assert_eq!(run("λx."), "λx");
    assert_eq!(run("(λx.λy.y x) a b"), "b a");
    assert_eq!(run("(λx.(λy.y) x)"), "λx.x");
    assert_eq!(run("λa b.a"), "λa.λb.a");
    assert_eq!(run("(λa b.a) c"), "λb.c");
}

#[test]
fn an_overlong_text_gives_way_to_the_limit_message() {
    assert_eq!(run("255"), "error: character limit exceeded");
    assert_eq!(run("62"), "error: character limit exceeded");
    let longest = run("61");
    assert_eq!(longest.len(), 253);
    assert!(longest.starts_with("λf.λx.(f (f (f "));
}

#[test]
fn syntax_errors_are_described() {
    assert_eq!(run("x."), "syntax error: unexpected '.' character");
    assert_eq!(run("λx("), "syntax error: unexpected '(' character");
    assert_eq!(run("* 2"), "syntax error: \"*\" is not a valid variable name");
    assert_eq!(run("λ(x)"), "syntax error: \"(\" is not a valid variable name");
    assert_eq!(
        run("λ"),
        "syntax error: incomplete lambda function declaration at the end of the expression"
    );
    assert_eq!(
        run(")"),
        "syntax error: closing parenthesis without matching open parenthesis"
    );
    assert_eq!(
        run("256"),
        "input error: 256 is greater than maximum integer limit (255)"
    );
    assert_eq!(
        simplify("λdouble.x".to_string(), &arithmetic()),
        "naming error: \"double\" is reserved as a keyword, so it cannot be assigned to a variable"
    );
}

#[test]
fn a_long_free_variable_is_held_to_the_limit() {
    let name = "a".repeat(255);
    assert_eq!(run(&name), name);
    let name = "a".repeat(256);
    assert_eq!(run(&name), "error: character limit exceeded");
}

#[test]
fn the_identity_written_before_a_normal_form_gives_it_back() {
    for text in ["a", "a b", "λy.y", "λy.y b", "a (λy.y b) c", "λf.λz.f (f z)", "4", "λp q.q (λr.r p)"] {
        let alone = run(text);
        let applied = run(&format!("(λi.i) {}", text));
        assert_eq!(applied, alone);
        let grouped = run(&format!("(λi.i) ({})", text));
        assert_eq!(grouped, alone);
    }
}
