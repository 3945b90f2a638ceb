use lambda_calculator::parser::Parser;
use lambda_calculator::simplify;

fn keywords() -> Parser {
    let mut p = Parser::new();
    for (name, body) in [
        ("twice", "λf.λx.f (f x)"),
        ("K", "λx.λy.x"),
        ("S", "λx.λy.λz.x z (y z)"),
        ("I", "λx.x"),
        ("om", "λx.x x"),
    ] {
        assert_eq!(p.create_keyword(name.to_string(), body.to_string()), body);
    }
    p
}

#[test]
fn a_corpus_of_expressions() {
    let p = keywords();
    let cases: Vec<(&str, &str)> = vec![
        ("om om", "internal error: expression reached the maximum size limit"),
        ("om (om)", "internal error: expression reached the maximum size limit"),
        ("(λx.x x x) om", "internal error: expression reached the maximum size limit"),
        ("S I I (S I I)", "internal error: expression reached the maximum size limit"),
        ("twice om a", "a a (a a)"),
        ("(λx.om x) om", "internal error: expression reached the maximum size limit"),
        ("λx.(x", "λx.x"),
        ("a)) b", "syntax error: closing parenthesis without matching open parenthesis"),
        ("λ.x", "syntax error: \".\" is not a valid variable name"),
        ("λx.λ", "syntax error: incomplete lambda function declaration at the end of the expression"),
        ("((", ""),
        ("12abc", "λx.(abc (abc (abc (abc (abc (abc (abc (abc (abc (abc (abc (abc x))))))))))))"),
        ("a.b", "syntax error: unexpected '.' character"),
        ("λx y z.z y x", "λx.λy.λz.(z y x)"),
        ("(λx y.y x) a b c", "b a c"),
        ("λx.x λy.y", "λx.(x (λy.y))"),
        ("a λx.x b", "a (λx.(x b))"),
        ("(a λx.x) b", "a (λx.x) b"),
        ("3 2", "λx.(λx_1.(x (x (x (x (x (x (x (x x_1)))))))))"),
        ("2 3 a b", "a (a (a (a (a (a (a (a (a b))))))))"),
        ("twice twice twice a b", "a (a (a (a (a (a (a (a (a (a (a (a (a (a (a (a b)))))))))))))))"),
        ("K I a b", "b"),
        ("S K K a", "a"),
        ("S (K a) (K b) c", "a b"),
        ("(λx.x) ((λy.y) a)", "a"),
        ("I I I I a", "a"),
        ("λx.I x", "λx.x"),
        ("om I", "λx.x"),
        ("om K", "λy.(λx.λy_1.x)"),
        ("om twice a b", "a (a (a (a b)))"),
        ("300", "input error: 300 is greater than maximum integer limit (255)"),
        ("0 a b", "b"),
        ("1 a", "λx.(a x)"),
        ("3 (2 a) b", "a (a (a (a (a (a b)))))"),
        ("S (λx.(λb.(λa x.(λc.c))))", "naming error: \"x\" cannot be assigned multiple times in the same function"),
        ("(S)", "λx.λy.λz.(x z (y z))"),
        ("(λy.(λz.c)) a", "λz.c"),
        ("(λa g.K) g (λz.(λz.0) z)", "naming error: \"g\" has already been used as a function variable, so it cannot be used as a free term"),
        ("(λb.(λz.(λb.y)))", "naming error: \"b\" cannot be assigned multiple times in the same function"),
        ("3", "λf.λx.(f (f (f x)))"),
        ("(((λx.c) (c c))) (λc.((λg.c c)))", "naming error: \"c\" is reserved as a keyword, so it cannot be assigned to a variable"),
        ("(λz.z) ((λy.c) (λa g.y) (λz.(λz.z)) (g))", "naming error: \"y\" has already been used as a function variable, so it cannot be used as a free term"),
        ("((y 1 (λc x.twice)) ((b)) (λc.(λa.(λz.x))))", "naming error: \"x\" has already been used as a function variable, so it cannot be used as a free term"),
        ("(λy.(a y)) (λz.(c))", "a (λz.c)"),
        ("(λz.(λc.(λg x.((λz a.c)))))", "naming error: \"z\" cannot be assigned multiple times in the same function"),
        ("((λf.((λg.c))) (λy y.(λf.y)))", "naming error: \"y\" cannot be assigned multiple times in the same function"),
        ("(3)", "λf.λx.(f (f (f x)))"),
        ("(λc.(λg.b) S)", "λc.b"),
        ("((λc.g) (λf.(λg f.x)) y y g ((λf.(λa b.b))) (b ((S c) (λf c.om) b)))", "naming error: \"g\" is reserved as a keyword, so it cannot be assigned to a variable"),
        ("(λz.((λa.y)))", "λz.(λa.y)"),
        ("(λc.((λf.z) b))", "λc.z"),
        ("((λx.3) x z)", "naming error: \"x\" has already been used as a function variable, so it cannot be used as a free term"),
        ("(λz.((λz.(λx.1 g)) (λy.(b b)) (λf.1 a)))", "naming error: \"z\" cannot be assigned multiple times in the same function"),
        ("3 (λc.y) (λx.1 ((c) (λy.g)))", "naming error: \"c\" has already been used as a function variable, so it cannot be used as a free term"),
        ("(λg.(λf.(λc.((λg.b) y))))", "naming error: \"g\" cannot be assigned multiple times in the same function"),
        ("(λc.(λg.3))", "λc.(λg.(λf.λx.(f (f (f x)))))"),
        ("(λx.S) (f ((((λa.y) c) (λy.z)) 0))", "naming error: \"y\" is reserved as a keyword, so it cannot be assigned to a variable"),
        ("((λx f.S) c)", "λf.(λx.λy.λz.(x z (y z)))"),
        ("(λz.(λx.(λf.1))) (λg.(λb c.a (z)))", "naming error: \"z\" has already been used as a function variable, so it cannot be used as a free term"),
        ("(λx.om)", "λx.(λx_1.(x_1 x_1))"),
        ("(λx.(λx.((z) g)))", "naming error: \"x\" cannot be assigned multiple times in the same function"),
        ("twice", "λf.λx.(f (f x))"),
        ("(((λa.c) ((λg.g) (a)) (λf.(λa.y))) 2)", "naming error: \"a\" has already been used as a function variable, so it cannot be used as a free term"),
        ("(λf y.(x))", "λf.λy.x"),
        ("2", "λf.λx.(f (f x))"),
        ("((b f) (λa.(z 2) 2))", "b f (λa.(z (λf.λx.(f (f x))) (λf.λx.(f (f x)))))"),
        ("(b (3 (λf.(λx.z))))", "b (λx.(λx_1.z))"),
        ("((b om) ((λz.b) (λb.c)))", "naming error: \"b\" is reserved as a keyword, so it cannot be assigned to a variable"),
        ("(((λa.z)) 3 ((y)))", "z y"),
        ("((λy.(b)))", "λy.b"),
        ("(λx.(λx.c))", "naming error: \"x\" cannot be assigned multiple times in the same function"),
        ("((λf c.(λf.twice z)))", "naming error: \"f\" cannot be assigned multiple times in the same function"),
        ("((f (((λx a.(λf.f)) ((λc.K))) (λb.(y)))))", "naming error: \"f\" is reserved as a keyword, so it cannot be assigned to a variable"),
        ("z (λc g.a)", "z (λc.λg.a)"),
        ("(a (λv1.(λv2 v3.1)))", "a (λv1.(λv2.λv3.(λf.λx.(f x))))"),
        ("(λv1.(λv2.((λv3.(λv4.v1)) (λv5 v6.(λv7 v8.(λv9.I) v6 (λv10.2))) (λv11.(λv12.v1 v12 (λv13.3))))))", "λv1.(λv2.v1)"),
        ("(λv1.(v1 c a v1 (λv2.v1) (λv3 v4.v4 v4)))", "λv1.(v1 c a v1 (λv2.v1) (λv3.λv4.(v4 v4)))"),
        ("(b b (λv1.S) (twice b a) (b c (λv2.a)))", "b b (λv1.(λx.λy.λz.(x z (y z)))) (b (b a)) (b c (λv2.a))"),
        ("(c (λv1.(λv2.((3 om))))) (λv3.(λv4 v5.0)) (λv6 v7.((λv8.(v8 (λv9.v9)))))", "c (λv1.(λv2.(λx.(x x (x x) (x x (x x)))))) (λv3.(λv4.λv5.(λf.λx.x))) (λv6.λv7.(λv8.(v8 (λv9.v9))))"),
        ("(λv1 v2.(λv3 v4.v2)) (c 3) (λv5 v6.(λv7.(λv8.(v5 v6 v8)))) (λv9.(λv10 v11.(twice v11 v9)))", "λv4.(λv5.λv6.(λv7.(λv8.(v5 v6 v8))))"),
        ("(λv1.((λv2.(a (v1))) v1 (λv3.(λv4 v5.(λv6 v7.(λv8.v8)))) ((a twice) (λv9 v10.1 b) (λv11.(λv12.v11 2)) v1)))", "λv1.(a v1 (λv3.(λv4.λv5.(λv6.λv7.(λv8.v8)))) (a (λf.λx.(f (f x))) (λv9.λv10.(λx.(b x))) (λv11.(λv12.(v11 (λf.λx.(f (f x)))))) v1))"),
        ("((λv1.v1)) (λv2.(λv3.twice)) (λv4.v4) S (λv5.c) a (λv6.(λv7 v8.v6))", "c (λv6.(λv7.λv8.v6))"),
        ("((λv1.(λv2.(λv3.v3))) (S ((2 K) (λv4.v4))) (λv5 v6.(λv7.v6)))", "λv3.v3"),
        ("(((c) (λv1.v1)) (λv2.3))", "c (λv1.v1) (λv2.(λf.λx.(f (f (f x)))))"),
        ("(λv1.(λv2.(λv3 v4.v4))) ((a) c b (λv5.v5) a) (λv6.(λv7.(v6 v6 v6))) (λv8.v8 v8) (λv9 v10.(b v10)) (b (3))", "λv10.(b v10)"),
        ("(λv1.((twice a v1) (λv2.(λv3.v1))))", "λv1.(a (a v1) (λv2.(λv3.v1)))"),
        ("(λv1.(λv2.v1 (v1 0 twice)))", "λv1.(λv2.(v1 (v1 (λf.λx.x) (λf.λx.(f (f x))))))"),
        ("((((λv1.c)) (λv2.(λv3.((twice) (λv4.a))))) (λv5.(v5 (λv6.v6 v6) 0 ((λv7.(λv8.2)) (v5 v5)))))", "c (λv5.(v5 (λv6.(v6 v6)) (λf.λx.x) (λv8.(λf.λx.(f (f x))))))"),
        ("((b ((((λv1.1) (λv2.v2) (λv3.I)) ((λv4.I))) (I))) (((λv5.(λv6 v7.(λv8.K))) b) (λv9 v10.(λv11.(λv12.(v9))))))", "b (λx.x) (λv7.(λv8.(λx.λy.x)))"),
        ("(λv1.(λv2.((λv3.twice))))", "λv1.(λv2.(λv3.(λf.λx.(f (f x)))))"),
        ("(λv1 v2.(λv3.(v3 (v2 (v3 3) ((λv4.3) (λv5.v1))))))", "λv1.λv2.(λv3.(v3 (v2 (v3 (λf.λx.(f (f (f x))))) (λf.λx.(f (f (f x)))))))"),
        ("((λv1 v2.a) (λv3.v3) (λv4 v5.(v5 v5)) (λv6.(λv7.(λv8.twice))))", "a (λv6.(λv7.(λv8.(λf.λx.(f (f x))))))"),
        ("(λv1.(λv2.(((λv3.v2) v1 S) (λv4 v5.v5) 0 b)))", "λv1.(λv2.(v2 (λx.λy.λz.(x z (y z))) (λv4.λv5.v5) (λf.λx.x) b))"),
        ("((λv1.K) a b a (λv2 v3.v3) ((λv4 v5.v5)))", "b (λv2.λv3.v3) (λv4.λv5.v5)"),
        ("(λv1.(λv2.(λv3 v4.K) (2 v1) (λv5.v2))) c", "λv2.(λx.λy.x)"),
        ("(b ((λv1.(1 (λv2.v1))) (om (0 b) c a c) (b a a (λv3.c)) c) (λv4.(λv5 v6.1)) (λv7 v8.(λv9.v7)) (λv10 v11.0) (c 0) c a c c K)", "b (c a c c) (λv4.(λv5.λv6.(λf.λx.(f x)))) (λv7.λv8.(λv9.v7)) (λv10.λv11.(λf.λx.x)) (c (λf.λx.x)) c a c c (λx.λy.x)"),
        ("(((0 c) b a (λv1.v1)) ((λv2 v3.v2) (λv4.v4)))", "b a (λv1.v1) (λv3.(λv4.v4))"),
        ("((λv1.(λv2.(λv3.((λv4.(v2 a)) v3)))) (((b (λv5 v6.v5)) (λv7.v7 v7 (twice)) S) (λv8.v8) (b ((λv9.v9) b) ((((λv10.v10) (c b)) (λv11.v11 v11)) a (λv12 v13.v12)))))", "λv2.(λv3.(v2 a))"),
        ("(λv1.v1 (λv2 v3.((((λv4.3) (S c)) ((λv5.a))))) (((λv6.(v1 v1 v6)) v1 (λv7.v7) (λv8.v8) (λv9.v9)) v1 ((((I I) c)) c)))", "λv1.(v1 (λv2.λv3.(λx.a)) (v1 v1 v1 (λv7.v7) (λv8.v8) (λv9.v9) v1 (c c)))"),
        ("(λv1 v2.(((λv3 v4.v2) (λv5.v1)) (λv6.v6) v2))", "λv1.λv2.(v2 v2)"),
        ("((λv1.(λv2.(v1))) 2 (λv3 v4.(λv5.(v3 (λv6.v6)))) (λv7 v8.(λv9.(λv10.v9)) (λv11.(λv12.c))))", "λx.(λv8.(λv10.(λv11.(λv12.c))))"),
        ("((λv1.(λv2.((λv3.c) c))) ((λv4 v5.(λv6 v7.(λv8.v5))) (λv9.v9)))", "λv2.c"),
        ("((λv1 v2.(λv3 v4.3)) (λv5 v6.v5 S) (λv7 v8.(λv9.twice)))", "λv3.λv4.(λf.λx.(f (f (f x))))"),
        ("((λv1.(v1 (λv2.v1) (λv3.2))) (λv4.(((v4 v4 a b (λv5 v6.b)) (twice (v4) (v4 v4))))))", "a a a b (λv5.λv6.b) (a (a (a a))) b (λv5.λv6.b) (λv4.(v4 v4 a b (λv5.λv6.b) (v4 (v4 (v4 v4))))) (λv3.(λf.λx.(f (f x))))"),
        ("(((λv1.(v1 v1) (v1)) om (λv2.(λv3.v3 v3 c)) ((λv4.(c v4 v4)) ((b a) (λv5.K) (λv6.v6)) ((c a))) (λv7.((λv8.1) v7 K))))", "internal error: expression reached the maximum size limit"),
    ];
    let mut wrong = 0;
    for (text, expected) in cases {
        let got = simplify(text.to_string(), &p);
        if got != expected {
            wrong += 1;
            println!("{:?}\n  got      {:?}\n  expected {:?}", text, got, expected);
        }
    }
    assert_eq!(wrong, 0);
}
