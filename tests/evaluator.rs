use lisp::{eval, lex, parse, SExpression};

fn run(input: &str) -> Vec<SExpression> {
    eval(parse(lex(input)).unwrap()).unwrap()
}

#[test]
fn eval_plus() {
    let r = run("(+ 1 2)");
    assert_eq!(r, vec![
        SExpression::Number(3),
    ])
}

#[test]
fn eval_plus_nested() {
    let r = run("(+ (+ 4 5) 2)");
    assert_eq!(r, vec![SExpression::Number(11)])
}

#[test]
fn eval_plus_nested2() {
    let r = run("(+ (+ 4 (+ 3 2)) 2)");
    assert_eq!(r, vec![SExpression::Number(11)])
}

#[test]
fn if_expression() {
    let r = run(r#"(if (= 1 2) "ok" "not ok")"#);
    assert_eq!(r, vec![SExpression::String("\"not ok\"".to_owned())])
}

#[test]
fn if_expression_2() {
    let r = run(r#"(if (= (+ 1 1) 2) "ok" "not ok")"#);
    assert_eq!(r, vec![SExpression::String("\"ok\"".to_owned())])
}

#[test]
fn if_expression_3() {
    let r = run(r#"(if (= (+ 1 1) 2) (+ 10 10) 0)"#);
    assert_eq!(r, vec![SExpression::Number(20)])
}

#[test]
fn comparison_neq() {
    let r = run("(!= 1 2)");
    assert_eq!(r, vec![SExpression::Boolean(true)])
}

#[test]
fn comparison_neq_nested() {
    let r = run("(!= (= 1 1) (= 4 2))");
    assert_eq!(r, vec![SExpression::Boolean(true)])
}

#[test]
fn comparison_eq() {
    let r = run("(= 1 2)");
    assert_eq!(r, vec![SExpression::Boolean(false)])
}

#[test]
fn define() {
    let r = run("(define a 2)
    (+ a 4)");
    assert_eq!(r, vec![SExpression::Void, SExpression::Number(6)])
}
#[test]
fn define_2() {
    let r = run("(define a 2)
    (define x (+ a 4))
    (if (= x 6) 12345 -1)");
    assert_eq!(r, vec![SExpression::Void, SExpression::Void, SExpression::Number(12345)])
}
