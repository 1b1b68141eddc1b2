use lisp::{lex, parse, CompilerError, SExpression};

fn text(x: &str) -> String {
    x.to_string()
}

fn compile(input: &str) -> Result<Vec<SExpression>, Vec<CompilerError>> {
    parse(lex(input))
}

#[test]
fn single_exp() {
    let input = "(+ 1 2)";
    let ast = compile(input).unwrap();
    assert_eq!(ast, vec![
        SExpression::List(vec![
            SExpression::Identifier(text("+")),
            SExpression::Number(1),
            SExpression::Number(2),
        ])
    ]);
}

#[test]
fn two_exp() {
    let input = "(+ 1 2)
    (- 3 4)";
    let ast = compile(input).unwrap();
    assert_eq!(ast, vec![
        SExpression::List(vec![
            SExpression::Identifier(text("+")),
            SExpression::Number(1),
            SExpression::Number(2),
        ]),
        SExpression::List(vec![
            SExpression::Identifier(text("-")),
            SExpression::Number(3),
            SExpression::Number(4),
        ])
    ]);
}

#[test]
fn nested_expr() {
    let input = "(+ 1 (* 2 4))";
    let ast = compile(input).unwrap();
    assert_eq!(ast, vec![
        SExpression::List(vec![
        SExpression::Identifier(text("+")),
            SExpression::Number(1),
            SExpression::List(vec![
                SExpression::Identifier(text("*")),
                SExpression::Number(2),
                SExpression::Number(4),
            ]),
        ])
    ]);   
}
