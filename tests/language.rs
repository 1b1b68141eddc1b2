use lisp::evaluator::Session;
use lisp::{eval, lex, parse, CompilerError, Literal, SExpression, Token};

fn id(x: &str) -> SExpression {
    SExpression::Identifier(x.to_string())
}

fn run_program(input: &str) -> Result<Vec<SExpression>, CompilerError> {
    eval(parse(lex(input)).unwrap())
}

#[test]
fn one_plus_two_is_three() {
    assert_eq!(run_program("(+ 1 2)"), Ok(vec![SExpression::Number(3)]));
}

#[test]
fn nested_sums() {
    assert_eq!(run_program("(+ (+ 4 5) 2)"), Ok(vec![SExpression::Number(11)]));
    assert_eq!(run_program("(+ (+ 4 (+ 3 2)) 2)"), Ok(vec![SExpression::Number(11)]));
}

#[test]
fn sum_of_nothing_is_zero() {
    assert_eq!(run_program("(+)"), Ok(vec![SExpression::Number(0)]));
}

#[test]
fn sum_wraps_around() {
    assert_eq!(run_program("(+ 2147483647 1)"), Ok(vec![SExpression::Number(-2147483648)]));
}

#[test]
fn if_takes_else_branch() {
    assert_eq!(run_program("(if (= 1 2) (+ 1 1) (+ 2 2))"), Ok(vec![SExpression::Number(4)]));
}

#[test]
fn if_never_evaluates_unselected_branch() {
    assert_eq!(run_program("(if (= 1 2) (foo 1 2) (+ 2 2))"), Ok(vec![SExpression::Number(4)]));
    assert_eq!(run_program("(if (= 1 1) 7 (foo))"), Ok(vec![SExpression::Number(7)]));
    assert_eq!(
        run_program("(if (= 1 1) 7 (define a 5)) (+ a 1)"),
        Err(CompilerError::UnknownSymbol("a".to_string()))
    );
}

#[test]
fn equality_and_inequality() {
    assert_eq!(run_program("(= 1 2)"), Ok(vec![SExpression::Boolean(false)]));
    assert_eq!(run_program("(!= 1 2)"), Ok(vec![SExpression::Boolean(true)]));
    assert_eq!(run_program("(= \"ab\" \"ab\")"), Ok(vec![SExpression::Boolean(true)]));
    assert_eq!(run_program("(= true false)"), Ok(vec![SExpression::Boolean(false)]));
}

#[test]
fn define_then_use() {
    assert_eq!(
        run_program("(define a 2) (+ a 4)"),
        Ok(vec![SExpression::Void, SExpression::Number(6)])
    );
}

#[test]
fn redefinition_overwrites() {
    assert_eq!(
        run_program("(define a 2) (define a 9) (+ a 1)"),
        Ok(vec![SExpression::Void, SExpression::Void, SExpression::Number(10)])
    );
}

#[test]
fn unknown_head_symbol() {
    assert_eq!(run_program("(foo 1 2)"), Err(CompilerError::UnknownSymbol("foo".to_string())));
}

#[test]
fn bound_name_as_head_is_unknown_symbol() {
    assert_eq!(
        run_program("(define a 2) (a 1)"),
        Err(CompilerError::UnknownSymbol("a".to_string()))
    );
}

#[test]
fn unbound_identifier() {
    assert_eq!(run_program("(+ x 1)"), Err(CompilerError::UnknownSymbol("x".to_string())));
}

#[test]
fn if_with_wrong_arity() {
    assert_eq!(
        run_program("(if 1 2)"),
        Err(CompilerError::InvalidList(SExpression::List(vec![
            id("if"),
            SExpression::Number(1),
            SExpression::Number(2),
        ])))
    );
}

#[test]
fn if_condition_must_be_boolean() {
    assert_eq!(
        run_program("(if 1 2 3)"),
        Err(CompilerError::InvalidList(SExpression::Number(1)))
    );
}

#[test]
fn sum_of_non_number() {
    assert_eq!(
        run_program("(+ 1 true)"),
        Err(CompilerError::InvalidList(SExpression::Boolean(true)))
    );
}

#[test]
fn comparing_different_kinds() {
    assert_eq!(
        run_program("(= 1 true)"),
        Err(CompilerError::InvalidList(SExpression::List(vec![
            id("="),
            SExpression::Number(1),
            SExpression::Boolean(true),
        ])))
    );
    assert_eq!(
        run_program("(!= 1)"),
        Err(CompilerError::InvalidList(SExpression::List(vec![id("!="), SExpression::Number(1)])))
    );
}

#[test]
fn define_needs_a_name() {
    assert_eq!(
        run_program("(define 1 2)"),
        Err(CompilerError::InvalidList(SExpression::List(vec![
            id("define"),
            SExpression::Number(1),
            SExpression::Number(2),
        ])))
    );
}

#[test]
fn literal_head_is_not_callable() {
    assert_eq!(
        run_program("(1 2)"),
        Err(CompilerError::InvalidList(SExpression::List(vec![
            SExpression::Number(1),
            SExpression::Number(2),
        ])))
    );
}

#[test]
fn empty_list_is_void() {
    assert_eq!(run_program("()"), Ok(vec![SExpression::Void]));
}

#[test]
fn list_head_discards_the_rest() {
    assert_eq!(run_program("((+ 1 2) 5 (foo))"), Ok(vec![SExpression::Number(3)]));
}

#[test]
fn first_error_ends_the_run() {
    assert_eq!(
        run_program("(define a 1) (foo) (define b 2)"),
        Err(CompilerError::UnknownSymbol("foo".to_string()))
    );
}

#[test]
fn unterminated_string_surfaces_in_parser() {
    assert_eq!(
        parse(lex("(define x \"unterminated")),
        Err(vec![CompilerError::InvalidToken(Token::Invalid {
            line: 1,
            v: "\"unterminated".to_string()
        })])
    );
    assert_eq!(
        parse(lex("(define a 1)\n(define x \"unterminated")),
        Err(vec![CompilerError::InvalidToken(Token::Invalid {
            line: 2,
            v: "\"unterminated".to_string()
        })])
    );
}

#[test]
fn unterminated_list_is_an_error() {
    assert_eq!(
        parse(lex("(+ 1 2")),
        Err(vec![CompilerError::IncompleteExpression(Token::Opening { line: 1 })])
    );
    assert_eq!(
        parse(lex("(+ 1\n (+ 2 3")),
        Err(vec![CompilerError::IncompleteExpression(Token::Opening { line: 2 })])
    );
}

#[test]
fn top_level_atoms_are_rejected() {
    assert_eq!(
        parse(lex("42")),
        Err(vec![CompilerError::InvalidToken(Token::Literal { line: 1, v: Literal::Number(42) })])
    );
    assert_eq!(
        parse(lex("(+ 1 2))")),
        Err(vec![CompilerError::InvalidToken(Token::Closing { line: 1 })])
    );
}

#[test]
fn empty_input() {
    assert_eq!(lex(""), vec![]);
    assert_eq!(parse(vec![]), Ok(vec![]));
    assert_eq!(eval(vec![]), Ok(vec![]));
}

#[test]
fn glued_operators_are_one_identifier() {
    assert_eq!(
        lex("a+b-c*<=>"),
        vec![Token::Identifier { line: 1, v: "a+b-c*<=>".to_string() }]
    );
    assert_eq!(
        lex("(<=>=x)"),
        vec![
            Token::Opening { line: 1 },
            Token::Identifier { line: 1, v: "<=>=x".to_string() },
            Token::Closing { line: 1 },
        ]
    );
}

#[test]
fn signed_numbers_and_out_of_range() {
    assert_eq!(
        lex("-12 +7 2147483648 - truex"),
        vec![
            Token::Literal { line: 1, v: Literal::Number(-12) },
            Token::Literal { line: 1, v: Literal::Number(7) },
            Token::Identifier { line: 1, v: "2147483648".to_string() },
            Token::Identifier { line: 1, v: "-".to_string() },
            Token::Identifier { line: 1, v: "truex".to_string() },
        ]
    );
}

#[test]
fn word_stops_at_quote() {
    assert_eq!(
        lex("ab\"c\""),
        vec![
            Token::Identifier { line: 1, v: "ab".to_string() },
            Token::Literal { line: 1, v: Literal::String("\"c\"".to_string()) },
        ]
    );
}

#[test]
fn session_keeps_definitions_between_runs() {
    let mut session = Session::new();
    assert_eq!(session.run(parse(lex("(define a 2)")).unwrap()), Ok(vec![SExpression::Void]));
    assert_eq!(session.run(parse(lex("(+ a 1)")).unwrap()), Ok(vec![SExpression::Number(3)]));
    assert_eq!(
        session.run(parse(lex("(define b 5) (foo)")).unwrap()),
        Err(CompilerError::UnknownSymbol("foo".to_string()))
    );
    assert_eq!(session.run(parse(lex("(+ a b)")).unwrap()), Ok(vec![SExpression::Number(7)]));
}

#[test]
fn newline_inside_string_counts_for_later_lines() {
    assert_eq!(
        lex("\"a\nb\" (x"),
        vec![
            Token::Literal { line: 1, v: Literal::String("\"a\nb\"".to_string()) },
            Token::Opening { line: 2 },
            Token::Identifier { line: 2, v: "x".to_string() },
        ]
    );
    assert_eq!(
        lex("\"\n\"("),
        vec![
            Token::Literal { line: 1, v: Literal::String("\"\n\"".to_string()) },
            Token::Opening { line: 2 },
        ]
    );
}

#[test]
fn escaped_quote_does_not_end_string() {
    assert_eq!(
        lex("\"a\\\"b\" c"),
        vec![
            Token::Literal { line: 1, v: Literal::String("\"a\\\"b\"".to_string()) },
            Token::Identifier { line: 1, v: "c".to_string() },
        ]
    );
    assert_eq!(
        lex("\"a\\\\\" c"),
        vec![
            Token::Literal { line: 1, v: Literal::String("\"a\\\\\"".to_string()) },
            Token::Identifier { line: 1, v: "c".to_string() },
        ]
    );
    assert_eq!(
        lex("\"a\\\""),
        vec![Token::Invalid { line: 1, v: "\"a\\\"".to_string() }]
    );
}

#[test]
fn unicode_white_space_separates_words() {
    assert_eq!(
        lex("a\u{A0}b\u{3000}c"),
        vec![
            Token::Identifier { line: 1, v: "a".to_string() },
            Token::Identifier { line: 1, v: "b".to_string() },
            Token::Identifier { line: 1, v: "c".to_string() },
        ]
    );
}

#[test]
fn glued_operators_between_other_tokens() {
    assert_eq!(
        lex("a (\n<<=>>=!!!!=\"s\")"),
        vec![
            Token::Identifier { line: 1, v: "a".to_string() },
            Token::Opening { line: 1 },
            Token::Identifier { line: 2, v: "<<=>>=!!!!=".to_string() },
            Token::Literal { line: 2, v: Literal::String("\"s\"".to_string()) },
            Token::Closing { line: 2 },
        ]
    );
}
