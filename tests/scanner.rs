use lisp::scanner::{lexer, Token};

#[test]
fn lex1() {
    let input = "let xd = 15 + 1;";
    let expected = vec![
        Token::Keyword("let".to_string()),
        Token::Identifier("xd".to_string()),
        Token::Operator("=".to_string()),
        Token::Number("15".to_string()),
        Token::Operator("+".to_string()),
        Token::Number("1".to_string()),
        Token::Semicolon(";".to_string()),
    ];
    assert_eq!(lexer(input), expected);
}

#[test]
fn lex2() {
    let input = "let xd=15 ==31);";
    let expected = vec![
        Token::Keyword("let".to_string()),
        Token::Identifier("xd".to_string()),
        Token::Operator("=".to_string()),
        Token::Number("15".to_string()),
        Token::Operator("==".to_string()),
        Token::Number("31".to_string()),
        Token::Closing(")".to_string()),
        Token::Semicolon(";".to_string()),
    ];
    assert_eq!(lexer(input), expected);
}

#[test]
fn scanner_words_take_letters_only() {
    assert_eq!(
        lexer("for{x_1}"),
        vec![
            Token::Keyword("for".to_string()),
            Token::Opening("{".to_string()),
            Token::Identifier("x".to_string()),
            Token::Identifier("_".to_string()),
            Token::Number("1".to_string()),
            Token::Closing("}".to_string()),
        ]
    );
    assert_eq!(lexer("  \n "), vec![]);
}
