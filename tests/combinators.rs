use lisp::combinators::{Many, Maybe, Parser, ParserResult, ParsingErr, StringParser, Until, While};

fn found(s: &str) -> Result<ParserResult, ParsingErr> {
    Ok(ParserResult::new(s.to_string()))
}

#[test]
fn str_parser_invalid() {
    let s = StringParser::new("hello");
    assert_eq!(s.parse("foo"), Err(ParsingErr::NotFound));
    assert_eq!(s.parse("hell"), Err(ParsingErr::NotFound));
    assert_eq!(s.parse(""), Err(ParsingErr::NotFound));
}

#[test]
fn str_parser() {
    let s = StringParser::new("hello");
    assert_eq!(s.parse("hello w"), found("hello"));
    assert_eq!(s.parse("hello"), found("hello"))
}

#[test]
fn digit_parser_invalid() {
    let d = Parser::Digit;
    assert_eq!(d.parse("foo"), Err(ParsingErr::NotFound));
    assert_eq!(d.parse("hell"), Err(ParsingErr::NotFound));
    assert_eq!(d.parse(""), Err(ParsingErr::NotFound));
}

#[test]
fn digit_parser() {
    let d = Parser::Digit;
    assert_eq!(d.parse("5"), found("5"));
    assert_eq!(d.parse("123"), found("1"));
}

#[test]
fn float_parser() {
    let p = Parser::Float;
    assert_eq!(p.parse("123.4"), found("123.4"));
    assert_eq!(p.parse("1.45a"), found("1.45"));
    assert_eq!(p.parse("5"), Err(ParsingErr::NotFound));
    assert_eq!(p.parse("123"), Err(ParsingErr::NotFound));
    assert_eq!(p.parse(".45"), Err(ParsingErr::NotFound));
    assert_eq!(p.parse("1234."), Err(ParsingErr::NotFound));
    assert_eq!(p.parse("1234.a"), Err(ParsingErr::NotFound));
}

#[test]
fn many_parser_digits() {
    let d = Many::new(vec![Parser::Digit, Parser::Digit, Parser::Digit]);
    assert_eq!(d.parse("123"), found("123"));
    assert_eq!(d.parse("1234"), found("123"));
}

#[test]
fn many_parser_combined() {
    let d = Many::new(vec![Parser::Digit, StringParser::new(" foobar "), Parser::Digit]);
    assert_eq!(d.parse("1 foobar 3"), found("1 foobar 3"));
    assert_eq!(d.parse("1 foobar 3456798 asdf"), found("1 foobar 3"));
}

#[test]
fn many_parser_combined_failed() {
    let d = Many::new(vec![Parser::Digit, StringParser::new(" foobar "), Parser::Digit]);
    assert_eq!(d.parse("1 foobar x"), Err(ParsingErr::NotFound));
    assert_eq!(d.parse("1 foobar x5"), Err(ParsingErr::NotFound));
}

#[test]
fn maybe_digit_parser() {
    let d = Maybe::new(Parser::Digit);
    assert_eq!(d.parse("1"), found("1"));
    assert_eq!(d.parse(""), found(""));
    assert_eq!(d.parse("abc"), found(""));
}

#[test]
fn maybe_str_parser() {
    let d = Maybe::new(StringParser::new("foobar"));
    assert_eq!(d.parse("1"), found(""));
    assert_eq!(d.parse(""), found(""));
    assert_eq!(d.parse("foo"), found(""));
    assert_eq!(d.parse("foobarz"), found("foobar"));
}

#[test]
fn until_char() {
    let p = Until::new(StringParser::new("*"));
    assert_eq!(p.parse("1234*"), found("1234"));
    assert_eq!(p.parse("12345asbdc*"), found("12345asbdc"));
    assert_eq!(p.parse("*foo"), Err(ParsingErr::NotFound));
    assert_eq!(p.parse("foobarz123  xxx*"), found("foobarz123  xxx"));
    assert_eq!(p.parse("foobarz123  "), found("foobarz123  "));
}

#[test]
fn until_str() {
    let p = Until::new(StringParser::new("foo"));
    assert_eq!(p.parse("1234*"), found("1234*"));
    assert_eq!(p.parse("12345asbdc*"), found("12345asbdc*"));
    assert_eq!(p.parse("foobar"), Err(ParsingErr::NotFound));
    assert_eq!(p.parse("*foo"), found("*"));
    assert_eq!(p.parse("123faa*foo"), found("123faa*"));
}

#[test]
fn until_digit() {
    let p = Until::new(Parser::Digit);
    assert_eq!(p.parse("1234*"), Err(ParsingErr::NotFound));
    assert_eq!(p.parse("12345asbdc*"), Err(ParsingErr::NotFound));
    assert_eq!(p.parse("*foo"), found("*foo"));
    assert_eq!(p.parse("foobarz123  xxx*"), found("foobarz"));
}

#[test]
fn while_digit() {
    let p = While::new(Parser::Digit);
    assert_eq!(p.parse("1234*"), found("1234"));
    assert_eq!(p.parse("12345a123"), found("12345"));
    assert_eq!(p.parse("*foo"), Err(ParsingErr::NotFound));
    assert_eq!(p.parse("foobarz123  xxx*"), Err(ParsingErr::NotFound));
}

#[test]
fn while_str() {
    let p = While::new(StringParser::new("hi"));
    assert_eq!(p.parse("hihihi4*"), found("hihihi"));
    assert_eq!(p.parse("hihihi"), found("hihihi"));
    assert_eq!(p.parse("hihih"), found("hihi"));
    assert_eq!(p.parse("hjhih"), Err(ParsingErr::NotFound));
}

#[test]
fn while_many() {
    let p = While::new(Many::new(vec![StringParser::new("hi"), StringParser::new("!"), Parser::Digit]));
    assert_eq!(p.parse("hi!1"), found("hi!1"));
    assert_eq!(p.parse("hi!1hi!2hi!3ads"), found("hi!1hi!2hi!3"));
    assert_eq!(p.parse("hi!"), Err(ParsingErr::NotFound));
}

#[test]
fn while_stops_on_empty_match() {
    let p = While::new(Maybe::new(Parser::Digit));
    assert_eq!(p.parse("12a"), found("12"));
    assert_eq!(p.parse("a"), Err(ParsingErr::NotFound));
}

#[test]
fn many_of_nothing_matches_empty() {
    assert_eq!(Many::new(vec![]).parse("abc"), found(""));
}

#[test]
fn parsers_work_on_characters() {
    assert_eq!(Until::new(StringParser::new("é")).parse("añoé"), found("año"));
}
