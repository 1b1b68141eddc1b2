//! Small text parser combinators: literal strings, digits, decimal
//! fractions, and the optional, sequence, scan-until and repeat combinators
//! over them. A parser matches a prefix of its input and returns that prefix.
use vstd::prelude::*;
use crate::text::{chars_of, is_ascii_digit, text_between};

verus! {

#[derive(Debug, PartialEq)]
pub struct ParserResult {
    pub res: String,
}

impl ParserResult {
    pub fn new(res: String) -> (r: ParserResult)
        ensures
            r.res == res,
    {
        ParserResult { res }
    }
}

#[derive(Debug, PartialEq)]
pub enum ParsingErr {
    NotFound,
    Error(String),
}

/// A parser, built from the combinators below.
pub enum Parser {
    /// Matches this exact text.
    Str(String),
    /// Matches one ASCII decimal digit.
    Digit,
    /// Matches digits, a point, and digits again, with at least one digit on
    /// each side.
    Float,
    /// Matches what the inner parser matches, or else the empty text.
    Maybe(Box<Parser>),
    /// Matches each parser in turn, each one where the one before stopped.
    Many(Vec<Parser>),
    /// Matches the text up to the first position where the inner parser
    /// matches; fails when that text is empty.
    Until(Box<Parser>),
    /// Matches the inner parser as often as it matches in a row; fails when
    /// it does not match at all. An empty match ends the repetition.
    While(Box<Parser>),
}

/// The number of ASCII digits that `s` starts with.
pub open spec fn leading_digits(s: Seq<char>) -> int
    decreases s.len(),
{
    if s.len() > 0 && is_ascii_digit(s[0]) {
        1 + leading_digits(s.drop_first())
    } else {
        0
    }
}

/// The length of what `Float` matches at the start of `s`.
pub open spec fn float_len(s: Seq<char>) -> Option<int> {
    let a = leading_digits(s);
    let b = leading_digits(s.subrange(a + 1, s.len() as int));
    if 0 < a < s.len() && s[a] == '.' && b > 0 {
        Some(a + 1 + b)
    } else {
        None
    }
}

/// The length of the prefix of `s` that `p` matches, or `None` when it fails.
pub open spec fn match_len(p: Parser, s: Seq<char>) -> Option<int>
    decreases p, s.len(),
{
    match p {
        Parser::Str(pat) => if pat@.len() <= s.len() && s.subrange(0, pat@.len() as int) == pat@ {
            Some(pat@.len() as int)
        } else {
            None
        },
        Parser::Digit => if s.len() > 0 && is_ascii_digit(s[0]) {
            Some(1)
        } else {
            None
        },
        Parser::Float => float_len(s),
        Parser::Maybe(q) => match match_len(*q, s) {
            Some(n) => Some(n),
            None => Some(0),
        },
        Parser::Many(ps) => many_len(ps@, 0, s, 0),
        Parser::Until(q) => {
            let n = until_len(*q, s, 0);
            if n == 0 {
                None
            } else {
                Some(n)
            }
        },
        Parser::While(q) => {
            let n = while_len(*q, s, 0);
            if n == 0 {
                None
            } else {
                Some(n)
            }
        },
    }
}

/// Where the parsers `ps[i..]`, matched one after another from position `at`
/// of `s`, stop; `None` when one of them fails.
pub open spec fn many_len(ps: Seq<Parser>, i: int, s: Seq<char>, at: int) -> Option<int>
    decreases ps, ps.len() - i,
{
    if i < 0 || i >= ps.len() || at < 0 || at > s.len() {
        Some(at)
    } else {
        match match_len(ps[i], s.subrange(at, s.len() as int)) {
            Some(n) => many_len(ps, i + 1, s, at + n),
            None => None,
        }
    }
}

/// The first position at or after `i`, before the end of `s`, where `q`
/// matches; the length of `s` when there is none.
pub open spec fn until_len(q: Parser, s: Seq<char>, i: int) -> int
    decreases q, s.len() - i + 1,
{
    if i < 0 || i >= s.len() {
        s.len() as int
    } else if match_len(q, s.subrange(i, s.len() as int)) is Some {
        i
    } else {
        until_len(q, s, i + 1)
    }
}

/// Where repeated matches of `q` from position `at` of `s` stop.
pub open spec fn while_len(q: Parser, s: Seq<char>, at: int) -> int
    decreases q, s.len() - at + 1,
{
    if at < 0 || at >= s.len() {
        at
    } else {
        match match_len(q, s.subrange(at, s.len() as int)) {
            Some(n) => if 0 < n <= s.len() - at {
                while_len(q, s, at + n)
            } else {
                at
            },
            None => at,
        }
    }
}

pub struct StringParser;

impl StringParser {
    pub fn new(s: &str) -> (p: Parser)
        ensures
            p is Str && p->Str_0@ == s@,
    {
        Parser::Str(s.to_owned())
    }
}

pub struct Maybe;

impl Maybe {
    pub fn new(p: Parser) -> (r: Parser)
        ensures
            r == Parser::Maybe(Box::new(p)),
    {
        Parser::Maybe(Box::new(p))
    }
}

pub struct Many;

impl Many {
    pub fn new(parsers: Vec<Parser>) -> (r: Parser)
        ensures
            r == Parser::Many(parsers),
    {
        Parser::Many(parsers)
    }
}

pub struct Until;

impl Until {
    pub fn new(p: Parser) -> (r: Parser)
        ensures
            r == Parser::Until(Box::new(p)),
    {
        Parser::Until(Box::new(p))
    }
}

pub struct While;

impl While {
    pub fn new(p: Parser) -> (r: Parser)
        ensures
            r == Parser::While(Box::new(p)),
    {
        Parser::While(Box::new(p))
    }
}

/// The number of ASCII digits in `s` from `from` on, before the first other
/// character.
fn count_digits(s: &Vec<char>, from: usize) -> (n: usize)
    requires
        from <= s.len(),
    ensures
        n == leading_digits(s@.subrange(from as int, s@.len() as int)),
        n <= s.len() - from,
{
    let mut i = from;
    while i < s.len() && '0' <= s[i] && s[i] <= '9'
        invariant
            from <= i <= s.len(),
            leading_digits(s@.subrange(from as int, s@.len() as int)) == (i - from) + leading_digits(
                s@.subrange(i as int, s@.len() as int),
            ),
        decreases s.len() - i,
    {
        assert(s@.subrange(i as int, s@.len() as int).drop_first() =~= s@.subrange(
            i + 1,
            s@.len() as int,
        ));
        i += 1;
    }
    i - from
}

impl Parser {
    /// The length of the prefix of `s[from..]` that this parser matches.
    fn run(&self, s: &Vec<char>, from: usize) -> (r: Option<usize>)
        requires
            from <= s.len(),
        ensures
            match r {
                Some(n) => n <= s.len() - from && match_len(*self, s@.subrange(from as int, s@.len() as int))
                    == Some(n as int),
                None => match_len(*self, s@.subrange(from as int, s@.len() as int)) is None,
            },
        decreases self,
    {
        let ghost rest = s@.subrange(from as int, s@.len() as int);
        match self {
            Parser::Str(pattern) => {
                let pat = chars_of(pattern.as_str());
                if pat.len() > s.len() - from {
                    return None;
                }
                let mut i: usize = 0;
                while i < pat.len()
                    invariant
                        pat@ == pattern@,
                        *self == Parser::Str(*pattern),
                        pat.len() <= s.len() - from,
                        rest == s@.subrange(from as int, s@.len() as int),
                        i <= pat.len(),
                        forall|k: int| 0 <= k < i ==> s@[from + k] == pat@[k],
                    decreases pat.len() - i,
                {
                    if s[from + i] != pat[i] {
                        assert(rest.subrange(0, pat@.len() as int)[i as int] != pat@[i as int]);
                        return None;
                    }
                    i += 1;
                }
                assert(rest.subrange(0, pat@.len() as int) =~= pat@);
                Some(pat.len())
            },
            Parser::Digit => {
                if from < s.len() && '0' <= s[from] && s[from] <= '9' {
                    Some(1)
                } else {
                    None
                }
            },
            Parser::Float => {
                let a = count_digits(s, from);
                if a == 0 || from + a >= s.len() || s[from + a] != '.' {
                    return None;
                }
                let b = count_digits(s, from + a + 1);
                assert(rest.subrange(a + 1, rest.len() as int) =~= s@.subrange(
                    from + a + 1,
                    s@.len() as int,
                ));
                if b == 0 {
                    None
                } else {
                    Some(a + 1 + b)
                }
            },
            Parser::Maybe(q) => {
                proof {
                    assert(decreases_to!(*self => (*self)->Maybe_0));
                }
                match q.run(s, from) {
                    Some(n) => Some(n),
                    None => Some(0),
                }
            },
            Parser::Many(ps) => {
                let mut at = from;
                let mut i: usize = 0;
                while i < ps.len()
                    invariant
                        from <= at <= s.len(),
                        i <= ps.len(),
                        *self == Parser::Many(*ps),
                        rest == s@.subrange(from as int, s@.len() as int),
                        many_len(ps@, 0, rest, 0) == many_len(ps@, i as int, rest, at - from),
                    decreases ps.len() - i,
                {
                    proof {
                        assert(decreases_to!(*ps => ps[i as int]));
                        assert(decreases_to!(*self => (*self)->Many_0));
                        assert(rest.subrange(at - from, rest.len() as int) =~= s@.subrange(
                            at as int,
                            s@.len() as int,
                        ));
                    }
                    match ps[i].run(s, at) {
                        Some(n) => {
                            at = at + n;
                        },
                        None => {
                            return None;
                        },
                    }
                    i += 1;
                }
                Some(at - from)
            },
            Parser::Until(q) => {
                let mut at = from;
                while at < s.len()
                    invariant
                        from <= at <= s.len(),
                        rest == s@.subrange(from as int, s@.len() as int),
                        until_len(**q, rest, 0) == until_len(**q, rest, at - from),
                        *self == Parser::Until(*q),
                    ensures
                        from <= at <= s.len(),
                        until_len(**q, rest, 0) == at - from,
                    decreases s.len() - at,
                {
                    proof {
                        assert(decreases_to!(*self => (*self)->Until_0));
                    }
                    assert(rest.subrange(at - from, rest.len() as int) =~= s@.subrange(
                        at as int,
                        s@.len() as int,
                    ));
                    if q.run(s, at).is_some() {
                        break;
                    }
                    at += 1;
                }
                if at == from {
                    None
                } else {
                    Some(at - from)
                }
            },
            Parser::While(q) => {
                let mut at = from;
                while at < s.len()
                    invariant
                        from <= at <= s.len(),
                        rest == s@.subrange(from as int, s@.len() as int),
                        while_len(**q, rest, 0) == while_len(**q, rest, at - from),
                        *self == Parser::While(*q),
                    ensures
                        from <= at <= s.len(),
                        while_len(**q, rest, 0) == at - from,
                    decreases s.len() - at,
                {
                    proof {
                        assert(decreases_to!(*self => (*self)->While_0));
                    }
                    assert(rest.subrange(at - from, rest.len() as int) =~= s@.subrange(
                        at as int,
                        s@.len() as int,
                    ));
                    match q.run(s, at) {
                        Some(n) => {
                            if n == 0 {
                                break;
                            }
                            at = at + n;
                        },
                        None => {
                            break;
                        },
                    }
                }
                if at == from {
                    None
                } else {
                    Some(at - from)
                }
            },
        }
    }

    /// Matches this parser at the start of `s`: the matched prefix, or
    /// `NotFound`.
    pub fn parse(&self, s: &str) -> (r: Result<ParserResult, ParsingErr>)
        ensures
            match r {
                Ok(v) => match_len(*self, s@) == Some(v.res@.len() as int) && v.res@ == s@.subrange(
                    0,
                    v.res@.len() as int,
                ),
                Err(e) => e == ParsingErr::NotFound && match_len(*self, s@) is None,
            },
    {
        let chars = chars_of(s);
        assert(chars@.subrange(0, chars@.len() as int) =~= s@);
        match self.run(&chars, 0) {
            Some(n) => Ok(ParserResult::new(text_between(&chars, 0, n))),
            None => Err(ParsingErr::NotFound),
        }
    }
}

} // verus!
