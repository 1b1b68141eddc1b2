//! A scanner for a small C-like language: punctuation, operators, numbers,
//! keywords and identifiers.
use vstd::prelude::*;
use crate::text::{
    alphabetic, chars_between, chars_of, is_alphabetic, is_whitespace, string_of, white_space,
};

verus! {

#[derive(PartialEq, Debug)]
pub enum Token {
    Opening(String),
    Closing(String),
    Operator(String),
    Keyword(String),
    Identifier(String),
    Number(String),
    Semicolon(String),
}

/// The kind of a token, in the model.
pub enum Kind {
    Opening,
    Closing,
    Operator,
    Keyword,
    Identifier,
    Number,
    Semicolon,
}

impl View for Token {
    type V = (Kind, Seq<char>);

    open spec fn view(&self) -> (Kind, Seq<char>) {
        match self {
            Token::Opening(s) => (Kind::Opening, s@),
            Token::Closing(s) => (Kind::Closing, s@),
            Token::Operator(s) => (Kind::Operator, s@),
            Token::Keyword(s) => (Kind::Keyword, s@),
            Token::Identifier(s) => (Kind::Identifier, s@),
            Token::Number(s) => (Kind::Number, s@),
            Token::Semicolon(s) => (Kind::Semicolon, s@),
        }
    }
}

pub open spec fn scan_view(ts: Seq<Token>) -> Seq<(Kind, Seq<char>)> {
    ts.map_values(|t: Token| t@)
}

/// What may continue a token: more `=`, more digits, or letters.
#[derive(Clone, Copy)]
pub enum Continue {
    Equals,
    Digits,
    Letters,
}

pub open spec fn continues(c: char, k: Continue) -> bool {
    match k {
        Continue::Equals => c == '=',
        Continue::Digits => '0' <= c <= '9',
        Continue::Letters => alphabetic(c),
    }
}

/// The end of the token that starts at `i`, when its first character is
/// taken whatever it is and the rest continue it as `k` says.
pub open spec fn word_end(s: Seq<char>, i: int, k: Continue) -> int
    decreases s.len() - i,
{
    if 0 <= i < s.len() && continues(s[i], k) {
        word_end(s, i + 1, k)
    } else {
        i
    }
}

pub proof fn lemma_word_end(s: Seq<char>, i: int, k: Continue)
    ensures
        word_end(s, i, k) >= i,
        0 <= i <= s.len() ==> word_end(s, i, k) <= s.len(),
    decreases s.len() - i,
{
    if 0 <= i < s.len() && continues(s[i], k) {
        lemma_word_end(s, i + 1, k);
    }
}

pub open spec fn is_keyword(w: Seq<char>) -> bool {
    w == seq!['i', 'f'] || w == seq!['f', 'o', 'r'] || w == seq!['l', 'e', 't']
}

/// The tokens of `s` from position `i` on.
pub open spec fn scan_from(s: Seq<char>, i: int) -> Seq<(Kind, Seq<char>)>
    decreases s.len() - i,
{
    if i < 0 || i >= s.len() {
        seq![]
    } else {
        let c = s[i];
        let one = seq![c];
        if white_space(c) {
            scan_from(s, i + 1)
        } else if c == ';' {
            seq![(Kind::Semicolon, one)] + scan_from(s, i + 1)
        } else if c == '(' || c == '{' {
            seq![(Kind::Opening, one)] + scan_from(s, i + 1)
        } else if c == ')' || c == '}' {
            seq![(Kind::Closing, one)] + scan_from(s, i + 1)
        } else if c == '+' || c == '-' || c == '/' || c == '*' {
            seq![(Kind::Operator, one)] + scan_from(s, i + 1)
        } else {
            let k = if c == '=' {
                Continue::Equals
            } else if '0' <= c <= '9' {
                Continue::Digits
            } else {
                Continue::Letters
            };
            let j = word_end(s, i + 1, k);
            proof {
                lemma_word_end(s, i + 1, k);
            }
            let w = s.subrange(i, j);
            let kind = if c == '=' {
                Kind::Operator
            } else if '0' <= c <= '9' {
                Kind::Number
            } else if is_keyword(w) {
                Kind::Keyword
            } else {
                Kind::Identifier
            };
            seq![(kind, w)] + scan_from(s, j)
        }
    }
}

/// The end of the token whose first character is at `start`.
fn read_until(chars: &Vec<char>, start: usize, k: Continue) -> (end: usize)
    requires
        start < chars.len(),
    ensures
        end == word_end(chars@, start + 1, k),
        start < end <= chars.len(),
{
    proof {
        lemma_word_end(chars@, start + 1, k);
    }
    let mut i = start + 1;
    while i < chars.len()
        invariant
            start < i <= chars.len(),
            word_end(chars@, i as int, k) == word_end(chars@, start + 1, k),
        decreases chars.len() - i,
    {
        let c = chars[i];
        let more = match k {
            Continue::Equals => c == '=',
            Continue::Digits => '0' <= c && c <= '9',
            Continue::Letters => is_alphabetic(c),
        };
        if !more {
            return i;
        }
        i += 1;
    }
    i
}

/// Whether the word is `if`, `for` or `let`.
fn keyword(w: &Vec<char>) -> (r: bool)
    ensures
        r == is_keyword(w@),
{
    let r = (w.len() == 2 && w[0] == 'i' && w[1] == 'f') || (w.len() == 3 && w[0] == 'f' && w[1] == 'o'
        && w[2] == 'r') || (w.len() == 3 && w[0] == 'l' && w[1] == 'e' && w[2] == 't');
    proof {
        if w@ == seq!['i', 'f'] {
            assert(w@[0] == 'i' && w@[1] == 'f');
        }
        if w@ == seq!['f', 'o', 'r'] {
            assert(w@[0] == 'f' && w@[1] == 'o' && w@[2] == 'r');
        }
        if w@ == seq!['l', 'e', 't'] {
            assert(w@[0] == 'l' && w@[1] == 'e' && w@[2] == 't');
        }
        if r {
            if w.len() == 2 {
                assert(w@ =~= seq!['i', 'f']);
            } else if w[0] == 'f' {
                assert(w@ =~= seq!['f', 'o', 'r']);
            } else {
                assert(w@ =~= seq!['l', 'e', 't']);
            }
        }
    }
    r
}

/// Splits source text into tokens. White space separates them and is
/// dropped. `;`, brackets and braces, and `+ - / *` are tokens of their own;
/// a run of `=` is one operator; a digit starts a number that takes the
/// digits after it; any other character starts a word that takes the letters
/// after it, a keyword when it is `if`, `for` or `let`.
pub fn lexer(input: &str) -> (r: Vec<Token>)
    ensures
        scan_view(r@) == scan_from(input@, 0),
{
    let chars = chars_of(input);
    let mut out: Vec<Token> = Vec::new();
    let mut i: usize = 0;
    assert(scan_view(out@) =~= seq![]);
    while i < chars.len()
        invariant
            chars@ == input@,
            i <= chars.len(),
            scan_from(input@, 0) == scan_view(out@) + scan_from(chars@, i as int),
        decreases chars.len() - i,
    {
        let ghost before = scan_view(out@);
        let c = chars[i];
        if is_whitespace(c) {
            i += 1;
            continue;
        }
        let end = if c == ';' || c == '(' || c == '{' || c == ')' || c == '}' || c == '+' || c == '-'
            || c == '/' || c == '*' {
            i + 1
        } else if c == '=' {
            read_until(&chars, i, Continue::Equals)
        } else if '0' <= c && c <= '9' {
            read_until(&chars, i, Continue::Digits)
        } else {
            read_until(&chars, i, Continue::Letters)
        };
        assert(chars@.subrange(i as int, i + 1) =~= seq![c]);
        let letters = chars_between(&chars, i, end);
        let word = string_of(letters.as_slice());
        let t = if c == ';' {
            Token::Semicolon(word)
        } else if c == '(' || c == '{' {
            Token::Opening(word)
        } else if c == ')' || c == '}' {
            Token::Closing(word)
        } else if c == '+' || c == '-' || c == '/' || c == '*' || c == '=' {
            Token::Operator(word)
        } else if '0' <= c && c <= '9' {
            Token::Number(word)
        } else {
            if keyword(&letters) {
                Token::Keyword(word)
            } else {
                Token::Identifier(word)
            }
        };
        let ghost tv = t@;
        out.push(t);
        assert(scan_view(out@) =~= before + seq![tv]);
        i = end;
    }
    assert(scan_from(chars@, i as int) =~= seq![]);
    assert(scan_view(out@) + seq![] =~= scan_view(out@));
    out
}

} // verus!
