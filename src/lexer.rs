//! The lexer: source text to an ordered sequence of tokens, each with the
//! line on which it began.
use vstd::prelude::*;
use crate::text::{
    bool_word, chars_between, chars_of, decimal_i32, is_whitespace, parse_bool, parse_i32,
    string_of, text_between, white_space,
};

verus! {

#[derive(Debug, PartialEq, Clone)]
pub enum Literal {
    Number(i32),
    String(String),
    Boolean(bool),
}

#[derive(Debug, PartialEq, Clone)]
#[allow(inconsistent_fields)]
pub enum Token {
    Opening { line: usize },
    Closing { line: usize },
    Literal { line: usize, v: Literal },
    Identifier { line: usize, v: String },
    Invalid { line: usize, v: String },
}

/// The model of a literal.
pub enum LiteralV {
    Number(i32),
    Str(Seq<char>),
    Boolean(bool),
}

/// The model of a token: its line and its text as a character sequence.
pub enum TokenV {
    Opening(int),
    Closing(int),
    Literal(int, LiteralV),
    Identifier(int, Seq<char>),
    Invalid(int, Seq<char>),
}

impl View for Literal {
    type V = LiteralV;

    open spec fn view(&self) -> LiteralV {
        match self {
            Literal::Number(n) => LiteralV::Number(*n),
            Literal::String(s) => LiteralV::Str(s@),
            Literal::Boolean(b) => LiteralV::Boolean(*b),
        }
    }
}

impl View for Token {
    type V = TokenV;

    open spec fn view(&self) -> TokenV {
        match self {
            Token::Opening { line } => TokenV::Opening(*line as int),
            Token::Closing { line } => TokenV::Closing(*line as int),
            Token::Literal { line, v } => TokenV::Literal(*line as int, v@),
            Token::Identifier { line, v } => TokenV::Identifier(*line as int, v@),
            Token::Invalid { line, v } => TokenV::Invalid(*line as int, v@),
        }
    }
}

pub open spec fn tokens_view(ts: Seq<Token>) -> Seq<TokenV> {
    ts.map_values(|t: Token| t@)
}

impl Literal {
    pub fn copy(&self) -> (r: Literal)
        ensures
            r@ == self@,
    {
        match self {
            Literal::Number(n) => Literal::Number(*n),
            Literal::String(s) => Literal::String(s.clone()),
            Literal::Boolean(b) => Literal::Boolean(*b),
        }
    }
}

impl Token {
    pub fn copy(&self) -> (r: Token)
        ensures
            r@ == self@,
    {
        match self {
            Token::Opening { line } => Token::Opening { line: *line },
            Token::Closing { line } => Token::Closing { line: *line },
            Token::Literal { line, v } => Token::Literal { line: *line, v: v.copy() },
            Token::Identifier { line, v } => Token::Identifier { line: *line, v: v.clone() },
            Token::Invalid { line, v } => Token::Invalid { line: *line, v: v.clone() },
        }
    }
}

/// Characters that end a word: white space, parentheses and the double quote.
pub open spec fn is_delimiter(c: char) -> bool {
    white_space(c) || c == '(' || c == ')' || c == '"'
}

/// The first position at or after `i` whose character ends a word, or the
/// length of `s` when there is none.
pub open spec fn run_end(s: Seq<char>, i: int) -> int
    decreases s.len() - i,
{
    if i >= s.len() {
        s.len() as int
    } else if is_delimiter(s[i]) {
        i
    } else {
        run_end(s, i + 1)
    }
}

pub proof fn lemma_run_end(s: Seq<char>, i: int)
    requires
        0 <= i,
    ensures
        i <= s.len() ==> i <= run_end(s, i) <= s.len(),
    decreases s.len() - i,
{
    if i < s.len() && !is_delimiter(s[i]) {
        lemma_run_end(s, i + 1);
    }
}

/// The position of the quote that closes a string whose text starts at `k`,
/// or the length of `s` when the string is not closed. A backslash escapes
/// the character after it, so an escaped quote does not close the string.
pub open spec fn string_end(s: Seq<char>, k: int) -> int
    decreases s.len() - k,
{
    if k < 0 || k >= s.len() {
        s.len() as int
    } else if s[k] == '"' {
        k
    } else if s[k] == '\\' {
        if k + 1 >= s.len() {
            s.len() as int
        } else {
            string_end(s, k + 2)
        }
    } else {
        string_end(s, k + 1)
    }
}

pub proof fn lemma_string_end(s: Seq<char>, k: int)
    requires
        0 <= k <= s.len(),
    ensures
        k <= string_end(s, k) <= s.len(),
        string_end(s, k) < s.len() ==> s[string_end(s, k)] == '"',
    decreases s.len() - k,
{
    if k < s.len() && s[k] != '"' {
        if s[k] == '\\' {
            if k + 1 < s.len() {
                lemma_string_end(s, k + 2);
            }
        } else {
            lemma_string_end(s, k + 1);
        }
    }
}

/// The number of newline characters in `s`.
pub open spec fn newlines(s: Seq<char>) -> int
    decreases s.len(),
{
    if s.len() == 0 {
        0
    } else {
        newlines(s.drop_last()) + if s.last() == '\n' {
            1int
        } else {
            0int
        }
    }
}

/// How a word is classified: an `i32` first, then a boolean, else an identifier.
pub open spec fn word_token(w: Seq<char>, line: int) -> TokenV {
    match decimal_i32(w) {
        Some(n) => TokenV::Literal(line, LiteralV::Number(n)),
        None => match bool_word(w) {
            Some(b) => TokenV::Literal(line, LiteralV::Boolean(b)),
            None => TokenV::Identifier(line, w),
        },
    }
}

/// The tokens of `s` from position `i` on, when the current line is `line`.
pub open spec fn lex_from(s: Seq<char>, i: int, line: int) -> Seq<TokenV>
    decreases s.len() - i,
{
    if i < 0 || i >= s.len() {
        seq![]
    } else {
        let c = s[i];
        if white_space(c) {
            lex_from(s, i + 1, if c == '\n' { line + 1 } else { line })
        } else if c == ')' {
            seq![TokenV::Closing(line)] + lex_from(s, i + 1, line)
        } else if c == '(' {
            seq![TokenV::Opening(line)] + lex_from(s, i + 1, line)
        } else if c == '"' {
            let j = string_end(s, i + 1);
            proof {
                lemma_string_end(s, i + 1);
            }
            if j < s.len() {
                seq![TokenV::Literal(line, LiteralV::Str(s.subrange(i, j + 1)))] + lex_from(
                    s,
                    j + 1,
                    line + newlines(s.subrange(i, j + 1)),
                )
            } else {
                seq![TokenV::Invalid(line, s.subrange(i, s.len() as int))]
            }
        } else {
            let j = run_end(s, i + 1);
            proof {
                lemma_run_end(s, i + 1);
            }
            seq![word_token(s.subrange(i, j), line)] + lex_from(s, j, line)
        }
    }
}

/// The tokens of a whole text: lines are counted from 1.
pub open spec fn lex_spec(s: Seq<char>) -> Seq<TokenV> {
    lex_from(s, 0, 1)
}

/// A run ends at the first character that ends it.
pub proof fn lemma_run_end_at(s: Seq<char>, i: int, j: int)
    requires
        0 <= i <= j <= s.len(),
        forall|k: int| i <= k < j ==> !is_delimiter(#[trigger] s[k]),
        j == s.len() || is_delimiter(s[j]),
    ensures
        run_end(s, i) == j,
    decreases j - i,
{
    if i < j {
        lemma_run_end_at(s, i + 1, j);
    }
}

/// Maximal munch: a maximal run of characters that are neither white space,
/// parentheses nor quotes, and that reads neither as an `i32` nor as a
/// boolean, lexes as exactly one identifier that holds the whole run,
/// whatever operator characters it is made of; lexing then goes on after it.
pub proof fn lemma_word_is_one_identifier(s: Seq<char>, i: int, j: int, line: int)
    requires
        0 <= i < j <= s.len(),
        forall|k: int| i <= k < j ==> !is_delimiter(#[trigger] s[k]),
        j == s.len() || is_delimiter(s[j]),
        decimal_i32(s.subrange(i, j)) is None,
        bool_word(s.subrange(i, j)) is None,
    ensures
        lex_from(s, i, line) == seq![TokenV::Identifier(line, s.subrange(i, j))] + lex_from(
            s,
            j,
            line,
        ),
{
    assert(!is_delimiter(s[i]));
    lemma_run_end_at(s, i + 1, j);
}

/// A token with its line moved by `d`.
pub open spec fn shift_line(t: TokenV, d: int) -> TokenV {
    match t {
        TokenV::Opening(l) => TokenV::Opening(l + d),
        TokenV::Closing(l) => TokenV::Closing(l + d),
        TokenV::Literal(l, v) => TokenV::Literal(l + d, v),
        TokenV::Identifier(l, v) => TokenV::Identifier(l + d, v),
        TokenV::Invalid(l, v) => TokenV::Invalid(l + d, v),
    }
}

/// Tokens with their lines moved by `d`.
pub open spec fn shift_lines(ts: Seq<TokenV>, d: int) -> Seq<TokenV> {
    ts.map_values(|t: TokenV| shift_line(t, d))
}

proof fn lemma_shift_cons(t: TokenV, ts: Seq<TokenV>, d: int)
    ensures
        shift_lines(seq![t] + ts, d) == seq![shift_line(t, d)] + shift_lines(ts, d),
{
    assert(shift_lines(seq![t] + ts, d) =~= seq![shift_line(t, d)] + shift_lines(ts, d));
}

pub proof fn lemma_newlines_concat(x: Seq<char>, y: Seq<char>)
    ensures
        newlines(x + y) == newlines(x) + newlines(y),
    decreases y.len(),
{
    if y.len() == 0 {
        assert(x + y =~= x);
    } else {
        assert((x + y).drop_last() =~= x + y.drop_last());
        lemma_newlines_concat(x, y.drop_last());
    }
}

proof fn lemma_newlines_none(x: Seq<char>)
    requires
        forall|k: int| 0 <= k < x.len() ==> x[k] != '\n',
    ensures
        newlines(x) == 0,
    decreases x.len(),
{
    if x.len() > 0 {
        lemma_newlines_none(x.drop_last());
    }
}

/// Lexing from a later line gives the same tokens, each on a line moved by
/// the same amount.
proof fn lemma_lex_shift(s: Seq<char>, k: int, line: int, d: int)
    requires
        0 <= k,
    ensures
        lex_from(s, k, line + d) == shift_lines(lex_from(s, k, line), d),
    decreases s.len() - k,
{
    if k < s.len() {
        let c = s[k];
        if white_space(c) {
            lemma_lex_shift(s, k + 1, if c == '\n' { line + 1 } else { line }, d);
            assert((if c == '\n' { line + 1 } else { line }) + d == if c == '\n' { line + d + 1 } else { line + d });
        } else if c == ')' || c == '(' {
            lemma_lex_shift(s, k + 1, line, d);
            lemma_shift_cons(lex_from(s, k, line)[0], lex_from(s, k + 1, line), d);
            assert(lex_from(s, k, line) =~= seq![lex_from(s, k, line)[0]] + lex_from(s, k + 1, line));
        } else if c == '"' {
            let j = string_end(s, k + 1);
            lemma_string_end(s, k + 1);
            if j < s.len() {
                let n = newlines(s.subrange(k, j + 1));
                lemma_lex_shift(s, j + 1, line + n, d);
                assert(line + d + n == line + n + d);
                lemma_shift_cons(TokenV::Literal(line, LiteralV::Str(s.subrange(k, j + 1))), lex_from(s, j + 1, line + n), d);
            } else {
                assert(shift_lines(lex_from(s, k, line), d) =~= lex_from(s, k, line + d));
            }
        } else {
            let j = run_end(s, k + 1);
            lemma_run_end(s, k + 1);
            lemma_lex_shift(s, j, line, d);
            let w = s.subrange(k, j);
            lemma_shift_cons(word_token(w, line), lex_from(s, j, line), d);
            assert(word_token(w, line + d) == shift_line(word_token(w, line), d));
        }
    } else {
        assert(shift_lines(lex_from(s, k, line), d) =~= seq![]);
    }
}

proof fn lemma_run_end_offset(p: Seq<char>, b: Seq<char>, k: int)
    requires
        0 <= k <= b.len(),
    ensures
        run_end(p + b, p.len() + k) == p.len() + run_end(b, k),
    decreases b.len() - k,
{
    if k < b.len() {
        assert((p + b)[p.len() + k] == b[k]);
        if !is_delimiter(b[k]) {
            lemma_run_end_offset(p, b, k + 1);
        }
    }
}

proof fn lemma_string_end_offset(p: Seq<char>, b: Seq<char>, k: int)
    requires
        0 <= k <= b.len(),
    ensures
        string_end(p + b, p.len() + k) == p.len() + string_end(b, k),
    decreases b.len() - k,
{
    if k < b.len() {
        assert((p + b)[p.len() + k] == b[k]);
        if b[k] != '"' {
            if b[k] == '\\' {
                if k + 1 < b.len() {
                    lemma_string_end_offset(p, b, k + 2);
                }
            } else {
                lemma_string_end_offset(p, b, k + 1);
            }
        }
    }
}

/// What follows a prefix lexes as it would alone.
proof fn lemma_lex_offset(p: Seq<char>, b: Seq<char>, k: int, line: int)
    requires
        0 <= k <= b.len(),
    ensures
        lex_from(p + b, p.len() + k, line) == lex_from(b, k, line),
    decreases b.len() - k,
{
    let s = p + b;
    let o = p.len() as int;
    if k < b.len() {
        let c = b[k];
        assert(s[o + k] == c);
        if white_space(c) {
            lemma_lex_offset(p, b, k + 1, if c == '\n' { line + 1 } else { line });
        } else if c == ')' || c == '(' {
            lemma_lex_offset(p, b, k + 1, line);
        } else if c == '"' {
            lemma_string_end_offset(p, b, k + 1);
            lemma_string_end(b, k + 1);
            let j = string_end(b, k + 1);
            if j < b.len() {
                assert(s.subrange(o + k, o + j + 1) =~= b.subrange(k, j + 1));
                lemma_lex_offset(p, b, j + 1, line + newlines(b.subrange(k, j + 1)));
            } else {
                assert(s.subrange(o + k, s.len() as int) =~= b.subrange(k, b.len() as int));
            }
        } else {
            lemma_run_end_offset(p, b, k + 1);
            lemma_run_end(b, k + 1);
            let j = run_end(b, k + 1);
            assert(s.subrange(o + k, o + j) =~= b.subrange(k, j));
            lemma_lex_offset(p, b, j, line);
        }
    }
}

/// Whether `a` ends where a token must end: it is empty, or its last
/// character is white space or a parenthesis.
pub open spec fn ends_at_boundary(a: Seq<char>) -> bool {
    a.len() == 0 || white_space(a.last()) || a.last() == '(' || a.last() == ')'
}

proof fn lemma_run_end_prefix(a: Seq<char>, r: Seq<char>, k: int)
    requires
        0 <= k < a.len(),
        is_delimiter(a.last()),
    ensures
        run_end(a + r, k) == run_end(a, k),
        run_end(a, k) < a.len(),
    decreases a.len() - k,
{
    assert((a + r)[k] == a[k]);
    if !is_delimiter(a[k]) {
        lemma_run_end_prefix(a, r, k + 1);
    }
}

/// A text without quotes that ends at a token boundary lexes the same with
/// anything after it, which then starts on the line it leaves.
proof fn lemma_lex_prefix(a: Seq<char>, r: Seq<char>, i: int, line: int)
    requires
        0 <= i <= a.len(),
        forall|k: int| 0 <= k < a.len() ==> a[k] != '"',
        ends_at_boundary(a),
    ensures
        lex_from(a + r, i, line) == lex_from(a, i, line) + lex_from(
            a + r,
            a.len() as int,
            line + newlines(a.subrange(i, a.len() as int)),
        ),
    decreases a.len() - i,
{
    let s = a + r;
    let n = a.len() as int;
    if i == n {
        assert(a.subrange(i, n) =~= seq![]);
        assert(lex_from(a, i, line) + lex_from(s, n, line) =~= lex_from(s, n, line));
    } else {
        let c = a[i];
        assert(s[i] == c);
        assert(a.subrange(i, n) =~= seq![c] + a.subrange(i + 1, n));
        lemma_newlines_concat(seq![c], a.subrange(i + 1, n));
        assert(seq![c].drop_last() =~= seq![]);
        assert(newlines(Seq::<char>::empty()) == 0);
        assert(newlines(seq![c]) == if c == '\n' { 1int } else { 0int });
        if white_space(c) {
            lemma_lex_prefix(a, r, i + 1, if c == '\n' { line + 1 } else { line });
        } else if c == ')' || c == '(' {
            lemma_lex_prefix(a, r, i + 1, line);
            assert(c != '\n');
            assert(lex_from(a, i, line) + lex_from(s, n, line + newlines(a.subrange(i + 1, n)))
                =~= seq![lex_from(a, i, line)[0]] + (lex_from(a, i + 1, line) + lex_from(
                s,
                n,
                line + newlines(a.subrange(i + 1, n)),
            )));
        } else {
            assert(c != '"');
            assert(i + 1 < n);
            lemma_run_end_prefix(a, r, i + 1);
            lemma_run_end(a, i + 1);
            let j = run_end(a, i + 1);
            assert(s.subrange(i, j) =~= a.subrange(i, j));
            lemma_lex_prefix(a, r, j, line);
            assert forall|k: int| 0 <= k < a.subrange(i, j).len() implies a.subrange(i, j)[k] != '\n' by {
                if k > 0 {
                    assert(!is_delimiter(a[i + k])) by {
                        lemma_run_end_before(a, i + 1, i + k);
                    }
                }
            }
            lemma_newlines_none(a.subrange(i, j));
            assert(a.subrange(i, n) =~= a.subrange(i, j) + a.subrange(j, n));
            lemma_newlines_concat(a.subrange(i, j), a.subrange(j, n));
            assert(lex_from(a, i, line) + lex_from(s, n, line + newlines(a.subrange(j, n)))
                =~= seq![word_token(a.subrange(i, j), line)] + (lex_from(a, j, line) + lex_from(
                s,
                n,
                line + newlines(a.subrange(j, n)),
            )));
        }
    }
}

proof fn lemma_run_end_before(s: Seq<char>, i: int, k: int)
    requires
        0 <= i <= k < run_end(s, i),
    ensures
        !is_delimiter(s[k]),
    decreases k - i,
{
    if i < k {
        lemma_run_end_before(s, i + 1, k);
    }
}

/// Maximal munch, anywhere in a text: a maximal run `w` of characters that
/// are neither white space, parentheses nor quotes, and that reads neither as
/// an `i32` nor as a boolean, lexes as exactly one identifier. Placed after a
/// text `a` without quotes that ends at a token boundary, and before a text
/// `b` that starts with a delimiter, the run gives one identifier on the line
/// after the newlines of `a`; `a` lexes as it does alone, and `b` as it does
/// alone with its lines moved down by those newlines.
pub proof fn lemma_word_in_text_is_one_identifier(a: Seq<char>, w: Seq<char>, b: Seq<char>)
    requires
        w.len() > 0,
        forall|k: int| 0 <= k < w.len() ==> !is_delimiter(#[trigger] w[k]),
        decimal_i32(w) is None,
        bool_word(w) is None,
        forall|k: int| 0 <= k < a.len() ==> a[k] != '"',
        ends_at_boundary(a),
        b.len() == 0 || is_delimiter(b[0]),
    ensures
        lex_spec(a + w + b) == lex_spec(a) + seq![TokenV::Identifier(1 + newlines(a), w)]
            + shift_lines(lex_spec(b), newlines(a)),
{
    let s = a + w + b;
    let n = newlines(a);
    assert(s =~= a + (w + b));
    assert(a.subrange(0, a.len() as int) =~= a);
    lemma_lex_prefix(a, w + b, 0, 1);
    let i = a.len() as int;
    let j = i + w.len();
    assert(s.subrange(i, j) =~= w);
    assert forall|k: int| i <= k < j implies !is_delimiter(#[trigger] s[k]) by {
        assert(s[k] == w[k - i]);
    }
    if b.len() > 0 {
        assert(s[j] == b[0]);
    }
    lemma_word_is_one_identifier(s, i, j, 1 + n);
    assert(s =~= (a + w) + b);
    lemma_lex_offset(a + w, b, 0, 1 + n);
    lemma_lex_shift(b, 0, 1, n);
    assert(1 + n == n + 1);
}

/// The end of the word whose rest starts at `start`: the first position
/// whose character is a delimiter, or the length of `chars`.
fn read_until(chars: &Vec<char>, start: usize) -> (end: usize)
    requires
        start <= chars.len(),
    ensures
        end == run_end(chars@, start as int),
        start <= end <= chars.len(),
{
    proof {
        lemma_run_end(chars@, start as int);
    }
    let mut i = start;
    while i < chars.len()
        invariant
            start <= i <= chars.len(),
            run_end(chars@, i as int) == run_end(chars@, start as int),
        decreases chars.len() - i,
    {
        let c = chars[i];
        if is_whitespace(c) || c == '(' || c == ')' || c == '"' {
            return i;
        }
        i += 1;
    }
    i
}

/// The position of the quote that closes a string whose text starts at
/// `start`, skipping escaped characters; the length of `chars` when the
/// string is not closed.
fn read_string(chars: &Vec<char>, start: usize) -> (end: usize)
    requires
        start <= chars.len(),
    ensures
        end == string_end(chars@, start as int),
        start <= end <= chars.len(),
{
    proof {
        lemma_string_end(chars@, start as int);
    }
    let mut i = start;
    while i < chars.len()
        invariant
            start <= i <= chars.len(),
            string_end(chars@, i as int) == string_end(chars@, start as int),
        decreases chars.len() - i,
    {
        if chars[i] == '"' {
            return i;
        }
        if chars[i] == '\\' {
            if i + 1 >= chars.len() {
                return chars.len();
            }
            i += 2;
        } else {
            i += 1;
        }
    }
    i
}

/// The number of newlines among the characters from `from` up to `to`.
fn count_newlines(chars: &Vec<char>, from: usize, to: usize) -> (n: usize)
    requires
        from <= to <= chars.len(),
    ensures
        n == newlines(chars@.subrange(from as int, to as int)),
        n <= to - from,
{
    let mut n: usize = 0;
    let mut k = from;
    assert(chars@.subrange(from as int, from as int) =~= seq![]);
    while k < to
        invariant
            from <= k <= to <= chars.len(),
            n <= k - from,
            n == newlines(chars@.subrange(from as int, k as int)),
        decreases to - k,
    {
        assert(chars@.subrange(from as int, k + 1).drop_last() =~= chars@.subrange(from as int, k as int));
        if chars[k] == '\n' {
            n += 1;
        }
        k += 1;
    }
    n
}

/// Classifies a word read by maximal munch.
fn classify(word: Vec<char>, line: usize) -> (t: Token)
    ensures
        t@ == word_token(word@, line as int),
{
    let text = string_of(word.as_slice());
    match parse_i32(text.as_str()) {
        Some(n) => Token::Literal { line, v: Literal::Number(n) },
        None => match parse_bool(word.as_slice()) {
            Some(b) => Token::Literal { line, v: Literal::Boolean(b) },
            None => Token::Identifier { line, v: text },
        },
    }
}

/// Splits source text into tokens, each with the line on which it begins;
/// every newline, in white space or inside a string, starts a new line.
/// White space separates tokens and is dropped. A string literal runs to the
/// first quote that no backslash escapes and keeps both of its quotes; one
/// that is not closed becomes an `Invalid` token holding the rest of the
/// text. Any other run of characters up to white space, a
/// parenthesis or a quote is one word: an `i32`, else `true` or `false`, else
/// an identifier.
pub fn lex(input: &str) -> (r: Vec<Token>)
    requires
        input@.len() < usize::MAX,
    ensures
        tokens_view(r@) == lex_spec(input@),
{
    let chars = chars_of(input);
    let n = chars.len();
    let mut out: Vec<Token> = Vec::new();
    let mut line: usize = 1;
    let mut i: usize = 0;
    while i < n
        invariant
            n == chars.len(),
            n < usize::MAX,
            chars@ == input@,
            i <= n,
            1 <= line <= i + 1,
            lex_spec(input@) == tokens_view(out@) + lex_from(chars@, i as int, line as int),
        decreases n - i,
    {
        let ghost before = tokens_view(out@);
        let c = chars[i];
        if is_whitespace(c) {
            if c == '\n' {
                line += 1;
            }
            i += 1;
        } else if c == ')' {
            out.push(Token::Closing { line });
            i += 1;
            assert(tokens_view(out@) =~= before + seq![TokenV::Closing(line as int)]);
            assert(lex_spec(input@) == tokens_view(out@) + lex_from(chars@, i as int, line as int));
        } else if c == '(' {
            out.push(Token::Opening { line });
            i += 1;
            assert(tokens_view(out@) =~= before + seq![TokenV::Opening(line as int)]);
            assert(lex_spec(input@) == tokens_view(out@) + lex_from(chars@, i as int, line as int));
        } else if c == '"' {
            let j = read_string(&chars, i + 1);
            if j < n {
                let text = text_between(&chars, i, j + 1);
                let t = Token::Literal { line, v: Literal::String(text) };
                out.push(t);
                line = line + count_newlines(&chars, i, j + 1);
                i = j + 1;
                assert(tokens_view(out@) =~= before + seq![t@]);
                assert(lex_spec(input@) == tokens_view(out@) + lex_from(chars@, i as int, line as int));
            } else {
                let text = text_between(&chars, i, n);
                let t = Token::Invalid { line, v: text };
                out.push(t);
                assert(tokens_view(out@) =~= before + seq![t@]);
                assert(lex_spec(input@) == tokens_view(out@) + lex_from(chars@, n as int, line as int));
                i = n;
            }
        } else {
            let j = read_until(&chars, i + 1);
            let t = classify(chars_between(&chars, i, j), line);
            out.push(t);
            i = j;
            assert(tokens_view(out@) =~= before + seq![t@]);
            assert(lex_spec(input@) == tokens_view(out@) + lex_from(chars@, i as int, line as int));
        }
    }
    assert(lex_from(chars@, i as int, line as int) =~= seq![]);
    assert(lex_spec(input@) =~= tokens_view(out@));
    out
}

} // verus!
