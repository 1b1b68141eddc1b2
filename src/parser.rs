//! The parser: tokens to a forest of S-expressions, one tree per top-level
//! parenthesised form.
use vstd::prelude::*;
use crate::ast::{exprs_view, lemma_list_view, CompilerError, ErrorV, SExpression, Sx};
use crate::lexer::{tokens_view, Literal, LiteralV, Token, TokenV};

verus! {

/// The tree that a literal token stands for.
pub open spec fn literal_sx(l: LiteralV) -> Sx {
    match l {
        LiteralV::Number(n) => Sx::Number(n),
        LiteralV::Str(s) => Sx::Str(s),
        LiteralV::Boolean(b) => Sx::Boolean(b),
    }
}

/// The elements of the list opened by `open`, read from position `pos` on,
/// after those already read into `acc`; with the position just past the
/// closing parenthesis.
pub open spec fn parse_items(toks: Seq<TokenV>, open: TokenV, pos: int, acc: Seq<Sx>) -> Result<
    (Seq<Sx>, int),
    ErrorV,
>
    decreases toks.len() - pos,
{
    if pos < 0 || pos >= toks.len() {
        Err(ErrorV::IncompleteExpression(open))
    } else {
        match toks[pos] {
            TokenV::Closing(_) => Ok((acc, pos + 1)),
            TokenV::Invalid(_, _) => Err(ErrorV::InvalidToken(toks[pos])),
            TokenV::Identifier(_, v) => parse_items(toks, open, pos + 1, acc.push(Sx::Identifier(v))),
            TokenV::Literal(_, l) => parse_items(toks, open, pos + 1, acc.push(literal_sx(l))),
            TokenV::Opening(_) => match parse_items(toks, toks[pos], pos + 1, seq![]) {
                Ok((child, k)) => if pos < k <= toks.len() {
                    parse_items(toks, open, k, acc.push(Sx::List(child)))
                } else {
                    Err(ErrorV::UnexpectedEof)
                },
                Err(e) => Err(e),
            },
        }
    }
}

/// The top-level forms from position `pos` on, after those in `acc`. Each must
/// be a parenthesised list; the first error ends the parse.
pub open spec fn parse_forms(toks: Seq<TokenV>, pos: int, acc: Seq<Sx>) -> Result<Seq<Sx>, ErrorV>
    decreases toks.len() - pos,
{
    if pos < 0 || pos >= toks.len() {
        Ok(acc)
    } else {
        match toks[pos] {
            TokenV::Opening(_) => match parse_items(toks, toks[pos], pos + 1, seq![]) {
                Ok((child, k)) => if pos < k <= toks.len() {
                    parse_forms(toks, k, acc.push(Sx::List(child)))
                } else {
                    Err(ErrorV::UnexpectedEof)
                },
                Err(e) => Err(e),
            },
            _ => Err(ErrorV::InvalidToken(toks[pos])),
        }
    }
}

/// The program that a token sequence spells, or its first error.
pub open spec fn parse_spec(toks: Seq<TokenV>) -> Result<Seq<Sx>, ErrorV> {
    parse_forms(toks, 0, seq![])
}

struct Parser {
    tokens: Vec<Token>,
}

impl Parser {
    fn new(tokens: Vec<Token>) -> (p: Parser)
        ensures
            p.tokens@ == tokens@,
    {
        Parser { tokens }
    }

    /// Reads the elements of the list opened by `open`, from `start` up to
    /// and including its closing parenthesis.
    fn parse_exp(&self, open: &Token, start: usize) -> (r: Result<(Vec<SExpression>, usize), CompilerError>)
        requires
            start <= self.tokens.len(),
        ensures
            match r {
                Ok((v, k)) => start < k <= self.tokens.len() && parse_items(
                    tokens_view(self.tokens@),
                    open@,
                    start as int,
                    seq![],
                ) == Ok::<(Seq<Sx>, int), ErrorV>((exprs_view(v@), k as int)),
                Err(e) => parse_items(tokens_view(self.tokens@), open@, start as int, seq![]) == Err::<
                    (Seq<Sx>, int),
                    ErrorV,
                >(e@),
            },
        decreases self.tokens.len() - start,
    {
        let ghost toks = tokens_view(self.tokens@);
        let mut elems: Vec<SExpression> = Vec::new();
        let mut pos = start;
        assert(exprs_view(elems@) =~= seq![]);
        while pos < self.tokens.len()
            invariant
                start <= pos <= self.tokens.len(),
                toks == tokens_view(self.tokens@),
                parse_items(toks, open@, start as int, seq![]) == parse_items(
                    toks,
                    open@,
                    pos as int,
                    exprs_view(elems@),
                ),
            decreases self.tokens.len() - pos,
        {
            let ghost acc = exprs_view(elems@);
            let tok = &self.tokens[pos];
            assert(toks[pos as int] == tok@);
            match tok {
                Token::Closing { .. } => {
                    return Ok((elems, pos + 1));
                },
                Token::Invalid { .. } => {
                    return Err(CompilerError::InvalidToken(tok.copy()));
                },
                Token::Identifier { v, .. } => {
                    elems.push(SExpression::Identifier(v.clone()));
                    assert(exprs_view(elems@) =~= acc.push(Sx::Identifier(v@)));
                    pos += 1;
                },
                Token::Literal { v, .. } => {
                    let e = match v {
                        Literal::Number(n) => SExpression::Number(*n),
                        Literal::String(s) => SExpression::String(s.clone()),
                        Literal::Boolean(b) => SExpression::Boolean(*b),
                    };
                    elems.push(e);
                    assert(exprs_view(elems@) =~= acc.push(literal_sx(v@)));
                    pos += 1;
                },
                Token::Opening { .. } => {
                    match self.parse_exp(tok, pos + 1) {
                        Ok((child, k)) => {
                            proof {
                                lemma_list_view(child);
                            }
                            elems.push(SExpression::List(child));
                            assert(exprs_view(elems@) =~= acc.push(Sx::List(exprs_view(child@))));
                            pos = k;
                        },
                        Err(e) => {
                            return Err(e);
                        },
                    }
                },
            }
        }
        Err(CompilerError::IncompleteExpression(open.copy()))
    }

    /// Reads every top-level form; stops at the first error.
    fn parse(&self) -> (r: Result<Vec<SExpression>, CompilerError>)
        ensures
            match r {
                Ok(v) => parse_spec(tokens_view(self.tokens@)) == Ok::<Seq<Sx>, ErrorV>(exprs_view(v@)),
                Err(e) => parse_spec(tokens_view(self.tokens@)) == Err::<Seq<Sx>, ErrorV>(e@),
            },
    {
        let ghost toks = tokens_view(self.tokens@);
        let mut forms: Vec<SExpression> = Vec::new();
        let mut pos: usize = 0;
        assert(exprs_view(forms@) =~= seq![]);
        while pos < self.tokens.len()
            invariant
                pos <= self.tokens.len(),
                toks == tokens_view(self.tokens@),
                parse_spec(toks) == parse_forms(toks, pos as int, exprs_view(forms@)),
            decreases self.tokens.len() - pos,
        {
            let ghost acc = exprs_view(forms@);
            let tok = &self.tokens[pos];
            assert(toks[pos as int] == tok@);
            match tok {
                Token::Opening { .. } => {
                    match self.parse_exp(tok, pos + 1) {
                        Ok((child, k)) => {
                            proof {
                                lemma_list_view(child);
                            }
                            forms.push(SExpression::List(child));
                            assert(exprs_view(forms@) =~= acc.push(Sx::List(exprs_view(child@))));
                            pos = k;
                        },
                        Err(e) => {
                            return Err(e);
                        },
                    }
                },
                _ => {
                    return Err(CompilerError::InvalidToken(tok.copy()));
                },
            }
        }
        Ok(forms)
    }
}

/// Builds the program's trees from its tokens. Every top-level form must be a
/// parenthesised list; identifiers and literals inside become atoms and
/// nested lists become nested trees. The first error ends the parse and is
/// reported alone: a top-level token that opens no list, an `Invalid` token
/// from the lexer, or a list that the input leaves open.
pub fn parse(tokens: Vec<Token>) -> (r: Result<Vec<SExpression>, Vec<CompilerError>>)
    ensures
        match r {
            Ok(v) => parse_spec(tokens_view(tokens@)) == Ok::<Seq<Sx>, ErrorV>(exprs_view(v@)),
            Err(es) => es.len() == 1 && parse_spec(tokens_view(tokens@)) == Err::<Seq<Sx>, ErrorV>(
                es[0]@,
            ),
        },
{
    let p = Parser::new(tokens);
    match p.parse() {
        Ok(v) => Ok(v),
        Err(e) => {
            let mut es: Vec<CompilerError> = Vec::new();
            es.push(e);
            Err(es)
        },
    }
}

} // verus!
