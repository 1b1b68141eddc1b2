//! Trees of S-expressions, the errors of a run, and their mathematical models.
use vstd::prelude::*;
use crate::lexer::{Token, TokenV};

verus! {

/// The model of an S-expression: the same shape, with text as character sequences.
pub enum Sx {
    Void,
    Number(i32),
    Boolean(bool),
    Str(Seq<char>),
    Identifier(Seq<char>),
    List(Seq<Sx>),
}

#[derive(Debug, PartialEq)]
pub enum SExpression {
    Void,
    Number(i32),
    Boolean(bool),
    String(String),
    Identifier(String),
    List(Vec<SExpression>),
}

/// The model of a tree.
pub open spec fn sx_of(e: SExpression) -> Sx
    decreases e,
{
    match e {
        SExpression::Void => Sx::Void,
        SExpression::Number(n) => Sx::Number(n),
        SExpression::Boolean(b) => Sx::Boolean(b),
        SExpression::String(s) => Sx::Str(s@),
        SExpression::Identifier(s) => Sx::Identifier(s@),
        SExpression::List(v) => Sx::List(
            Seq::new(v.len() as nat, |i: int| if 0 <= i < v.len() { sx_of(v[i]) } else { Sx::Void }),
        ),
    }
}

impl View for SExpression {
    type V = Sx;

    open spec fn view(&self) -> Sx {
        sx_of(*self)
    }
}

#[derive(Debug, PartialEq)]
pub enum CompilerError {
    InvalidToken(Token),
    IncompleteExpression(Token),
    UnexpectedEof,
    UnknownSymbol(String),
    InvalidList(SExpression),
}

/// The model of an error.
pub enum ErrorV {
    InvalidToken(TokenV),
    IncompleteExpression(TokenV),
    UnexpectedEof,
    UnknownSymbol(Seq<char>),
    InvalidList(Sx),
}

impl View for CompilerError {
    type V = ErrorV;

    open spec fn view(&self) -> ErrorV {
        match self {
            CompilerError::InvalidToken(t) => ErrorV::InvalidToken(t@),
            CompilerError::IncompleteExpression(t) => ErrorV::IncompleteExpression(t@),
            CompilerError::UnexpectedEof => ErrorV::UnexpectedEof,
            CompilerError::UnknownSymbol(s) => ErrorV::UnknownSymbol(s@),
            CompilerError::InvalidList(e) => ErrorV::InvalidList(e@),
        }
    }
}

/// The models of a sequence of trees.
pub open spec fn exprs_view(s: Seq<SExpression>) -> Seq<Sx> {
    s.map_values(|e: SExpression| e@)
}

/// A list's model is the list of its elements' models.
pub proof fn lemma_list_view(v: Vec<SExpression>)
    ensures
        SExpression::List(v)@ == Sx::List(exprs_view(v@)),
{
    assert(SExpression::List(v)@->List_0 =~= exprs_view(v@));
}

impl SExpression {
    /// A copy of the tree, node for node.
    pub fn deep_copy(&self) -> (r: SExpression)
        ensures
            r@ == self@,
        decreases self,
    {
        match self {
            SExpression::Void => SExpression::Void,
            SExpression::Number(n) => SExpression::Number(*n),
            SExpression::Boolean(b) => SExpression::Boolean(*b),
            SExpression::String(s) => SExpression::String(s.clone()),
            SExpression::Identifier(s) => SExpression::Identifier(s.clone()),
            SExpression::List(v) => {
                let mut out: Vec<SExpression> = Vec::new();
                let mut i: usize = 0;
                while i < v.len()
                    invariant
                        *self == SExpression::List(*v),
                        i <= v.len(),
                        out.len() == i,
                        forall|j: int| 0 <= j < i ==> out[j]@ == v[j]@,
                    decreases v.len() - i,
                {
                    proof {
                        assert(decreases_to!(*v => v[i as int]));
                        assert(decreases_to!(*self => (*self)->List_0));
                    }
                    out.push(v[i].deep_copy());
                    i += 1;
                }
                let r = SExpression::List(out);
                assert(r@->List_0 =~= self@->List_0);
                r
            },
        }
    }
}

} // verus!
