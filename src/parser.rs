use vstd::prelude::*;

use crate::evaluator::{evaluate, evaluation, outcome_view};
use crate::token::{ErrorKind, Expression, Term, TokenView};
use crate::tokenizer::{tokenize, tokens_of};

verus! {

/// Reading text into a token sequence and evaluating it. A dialect of the
/// notation supplies its own reading; evaluation is the same for all.
pub trait ExpressionParser: Sized + View<V = Seq<TokenView>> {
    /// The token sequence that `input` reads as in this dialect.
    spec fn reads_as(input: Seq<char>) -> Result<Seq<TokenView>, ErrorKind>;

    fn parse(input: &str) -> (r: Result<Self, ErrorKind>)
        ensures
            match r {
                Ok(e) => Self::reads_as(input@) == Ok::<Seq<TokenView>, ErrorKind>(e@),
                Err(k) => Self::reads_as(input@) == Err::<Seq<TokenView>, ErrorKind>(k),
            },
    ;

    fn evaluate(&self) -> (r: Result<Term, ErrorKind>)
        ensures
            outcome_view(r) == evaluation(self@),
    ;
}

impl ExpressionParser for Expression {
    open spec fn reads_as(input: Seq<char>) -> Result<Seq<TokenView>, ErrorKind> {
        tokens_of(input)
    }

    fn parse(input: &str) -> (r: Result<Expression, ErrorKind>) {
        tokenize(input)
    }

    fn evaluate(&self) -> (r: Result<Term, ErrorKind>) {
        evaluate(self)
    }
}

} // verus!
