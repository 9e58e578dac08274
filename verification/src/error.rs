use crate::prover::SearchState;
use vstd::prelude::*;

verus! {

/// `String::push`: the character is appended to the end of the string.
pub assume_specification[ String::push ](s: &mut String, c: char)
    ensures
        final(s)@ == old(s)@.push(c),
;

/// Why a text is not a formula, as a mathematical value.
pub enum ParseFailure {
    InvalidExpression(char),
    EmptyExpression,
    ExpectedLeftOperand,
    ExpectedExpressionAfterNegation,
    InvalidOperator(char),
    UnmatchedParentheses(Seq<char>, usize),
}

/// Why a text is not a formula.
#[derive(Debug)]
pub enum ParserError {
    /// A character that may not occur in a formula.
    InvalidExpression(char),
    /// No formula at all.
    EmptyExpression,
    /// A binary operator with nothing before it.
    ExpectedLeftOperand,
    /// A negation sign at the very end.
    ExpectedExpressionAfterNegation,
    /// A character that is no binary operator, where one is asked for.
    InvalidOperator(char),
    /// An opening parenthesis that is never closed: the text read behind it,
    /// and how many parentheses were still open at the end.
    UnmatchedParentheses(String, usize),
}

impl View for ParserError {
    type V = ParseFailure;

    open spec fn view(&self) -> ParseFailure {
        match self {
            ParserError::InvalidExpression(c) => ParseFailure::InvalidExpression(*c),
            ParserError::EmptyExpression => ParseFailure::EmptyExpression,
            ParserError::ExpectedLeftOperand => ParseFailure::ExpectedLeftOperand,
            ParserError::ExpectedExpressionAfterNegation =>
                ParseFailure::ExpectedExpressionAfterNegation,
            ParserError::InvalidOperator(c) => ParseFailure::InvalidOperator(*c),
            ParserError::UnmatchedParentheses(text, open) => ParseFailure::UnmatchedParentheses(
                text@,
                *open,
            ),
        }
    }
}

/// Why no proof was handed out.
#[derive(Debug)]
pub enum ProofError {
    /// A formula could not be read.
    ParserError(ParserError),
    /// The search ended without a proof, in the given state.
    SearchError(SearchState),
}

impl From<ParserError> for ProofError {
    fn from(e: ParserError) -> (r: ProofError) {
        ProofError::ParserError(e)
    }
}

impl vstd::std_specs::convert::FromSpecImpl<ParserError> for ProofError {
    open spec fn obeys_from_spec() -> bool {
        true
    }

    open spec fn from_spec(e: ParserError) -> ProofError {
        ProofError::ParserError(e)
    }
}

} // verus!
