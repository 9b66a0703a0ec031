//! Analysis: from text to tokens.

use vstd::prelude::*;

use crate::error::LaurusError;

verus! {

/// A token of a text.
#[derive(Debug, PartialEq, Eq)]
pub struct Token {
    pub text: String,
    /// The position of the token in the text, counted in tokens.
    pub position: usize,
    /// Where the token starts and ends in the text, in bytes.
    pub start_offset: usize,
    pub end_offset: usize,
}

/// What a token holds.
pub struct TokenView {
    pub text: Seq<char>,
    pub position: usize,
    pub start_offset: usize,
    pub end_offset: usize,
}

impl View for Token {
    type V = TokenView;

    open spec fn view(&self) -> TokenView {
        TokenView {
            text: self.text@,
            position: self.position,
            start_offset: self.start_offset,
            end_offset: self.end_offset,
        }
    }
}

/// What each token holds.
pub open spec fn token_views(s: Seq<Token>) -> Seq<TokenView> {
    s.map_values(|t: Token| t@)
}

/// The characters of a name or a text.
pub type Characters = Seq<char>;

/// The tokens of a text, or why there are none.
pub type Tokens = Result<Seq<TokenView>, LaurusError>;

/// An analyzer: it divides the text of a field into tokens, the same text always
/// into the same tokens.
pub trait Analyzer {
    /// The tokens of a text, or why there are none.
    spec fn tokens(&self, field: Characters, text: Characters) -> Tokens;

    /// Divides `text`, which is a value of `field`.
    fn analyze_field(&self, field: &str, text: &str) -> (r: Result<Vec<Token>, LaurusError>)
        ensures
            match r {
                Ok(v) => self.tokens(field@, text@) == Ok::<Seq<TokenView>, LaurusError>(
                    token_views(v@),
                ),
                Err(e) => self.tokens(field@, text@) == Err::<Seq<TokenView>, LaurusError>(e),
            },
    ;
}

} // verus!
