//! Tokens: named, positioned slices of source text.

use vstd::prelude::*;

verus! {

/// The mathematical value of a [`Token`]: its rule name and matched content as
/// character sequences, and its 1-based line and column.
///
/// Positions and lengths are counted in characters (Unicode code points), both
/// here and in the diagnostic rendering.
#[verifier::ext_equal]
pub struct TokenModel {
    pub name: Seq<char>,
    pub content: Seq<char>,
    pub line: int,
    pub col: int,
}

/// A token produced by a successful match: the name of the rule that matched,
/// the matched text, and the 1-based line and column of its first character.
pub struct Token {
    pub name: String,
    pub content: String,
    pub line: usize,
    pub col: usize,
}

impl View for Token {
    type V = TokenModel;

    open spec fn view(&self) -> TokenModel {
        TokenModel {
            name: self.name@,
            content: self.content@,
            line: self.line as int,
            col: self.col as int,
        }
    }
}

impl Token {
    /// Packs the four fields of a token.
    pub fn new(name: String, content: String, line: usize, col: usize) -> (r: Self)
        ensures
            r@ == (TokenModel { name: name@, content: content@, line: line as int, col: col as int }),
    {
        Self { name, content, line, col }
    }
}

/// The models of a sequence of tokens, in the same order.
pub open spec fn token_models(tokens: Seq<Token>) -> Seq<TokenModel> {
    tokens.map_values(|t: Token| t@)
}

} // verus!
