//! What the literal macros write: decimal, vector and matrix values in
//! source text, turned into the expressions that make them.
//!
//! The functions here work on tokens as plain values: a token is its kind,
//! its text, and the digits of the decimal number that it writes, if any.
//! Those digits are read once, when the token is made; what is written goes
//! by them. Taking tokens from a compiler and handing the written expression
//! back to it is left to the caller.

use vstd::prelude::*;

pub mod decimals;
pub mod matrix;
pub mod vector;

verus! {

/// The kinds of token that the macros tell apart.
#[derive(Debug, Clone, Copy, PartialEq, Eq, Structural)]
pub enum TokenKind {
    /// A literal, such as `12`, `1.5d` or `"text"`.
    Literal,
    /// A single punctuation character.
    Punct(char),
    /// Anything else: an identifier or a group.
    Other,
}

/// A token of a macro's input: its kind, its text as written, and the
/// digits of the decimal number that it writes where it is a decimal literal.
#[derive(Debug)]
pub struct Token {
    pub kind: TokenKind,
    pub text: String,
    pub decimal: Option<String>,
}

/// A [`Token`] with its texts as sequences of characters.
pub struct TokenView {
    pub kind: TokenKind,
    pub text: Seq<char>,
    pub decimal: Option<Seq<char>>,
}

impl View for Token {
    type V = TokenView;

    open spec fn view(&self) -> TokenView {
        TokenView {
            kind: self.kind,
            text: self.text@,
            decimal: match self.decimal {
                Some(digits) => Some(digits@),
                None => None,
            },
        }
    }
}

impl Token {
    /// The token of the given kind and text. A literal is read for the
    /// decimal number in it; no other token writes one.
    pub fn new(kind: TokenKind, text: String) -> (token: Token)
        ensures
            token.kind == kind,
            token.text == text,
            kind != TokenKind::Literal ==> token.decimal is None,
    {
        let decimal = match kind {
            TokenKind::Literal => decimals::maybe_decimal_number(text.as_str()),
            _ => None,
        };
        Token { kind, text, decimal }
    }
}

/// Why an input cannot be expanded: the place of the token that is not
/// expected, counted from zero, and the message for it.
#[derive(Debug)]
pub struct ExpandError {
    pub at: usize,
    pub message: String,
}

/// An [`ExpandError`] with its message as a sequence of characters.
pub struct ExpandErrorView {
    pub at: nat,
    pub message: Seq<char>,
}

impl View for ExpandError {
    type V = ExpandErrorView;

    open spec fn view(&self) -> ExpandErrorView {
        ExpandErrorView { at: self.at as nat, message: self.message@ }
    }
}

/// The views of tokens.
pub open spec fn token_views(tokens: Seq<Token>) -> Seq<TokenView> {
    Seq::new(tokens.len(), |i: int| tokens[i]@)
}

} // verus!
