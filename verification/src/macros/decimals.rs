//! Decimal literals: literals with the suffix `d`, such as `12d`, `-1.5d` or
//! `"19.09"d`, which stand for the decimal number that their digits write.

use vstd::prelude::*;
use vstd::string::StringExecFns;

verus! {

/// A literal taken apart, as far as decimal literals care.
#[derive(Debug)]
pub enum LiteralParts {
    /// An integer literal: its digits in base ten, and its suffix.
    Int { digits: String, suffix: String },
    /// A floating point literal: its digits in base ten, and its suffix.
    Float { digits: String, suffix: String },
    /// A string literal: its value, and its suffix.
    Str { value: String, suffix: String },
    /// Any other literal: its suffix.
    Other { suffix: String },
}

/// A [`LiteralParts`] with its texts as sequences of characters.
pub enum LiteralPartsView {
    Int { digits: Seq<char>, suffix: Seq<char> },
    Float { digits: Seq<char>, suffix: Seq<char> },
    Str { value: Seq<char>, suffix: Seq<char> },
    Other { suffix: Seq<char> },
}

impl View for LiteralParts {
    type V = LiteralPartsView;

    open spec fn view(&self) -> LiteralPartsView {
        match self {
            LiteralParts::Int { digits, suffix } => LiteralPartsView::Int {
                digits: digits@,
                suffix: suffix@,
            },
            LiteralParts::Float { digits, suffix } => LiteralPartsView::Float {
                digits: digits@,
                suffix: suffix@,
            },
            LiteralParts::Str { value, suffix } => LiteralPartsView::Str {
                value: value@,
                suffix: suffix@,
            },
            LiteralParts::Other { suffix } => LiteralPartsView::Other { suffix: suffix@ },
        }
    }
}

/// `syn::parse_str::<syn::Lit>`, with `Lit::suffix`, `LitInt::base10_digits`,
/// `LitFloat::base10_digits` and `LitStr::value` to take the literal apart:
/// the parts of `text` read as one literal, or `None` where it is read as
/// none. Which lexer reads the text depends on where the process runs, so
/// nothing is claimed of the outcome.
#[verifier::external_body]
fn lex_literal(text: &str) -> (parts: Option<LiteralParts>) {
    let lit = syn::parse_str::<syn::Lit>(text).ok()?;
    let suffix = lit.suffix().to_string();
    Some(match lit {
        syn::Lit::Int(n) => LiteralParts::Int { digits: n.base10_digits().to_string(), suffix },
        syn::Lit::Float(n) => LiteralParts::Float { digits: n.base10_digits().to_string(), suffix },
        syn::Lit::Str(s) => LiteralParts::Str { value: s.value(), suffix },
        _ => LiteralParts::Other { suffix },
    })
}

/// The digits of a decimal literal: the digits of an integer or a floating
/// point literal, or the value of a string literal, whose suffix is `d`.
/// `None` for any other literal.
pub open spec fn decimal_digits(parts: LiteralPartsView) -> Option<Seq<char>> {
    match parts {
        LiteralPartsView::Int { digits, suffix } if suffix == "d"@ => Some(digits),
        LiteralPartsView::Float { digits, suffix } if suffix == "d"@ => Some(digits),
        LiteralPartsView::Str { value, suffix } if suffix == "d"@ => Some(value),
        _ => None,
    }
}

/// The expression that makes the decimal number of the given digits: the
/// digits as a string, parsed as a `Decimal`.
pub open spec fn parse_expression(digits: Seq<char>) -> Seq<char> {
    "\""@ + digits + "\".parse::<Decimal>().unwrap()"@
}

/// Whether `suffix` is the suffix of decimal literals.
fn is_decimal_suffix(suffix: &String) -> (decimal: bool)
    ensures
        decimal == (suffix@ == "d"@),
{
    let d = "d".to_owned();
    *suffix == d
}

/// The digits of a decimal literal, from its parts. See [`decimal_digits`].
pub fn digits_of(parts: LiteralParts) -> (digits: Option<String>)
    ensures
        match digits {
            Some(digits) => decimal_digits(parts@) == Some(digits@),
            None => decimal_digits(parts@) is None,
        },
{
    match parts {
        LiteralParts::Int { digits, suffix } => if is_decimal_suffix(&suffix) {
            Some(digits)
        } else {
            None
        },
        LiteralParts::Float { digits, suffix } => if is_decimal_suffix(&suffix) {
            Some(digits)
        } else {
            None
        },
        LiteralParts::Str { value, suffix } => if is_decimal_suffix(&suffix) {
            Some(value)
        } else {
            None
        },
        LiteralParts::Other { .. } => None,
    }
}

/// The digits of the decimal literal that `literal` writes, or `None` where
/// it writes none: where it is read as no literal, has another suffix than
/// `d`, or is neither a number nor a string. How `literal` is read is not the
/// library's to say: the digits are those of the parts that it was taken
/// apart into, as [`digits_of`] gives them.
pub fn maybe_decimal_number(literal: &str) -> (digits: Option<String>)
    ensures
        digits matches Some(digits) ==> exists|parts: LiteralPartsView|
            #[trigger] decimal_digits(parts) == Some(digits@),
{
    match lex_literal(literal) {
        Some(parts) => {
            let ghost taken = parts@;
            let digits = digits_of(parts);
            assert(digits matches Some(digits) ==> decimal_digits(taken) == Some(digits@));
            digits
        },
        None => None,
    }
}

/// The source text of the expression that makes the decimal number of
/// `digits`. See [`parse_expression`].
pub fn token_stream_from(digits: &str) -> (source: String)
    ensures
        source@ == parse_expression(digits@),
{
    let mut source = "\"".to_owned();
    source.append(digits);
    source.append("\".parse::<Decimal>().unwrap()");
    source
}

/// A token of the text in which decimal literals are looked for, with the
/// tokens inside it where it is a group.
#[derive(Debug)]
pub enum Tree {
    /// A literal, with the digits of the decimal number that it writes where
    /// it is a decimal literal.
    Literal(Option<String>),
    /// A group, with the tokens between its delimiters.
    Group(Vec<Tree>),
    /// Any other token.
    Other,
}

/// What becomes of a token when decimal literals are written out.
#[derive(Debug)]
pub enum Piece {
    /// The token stays as it is.
    Same,
    /// The token gives way to the tokens of this source text.
    Source(String),
    /// The token is a group and stays one, with these pieces for the tokens
    /// between its delimiters.
    Group(Vec<Piece>),
}

impl Tree {
    /// The literal that `text` writes, read for the decimal number in it.
    pub fn literal(text: &str) -> (tree: Tree)
        ensures
            tree is Literal,
    {
        Tree::Literal(maybe_decimal_number(text))
    }
}

/// `piece` is what becomes of `tree`: a decimal literal gives way to the
/// expression that parses its digits, a group keeps its delimiters around
/// what becomes of its tokens, and every other token stays.
pub open spec fn rewrites(tree: Tree, piece: Piece) -> bool
    decreases tree,
{
    match tree {
        Tree::Literal(decimal) => match decimal {
            Some(digits) => piece matches Piece::Source(source) && source@ == parse_expression(
                digits@,
            ),
            None => piece is Same,
        },
        Tree::Group(stream) => piece matches Piece::Group(pieces) && rewrites_each(
            stream@,
            pieces@,
        ),
        Tree::Other => piece is Same,
    }
}

/// Each of `pieces` is what becomes of the token of `stream` at its place.
pub open spec fn rewrites_each(stream: Seq<Tree>, pieces: Seq<Piece>) -> bool
    decreases stream,
{
    &&& pieces.len() == stream.len()
    &&& forall|i: int| 0 <= i < stream.len() ==> rewrites(#[trigger] stream[i], pieces[i])
}

/// What becomes of each token of `item` when the decimal literals in it are
/// written out, at every depth.
pub fn transform(item: &Vec<Tree>) -> (output: Vec<Piece>)
    ensures
        rewrites_each(item@, output@),
    decreases item,
{
    let mut output: Vec<Piece> = Vec::with_capacity(item.len());
    let mut i: usize = 0;
    while i < item.len()
        invariant
            i <= item.len(),
            output@.len() == i,
            forall|k: int| 0 <= k < i ==> rewrites(#[trigger] item@[k], output@[k]),
        decreases item.len() - i,
    {
        let piece = match &item[i] {
            Tree::Literal(decimal) => match decimal {
                Some(digits) => Piece::Source(token_stream_from(digits.as_str())),
                None => Piece::Same,
            },
            Tree::Group(stream) => Piece::Group(transform(stream)),
            Tree::Other => Piece::Same,
        };
        output.push(piece);
        i = i + 1;
    }
    output
}

} // verus!
