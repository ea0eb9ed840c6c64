//! The vector macro: `vector![1, 2, 3]` stands for the vector of the
//! components that are listed, each a literal, with commas between them.

use crate::macros::decimals::{parse_expression, token_stream_from};
use crate::macros::{token_views, ExpandError, ExpandErrorView, Token, TokenKind, TokenView};
use vstd::prelude::*;
use vstd::string::StringExecFns;

verus! {

/// What has been written so far, and whether the last component was a
/// literal that no comma has followed yet.
pub struct Written {
    pub text: Seq<char>,
    pub literal_seen: bool,
}

/// What a literal is written as: a decimal literal as the expression that
/// parses its digits, any other literal as it stands.
pub open spec fn written_literal(token: TokenView) -> Seq<char> {
    match token.decimal {
        Some(digits) => parse_expression(digits),
        None => token.text,
    }
}

/// What the token at the place `at` adds to what has been written. A literal
/// must not follow a literal, and a comma must follow one. Any other token is
/// written as it stands.
pub open spec fn vector_step(written: Written, token: TokenView, at: nat) -> Result<
    Written,
    ExpandErrorView,
> {
    match token.kind {
        TokenKind::Literal => if written.literal_seen {
            Err(ExpandErrorView { at, message: "unexpected literal"@ })
        } else {
            Ok(Written { text: written.text + written_literal(token), literal_seen: true })
        },
        TokenKind::Punct(c) if c == ',' => if written.literal_seen {
            Ok(Written { text: written.text + ", "@, literal_seen: false })
        } else {
            Err(ExpandErrorView { at, message: "unexpected character ','"@ })
        },
        _ => Ok(Written { text: written.text + token.text, ..written }),
    }
}

/// What the tokens write, one after the other, or the first error.
pub open spec fn vector_written(tokens: Seq<TokenView>) -> Result<Written, ExpandErrorView>
    decreases tokens.len(),
{
    if tokens.len() == 0 {
        Ok(Written { text: "Vector::from(vec!["@, literal_seen: false })
    } else {
        match vector_written(tokens.drop_last()) {
            Ok(written) => vector_step(written, tokens.last(), (tokens.len() - 1) as nat),
            Err(error) => Err(error),
        }
    }
}

/// The expression that the vector macro writes for `tokens`, or the first
/// error.
pub open spec fn vector_expansion(tokens: Seq<TokenView>) -> Result<Seq<char>, ExpandErrorView> {
    match vector_written(tokens) {
        Ok(written) => Ok(written.text + "].into_boxed_slice())"@),
        Err(error) => Err(error),
    }
}

/// The source text of the expression that makes the vector whose components
/// `items` list, or the error for the first token that is not expected.
pub fn expand(items: &Vec<Token>) -> (outcome: Result<String, ExpandError>)
    ensures
        match outcome {
            Ok(source) => vector_expansion(token_views(items@)) == Ok::<
                Seq<char>,
                ExpandErrorView,
            >(source@),
            Err(error) => vector_expansion(token_views(items@)) == Err::<
                Seq<char>,
                ExpandErrorView,
            >(error@),
        },
{
    let ghost tokens = token_views(items@);
    let mut buf = "Vector::from(vec![".to_owned();
    let mut literal_encountered = false;
    let mut i: usize = 0;
    proof {
        assert(tokens.take(0) =~= Seq::<TokenView>::empty());
    }
    while i < items.len()
        invariant
            i <= items.len(),
            tokens == token_views(items@),
            vector_written(tokens.take(i as int)) == Ok::<Written, ExpandErrorView>(
                Written { text: buf@, literal_seen: literal_encountered },
            ),
        decreases items.len() - i,
    {
        let token = &items[i];
        proof {
            assert(tokens.take(i + 1).drop_last() =~= tokens.take(i as int));
            assert(tokens.take(i + 1).last() == token@);
        }
        match token.kind {
            TokenKind::Literal => {
                if !literal_encountered {
                    match &token.decimal {
                        Some(digits) => {
                            let source = token_stream_from(digits.as_str());
                            buf.append(source.as_str());
                        },
                        None => {
                            buf.append(token.text.as_str());
                        },
                    }
                    literal_encountered = true;
                } else {
                    proof {
                        lemma_error_stays(tokens, i + 1);
                    }
                    return Err(ExpandError { at: i, message: "unexpected literal".to_owned() });
                }
            },
            TokenKind::Punct(c) if c == ',' => {
                if literal_encountered {
                    buf.append(", ");
                    literal_encountered = false;
                } else {
                    proof {
                        lemma_error_stays(tokens, i + 1);
                    }
                    return Err(
                        ExpandError { at: i, message: "unexpected character ','".to_owned() },
                    );
                }
            },
            _ => {
                buf.append(token.text.as_str());
            },
        }
        i = i + 1;
    }
    proof {
        assert(tokens.take(i as int) =~= tokens);
    }
    buf.append("].into_boxed_slice())");
    Ok(buf)
}

/// An error among the first tokens is the outcome for all of them.
pub proof fn lemma_error_stays(tokens: Seq<TokenView>, upto: int)
    requires
        0 <= upto <= tokens.len(),
        vector_written(tokens.take(upto)) is Err,
    ensures
        vector_written(tokens) == vector_written(tokens.take(upto)),
    decreases tokens.len() - upto,
{
    if upto < tokens.len() {
        assert(tokens.take(upto + 1).drop_last() =~= tokens.take(upto));
        lemma_error_stays(tokens, upto + 1);
    } else {
        assert(tokens.take(upto) =~= tokens);
    }
}

} // verus!
