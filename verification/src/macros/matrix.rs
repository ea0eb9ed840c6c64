//! The matrix macro: `matrix![1, 2 | | 3, 4]` stands for the matrix whose
//! rows are listed, the components of a row with commas between them, one
//! row closed by a `|` and the next opened by another.

use crate::macros::vector::written_literal;
use crate::macros::decimals::token_stream_from;
use crate::macros::{token_views, ExpandError, ExpandErrorView, Token, TokenKind, TokenView};
use crate::num::display::ascii_to_string;
use crate::num::text::{
    ascii_chars,
    digit_byte,
    digits,
    pow10,
    ZERO,
    lemma_digit_count_unique,
    lemma_div_pow10_step,
    lemma_pow10_positive,
    lemma_pow10_split,
    lemma_pow10_values,
};
use vstd::prelude::*;
use vstd::slice::slice_subrange;
use vstd::string::StringExecFns;

verus! {

/// What stood before the token at hand.
#[derive(Debug, Clone, Copy, PartialEq, Eq, Structural)]
pub enum Previous {
    /// Nothing: the input or a row begins.
    Nothing,
    /// A literal.
    Literal,
    /// A comma.
    Comma,
    /// A `|` that closes a row.
    Pipe,
}

/// How far a matrix has been read: the components written so far, the rows
/// and columns counted, what stood last, whether the first row is still
/// being read, and the commas counted in the row at hand.
pub struct Scanned {
    pub text: Seq<char>,
    pub rows: nat,
    pub cols: nat,
    pub previous: Previous,
    pub first_row: bool,
    pub commas: nat,
}

/// The message for a token that is not expected, with a piece of advice or
/// none.
pub open spec fn unexpected_message(token: Seq<char>, advice: Seq<char>) -> Seq<char> {
    "unexpected character '"@ + token + "'"@ + advice
}

/// What the token at the place `at` adds to what has been read.
///
/// A literal stands at the beginning of a row or after a comma. A comma
/// follows a literal; in the first row it counts a column, and in a later row
/// there are fewer commas than columns. A `|` after a literal closes the row,
/// which in the first row counts a column and a row; a `|` after that one
/// opens the next row and counts it. Nothing else is expected.
pub open spec fn matrix_step(scanned: Scanned, token: TokenView, at: nat) -> Result<
    Scanned,
    ExpandErrorView,
> {
    match token.kind {
        TokenKind::Literal => if scanned.previous == Previous::Nothing || scanned.previous
            == Previous::Comma {
            Ok(
                Scanned {
                    text: scanned.text + written_literal(token),
                    previous: Previous::Literal,
                    ..scanned
                },
            )
        } else {
            Err(
                ExpandErrorView {
                    at,
                    message: unexpected_message(
                        token.text,
                        if scanned.previous == Previous::Pipe {
                            " (maybe prepending a '|' would fix it)"@
                        } else {
                            ""@
                        },
                    ),
                },
            )
        },
        TokenKind::Punct(c) if c == ',' => if scanned.previous != Previous::Literal {
            Err(ExpandErrorView { at, message: unexpected_message(token.text, ""@) })
        } else if scanned.first_row {
            Ok(
                Scanned {
                    text: scanned.text + ", "@,
                    cols: scanned.cols + 1,
                    commas: scanned.commas + 1,
                    previous: Previous::Comma,
                    ..scanned
                },
            )
        } else if scanned.commas + 1 >= scanned.cols {
            Err(
                ExpandErrorView {
                    at,
                    message: unexpected_message(token.text, " (columns count mismatch)"@),
                },
            )
        } else {
            Ok(
                Scanned {
                    text: scanned.text + ", "@,
                    commas: scanned.commas + 1,
                    previous: Previous::Comma,
                    ..scanned
                },
            )
        },
        TokenKind::Punct(c) if c == '|' => if scanned.previous == Previous::Literal {
            Ok(
                Scanned {
                    text: scanned.text + ", "@,
                    cols: if scanned.first_row {
                        scanned.cols + 1
                    } else {
                        scanned.cols
                    },
                    rows: if scanned.first_row {
                        scanned.rows + 1
                    } else {
                        scanned.rows
                    },
                    previous: Previous::Pipe,
                    ..scanned
                },
            )
        } else if scanned.previous == Previous::Pipe {
            Ok(
                Scanned {
                    rows: scanned.rows + 1,
                    first_row: false,
                    commas: 0,
                    previous: Previous::Nothing,
                    ..scanned
                },
            )
        } else {
            Err(ExpandErrorView { at, message: unexpected_message(token.text, ""@) })
        },
        _ => Err(ExpandErrorView { at, message: unexpected_message(token.text, ""@) }),
    }
}

/// What reading the tokens one after the other gives, or the first error.
pub open spec fn matrix_scanned(tokens: Seq<TokenView>) -> Result<Scanned, ExpandErrorView>
    decreases tokens.len(),
{
    if tokens.len() == 0 {
        Ok(
            Scanned {
                text: Seq::empty(),
                rows: 0,
                cols: 0,
                previous: Previous::Nothing,
                first_row: true,
                commas: 0,
            },
        )
    } else {
        match matrix_scanned(tokens.drop_last()) {
            Ok(scanned) => matrix_step(scanned, tokens.last(), (tokens.len() - 1) as nat),
            Err(error) => Err(error),
        }
    }
}

/// The components that the tokens write, with commas between them; nothing
/// where there is an error among the tokens.
pub open spec fn scanned_text(tokens: Seq<TokenView>) -> Seq<char> {
    match matrix_scanned(tokens) {
        Ok(scanned) => scanned.text,
        Err(_) => Seq::empty(),
    }
}

/// The expression that the matrix macro writes for `tokens`, or the first
/// error.
pub open spec fn matrix_expansion(tokens: Seq<TokenView>) -> Result<Seq<char>, ExpandErrorView> {
    match matrix_scanned(tokens) {
        Ok(scanned) => Ok(
            "Matrix::from((vec!["@ + scanned.text + "].into_boxed_slice(), "@ + ascii_chars(
                digits(scanned.rows),
            ) + ", "@ + ascii_chars(digits(scanned.cols)) + "))"@,
        ),
        Err(error) => Err(error),
    }
}

/// An error among the first tokens is the outcome for all of them.
pub proof fn lemma_error_stays(tokens: Seq<TokenView>, upto: int)
    requires
        0 <= upto <= tokens.len(),
        matrix_scanned(tokens.take(upto)) is Err,
    ensures
        matrix_scanned(tokens) == matrix_scanned(tokens.take(upto)),
    decreases tokens.len() - upto,
{
    if upto < tokens.len() {
        assert(tokens.take(upto + 1).drop_last() =~= tokens.take(upto));
        lemma_error_stays(tokens, upto + 1);
    } else {
        assert(tokens.take(upto) =~= tokens);
    }
}

/// The error for a token that is not expected.
fn unexpected(token: &Token, at: usize, advice: Option<&str>) -> (error: ExpandError)
    ensures
        error@ == (ExpandErrorView {
            at: at as nat,
            message: unexpected_message(
                token@.text,
                match advice {
                    Some(advice) => advice@,
                    None => ""@,
                },
            ),
        }),
{
    let mut message = "unexpected character '".to_owned();
    message.append(token.text.as_str());
    message.append("'");
    match advice {
        Some(advice) => {
            message.append(advice);
        },
        None => {
            proof {
                reveal_strlit("");
                assert(message@ + ""@ =~= message@);
            }
        },
    }
    ExpandError { at, message }
}

/// `count` written in base ten.
fn count_text(count: usize) -> (text: String)
    ensures
        text@ == ascii_chars(digits(count as nat)),
{
    let ghost n = count as nat;
    let mut buffer = [ZERO;20];
    let mut pos: usize = 19;
    let mut rest: usize = count / 10;
    buffer[19] = ZERO + (count % 10) as u8;
    proof {
        lemma_pow10_values();
        lemma_pow10_split(10, 10);
        assert(pow10(20) == 100_000_000_000_000_000_000) by (nonlinear_arith)
            requires
                pow10(20) == pow10(10) * pow10(10),
                pow10(10) == 10_000_000_000,
        ;
        assert(n / 1 == n);
    }
    while rest > 0
        invariant
            n == count,
            0 <= pos <= 19,
            rest == n / pow10((20 - pos) as nat),
            pos < 19 ==> n / pow10((19 - pos) as nat) > 0,
            pow10(20) == 100_000_000_000_000_000_000,
            forall|j: int|
                pos <= j < 20 ==> #[trigger] buffer@[j] == digit_byte(
                    (n / pow10((19 - j) as nat)) % 10,
                ),
        decreases rest,
    {
        proof {
            let k = (20 - pos) as nat;
            lemma_div_pow10_step(n, k);
            lemma_pow10_positive(k);
            if pos == 0 {
                assert(n >= rest * pow10(20)) by (nonlinear_arith)
                    requires
                        rest == n / pow10(20),
                        pow10(20) > 0,
                ;
                assert(rest * pow10(20) >= pow10(20)) by (nonlinear_arith)
                    requires
                        rest >= 1,
                        pow10(20) > 0,
                ;
            }
        }
        pos = pos - 1;
        buffer[pos] = ZERO + (rest % 10) as u8;
        rest = rest / 10;
    }
    proof {
        lemma_digit_count_unique(n, (20 - pos) as nat);
        assert(buffer@.subrange(pos as int, 20) =~= digits(n));
    }
    ascii_to_string(slice_subrange(buffer.as_slice(), pos, 20))
}

/// Reads the tokens of a matrix and writes its components, with commas
/// between them, at the end of `buf`. Returns the numbers of rows and of
/// columns, or the error for the first token that is not expected; `buf` then
/// holds what was written before that token.
fn scan(tokens: &Vec<Token>, buf: &mut String) -> (outcome: Result<(usize, usize), ExpandError>)
    ensures
        match outcome {
            Ok((rows, cols)) => {
                &&& matrix_scanned(token_views(tokens@)) is Ok
                &&& matrix_scanned(token_views(tokens@))->Ok_0.rows == rows
                &&& matrix_scanned(token_views(tokens@))->Ok_0.cols == cols
                &&& final(buf)@ == old(buf)@ + scanned_text(token_views(tokens@))
            },
            Err(error) => {
                &&& matrix_scanned(token_views(tokens@)) == Err::<Scanned, ExpandErrorView>(
                    error@,
                )
                &&& error.at < tokens@.len()
                &&& final(buf)@ == old(buf)@ + scanned_text(
                    token_views(tokens@).take(error.at as int),
                )
            },
        },
{
    let ghost views = token_views(tokens@);
    let mut rows: usize = 0;
    let mut cols: usize = 0;
    let mut previous = Previous::Nothing;
    let mut first_row = true;
    let mut commas: usize = 0;
    let mut i: usize = 0;
    proof {
        assert(views.take(0) =~= Seq::<TokenView>::empty());
        assert(buf@ + Seq::<char>::empty() =~= buf@);
    }
    while i < tokens.len()
        invariant
            i <= tokens.len(),
            views == token_views(tokens@),
            rows <= i,
            cols <= i,
            commas <= i,
            matrix_scanned(views.take(i as int)) == Ok::<Scanned, ExpandErrorView>(
                Scanned {
                    text: scanned_text(views.take(i as int)),
                    rows: rows as nat,
                    cols: cols as nat,
                    previous,
                    first_row,
                    commas: commas as nat,
                },
            ),
            buf@ == old(buf)@ + scanned_text(views.take(i as int)),
        decreases tokens.len() - i,
    {
        let token = &tokens[i];
        let ghost before = matrix_scanned(views.take(i as int))->Ok_0;
        proof {
            assert(views.take(i + 1).drop_last() =~= views.take(i as int));
            assert(views.take(i + 1).last() == token@);
            assert(matrix_scanned(views.take(i + 1)) == matrix_step(before, token@, i as nat));
            if matrix_step(before, token@, i as nat) is Err {
                lemma_error_stays(views, i + 1);
            }
        }
        match token.kind {
            TokenKind::Literal => {
                if previous == Previous::Nothing || previous == Previous::Comma {
                    match &token.decimal {
                        Some(digits) => {
                            let source = token_stream_from(digits.as_str());
                            buf.append(source.as_str());
                        },
                        None => {
                            buf.append(token.text.as_str());
                        },
                    }
                    previous = Previous::Literal;
                } else {
                    let advice = if previous == Previous::Pipe {
                        Some(" (maybe prepending a '|' would fix it)")
                    } else {
                        None
                    };
                    return Err(unexpected(token, i, advice));
                }
            },
            TokenKind::Punct(c) => {
                if c == ',' {
                    if previous == Previous::Literal {
                        commas = commas + 1;
                        if first_row {
                            cols = cols + 1;
                        } else if commas >= cols {
                            return Err(unexpected(token, i, Some(" (columns count mismatch)")));
                        }
                        buf.append(", ");
                        previous = Previous::Comma;
                    } else {
                        return Err(unexpected(token, i, None));
                    }
                } else if c == '|' {
                    if previous == Previous::Literal {
                        buf.append(", ");
                        if first_row {
                            cols = cols + 1;
                            rows = rows + 1;
                        }
                        previous = Previous::Pipe;
                    } else if previous == Previous::Pipe {
                        rows = rows + 1;
                        first_row = false;
                        commas = 0;
                        previous = Previous::Nothing;
                    } else {
                        return Err(unexpected(token, i, None));
                    }
                } else {
                    return Err(unexpected(token, i, None));
                }
            },
            TokenKind::Other => {
                return Err(unexpected(token, i, None));
            },
        }
        proof {
            assert(buf@ =~= old(buf)@ + scanned_text(views.take(i + 1)));
        }
        i = i + 1;
    }
    proof {
        assert(views.take(i as int) =~= views);
    }
    Ok((rows, cols))
}

/// The source text of the expression that makes the matrix whose rows
/// `tokens` list, or the error for the first token that is not expected.
pub fn expand(tokens: &Vec<Token>) -> (outcome: Result<String, ExpandError>)
    ensures
        match outcome {
            Ok(source) => matrix_expansion(token_views(tokens@)) == Ok::<
                Seq<char>,
                ExpandErrorView,
            >(source@),
            Err(error) => matrix_expansion(token_views(tokens@)) == Err::<
                Seq<char>,
                ExpandErrorView,
            >(error@),
        },
{
    let mut buf = "Matrix::from((vec![".to_owned();
    match scan(tokens, &mut buf) {
        Ok((rows, cols)) => {
            buf.append("].into_boxed_slice(), ");
            buf.append(count_text(rows).as_str());
            buf.append(", ");
            buf.append(count_text(cols).as_str());
            buf.append("))");
            Ok(buf)
        },
        Err(error) => Err(error),
    }
}

} // verus!
