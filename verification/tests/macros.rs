use beaumont::macros::decimals::{
    digits_of, maybe_decimal_number, token_stream_from, transform, LiteralParts, Piece, Tree,
};
use beaumont::macros::{matrix, vector, Token, TokenKind};

fn literal(text: &str) -> Token {
    Token::new(TokenKind::Literal, text.to_string())
}

fn punct(c: char) -> Token {
    Token::new(TokenKind::Punct(c), c.to_string())
}

fn other(text: &str) -> Token {
    Token::new(TokenKind::Other, text.to_string())
}

/// The tokens of a list of literals, `,` and `|`, separated by blanks.
fn tokens(source: &str) -> Vec<Token> {
    source
        .split_whitespace()
        .map(|word| match word {
            "," => punct(','),
            "|" => punct('|'),
            _ => literal(word),
        })
        .collect()
}

#[test]
fn decimal_literals_are_told_by_their_suffix() {
    assert_eq!(maybe_decimal_number("12d"), Some("12".to_string()));
    assert_eq!(maybe_decimal_number("12.50d"), Some("12.50".to_string()));
    assert_eq!(maybe_decimal_number("56712.3489d"), Some("56712.3489".to_string()));
    assert_eq!(maybe_decimal_number("\"190928.05\"d"), Some("190928.05".to_string()));
    assert_eq!(maybe_decimal_number("1_000d"), Some("1000".to_string()));
}

#[test]
fn other_literals_are_no_decimal_numbers() {
    assert_eq!(maybe_decimal_number("12"), None);
    assert_eq!(maybe_decimal_number("12.5"), None);
    assert_eq!(maybe_decimal_number("12u8"), None);
    assert_eq!(maybe_decimal_number("1.5f32"), None);
    assert_eq!(maybe_decimal_number("12dd"), None);
    assert_eq!(maybe_decimal_number("\"12\""), None);
    assert_eq!(maybe_decimal_number("'a'd"), None);
    assert_eq!(maybe_decimal_number("b\"12\"d"), None);
    assert_eq!(maybe_decimal_number("true"), None);
}

#[test]
fn what_is_no_literal_is_no_decimal_number() {
    assert_eq!(maybe_decimal_number(""), None);
    assert_eq!(maybe_decimal_number("d"), None);
    assert_eq!(maybe_decimal_number("1 2d"), None);
    assert_eq!(maybe_decimal_number("+"), None);
}

#[test]
fn digits_of_parts() {
    let text = |text: &str| text.to_string();
    let int = |suffix: &str| LiteralParts::Int { digits: text("12"), suffix: text(suffix) };
    assert_eq!(digits_of(int("d")), Some(text("12")));
    assert_eq!(digits_of(int("")), None);
    assert_eq!(digits_of(int("D")), None);
    assert_eq!(digits_of(int("dd")), None);
    assert_eq!(digits_of(int("u8")), None);
    let float = LiteralParts::Float { digits: text("1.5"), suffix: text("d") };
    assert_eq!(digits_of(float), Some(text("1.5")));
    let float = LiteralParts::Float { digits: text("1.5"), suffix: text("f32") };
    assert_eq!(digits_of(float), None);
    let string = LiteralParts::Str { value: text("x"), suffix: text("d") };
    assert_eq!(digits_of(string), Some(text("x")));
    let string = LiteralParts::Str { value: text("x"), suffix: text("") };
    assert_eq!(digits_of(string), None);
    assert_eq!(digits_of(LiteralParts::Other { suffix: text("d") }), None);
}

#[test]
fn the_expression_parses_the_digits() {
    assert_eq!(token_stream_from("12.5"), "\"12.5\".parse::<Decimal>().unwrap()");
    assert_eq!(token_stream_from(""), "\"\".parse::<Decimal>().unwrap()");
}

#[test]
fn transform_writes_out_decimal_literals_at_every_depth() {
    let item = vec![
        Tree::Other,
        Tree::literal("1.5d"),
        Tree::literal("7"),
        Tree::Group(vec![
            Tree::literal("\"2\"d"),
            Tree::Group(vec![]),
            Tree::Group(vec![Tree::Other, Tree::literal("3d")]),
        ]),
    ];
    let output = transform(&item);
    assert_eq!(output.len(), 4);
    assert!(matches!(&output[0], Piece::Same));
    assert!(matches!(&output[1], Piece::Source(s) if s == "\"1.5\".parse::<Decimal>().unwrap()"));
    assert!(matches!(&output[2], Piece::Same));
    match &output[3] {
        Piece::Group(pieces) => {
            assert_eq!(pieces.len(), 3);
            let two = "\"2\".parse::<Decimal>().unwrap()";
            assert!(matches!(&pieces[0], Piece::Source(s) if s == two));
            assert!(matches!(&pieces[1], Piece::Group(inner) if inner.is_empty()));
            match &pieces[2] {
                Piece::Group(inner) => {
                    assert_eq!(inner.len(), 2);
                    assert!(matches!(&inner[0], Piece::Same));
                    let three = "\"3\".parse::<Decimal>().unwrap()";
                    assert!(matches!(&inner[1], Piece::Source(s) if s == three));
                },
                _ => panic!("a group stays a group"),
            }
        },
        _ => panic!("a group stays a group"),
    }
    assert!(transform(&vec![]).is_empty());
}

#[test]
fn vector_of_literals() {
    let source = vector::expand(&tokens("1.0 , 2.0 , 3.0")).unwrap();
    assert_eq!(source, "Vector::from(vec![1.0, 2.0, 3.0].into_boxed_slice())");
    let source = vector::expand(&tokens("1")).unwrap();
    assert_eq!(source, "Vector::from(vec![1].into_boxed_slice())");
    let source = vector::expand(&vec![]).unwrap();
    assert_eq!(source, "Vector::from(vec![].into_boxed_slice())");
}

#[test]
fn vector_of_decimal_literals() {
    let source = vector::expand(&tokens("1.05d , 2")).unwrap();
    assert_eq!(
        source,
        "Vector::from(vec![\"1.05\".parse::<Decimal>().unwrap(), 2].into_boxed_slice())"
    );
}

#[test]
fn vector_of_other_tokens() {
    let items =
        vec![other("x"), punct(','), punct('-'), literal("1"), punct(','), other("(a + b)")];
    // A comma follows a literal only: the one after `x` is not expected.
    let error = vector::expand(&items).unwrap_err();
    assert_eq!(error.at, 1);
    assert_eq!(error.message, "unexpected character ','");
    let items = vec![punct('-'), literal("1"), punct(','), other("x"), punct('|'), other("y")];
    let source = vector::expand(&items).unwrap();
    assert_eq!(source, "Vector::from(vec![-1, x|y].into_boxed_slice())");
}

#[test]
fn vector_errors() {
    let error = vector::expand(&tokens("1 2")).unwrap_err();
    assert_eq!(error.at, 1);
    assert_eq!(error.message, "unexpected literal");
    let error = vector::expand(&tokens(", 1")).unwrap_err();
    assert_eq!(error.at, 0);
    assert_eq!(error.message, "unexpected character ','");
    let error = vector::expand(&tokens("1 , , 2")).unwrap_err();
    assert_eq!(error.at, 2);
    assert_eq!(error.message, "unexpected character ','");
    // The first error is the one that is named.
    let error = vector::expand(&tokens("1 , 2 3 , , 4")).unwrap_err();
    assert_eq!(error.at, 3);
    assert_eq!(error.message, "unexpected literal");
    // A comma at the end is in order.
    assert!(vector::expand(&tokens("1 , 2 ,")).is_ok());
}

#[test]
fn matrix_of_rows() {
    let rows = "1 , 2 , 3 | | 4 , 5 , 6 | | 7 , 8 , 9 | | 10 , 11 , 12";
    let source = matrix::expand(&tokens(rows)).unwrap();
    assert_eq!(
        source,
        "Matrix::from((vec![1, 2, 3, 4, 5, 6, 7, 8, 9, 10, 11, 12].into_boxed_slice(), 4, 3))"
    );
    let source = matrix::expand(&tokens("1 , 2 | | 3 , 4")).unwrap();
    assert_eq!(source, "Matrix::from((vec![1, 2, 3, 4].into_boxed_slice(), 2, 2))");
}

#[test]
fn matrix_of_decimal_literals() {
    let source = matrix::expand(&tokens("1.5d | | 2")).unwrap();
    assert_eq!(
        source,
        "Matrix::from((vec![\"1.5\".parse::<Decimal>().unwrap(), 2].into_boxed_slice(), 2, 1))"
    );
}

#[test]
fn matrix_counts_what_it_has_read() {
    // Rows are counted at the `|` that closes one and at the `|` that opens one.
    let source = matrix::expand(&tokens("1 , 2 , 3")).unwrap();
    assert_eq!(source, "Matrix::from((vec![1, 2, 3].into_boxed_slice(), 0, 2))");
    let source = matrix::expand(&tokens("1 , 2 |")).unwrap();
    assert_eq!(source, "Matrix::from((vec![1, 2, ].into_boxed_slice(), 1, 2))");
    let source = matrix::expand(&vec![]).unwrap();
    assert_eq!(source, "Matrix::from((vec![].into_boxed_slice(), 0, 0))");
    let twelve = "1 | | 2 | | 3 | | 4 | | 5 | | 6 | | 7 | | 8 | | 9 | | 10 | | 11 | | 12";
    let source = matrix::expand(&tokens(twelve)).unwrap();
    assert_eq!(
        source,
        "Matrix::from((vec![1, 2, 3, 4, 5, 6, 7, 8, 9, 10, 11, 12].into_boxed_slice(), 12, 1))"
    );
}

#[test]
fn matrix_errors() {
    let error = matrix::expand(&tokens("1 2")).unwrap_err();
    assert_eq!(error.at, 1);
    assert_eq!(error.message, "unexpected character '2'");
    let error = matrix::expand(&tokens("1 , 2 | 3 , 4")).unwrap_err();
    assert_eq!(error.at, 4);
    assert_eq!(error.message, "unexpected character '3' (maybe prepending a '|' would fix it)");
    let error = matrix::expand(&tokens("1 , 2 | | 3 , 4 , 5")).unwrap_err();
    assert_eq!(error.at, 8);
    assert_eq!(error.message, "unexpected character ',' (columns count mismatch)");
    let error = matrix::expand(&tokens(", 1")).unwrap_err();
    assert_eq!(error.at, 0);
    assert_eq!(error.message, "unexpected character ','");
    let error = matrix::expand(&tokens("| 1")).unwrap_err();
    assert_eq!(error.at, 0);
    assert_eq!(error.message, "unexpected character '|'");
    let error = matrix::expand(&tokens("1 , | 2")).unwrap_err();
    assert_eq!(error.at, 2);
    assert_eq!(error.message, "unexpected character '|'");
    let error = matrix::expand(&vec![literal("1"), punct(','), other("x")]).unwrap_err();
    assert_eq!(error.at, 2);
    assert_eq!(error.message, "unexpected character 'x'");
    let error = matrix::expand(&vec![literal("1"), punct(';')]).unwrap_err();
    assert_eq!(error.at, 1);
    assert_eq!(error.message, "unexpected character ';'");
}

/// The tokens of a macro's input, taken from its source text.
fn tokens_of(source: &str) -> Vec<Token> {
    let stream: proc_macro2::TokenStream = source.parse().unwrap();
    stream
        .into_iter()
        .map(|tree| {
            let kind = match &tree {
                proc_macro2::TokenTree::Literal(_) => TokenKind::Literal,
                proc_macro2::TokenTree::Punct(punct) => TokenKind::Punct(punct.as_char()),
                _ => TokenKind::Other,
            };
            Token::new(kind, tree.to_string())
        })
        .collect()
}

/// The source text with its tokens set apart in one way.
fn normal(source: &str) -> String {
    source.parse::<proc_macro2::TokenStream>().unwrap().to_string()
}

#[test]
fn good_matrices() {
    let input = "1  , 2  , 3  |
           | 4  , 5  , 6  |
           | 7  , 8  , 9  |
           | 10 , 11 , 12";
    let source = matrix::expand(&tokens_of(input)).unwrap();
    let expected =
        "Matrix::from((vec![1, 2, 3, 4, 5, 6, 7, 8, 9, 10, 11, 12].into_boxed_slice(), 4, 3))";
    assert_eq!(normal(&source), normal(expected));
}

#[test]
fn good_vectors() {
    let source = vector::expand(&tokens_of("1.0, 2.0, 3.0")).unwrap();
    assert_eq!(normal(&source), normal("Vector::from(vec![1.0, 2.0, 3.0].into_boxed_slice())"));
}

#[test]
fn vector_of_expressions() {
    let source = vector::expand(&tokens_of("-1.5d, 2 * x, f(y) + 3")).unwrap();
    let expected = "Vector::from(vec![-\"1.5\".parse::<Decimal>().unwrap(), 2 * x, f(y) + 3]\
        .into_boxed_slice())";
    assert_eq!(normal(&source), normal(expected));
    // A comma follows a literal only.
    let error = vector::expand(&tokens_of("x, 1")).unwrap_err();
    assert_eq!(error.at, 1);
    assert_eq!(error.message, "unexpected character ','");
}

#[test]
fn matrix_refuses_what_is_no_literal() {
    let error = matrix::expand(&tokens_of("1, x")).unwrap_err();
    assert_eq!(error.at, 2);
    assert_eq!(error.message, "unexpected character 'x'");
    let error = matrix::expand(&tokens_of("1, -2")).unwrap_err();
    assert_eq!(error.at, 2);
    assert_eq!(error.message, "unexpected character '-'");
}

#[test]
fn a_token_is_read_for_its_decimal_number() {
    let token = Token::new(TokenKind::Literal, "12.5d".to_string());
    assert_eq!(token.kind, TokenKind::Literal);
    assert_eq!(token.text, "12.5d");
    assert_eq!(token.decimal, Some("12.5".to_string()));
    assert_eq!(Token::new(TokenKind::Literal, "12.5".to_string()).decimal, None);
    // Only a literal writes a decimal number.
    let token = Token::new(TokenKind::Other, "12.5d".to_string());
    assert_eq!(token.text, "12.5d");
    assert_eq!(token.decimal, None);
    assert_eq!(Token::new(TokenKind::Punct(','), ",".to_string()).decimal, None);
    assert!(matches!(Tree::literal("3d"), Tree::Literal(Some(digits)) if digits == "3"));
    assert!(matches!(Tree::literal("3"), Tree::Literal(None)));
}

#[test]
fn what_is_written_goes_by_the_digits_of_the_token() {
    // The digits that a token carries are written, whatever its text is.
    let carried = |text: &str, digits: Option<&str>| Token {
        kind: TokenKind::Literal,
        text: text.to_string(),
        decimal: digits.map(|digits| digits.to_string()),
    };
    let items = vec![carried("one", Some("1.0")), punct(','), carried("2d", None)];
    let source = vector::expand(&items).unwrap();
    assert_eq!(
        source,
        "Vector::from(vec![\"1.0\".parse::<Decimal>().unwrap(), 2d].into_boxed_slice())"
    );
    let source = matrix::expand(&items).unwrap();
    assert_eq!(
        source,
        "Matrix::from((vec![\"1.0\".parse::<Decimal>().unwrap(), 2d].into_boxed_slice(), 0, 1))"
    );
    let pieces = transform(&vec![Tree::Literal(Some("7".to_string())), Tree::Literal(None)]);
    assert!(matches!(&pieces[0], Piece::Source(s) if s == "\"7\".parse::<Decimal>().unwrap()"));
    assert!(matches!(&pieces[1], Piece::Same));
}
