use minilex::lexer::{identify_keyword, KeywordType, LexError, Lexer, Token};

/// Collects every token up to and including the first `EndOfFile`, or stops
/// at the first fatal error.
fn lex_all(src: &str) -> Result<Vec<Token>, LexError> {
    let mut lexer = Lexer::new(src, "test");
    let mut tokens = Vec::new();
    loop {
        match lexer.next_token() {
            Ok(t) => {
                let done = t == Token::EndOfFile;
                tokens.push(t);
                if done {
                    return Ok(tokens);
                }
            }
            Err(e) => return Err(e),
        }
    }
}

#[test]
fn round_trip_let_statement() {
    assert_eq!(
        lex_all("let x = 42;"),
        Ok(vec![
            Token::Keyword(KeywordType::Let),
            Token::Identifier(String::from("x")),
            Token::Assignment,
            Token::IntegerLiteral(42),
            Token::Semicolon,
            Token::EndOfFile,
        ])
    );
}

#[test]
fn round_trip_print_call() {
    assert_eq!(
        lex_all("print(\"hi\");"),
        Ok(vec![
            Token::Keyword(KeywordType::Print),
            Token::LeftParenthesis,
            Token::StringLiteral(String::from("hi")),
            Token::RightParenthesis,
            Token::Semicolon,
            Token::EndOfFile,
        ])
    );
}

#[test]
fn round_trip_if_block() {
    assert_eq!(
        lex_all("if (a<b) { return 1; }"),
        Ok(vec![
            Token::Keyword(KeywordType::If),
            Token::LeftParenthesis,
            Token::Identifier(String::from("a")),
            Token::LessThan,
            Token::Identifier(String::from("b")),
            Token::RightParenthesis,
            Token::LeftBrace,
            Token::Keyword(KeywordType::Return),
            Token::IntegerLiteral(1),
            Token::Semicolon,
            Token::RightBrace,
            Token::EndOfFile,
        ])
    );
}

#[test]
fn unterminated_empty_string_is_tolerated() {
    assert_eq!(
        lex_all("\""),
        Ok(vec![
            Token::StringLiteral(String::new()),
            Token::EndOfFile,
        ])
    );
}

#[test]
fn unterminated_string_keeps_accumulated_text() {
    assert_eq!(
        lex_all("\"abc"),
        Ok(vec![
            Token::StringLiteral(String::from("abc")),
            Token::EndOfFile,
        ])
    );
}

#[test]
fn unexpected_character_reports_position_and_stops() {
    let mut lexer = Lexer::new("@", "test");
    let expected = LexError::UnexpectedCharacter {
        ch: '@',
        row: 1,
        col: 1,
    };
    assert_eq!(lexer.next_token(), Err(expected));
    // No further token comes out: the same error is returned again and again.
    assert_eq!(lexer.next_token(), Err(expected));
    assert_eq!(lexer.next_token(), Err(expected));
}

#[test]
fn overflowing_number_is_malformed() {
    let r = lex_all("99999999999999999999");
    assert_eq!(r, Err(LexError::MalformedNumber { row: 1, col: 21 }));
}

#[test]
fn largest_number_still_fits() {
    assert_eq!(
        lex_all("9223372036854775807"),
        Ok(vec![
            Token::IntegerLiteral(i64::MAX),
            Token::EndOfFile,
        ])
    );
}

#[test]
fn smallest_overflow_is_malformed() {
    assert!(matches!(
        lex_all("9223372036854775808"),
        Err(LexError::MalformedNumber { .. })
    ));
}

#[test]
fn leading_zeros_do_not_overflow() {
    assert_eq!(
        lex_all("0000000000000000000001"),
        Ok(vec![
            Token::IntegerLiteral(1),
            Token::EndOfFile,
        ])
    );
}

#[test]
fn keyword_fn_versus_identifier_fny() {
    assert_eq!(
        lex_all("fn"),
        Ok(vec![
            Token::Keyword(KeywordType::Fn),
            Token::EndOfFile,
        ])
    );
    assert_eq!(
        lex_all("fny"),
        Ok(vec![
            Token::Identifier(String::from("fny")),
            Token::EndOfFile,
        ])
    );
}

#[test]
fn all_keywords_scan_as_keywords() {
    assert_eq!(
        lex_all("fn return print let if else"),
        Ok(vec![
            Token::Keyword(KeywordType::Fn),
            Token::Keyword(KeywordType::Return),
            Token::Keyword(KeywordType::Print),
            Token::Keyword(KeywordType::Let),
            Token::Keyword(KeywordType::If),
            Token::Keyword(KeywordType::Else),
            Token::EndOfFile,
        ])
    );
}

#[test]
fn else_if_scans_as_two_tokens() {
    assert_eq!(
        lex_all("else if"),
        Ok(vec![
            Token::Keyword(KeywordType::Else),
            Token::Keyword(KeywordType::If),
            Token::EndOfFile,
        ])
    );
}

#[test]
fn keyword_table_lookup() {
    assert_eq!(identify_keyword("fn"), Some(KeywordType::Fn));
    assert_eq!(identify_keyword("return"), Some(KeywordType::Return));
    assert_eq!(identify_keyword("print"), Some(KeywordType::Print));
    assert_eq!(identify_keyword("let"), Some(KeywordType::Let));
    assert_eq!(identify_keyword("if"), Some(KeywordType::If));
    assert_eq!(identify_keyword("else"), Some(KeywordType::Else));
    assert_eq!(identify_keyword("else if"), Some(KeywordType::ElseIf));
    assert_eq!(identify_keyword("fny"), None);
    assert_eq!(identify_keyword(""), None);
    assert_eq!(identify_keyword("Fn"), None);
}

#[test]
fn maximal_munch_number_before_word() {
    assert_eq!(
        lex_all("123abc"),
        Ok(vec![
            Token::IntegerLiteral(123),
            Token::Identifier(String::from("abc")),
            Token::EndOfFile,
        ])
    );
}

#[test]
fn maximal_munch_identifier_with_digits() {
    assert_eq!(
        lex_all("let x123 = 5;"),
        Ok(vec![
            Token::Keyword(KeywordType::Let),
            Token::Identifier(String::from("x123")),
            Token::Assignment,
            Token::IntegerLiteral(5),
            Token::Semicolon,
            Token::EndOfFile,
        ])
    );
}

#[test]
fn row_and_column_across_newline() {
    // The letter run on the second line begins at row 2, column 1: an
    // unexpected character placed there reports exactly that position.
    let mut lexer = Lexer::new("ab\n@", "test");
    assert_eq!(
        lexer.next_token(),
        Ok(Token::Identifier(String::from("ab")))
    );
    assert_eq!(
        lexer.next_token(),
        Err(LexError::UnexpectedCharacter {
            ch: '@',
            row: 2,
            col: 1,
        })
    );
}

#[test]
fn row_and_column_bookkeeping() {
    let mut lexer = Lexer::new("ab\ncd", "test");
    assert_eq!(lexer.row(), 1);
    assert_eq!(lexer.col(), 1);
    assert_eq!(
        lexer.next_token(),
        Ok(Token::Identifier(String::from("ab")))
    );
    assert_eq!(
        lexer.next_token(),
        Ok(Token::Identifier(String::from("cd")))
    );
    // The whole second line ("cd") has been consumed: two columns past its
    // start.
    assert_eq!(lexer.row(), 2);
    assert_eq!(lexer.col(), 3);
}

#[test]
fn end_of_input_is_idempotent() {
    let mut lexer = Lexer::new("x", "test");
    assert_eq!(
        lexer.next_token(),
        Ok(Token::Identifier(String::from("x")))
    );
    assert_eq!(lexer.next_token(), Ok(Token::EndOfFile));
    assert_eq!(lexer.next_token(), Ok(Token::EndOfFile));
    assert_eq!(lexer.next_token(), Ok(Token::EndOfFile));
}

#[test]
fn empty_source_is_end_of_input() {
    assert_eq!(lex_all(""), Ok(vec![Token::EndOfFile]));
}

#[test]
fn whitespace_only_source_is_end_of_input() {
    assert_eq!(lex_all(" \t\r\n  \n"), Ok(vec![Token::EndOfFile]));
}

#[test]
fn whitespace_between_tokens_is_invisible() {
    let tight = lex_all("let x=1;").unwrap();
    let loose = lex_all("  let\n\tx =  1 ;\r\n").unwrap();
    assert_eq!(tight, loose);
}

#[test]
fn all_punctuation_tokens() {
    assert_eq!(
        lex_all("{ } [ ] ( ) < > : ; , = - + *"),
        Ok(vec![
            Token::LeftBrace,
            Token::RightBrace,
            Token::LeftBracket,
            Token::RightBracket,
            Token::LeftParenthesis,
            Token::RightParenthesis,
            Token::LessThan,
            Token::GreaterThan,
            Token::Colon,
            Token::Semicolon,
            Token::Comma,
            Token::Assignment,
            Token::Minus,
            Token::Plus,
            Token::Multiplication,
            Token::EndOfFile,
        ])
    );
}

#[test]
fn null_character_is_unexpected() {
    assert_eq!(
        lex_all("\0"),
        Err(LexError::UnexpectedCharacter {
            ch: '\0',
            row: 1,
            col: 1,
        })
    );
}

#[test]
fn string_may_contain_whitespace_and_newlines() {
    assert_eq!(
        lex_all("\"a b\nc\""),
        Ok(vec![
            Token::StringLiteral(String::from("a b\nc")),
            Token::EndOfFile,
        ])
    );
}

#[test]
fn number_then_error_keeps_position_past_run() {
    // The malformed-number error carries the position just past the digit
    // run, on the row the run ends on.
    let mut lexer = Lexer::new("x\n99999999999999999999", "test");
    assert_eq!(
        lexer.next_token(),
        Ok(Token::Identifier(String::from("x")))
    );
    assert_eq!(
        lexer.next_token(),
        Err(LexError::MalformedNumber { row: 2, col: 21 })
    );
}
