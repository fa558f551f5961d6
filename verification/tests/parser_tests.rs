use minilex::lexer::{KeywordType, LexError, Lexer, Token};
use minilex::parser::Parser;

#[test]
fn parser_fetches_first_token() {
    let mut lexer = Lexer::new("let x = 1;", "test");
    let parser = Parser::new(&mut lexer).unwrap();
    assert_eq!(parser.token, Token::Keyword(KeywordType::Let));
    // The scanner handed in was advanced past the first token.
    assert_eq!(
        lexer.next_token(),
        Ok(Token::Identifier(String::from("x")))
    );
}

#[test]
fn parser_keeps_its_own_scanner_copy() {
    let mut lexer = Lexer::new("fn f", "test");
    let mut parser = Parser::new(&mut lexer).unwrap();
    assert_eq!(parser.token, Token::Keyword(KeywordType::Fn));
    // Both the original and the copy continue from the same state.
    assert_eq!(
        parser.lexer.next_token(),
        Ok(Token::Identifier(String::from("f")))
    );
    assert_eq!(
        lexer.next_token(),
        Ok(Token::Identifier(String::from("f")))
    );
}

#[test]
fn parser_hands_back_the_lexical_error() {
    let mut lexer = Lexer::new("@", "test");
    match Parser::new(&mut lexer) {
        Ok(_) => panic!("expected a lexical error"),
        Err(e) => assert_eq!(
            e,
            LexError::UnexpectedCharacter {
                ch: '@',
                row: 1,
                col: 1,
            }
        ),
    }
}

#[test]
fn parser_on_empty_source_holds_end_of_input() {
    let mut lexer = Lexer::new("", "test");
    let parser = Parser::new(&mut lexer).unwrap();
    assert_eq!(parser.token, Token::EndOfFile);
}
