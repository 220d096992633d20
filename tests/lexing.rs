use teenytiny::lexer::{LexError, Lexer};
use teenytiny::token::{Token, TokenType};

fn kinds(src: &str) -> Result<Vec<(TokenType, String)>, LexError> {
    let mut lx = Lexer::new(src.to_string());
    let mut v = Vec::new();
    loop {
        let t = lx.get_token()?;
        let done = t.kind == TokenType::EOF;
        v.push((t.kind, t.text));
        if done {
            return Ok(v);
        }
    }
}

#[test]
fn keywords_are_recognized() {
    assert_eq!(Token::check_if_keyword("LABEL"), Some(TokenType::LABEL));
    assert_eq!(Token::check_if_keyword("ENDWHILE"), Some(TokenType::ENDWHILE));
    assert_eq!(Token::check_if_keyword("REPEAT"), Some(TokenType::REPEAT));
    assert_eq!(Token::check_if_keyword("print"), None);
    assert_eq!(Token::check_if_keyword("PRINTX"), None);
    assert_eq!(Token::check_if_keyword(""), None);
}

#[test]
fn operators_and_pairs() {
    let v = kinds("+-*/ > >= < <= = == !=\n").unwrap();
    let ks: Vec<TokenType> = v.iter().map(|p| p.0).collect();
    assert_eq!(
        ks,
        vec![
            TokenType::PLUS,
            TokenType::MINUS,
            TokenType::ASTERISK,
            TokenType::SLASH,
            TokenType::GT,
            TokenType::GTEQ,
            TokenType::LT,
            TokenType::LTEQ,
            TokenType::EQ,
            TokenType::EQEQ,
            TokenType::NOTEQ,
            TokenType::NEWLINE,
            TokenType::EOF
        ]
    );
    assert_eq!(v[5].1, ">=");
    assert_eq!(v[10].1, "!=");
}

#[test]
fn numbers_strings_identifiers() {
    let v = kinds("LET foo2 = 12.50\nPRINT \"hi there\"").unwrap();
    assert_eq!(v[0], (TokenType::LET, "LET".to_string()));
    assert_eq!(v[1], (TokenType::IDENT, "foo2".to_string()));
    assert_eq!(v[3], (TokenType::NUMBER, "12.50".to_string()));
    assert_eq!(v[6], (TokenType::STRING, "hi there".to_string()));
    assert_eq!(v[7].0, TokenType::EOF);
}

#[test]
fn eof_repeats_at_end() {
    let mut lx = Lexer::new("7".to_string());
    assert_eq!(lx.get_token().unwrap().kind, TokenType::NUMBER);
    assert_eq!(lx.get_token().unwrap().kind, TokenType::EOF);
    assert_eq!(lx.get_token().unwrap().kind, TokenType::EOF);
}

#[test]
fn comment_is_skipped_with_its_newline() {
    let v = kinds("  # note\nGOTO").unwrap();
    assert_eq!(v[0].0, TokenType::GOTO);
}

#[test]
fn lone_bang_is_an_error() {
    assert_eq!(kinds("a ! b"), Err(LexError::LoneBang(2)));
}

#[test]
fn trailing_point_is_an_error() {
    assert_eq!(kinds("3. "), Err(LexError::BadNumber(2)));
}

#[test]
fn illegal_string_characters() {
    assert_eq!(kinds("\"a\\b\""), Err(LexError::IllegalStringChar('\\', 2)));
    assert_eq!(kinds("\"a\nb\""), Err(LexError::IllegalStringChar('\n', 2)));
    assert_eq!(kinds("\"open"), Err(LexError::UnterminatedString(0)));
}

#[test]
fn unknown_character_is_an_error() {
    assert_eq!(kinds("LET a = 1 ; "), Err(LexError::Unrecognized(';', 10)));
}

#[test]
fn next_char_stops_at_end() {
    let mut lx = Lexer::new("ab".to_string());
    assert_eq!(lx.cur_char(), 'a');
    lx.next_char();
    assert_eq!(lx.cur_char(), 'b');
    lx.next_char();
    lx.next_char();
    assert_eq!(lx.cur_char(), '\0');
    assert_eq!(lx.cur_pos, 2);
}
