use automata::parser::{Expected, LexerError, Parser, TokenKind};

fn chars(s: &str) -> Vec<char> {
    s.chars().collect()
}

fn kinds(s: &str) -> Vec<TokenKind> {
    let src = chars(s);
    Parser::lex(&src).unwrap().iter().map(|t| t.kind).collect()
}

#[test]
fn lex_empty_input_gives_only_eof() {
    let src = chars("");
    let tokens = Parser::lex(&src).unwrap();
    assert_eq!(tokens.len(), 1);
    assert_eq!(tokens[0].kind, TokenKind::EOF);
    assert_eq!(tokens[0].span.offset, 0);
    assert_eq!(tokens[0].span.len, 0);
}

#[test]
fn lex_single_char_tokens() {
    assert_eq!(
        kinds("[ ] ( ) , :"),
        vec![
            TokenKind::LeftSquareBracket,
            TokenKind::RightSquareBracket,
            TokenKind::LeftParen,
            TokenKind::RightParen,
            TokenKind::Comma,
            TokenKind::Colon,
            TokenKind::EOF,
        ]
    );
}

#[test]
fn lex_arrow_and_identifier_spans() {
    let src = chars("ab => cd");
    let tokens = Parser::lex(&src).unwrap();
    assert_eq!(tokens.len(), 4);
    assert_eq!(tokens[0].kind, TokenKind::Identifier);
    assert_eq!(tokens[0].span.offset, 0);
    assert_eq!(tokens[0].span.len, 2);
    assert_eq!(tokens[1].kind, TokenKind::Arrow);
    assert_eq!(tokens[1].span.offset, 3);
    assert_eq!(tokens[1].span.len, 2);
    assert_eq!(tokens[2].kind, TokenKind::Identifier);
    assert_eq!(tokens[2].span.offset, 6);
    assert_eq!(tokens[2].span.len, 2);
    assert_eq!(tokens[2].src(&src), chars("cd"));
    assert_eq!(tokens[3].kind, TokenKind::EOF);
    assert_eq!(tokens[3].span.offset, 8);
}

#[test]
fn lex_keywords() {
    assert_eq!(
        kinds("PUSH POP NOOP WRITE LEFT RIGHT"),
        vec![
            TokenKind::Push,
            TokenKind::Pop,
            TokenKind::Noop,
            TokenKind::Write,
            TokenKind::Left,
            TokenKind::Right,
            TokenKind::EOF,
        ]
    );
}

#[test]
fn lex_keyword_prefix_is_identifier() {
    assert_eq!(kinds("PUSHY pop"), vec![TokenKind::Identifier, TokenKind::Identifier, TokenKind::EOF]);
}

#[test]
fn lex_comment_runs_to_newline() {
    assert_eq!(
        kinds("[ # a comment [ ] ( \n ]"),
        vec![TokenKind::LeftSquareBracket, TokenKind::RightSquareBracket, TokenKind::EOF]
    );
}

#[test]
fn lex_epsilon_is_an_identifier() {
    let src = chars("ε");
    let tokens = Parser::lex(&src).unwrap();
    assert_eq!(tokens[0].kind, TokenKind::Identifier);
    assert_eq!(tokens[0].span.len, 1);
    assert_eq!(tokens[0].src(&src), chars("ε"));
}

#[test]
fn lex_equals_not_followed_by_angle_is_an_error() {
    let src = chars("a =b");
    let err = Parser::lex(&src).unwrap_err();
    match err {
        LexerError::UnexpectedCharacter { at, expected } => {
            assert_eq!(at.offset, 2);
            assert_eq!(at.len, 1);
            assert_eq!(expected, Expected::RightAngle);
        }
        other => panic!("wrong error: {:?}", other),
    }
}

#[test]
fn lex_equals_at_end_of_input_is_an_error() {
    let src = chars("ab =");
    let err = Parser::lex(&src).unwrap_err();
    match err {
        LexerError::UnexpectedEOF { last_token } => {
            let t = last_token.unwrap();
            assert_eq!(t.kind, TokenKind::Identifier);
            assert_eq!(t.span.offset, 0);
        }
        other => panic!("wrong error: {:?}", other),
    }
}

#[test]
fn lex_underscore_continues_identifier() {
    let src = chars("stack_alphabet");
    let tokens = Parser::lex(&src).unwrap();
    assert_eq!(tokens.len(), 2);
    assert_eq!(tokens[0].span.len, 14);
}

#[test]
fn lex_skips_all_whitespace_kinds() {
    assert_eq!(kinds("[\t]\r\n("), vec![
        TokenKind::LeftSquareBracket,
        TokenKind::RightSquareBracket,
        TokenKind::LeftParen,
        TokenKind::EOF,
    ]);
}
