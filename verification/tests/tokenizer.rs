use minilang::lexer::{Lexer, LexerErr, LexerErrKind, PunctutationKind, Token, TokenType};

fn tokenize(src: &str) -> Result<Vec<Token>, LexerErr> {
    let mut lexer = Lexer::new(src);
    let mut tokens = vec![];
    loop {
        let token = lexer.next_token()?;
        let done = token.ty == TokenType::EOF;
        tokens.push(token);
        if done {
            return Ok(tokens);
        }
    }
}

fn non_whitespace(src: &str) -> String {
    src.chars().filter(|c| !matches!(c, ' ' | '\t' | '\r' | '\n')).collect()
}

#[test]
fn identifier_token() {
    let tokens = tokenize("ab_c1").unwrap();
    assert_eq!(tokens.len(), 2);
    assert_eq!(tokens[0].ty, TokenType::Identifier);
    assert_eq!(tokens[0].raw, "ab_c1");
    assert_eq!(tokens[1].ty, TokenType::EOF);
}

#[test]
fn number_token() {
    let tokens = tokenize("1234").unwrap();
    assert_eq!(tokens[0].ty, TokenType::Number);
    assert_eq!(tokens[0].raw, "1234");
}

#[test]
fn number_running_into_letter_fails() {
    let err = tokenize("1a").unwrap_err();
    assert!(matches!(err.kind, LexerErrKind::IncorrectNumber));
    assert_eq!(err.line, 1);
    assert_eq!(err.collumn, 2);
}

#[test]
fn two_character_operator() {
    let tokens = tokenize("==").unwrap();
    assert_eq!(tokens[0].ty, TokenType::Operator);
    assert_eq!(tokens[0].raw, "==");
    assert_eq!(tokens[0].collumn, 2);
}

#[test]
fn single_character_operator() {
    let tokens = tokenize("+ x").unwrap();
    assert_eq!(tokens[0].ty, TokenType::Operator);
    assert_eq!(tokens[0].raw, "+");
}

#[test]
fn separators() {
    let tokens = tokenize(",;").unwrap();
    assert_eq!(tokens[0].ty, TokenType::Punctuation(PunctutationKind::Seperator));
    assert_eq!(tokens[0].raw, ",");
    assert_eq!(tokens[1].ty, TokenType::Punctuation(PunctutationKind::Seperator));
    assert_eq!(tokens[1].raw, ";");
}

#[test]
fn unclosed_brackets_surface_at_end_of_input() {
    let err = tokenize("({(").unwrap_err();
    assert!(matches!(err.kind, LexerErrKind::UnevenParentheses));
}

#[test]
fn open_and_close_depths() {
    let tokens = tokenize("(()){}").unwrap();
    assert_eq!(tokens[0].ty, TokenType::Punctuation(PunctutationKind::Open(0)));
    assert_eq!(tokens[1].ty, TokenType::Punctuation(PunctutationKind::Open(1)));
    assert_eq!(tokens[2].ty, TokenType::Punctuation(PunctutationKind::Close(1)));
    assert_eq!(tokens[3].ty, TokenType::Punctuation(PunctutationKind::Close(0)));
    assert_eq!(tokens[4].ty, TokenType::Punctuation(PunctutationKind::Open(0)));
    assert_eq!(tokens[5].ty, TokenType::Punctuation(PunctutationKind::Close(0)));
}

#[test]
fn close_without_open_fails_at_offending_token() {
    let err = tokenize(")").unwrap_err();
    assert!(matches!(err.kind, LexerErrKind::UnevenParentheses));
    assert_eq!(err.line, 1);
    assert_eq!(err.collumn, 1);
}

#[test]
fn unclosed_bracket_fails_at_end() {
    let err = tokenize("while a { a = 1;").unwrap_err();
    assert!(matches!(err.kind, LexerErrKind::UnevenParentheses));
}

#[test]
fn depth_counters_return_to_zero_on_balanced_input() {
    // a balanced program reaches the terminal token instead of an error
    let tokens = tokenize("if a { b = (1 + 2) ; }").unwrap();
    assert_eq!(tokens.last().unwrap().ty, TokenType::EOF);
}

#[test]
fn newline_advances_line_counter() {
    let tokens = tokenize("\nx").unwrap();
    assert_eq!(tokens[0].line, 2);
    assert_eq!(tokens[0].collumn, 2);
}

#[test]
fn terminal_token_repeats_safely() {
    let mut lexer = Lexer::new("x");
    let first = lexer.next_token().unwrap();
    assert_eq!(first.ty, TokenType::Identifier);
    let eof1 = lexer.next_token().unwrap();
    assert_eq!(eof1.ty, TokenType::EOF);
    let eof2 = lexer.next_token().unwrap();
    assert_eq!(eof2.ty, TokenType::EOF);
}

#[test]
fn raw_texts_reconstruct_the_input() {
    let src = "x = 12 ;\nwhile x { print x ; }";
    let tokens = tokenize(src).unwrap();
    let joined: String = tokens.iter().map(|t| t.raw.as_str()).collect();
    assert_eq!(joined, non_whitespace(src));
}

#[test]
fn raw_texts_reconstruct_operators_and_brackets() {
    let src = " a+=b , ( c ) { } ;";
    let tokens = tokenize(src).unwrap();
    let joined: String = tokens.iter().map(|t| t.raw.as_str()).collect();
    assert_eq!(joined, non_whitespace(src));
}
