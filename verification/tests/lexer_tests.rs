use lib::lexer::{LexError, Lexer};
use lib::token::{Token, TokenType};

fn lex(src: &str) -> (Vec<Token>, Lexer) {
    let mut lexer = Lexer::new(src.to_string());
    let tokens = lexer.analyze();
    (tokens, lexer)
}

fn shown(tokens: &[Token]) -> Vec<String> {
    tokens.iter().map(|t| t.to_display_string()).collect()
}

#[test]
fn new_lexer_starts_at_line_one() {
    let lexer = Lexer::new("ab".to_string());
    assert_eq!(lexer.source, vec!['a', 'b']);
    assert_eq!(lexer.current, 0);
    assert_eq!(lexer.line, 1);
    assert!(!lexer.encountered_error);
    assert!(lexer.errors.is_empty());
}

#[test]
fn empty_source_gives_only_eof() {
    let (tokens, lexer) = lex("");
    assert_eq!(shown(&tokens), vec!["EOF  null"]);
    assert_eq!(tokens[0].line, 1);
    assert!(!lexer.encountered_error);
}

#[test]
fn punctuation_and_operators() {
    let (tokens, lexer) = lex("(){};,+-*!===<=>=!=<>/.");
    assert_eq!(
        shown(&tokens),
        vec![
            "LEFT_PAREN ( null",
            "RIGHT_PAREN ) null",
            "LEFT_BRACE { null",
            "RIGHT_BRACE } null",
            "SEMICOLON ; null",
            "COMMA , null",
            "PLUS + null",
            "MINUS - null",
            "STAR * null",
            "BANG_EQUAL != null",
            "EQUAL_EQUAL == null",
            "LESS_EQUAL <= null",
            "GREATER_EQUAL >= null",
            "BANG_EQUAL != null",
            "LESS < null",
            "GREATER > null",
            "SLASH / null",
            "DOT . null",
            "EOF  null",
        ]
    );
    assert!(!lexer.encountered_error);
}

#[test]
fn strings_keep_their_body_as_literal() {
    let (tokens, _) = lex("\"hello world\"");
    assert_eq!(shown(&tokens), vec!["STRING \"hello world\" hello world", "EOF  null"]);
}

#[test]
fn numbers_carry_their_numeral() {
    let (tokens, lexer) = lex("123 4.50 7.");
    assert_eq!(tokens[0].token_type, TokenType::Number);
    assert_eq!(tokens[0].lexeme, "123");
    assert_eq!(tokens[0].literal, "123");
    assert_eq!(tokens[1].lexeme, "4.50");
    assert_eq!(tokens[1].literal, "4.50");
    assert_eq!(tokens[2].lexeme, "7.");
    assert_eq!(tokens.len(), 4);
    assert!(!lexer.encountered_error);
}

#[test]
fn keywords_and_identifiers() {
    let (tokens, _) = lex("and class else false for fun if nil or print return super this true var while foo _bar x1");
    let kinds: Vec<TokenType> = tokens.iter().map(|t| t.token_type).collect();
    assert_eq!(
        kinds,
        vec![
            TokenType::And,
            TokenType::Class,
            TokenType::Else,
            TokenType::False,
            TokenType::For,
            TokenType::Fun,
            TokenType::If,
            TokenType::Nil,
            TokenType::Or,
            TokenType::Print,
            TokenType::Return,
            TokenType::Super,
            TokenType::This,
            TokenType::True,
            TokenType::Var,
            TokenType::While,
            TokenType::Identifier,
            TokenType::Identifier,
            TokenType::Identifier,
            TokenType::Eof,
        ]
    );
    assert_eq!(tokens[16].to_display_string(), "IDENTIFIER foo null");
    assert_eq!(tokens[17].lexeme, "_bar");
    assert_eq!(tokens[18].lexeme, "x1");
}

#[test]
fn line_comments_are_skipped() {
    let (tokens, lexer) = lex("// a comment\n+ // another");
    assert_eq!(shown(&tokens), vec!["PLUS + null", "EOF  null"]);
    assert_eq!(tokens[0].line, 2);
    assert_eq!(lexer.line, 2);
}

#[test]
fn nested_block_comments_count_their_lines() {
    let (tokens, lexer) = lex("/* outer /* inner\n */ still\n comment */ +\n-");
    assert_eq!(shown(&tokens), vec!["PLUS + null", "MINUS - null", "EOF  null"]);
    assert_eq!(tokens[0].line, 3);
    assert_eq!(tokens[1].line, 4);
    assert_eq!(tokens[2].line, 4);
    assert!(!lexer.encountered_error);
}

#[test]
fn unclosed_block_comment_runs_to_the_end() {
    let (tokens, lexer) = lex("+ /* never\nclosed");
    assert_eq!(shown(&tokens), vec!["PLUS + null", "EOF  null"]);
    assert_eq!(lexer.line, 2);
    assert!(!lexer.encountered_error);
}

#[test]
fn unterminated_string_is_reported() {
    let (tokens, lexer) = lex("\"abc");
    assert_eq!(shown(&tokens), vec!["EOF  null"]);
    assert!(lexer.encountered_error);
    assert_eq!(lexer.errors.len(), 1);
    assert_eq!(lexer.errors[0].message(), "[line 1] Error: Unterminated string.");
}

#[test]
fn invalid_number_is_reported() {
    let (tokens, lexer) = lex("1.2.3 +");
    assert_eq!(shown(&tokens), vec!["PLUS + null", "EOF  null"]);
    assert!(lexer.encountered_error);
    match &lexer.errors[0] {
        LexError::InvalidNumber { line, text } => {
            assert_eq!(*line, 1);
            assert_eq!(text, "1.2.3");
        }
        _ => panic!("wrong error"),
    }
    assert_eq!(lexer.errors[0].message(), "[line 1] Error: Invalid number literal: 1.2.3");
}

#[test]
fn unexpected_characters_are_reported_in_order() {
    let (tokens, lexer) = lex(",.$(#\n@");
    assert_eq!(
        shown(&tokens),
        vec!["COMMA , null", "DOT . null", "LEFT_PAREN ( null", "EOF  null"]
    );
    let messages: Vec<String> = lexer.errors.iter().map(|e| e.message()).collect();
    assert_eq!(
        messages,
        vec![
            "[line 1] Error: Unexpected character: $",
            "[line 1] Error: Unexpected character: #",
            "[line 2] Error: Unexpected character: @",
        ]
    );
    assert!(lexer.encountered_error);
}

#[test]
fn lines_are_counted_over_blanks() {
    let (tokens, _) = lex(" \t\n\n  ;\n");
    assert_eq!(tokens[0].token_type, TokenType::Semicolon);
    assert_eq!(tokens[0].line, 3);
    assert_eq!(tokens[1].token_type, TokenType::Eof);
    assert_eq!(tokens[1].line, 4);
}

#[test]
fn only_the_last_token_is_eof() {
    let (tokens, _) = lex("var x = \"a\" + 1; // done\n/* c */ print x;");
    let last = tokens.len() - 1;
    assert_eq!(tokens[last].token_type, TokenType::Eof);
    for t in &tokens[..last] {
        assert_ne!(t.token_type, TokenType::Eof);
    }
}

#[test]
fn token_lines_never_go_down() {
    let (tokens, _) = lex("a\nb /* \n\n */ c\n\"s\ns\" d");
    for w in tokens.windows(2) {
        assert!(w[0].line <= w[1].line);
    }
    assert_eq!(tokens[0].line, 1);
}

#[test]
fn lexemes_are_pieces_of_the_source() {
    let src = "if (x >= 10) { print \"big\"; } // c";
    let (tokens, _) = lex(src);
    for t in &tokens {
        assert!(src.contains(t.lexeme.as_str()));
    }
}

#[test]
fn kind_display_is_upper_snake_case() {
    assert_eq!(TokenType::LeftParen.to_display_string(), "LEFT_PAREN");
    assert_eq!(TokenType::GreaterEqual.to_display_string(), "GREATER_EQUAL");
    assert_eq!(TokenType::Eof.to_display_string(), "EOF");
    assert_eq!(TokenType::Identifier.name(), "Identifier");
}

#[test]
fn resuming_after_the_start_reads_the_rest() {
    let mut lexer = Lexer::new("ab + c".to_string());
    lexer.current = 3;
    lexer.line = 5;
    let tokens = lexer.analyze();
    assert_eq!(shown(&tokens), vec!["PLUS + null", "IDENTIFIER c null", "EOF  null"]);
    assert_eq!(tokens[0].line, 5);
}

#[test]
fn resumed_lexing_matches_lexing_the_rest() {
    let mut resumed = Lexer::new("x = \"a\nb\"; /* c\n */ y".to_string());
    resumed.current = 4;
    resumed.line = 7;
    let from_middle = resumed.analyze();
    let mut fresh = Lexer::new("\"a\nb\"; /* c\n */ y".to_string());
    fresh.line = 7;
    let from_rest = fresh.analyze();
    assert_eq!(shown(&from_middle), shown(&from_rest));
    let lines_a: Vec<u32> = from_middle.iter().map(|t| t.line).collect();
    let lines_b: Vec<u32> = from_rest.iter().map(|t| t.line).collect();
    assert_eq!(lines_a, lines_b);
    assert_eq!(resumed.line, fresh.line);
}

#[test]
fn lines_never_exceed_one_per_newline() {
    let src = "\n\n/*\n\n*/\n\"\n\"";
    let (_, lexer) = lex(src);
    assert_eq!(lexer.line, 6);
    assert!(lexer.line as usize <= 1 + src.chars().count());
    assert!(lexer.line as usize <= 1 + src.chars().filter(|c| *c == '\n').count());
}

#[test]
fn token_clone_is_equal() {
    let (tokens, _) = lex("\"x\"");
    let c = tokens[0].clone();
    assert_eq!(c.token_type, tokens[0].token_type);
    assert_eq!(c.lexeme, tokens[0].lexeme);
    assert_eq!(c.literal, tokens[0].literal);
    assert_eq!(c.line, tokens[0].line);
}
