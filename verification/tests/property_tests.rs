use monkey_lexer::lexer::Cursor;
use monkey_lexer::lexer::Lexer;
use monkey_lexer::token::Interp;
use monkey_lexer::token::Token;

fn lex_all(input: &str) -> Vec<Token> {
    let mut lexer = Lexer::new(input.as_bytes().to_vec());
    let mut tokens = Vec::new();
    loop {
        let tok = lexer.next_token();
        let done = tok == Token::EOF;
        tokens.push(tok);
        if done {
            return tokens;
        }
    }
}

fn span_of(tok: &Token) -> Option<(usize, usize)> {
    match tok {
        Token::IDENT { begin, end } => Some((*begin, *end)),
        Token::STRING { begin, end } => Some((*begin, *end)),
        Token::TEMPLATE { begin, end, .. } => Some((*begin, *end)),
        Token::NUMBER { begin, end, .. } => Some((*begin, *end)),
        Token::FLOAT { begin, end } => Some((*begin, *end)),
        _ => None,
    }
}

#[test]
fn test_relex_same_buffer_is_identical() {
    let input = "let x = 12 + 34; \"s\" 'y' `t $v and ${a {b} c}` 3/4 9.5 @";
    let first = lex_all(input);
    let second = lex_all(input);
    assert_eq!(first, second);
}

#[test]
fn test_offsets_monotonic_and_spans_ordered() {
    let input = "  fn add(a, b) { return a + b; } \"str\" `t $v` 1.5 7/2 42";
    let mut cursor = Cursor::new(input.as_bytes().to_vec());
    let mut last_offset = cursor.offset();
    loop {
        let before = cursor.offset();
        let tok = cursor.next_token();
        let after = cursor.offset();
        assert!(before >= last_offset);
        assert!(after >= before);
        if let Some((begin, end)) = span_of(&tok) {
            assert!(begin <= end);
            assert!(before <= begin);
            assert!(end <= after);
        }
        last_offset = after;
        if tok == Token::EOF {
            break;
        }
    }
}

#[test]
fn test_template_variable_interpolation() {
    let input = "`hello $world!`";
    let mut lexer = Lexer::new(input.as_bytes().to_vec());
    let token = lexer.next_token();
    if let Token::TEMPLATE { begin, end, interps } = token {
        assert_eq!(&input[begin..end], "`hello $world!`");
        assert_eq!(interps.len(), 1);
        if let Interp::Variable { begin, end } = interps[0] {
            assert_eq!(&input[begin..end], "$world");
        } else {
            panic!("expected a variable interpolation, got {:?}", interps[0]);
        }
    } else {
        panic!("expected Token::TEMPLATE, got {:?}", token);
    }
}

#[test]
fn test_template_block_interpolation_nested_braces() {
    let input = "`hello ${if world {foo()} else {bar()}}`";
    let mut lexer = Lexer::new(input.as_bytes().to_vec());
    let token = lexer.next_token();
    if let Token::TEMPLATE { begin, end, interps } = token {
        assert_eq!(&input[begin..end], input);
        assert_eq!(interps.len(), 1);
        if let Interp::Block { begin, end } = interps[0] {
            assert_eq!(&input[begin..end], "${if world {foo()} else {bar()}}");
        } else {
            panic!("expected a block interpolation, got {:?}", interps[0]);
        }
    } else {
        panic!("expected Token::TEMPLATE, got {:?}", token);
    }
}

#[test]
fn test_template_without_interpolation() {
    let input = "`plain text`";
    let mut lexer = Lexer::new(input.as_bytes().to_vec());
    let token = lexer.next_token();
    if let Token::TEMPLATE { begin, end, interps } = token {
        assert_eq!(&input[begin..end], "`plain text`");
        assert!(interps.is_empty());
    } else {
        panic!("expected Token::TEMPLATE, got {:?}", token);
    }
}

#[test]
fn test_template_bad_interpolation_is_illegal() {
    let input = "`oops $ here`";
    let mut lexer = Lexer::new(input.as_bytes().to_vec());
    assert_eq!(lexer.next_token(), Token::ILLEGAL);
}

#[test]
fn test_integer_overflow_is_illegal() {
    let input = "99999999999999999999";
    let mut lexer = Lexer::new(input.as_bytes().to_vec());
    assert_eq!(lexer.next_token(), Token::ILLEGAL);
}

#[test]
fn test_integer_at_i64_max() {
    let input = "9223372036854775807";
    let mut lexer = Lexer::new(input.as_bytes().to_vec());
    assert_eq!(lexer.next_token(), Token::INTEGER(i64::MAX));
    let input = "9223372036854775808";
    let mut lexer = Lexer::new(input.as_bytes().to_vec());
    assert_eq!(lexer.next_token(), Token::ILLEGAL);
}

#[test]
fn test_rational_empty_denominator_is_illegal() {
    let input = "5/";
    let mut lexer = Lexer::new(input.as_bytes().to_vec());
    assert_eq!(lexer.next_token(), Token::ILLEGAL);
}

#[test]
fn test_rational_zero_denominator_is_kept() {
    let input = "12/0";
    let mut lexer = Lexer::new(input.as_bytes().to_vec());
    assert_eq!(lexer.next_token(), Token::RATIONAL { num: 12, denom: 0 });
}

#[test]
fn test_unknown_character_is_illegal() {
    let input = "@";
    let mut lexer = Lexer::new(input.as_bytes().to_vec());
    assert_eq!(lexer.next_token(), Token::ILLEGAL);
}

#[test]
fn test_empty_input_is_eof_forever() {
    let input = "";
    let mut lexer = Lexer::new(input.as_bytes().to_vec());
    assert_eq!(lexer.next_token(), Token::EOF);
    assert_eq!(lexer.next_token(), Token::EOF);
}

#[test]
fn test_unterminated_string_runs_to_end() {
    let input = "\"abc";
    let mut lexer = Lexer::new(input.as_bytes().to_vec());
    let token = lexer.next_token();
    if let Token::STRING { begin, end } = token {
        assert_eq!(&input[begin..end], "\"abc");
    } else {
        panic!("expected Token::STRING, got {:?}", token);
    }
}

#[test]
fn test_empty_string_literal() {
    let input = "\"\"";
    let mut lexer = Lexer::new(input.as_bytes().to_vec());
    let token = lexer.next_token();
    assert_eq!(token, Token::STRING { begin: 0, end: 2 });
}

#[test]
fn test_remaining_keywords() {
    let input = " let true false";
    let mut lexer = Lexer::new(input.as_bytes().to_vec());
    assert_eq!(lexer.next_token(), Token::LET);
    assert_eq!(lexer.next_token(), Token::TRUE);
    assert_eq!(lexer.next_token(), Token::FALSE);
}

#[test]
fn test_non_keyword_identifier_keeps_span() {
    let input = "rodrigo";
    let mut lexer = Lexer::new(input.as_bytes().to_vec());
    let token = lexer.next_token();
    if let Token::IDENT { begin, end } = token {
        assert_eq!(&input[begin..end], "rodrigo");
    } else {
        panic!("expected Token::IDENT, got {:?}", token);
    }
}

#[test]
fn test_statement_stream() {
    let input = "let x = 5;";
    let tokens = lex_all(input);
    assert_eq!(tokens.len(), 6);
    assert_eq!(tokens[0], Token::LET);
    assert!(matches!(tokens[1], Token::IDENT { .. }));
    assert_eq!(tokens[2], Token::ASSIGN);
    assert_eq!(tokens[3], Token::INTEGER(5));
    assert_eq!(tokens[4], Token::SEMICOLON);
    assert_eq!(tokens[5], Token::EOF);
}

#[test]
fn test_tokenize_matches_manual_loop_and_repeats() {
    let input = "fn main() { let s = `v $x ${y}` ; return 7/9 }";
    let via_tokenize = monkey_lexer::lexer::tokenize(input.as_bytes().to_vec());
    let manual = lex_all(input);
    assert_eq!(via_tokenize, manual);
    let again = monkey_lexer::lexer::tokenize(input.as_bytes().to_vec());
    assert_eq!(via_tokenize, again);
}
