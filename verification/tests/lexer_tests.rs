use monkey_lexer::lexer::Cursor;
use monkey_lexer::lexer::Lexer;
use monkey_lexer::token::Token;

use std::collections::HashMap;

#[test]
fn test_single_char_tokens() {
    let input = "=+(){},;";

    let tests: Vec<_> = vec![
        Token::ASSIGN,
        Token::PLUS,
        Token::LPAREN,
        Token::RPAREN,
        Token::LBRACE,
        Token::RBRACE,
        Token::COMMA,
        Token::SEMICOLON,
    ];
    let mut cursor = Cursor::new(input.as_bytes().to_vec());
    tests.iter().for_each(|expected_token| {
        let tok: Token = cursor.next_token();
        assert_eq!(
            &tok, expected_token,
            "failed to match token token::Type, expected {:?} got {:?}",
            expected_token, tok
        );
    });
    assert_eq!(cursor.next_token(), Token::EOF);
}

#[test]
fn test_identifier_after_whitespace() {
    let input = "   rodrigo";
    let mut cursor = Cursor::new(input.as_bytes().to_vec());
    let token = cursor.next_token();
    if let Token::IDENT { begin, end } = token {
        let name = &input[begin..end];
        assert_eq!(name, "rodrigo")
    } else {
        panic!("test failed: expected Token::IDENT {{ begin, end }} , got {:?}", token)
    }
}

#[test]
fn test_rational() {
    let input = "   1234/5678";
    let mut lexer = Lexer::new(input.as_bytes().to_vec());
    let token = lexer.next_token();
    if let Token::RATIONAL { num, denom } = token {
        assert_eq!(num, 1234);
        assert_eq!(denom, 5678)
    } else {
        panic!("test failed: expected Token::RATIONAL {{ num, denom }} =, got {:?}", token)
    }
}

#[test]
fn test_float() {
    let input = "   1234.5678";
    let mut lexer = Lexer::new(input.as_bytes().to_vec());
    let token = lexer.next_token();
    if let Token::FLOAT { begin, end } = token {
        let f: f64 = input[begin..end].parse().unwrap();
        assert_eq!(f, 1234.5678);
    } else {
        panic!("test failed: expected TOKEN::FLOAT(f), got {:?}", token)
    }
}

#[test]
fn test_integer() {
    let input = "   12345678";
    let mut lexer = Lexer::new(input.as_bytes().to_vec());
    let token = lexer.next_token();
    if let Token::INTEGER(n) = token {
        assert_eq!(n, 12345678);
    } else {
        panic!("test failed: expected Token::INTEGER(n), got {:?}", token)
    }
}

#[test]
fn test_double_quote_string() {
    let input = "   \"hello 'world'!\"";
    let mut lexer = Lexer::new(input.as_bytes().to_vec());
    let token = lexer.next_token();
    if let Token::STRING { begin, end } = token {
        let string = &input[begin..end];
        assert_eq!(string, "\"hello 'world'!\"");
    } else {
        panic!("test failed: expected Token::STRING {{ begin, end }}, got {:?}", token)
    }
}

#[test]
fn test_single_quote_string() {
    let input = "   \'hello \"world\"!\'";
    let mut lexer = Lexer::new(input.as_bytes().to_vec());
    let token = lexer.next_token();
    if let Token::STRING { begin, end } = token {
        let string = &input[begin..end];
        assert_eq!(string, "\'hello \"world\"!\'");
    } else {
        panic!("test failed: expected Token::STRING {{ begin, end }}, got {:?}", token)
    }
}

#[test]
fn test_keywords() {
    let input = " fn if else return";
    let mut lexer = Lexer::new(input.as_bytes().to_vec());
    let token = lexer.next_token();
    assert_eq!(token, Token::FUNCTION);
    let token = lexer.next_token();
    assert_eq!(token, Token::IF);
    let token = lexer.next_token();
    assert_eq!(token, Token::ELSE);
    let token = lexer.next_token();
    assert_eq!(token, Token::RETURN);
}

#[test]
fn test_map_macro() {
    let my_map2 = HashMap::from([("a", 1), ("b", 2)]);
    let my_pair2 = HashMap::from([("key", 2)]);
    let my_dict2 = HashMap::from([("a", 1), ("b", 2)]);

    println!("{:?}", my_map2);
    println!("{:?}", my_pair2);
    println!("{:?}", my_dict2);
}
