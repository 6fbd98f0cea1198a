use vstd::prelude::*;

verus! {

/// Sub-kind of a raw numeric span, decided during raw scanning by the
/// delimiter character (`.` or `/`) that follows the leading digit run.
/// It selects the parsing branch in the classification layer.
#[derive(Debug, PartialEq, Eq, Clone, Copy)]
pub enum Num {
    Int,
    Float,
    Rat,
}

/// An interpolation discovered while scanning a template string: either a
/// `$name` variable or a brace-balanced `${...}` block. Both carry the
/// half-open byte range of the whole marker, `$` included.
#[derive(Debug, PartialEq, Eq, Clone, Copy)]
pub enum Interp {
    Variable { begin: usize, end: usize },
    Block { begin: usize, end: usize },
}

/// Mathematical image of an `Interp`, with unbounded positions.
pub enum InterpModel {
    Variable { begin: int, end: int },
    Block { begin: int, end: int },
}

impl View for Interp {
    type V = InterpModel;

    open spec fn view(&self) -> InterpModel {
        match *self {
            Interp::Variable { begin, end } => InterpModel::Variable {
                begin: begin as int,
                end: end as int,
            },
            Interp::Block { begin, end } => InterpModel::Block {
                begin: begin as int,
                end: end as int,
            },
        }
    }
}

impl DeepView for Interp {
    type V = InterpModel;

    open spec fn deep_view(&self) -> InterpModel {
        self.view()
    }
}

/// One lexical item. Payload-free categories (operators, punctuation,
/// keywords, end of input, the illegal marker) carry only their tag.
/// Text-bearing categories reference the source buffer by a half-open byte
/// range `[begin, end)`; the text itself is never copied. A numeric span
/// starts out as `NUMBER` with a provisional sub-kind and is replaced by a
/// parsed value (`INTEGER`, `RATIONAL`) or left as a span (`FLOAT`) by the
/// classification layer.
#[allow(non_camel_case_types)]
#[derive(Debug, PartialEq, Clone)]
pub enum Token {
    ILLEGAL,
    EOF,
    IDENT { begin: usize, end: usize },
    STRING { begin: usize, end: usize },
    TEMPLATE { begin: usize, end: usize, interps: Vec<Interp> },
    NUMBER { begin: usize, end: usize, kind: Num },
    INTEGER(i64),
    FLOAT { begin: usize, end: usize },
    RATIONAL { num: i64, denom: i64 },
    ASSIGN,
    PLUS,
    MINUS,
    BANG,
    ASTERISK,
    SLASH,
    LT,
    GT,
    LTE,
    GTE,
    COMMA,
    SEMICOLON,
    FUNCTION,
    IF,
    ELSE,
    LET,
    TRUE,
    FALSE,
    RETURN,
    RPAREN,
    LPAREN,
    RBRACE,
    LBRACE,
}

/// Mathematical image of a `Token`: positions are unbounded integers and a
/// template's interpolations form a sequence.
#[allow(non_camel_case_types)]
#[verifier::ext_equal]
pub enum TokenModel {
    ILLEGAL,
    EOF,
    IDENT { begin: int, end: int },
    STRING { begin: int, end: int },
    TEMPLATE { begin: int, end: int, interps: Seq<InterpModel> },
    NUMBER { begin: int, end: int, kind: Num },
    INTEGER(i64),
    FLOAT { begin: int, end: int },
    RATIONAL { num: i64, denom: i64 },
    ASSIGN,
    PLUS,
    MINUS,
    BANG,
    ASTERISK,
    SLASH,
    LT,
    GT,
    LTE,
    GTE,
    COMMA,
    SEMICOLON,
    FUNCTION,
    IF,
    ELSE,
    LET,
    TRUE,
    FALSE,
    RETURN,
    RPAREN,
    LPAREN,
    RBRACE,
    LBRACE,
}

impl View for Token {
    type V = TokenModel;

    open spec fn view(&self) -> TokenModel {
        match *self {
            Token::ILLEGAL => TokenModel::ILLEGAL,
            Token::EOF => TokenModel::EOF,
            Token::IDENT { begin, end } => TokenModel::IDENT {
                begin: begin as int,
                end: end as int,
            },
            Token::STRING { begin, end } => TokenModel::STRING {
                begin: begin as int,
                end: end as int,
            },
            Token::TEMPLATE { begin, end, ref interps } => TokenModel::TEMPLATE {
                begin: begin as int,
                end: end as int,
                interps: interps.deep_view(),
            },
            Token::NUMBER { begin, end, kind } => TokenModel::NUMBER {
                begin: begin as int,
                end: end as int,
                kind,
            },
            Token::INTEGER(n) => TokenModel::INTEGER(n),
            Token::FLOAT { begin, end } => TokenModel::FLOAT {
                begin: begin as int,
                end: end as int,
            },
            Token::RATIONAL { num, denom } => TokenModel::RATIONAL { num, denom },
            Token::ASSIGN => TokenModel::ASSIGN,
            Token::PLUS => TokenModel::PLUS,
            Token::MINUS => TokenModel::MINUS,
            Token::BANG => TokenModel::BANG,
            Token::ASTERISK => TokenModel::ASTERISK,
            Token::SLASH => TokenModel::SLASH,
            Token::LT => TokenModel::LT,
            Token::GT => TokenModel::GT,
            Token::LTE => TokenModel::LTE,
            Token::GTE => TokenModel::GTE,
            Token::COMMA => TokenModel::COMMA,
            Token::SEMICOLON => TokenModel::SEMICOLON,
            Token::FUNCTION => TokenModel::FUNCTION,
            Token::IF => TokenModel::IF,
            Token::ELSE => TokenModel::ELSE,
            Token::LET => TokenModel::LET,
            Token::TRUE => TokenModel::TRUE,
            Token::FALSE => TokenModel::FALSE,
            Token::RETURN => TokenModel::RETURN,
            Token::RPAREN => TokenModel::RPAREN,
            Token::LPAREN => TokenModel::LPAREN,
            Token::RBRACE => TokenModel::RBRACE,
            Token::LBRACE => TokenModel::LBRACE,
        }
    }
}

impl DeepView for Token {
    type V = TokenModel;

    open spec fn deep_view(&self) -> TokenModel {
        self.view()
    }
}

} // verus!
