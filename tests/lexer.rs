use blox::lexer::{Lexer, Token, TokenKind};

fn scan_all(src: &str) -> Vec<Token> {
    let mut lexer = Lexer::new(src);
    let mut out = Vec::new();
    loop {
        let tok = lexer.next_token();
        let done = tok.kind == TokenKind::Eof;
        out.push(tok);
        if done {
            return out;
        }
    }
}

fn kinds(src: &str) -> Vec<TokenKind> {
    scan_all(src).into_iter().map(|t| t.kind).collect()
}

#[test]
fn number_literal_is_one_token() {
    for s in ["0", "7", "42", "3.25", "10.5", "123456789.000001"] {
        let toks = scan_all(s);
        assert_eq!(toks.len(), 2, "{}", s);
        assert_eq!(toks[0].kind, TokenKind::Number);
        assert_eq!(toks[0].lexeme, s);
        let value: f64 = toks[0].lexeme.parse().unwrap();
        assert_eq!(value.to_bits(), s.parse::<f64>().unwrap().to_bits());
        assert_eq!(toks[1].kind, TokenKind::Eof);
        assert_eq!(toks[1].lexeme, "\0");
    }
}

#[test]
fn trailing_dot_is_not_part_of_a_number() {
    let toks = scan_all("12.");
    assert_eq!(toks[0].kind, TokenKind::Number);
    assert_eq!(toks[0].lexeme, "12");
    assert_eq!(toks[1].kind, TokenKind::Dot);
    assert_eq!(toks[2].kind, TokenKind::Eof);
}

#[test]
fn punctuation_and_operators() {
    assert_eq!(
        kinds("(){},.;-+*/"),
        vec![
            TokenKind::LPar,
            TokenKind::Rpar,
            TokenKind::LBrace,
            TokenKind::RBrace,
            TokenKind::Comma,
            TokenKind::Dot,
            TokenKind::Semicolon,
            TokenKind::Minus,
            TokenKind::Plus,
            TokenKind::Star,
            TokenKind::Slash,
            TokenKind::Eof,
        ]
    );
}

#[test]
fn one_and_two_character_operators() {
    assert_eq!(
        kinds("! != = == > >= < <="),
        vec![
            TokenKind::Bang,
            TokenKind::NotBang,
            TokenKind::Equal,
            TokenKind::IsEqual,
            TokenKind::Greater,
            TokenKind::GreaterEqual,
            TokenKind::Less,
            TokenKind::LessEqual,
            TokenKind::Eof,
        ]
    );
}

#[test]
fn keywords_and_identifiers() {
    assert_eq!(
        kinds("and class else false for fun if nil or print return super this true var while"),
        vec![
            TokenKind::And,
            TokenKind::Class,
            TokenKind::Else,
            TokenKind::False,
            TokenKind::For,
            TokenKind::Fun,
            TokenKind::If,
            TokenKind::Nil,
            TokenKind::Or,
            TokenKind::Print,
            TokenKind::Return,
            TokenKind::Super,
            TokenKind::This,
            TokenKind::True,
            TokenKind::Var,
            TokenKind::While,
            TokenKind::Eof,
        ]
    );
    let toks = scan_all("andy x1 whiles");
    assert_eq!(toks[0].kind, TokenKind::Ident);
    assert_eq!(toks[0].lexeme, "andy");
    assert_eq!(toks[1].kind, TokenKind::Ident);
    assert_eq!(toks[1].lexeme, "x1");
    assert_eq!(toks[2].kind, TokenKind::Ident);
}

#[test]
fn comments_and_lines() {
    let toks = scan_all("1 // a comment\n+ 2\n// last line");
    assert_eq!(toks.len(), 4);
    assert_eq!(toks[0].kind, TokenKind::Number);
    assert_eq!(toks[0].line, 1);
    assert_eq!(toks[1].kind, TokenKind::Plus);
    assert_eq!(toks[1].line, 2);
    assert_eq!(toks[2].kind, TokenKind::Number);
    assert_eq!(toks[2].line, 2);
    assert_eq!(toks[3].kind, TokenKind::Eof);
    assert_eq!(toks[3].line, 3);
}

#[test]
fn single_slash_is_division() {
    assert_eq!(
        kinds("6 / 3"),
        vec![TokenKind::Number, TokenKind::Slash, TokenKind::Number, TokenKind::Eof]
    );
}

#[test]
fn strings_and_their_errors() {
    let toks = scan_all("\"ab\ncd\" 1");
    assert_eq!(toks[0].kind, TokenKind::String);
    assert_eq!(toks[0].lexeme, "\"ab\ncd\"");
    assert_eq!(toks[0].line, 2);
    assert_eq!(toks[1].kind, TokenKind::Number);

    let toks = scan_all("\"open");
    assert_eq!(toks[0].kind, TokenKind::Error);
    assert_eq!(toks[0].lexeme, "unterminated string");
    assert_eq!(toks[1].kind, TokenKind::Eof);
}

#[test]
fn unexpected_character_continues() {
    let toks = scan_all("@ 1");
    assert_eq!(toks[0].kind, TokenKind::Error);
    assert_eq!(toks[0].lexeme, "Unexpected character @");
    assert_eq!(toks[0].line, 1);
    assert_eq!(toks[1].kind, TokenKind::Number);
    assert_eq!(toks[2].kind, TokenKind::Eof);
}

#[test]
fn eof_repeats() {
    let mut lexer = Lexer::new("  ");
    assert_eq!(lexer.next_token().kind, TokenKind::Eof);
    assert_eq!(lexer.next_token().kind, TokenKind::Eof);
}
