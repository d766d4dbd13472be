use lib::lexer::Lexer;
use lib::span::{Pos, Span};
use lib::token::{Token, TokenKind};

fn lex(src: &str) -> Result<Vec<Token>, lib::token::LexError> {
    let mut lexer = Lexer::new(src);
    lexer.tokenize()
}

fn kinds(src: &str) -> Vec<TokenKind> {
    lex(src).unwrap().into_iter().map(|t| t.kind).collect()
}

fn num(s: &str) -> TokenKind {
    TokenKind::Number(s.to_string())
}

#[test]
fn lexes_operators_and_numbers() {
    assert_eq!(
        kinds("1+2"),
        vec![num("1"), TokenKind::Plus, num("2"), TokenKind::Eof]
    );
    assert_eq!(
        kinds("2*(3+1)"),
        vec![
            num("2"),
            TokenKind::Star,
            TokenKind::LParen,
            num("3"),
            TokenKind::Plus,
            num("1"),
            TokenKind::RParen,
            TokenKind::Eof
        ]
    );
    assert_eq!(
        kinds("- / % ^ { } , ; ="),
        vec![
            TokenKind::Minus,
            TokenKind::Slash,
            TokenKind::Percent,
            TokenKind::Caret,
            TokenKind::LBrace,
            TokenKind::RBrace,
            TokenKind::Comma,
            TokenKind::Semicolon,
            TokenKind::Assign,
            TokenKind::Eof
        ]
    );
}

#[test]
fn lexes_number_forms() {
    assert_eq!(kinds(".5"), vec![num(".5"), TokenKind::Eof]);
    assert_eq!(kinds("5."), vec![num("5."), TokenKind::Eof]);
    // a second dot starts a new literal when a digit follows it
    assert_eq!(kinds("1.2.3"), vec![num("1.2"), num(".3"), TokenKind::Eof]);
    assert_eq!(kinds("3.50"), vec![num("3.50"), TokenKind::Eof]);
}

#[test]
fn lexes_identifiers_and_keyword() {
    assert_eq!(
        kinds("let x_1 = lets"),
        vec![
            TokenKind::Let,
            TokenKind::Identifier("x_1".to_string()),
            TokenKind::Assign,
            TokenKind::Identifier("lets".to_string()),
            TokenKind::Eof
        ]
    );
    assert_eq!(kinds("_a9"), vec![TokenKind::Identifier("_a9".to_string()), TokenKind::Eof]);
}

#[test]
fn skips_comments_and_whitespace() {
    assert_eq!(kinds("  // nothing here\n 7 /* a\n block */ + 8"), vec![num("7"), TokenKind::Plus, num("8"), TokenKind::Eof]);
    // an unterminated block comment runs to the end of the text
    assert_eq!(kinds("1 /* open"), vec![num("1"), TokenKind::Eof]);
    assert_eq!(kinds(""), vec![TokenKind::Eof]);
    assert_eq!(kinds("\t\n "), vec![TokenKind::Eof]);
}

#[test]
fn tracks_lines_columns_and_offsets() {
    let toks = lex("a\n  bc").unwrap();
    assert_eq!(toks[0].span.start, Pos::new(0, 1, 1));
    assert_eq!(toks[0].span.end, Pos::new(1, 1, 2));
    assert_eq!(toks[1].span.start, Pos::new(4, 2, 3));
    assert_eq!(toks[1].span.end, Pos::new(6, 2, 5));
    // the Eof token has an empty span at the end
    assert_eq!(toks[2].span.start, Pos::new(6, 2, 5));
    assert_eq!(toks[2].span.end, Pos::new(6, 2, 5));
}

#[test]
fn offsets_count_bytes_columns_count_characters() {
    let toks = lex("/*é*/x").unwrap();
    assert_eq!(toks[0].kind, TokenKind::Identifier("x".to_string()));
    assert_eq!(toks[0].span.start, Pos::new(6, 1, 6));
    assert_eq!(toks[0].span.end, Pos::new(7, 1, 7));
}

#[test]
fn reports_unexpected_character() {
    let err = lex("1 + $").unwrap_err();
    assert_eq!(err.msg, "unexpected character '$'");
    assert_eq!(err.span.start, Pos::new(4, 1, 5));
    assert_eq!(err.span.end, Pos::new(5, 1, 6));
    assert_eq!(err.message(), "LexError at 1:5: unexpected character '$'");
    // a lone dot starts no token
    let err = lex("x\n.").unwrap_err();
    assert_eq!(err.message(), "LexError at 2:1: unexpected character '.'");
}

#[test]
fn token_constructors() {
    let p = Pos::new(3, 4, 5);
    assert_eq!((p.offset, p.line, p.col), (3, 4, 5));
    let s = Span::new(p, Pos::new(4, 4, 6));
    let t = Token::simple(TokenKind::Comma, s);
    assert_eq!(t.kind, TokenKind::Comma);
    assert_eq!(t.span.end.col, 6);
    let d = t.duplicate();
    assert_eq!(d.kind, TokenKind::Comma);
}

#[test]
fn spans_follow_source_order() {
    let toks = lex("let  total = (a1 + 22) * b // done\n/* c */ q").unwrap();
    for t in &toks {
        assert!(t.span.start.offset <= t.span.end.offset);
    }
    for w in toks.windows(2) {
        assert!(w[0].span.end.offset <= w[1].span.start.offset);
    }
    assert_eq!(toks.last().unwrap().kind, TokenKind::Eof);
    assert_eq!(toks.iter().filter(|t| t.kind == TokenKind::Eof).count(), 1);
}

#[test]
fn unicode_whitespace_separates_tokens() {
    // ideographic space, no-break space and next line are whitespace
    assert_eq!(kinds("\u{3000}1\u{a0}+\u{85}2"), vec![num("1"), TokenKind::Plus, num("2"), TokenKind::Eof]);
    let toks = lex("\u{2003}x").unwrap();
    assert_eq!(toks[0].span.start, Pos::new(3, 1, 2));
    // a zero width space is not whitespace
    let err = lex("1\u{200b}").unwrap_err();
    assert_eq!(err.msg, "unexpected character '\u{200b}'");
    assert_eq!(err.span.start, Pos::new(1, 1, 2));
}
