use rox::location::Location;
use rox::scanner::{reserved_token, Scanner};
use rox::token::{TokenErrorKind, TokenKind};
use rox::token::TokenKind as K;

fn kinds(src: &str) -> Vec<TokenKind> {
    let mut s = Scanner::new(src);
    let mut out = Vec::new();
    loop {
        let t = s.next_token();
        out.push(t.kind());
        if t.kind() == TokenKind::Eof {
            return out;
        }
        assert!(out.len() <= src.len() + 1, "scanner did not finish");
    }
}

fn lexemes(src: &str) -> Vec<Vec<u8>> {
    let mut s = Scanner::new(src);
    let mut out = Vec::new();
    loop {
        let t = s.next_token();
        if t.kind() == TokenKind::Eof {
            return out;
        }
        out.push(s.lexeme(&t));
    }
}

#[test]
fn single_chars() {
    assert_eq!(
        kinds("(){},-.;+*/"),
        vec![K::LeftParen, K::RightParen, K::LeftBrace, K::RightBrace, K::Comma, K::Minus, K::Dot, K::Semicolon, K::Plus, K::Star, K::Slash, K::Eof]
    );
}

#[test]
fn locations_of_single_chars() {
    let mut s = Scanner::new("(\n )");
    let t = s.next_token();
    assert_eq!(t.start_loc, Location { offset: 0, line: 0, column: 0 });
    assert_eq!(t.end_loc, Location { offset: 1, line: 0, column: 1 });
    let t = s.next_token();
    assert_eq!(t.kind(), TokenKind::RightParen);
    assert_eq!(t.start_loc, Location { offset: 3, line: 1, column: 1 });
    assert_eq!(t.end_loc, Location { offset: 4, line: 1, column: 2 });
}

#[test]
fn two_char_operators_win() {
    assert_eq!(kinds("!= == <= >="), vec![K::BangEqual, K::EqualEqual, K::LessEqual, K::GreaterEqual, K::Eof]);
    assert_eq!(kinds("! = < >"), vec![K::Bang, K::Equal, K::Less, K::Greater, K::Eof]);
    assert_eq!(kinds("!==="), vec![K::BangEqual, K::EqualEqual, K::Eof]);
}

#[test]
fn keywords_and_identifiers() {
    let words = [
        ("and", K::And),
        ("class", K::Class),
        ("else", K::Else),
        ("false", K::False),
        ("for", K::For),
        ("fun", K::Fun),
        ("if", K::If),
        ("nil", K::Nil),
        ("or", K::Or),
        ("print", K::Print),
        ("return", K::Return),
        ("super", K::Super),
        ("this", K::This),
        ("true", K::True),
        ("var", K::Var),
        ("while", K::While),
    ];
    for (w, k) in words {
        assert_eq!(kinds(w), vec![k, K::Eof]);
        assert_eq!(kinds(&format!("{}_", w)), vec![K::Identifier, K::Eof]);
        assert_eq!(reserved_token(w.as_bytes()), Some(k));
    }
    assert_eq!(kinds("_x1 y"), vec![K::Identifier, K::Identifier, K::Eof]);
    assert_eq!(reserved_token(b"While"), None);
}

#[test]
fn numbers() {
    assert_eq!(kinds("12 3.5 7."), vec![K::Number, K::Number, K::Number, K::Dot, K::Eof]);
    assert_eq!(lexemes("12 3.5 7."), vec![b"12".to_vec(), b"3.5".to_vec(), b"7".to_vec(), b".".to_vec()]);
}

#[test]
fn strings_keep_their_quotes_and_newlines() {
    let mut s = Scanner::new("\"a\nb\" x");
    let t = s.next_token();
    assert_eq!(t.kind(), TokenKind::String);
    assert_eq!(s.lexeme(&t), b"\"a\nb\"".to_vec());
    let t = s.next_token();
    assert_eq!(t.kind(), TokenKind::Identifier);
    assert_eq!(t.location().line, 1);
}

#[test]
fn unterminated_string() {
    assert_eq!(kinds("\"abc"), vec![TokenKind::Error(TokenErrorKind::UnterminatedString), TokenKind::Eof]);
}

#[test]
fn invalid_run_is_one_token() {
    assert_eq!(kinds("$@ +"), vec![K::Error(TokenErrorKind::InvalidLexeme), K::Plus, K::Eof]);
    assert_eq!(lexemes("$@ +")[0], b"$@ ".to_vec());
    // A run that reaches the end of the input ends there.
    assert_eq!(kinds("1 #"), vec![K::Number, K::Error(TokenErrorKind::InvalidLexeme), K::Eof]);
}

#[test]
fn comments_and_blanks_are_skipped() {
    assert_eq!(kinds("  // all of this\n\t1 // more"), vec![K::Number, K::Eof]);
    assert_eq!(kinds(""), vec![K::Eof]);
    assert_eq!(kinds("//"), vec![K::Eof]);
}

#[test]
fn eof_repeats() {
    let mut s = Scanner::new("x");
    assert_eq!(s.next_token().kind(), TokenKind::Identifier);
    for _ in 0..3 {
        assert_eq!(s.next_token().kind(), TokenKind::Eof);
    }
}

#[test]
fn lexemes_cover_every_other_byte_once() {
    let src = "(1 + 2) // c\n* \"s\" != nil";
    let joined: Vec<u8> = lexemes(src).concat();
    assert_eq!(joined, b"(1+2)*\"s\"!=nil".to_vec());
}

#[test]
fn location_advance_and_newline() {
    let mut l = Location::default();
    l.advance(b'a');
    assert_eq!(l, Location { offset: 1, line: 0, column: 1 });
    l.advance(b'\n');
    assert_eq!(l, Location { offset: 2, line: 1, column: 0 });
    l.ln();
    assert_eq!(l.offset(), 2);
    assert_eq!(l.line, 2);
}

#[test]
fn scan_tokens_stops_before_eof() {
    let mut s = Scanner::new("1 + (2)");
    let ts = s.scan_tokens();
    let kinds: Vec<TokenKind> = ts.iter().map(|t| t.kind()).collect();
    assert_eq!(kinds, vec![K::Number, K::Plus, K::LeftParen, K::Number, K::RightParen]);
    assert_eq!(ts[1].start_loc.offset, 2);
    assert_eq!(ts[1].end_loc.offset, 3);
    assert!(Scanner::new("   ").scan_tokens().is_empty());
}
