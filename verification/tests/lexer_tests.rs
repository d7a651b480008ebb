use lib::lexer::{Lexer, lexes_safely};
use lib::token::Token;

/// A number token: the literal's text, checked to read as `value`.
fn num_tok(text: &str, value: f64) -> Token {
    assert_eq!(text.parse::<f64>().unwrap(), value);
    Token::Number(text.into())
}

#[test]
fn test_symbols() {
    let tokens = Lexer::new("( ) [ ] { } + - * / , : . = == != < > <= >=").all();
    assert_eq!(tokens, vec![
        Token::LParen, Token::RParen, Token::LBrace, Token::RBrace,
        Token::LCurl,  Token::RCurl,  Token::Plus,   Token::Minus,
        Token::Mul,    Token::Div,    Token::Comma,  Token::Colon,
        Token::Dot,    Token::Eq,     Token::EqEq,   Token::NotEq,
        Token::Lt,     Token::Gt,     Token::LtEq,   Token::GtEq,
    ]);
}

#[test]
fn test_keywords() {
    assert_eq!(Lexer::new("let fn struct").all(), vec![Token::Let, Token::Fn, Token::Struct]);
}

#[test]
fn test_ident() {
    assert_eq!(Lexer::new("foo").all(), vec![Token::Ident("foo".into())]);
}

#[test]
fn test_number_int() {
    assert_eq!(Lexer::new("42").all(), vec![num_tok("42", 42.0)]);
}

#[test]
fn test_number_float() {
    assert_eq!(Lexer::new("3.14").all(), vec![num_tok("3.14", 3.14)]);
}

#[test]
fn test_string() {
    assert_eq!(Lexer::new(r#""hello""#).all(), vec![Token::String("hello".into())]);
}

#[test]
fn test_string_escape() {
    assert_eq!(Lexer::new(r#""a\"b""#).all(), vec![Token::String(r#"a\"b"#.into())]);
}

#[test]
fn if_and_else_are_keywords() {
    assert_eq!(Lexer::new("if else iffy elsewhere").all(), vec![
        Token::If, Token::Else, Token::Ident("iffy".into()), Token::Ident("elsewhere".into()),
    ]);
}

#[test]
fn idents_take_digits_after_the_first_letter() {
    assert_eq!(Lexer::new("a1 1a").all(), vec![
        Token::Ident("a1".into()),
        num_tok("1", 1.0),
        Token::Ident("a".into()),
    ]);
}

#[test]
fn latin1_letters_and_digits_make_idents() {
    // U+00AA is alphabetic and U+00B2 is numeric; each is two UTF-8 bytes
    // that the lexer classifies one at a time.
    assert_eq!(Lexer::new("\u{aa}\u{b2} x").all(), vec![
        Token::Ident("\u{aa}\u{b2}".into()),
        Token::Ident("x".into()),
    ]);
}

#[test]
fn every_latin1_letter_or_digit_byte_continues_an_ident() {
    // The second byte of each of these characters is alphabetic or numeric
    // when read as a Latin-1 character.
    let word = "x\u{aa}\u{b2}\u{b3}\u{b5}\u{b9}\u{ba}\u{bc}\u{bd}\u{be}";
    assert_eq!(Lexer::new(word).all(), vec![Token::Ident(word.into())]);
}

#[test]
fn other_punctuation_ends_the_tokens() {
    assert_eq!(Lexer::new("a # b").all(), vec![Token::Ident("a".into())]);
    assert_eq!(Lexer::new("a ; b").all(), vec![Token::Ident("a".into())]);
}

#[test]
fn number_takes_one_dot() {
    assert_eq!(Lexer::new("1.2.3").all(), vec![
        num_tok("1.2", 1.2),
        Token::Dot,
        num_tok("3", 3.0),
    ]);
}

#[test]
fn number_may_end_with_a_dot() {
    assert_eq!(Lexer::new("7.").all(), vec![num_tok("7.", 7.0)]);
}

#[test]
fn unterminated_string_runs_to_the_end() {
    assert_eq!(Lexer::new(r#""abc"#).all(), vec![Token::String("abc".into())]);
}

#[test]
fn backslash_at_the_end_of_a_string() {
    assert_eq!(Lexer::new("\"a\\").all(), vec![Token::String("a\\".into())]);
}

#[test]
fn bang_without_eq_ends_the_tokens() {
    assert_eq!(Lexer::new("a ! b").all(), vec![Token::Ident("a".into())]);
}

#[test]
fn next_resumes_after_a_lone_bang() {
    let mut lexer = Lexer::new("a ! b");
    assert_eq!(lexer.next(), Some(Token::Ident("a".into())));
    assert_eq!(lexer.next(), None);
    assert_eq!(lexer.next(), Some(Token::Ident("b".into())));
    assert_eq!(lexer.next(), None);
}

#[test]
fn unknown_byte_ends_the_tokens_for_good() {
    let mut lexer = Lexer::new("1 @ 2");
    assert_eq!(lexer.all(), vec![num_tok("1", 1.0)]);
    assert_eq!(lexer.next(), None);
    assert_eq!(lexer.next(), None);
}

#[test]
fn whitespace_is_skipped_between_tokens() {
    assert_eq!(Lexer::new(" \t\nlet\r\n x\x0c=  1 ").all(), Lexer::new("let x = 1").all());
}

#[test]
fn empty_source_has_no_tokens() {
    assert_eq!(Lexer::new("").all(), vec![]);
    assert_eq!(Lexer::new("   ").next(), None);
}

#[test]
fn comparison_pairs() {
    assert_eq!(Lexer::new("<<=>>====").all(), vec![
        Token::Lt, Token::LtEq, Token::Gt, Token::GtEq, Token::EqEq, Token::Eq,
    ]);
}

#[test]
fn lexer_current_advance_and_eof() {
    let mut lexer = Lexer::new("  ab");
    assert!(lexer.not_eof());
    lexer.skip_ws();
    assert_eq!(lexer.current(), b'a');
    lexer.advance();
    assert_eq!(lexer.current(), b'b');
    lexer.advance();
    assert!(!lexer.not_eof());
    lexer.advance();
    assert!(!lexer.not_eof());
}

#[test]
fn whitespace_between_tokens_can_be_replaced() {
    let spaced = Lexer::new("let x = \"a b\" + 1").all();
    assert_eq!(Lexer::new("let\tx\n=  \"a b\"\r\n+ 1").all(), spaced);
    assert_eq!(Lexer::new("   let x = \"a b\" + 1").all(), spaced);
    assert_ne!(Lexer::new("let x = \"a  b\" + 1").all(), spaced);
}

#[test]
fn whitespace_after_the_lexer_stops_is_not_read() {
    assert_eq!(Lexer::new("1 @ x  y").all(), Lexer::new("1 @ x y").all());
    assert_eq!(Lexer::new("1 @ x y").all(), vec![num_tok("1", 1.0)]);
}

#[test]
fn lexes_safely_on_ascii_and_in_strings() {
    assert!(lexes_safely("let x = 1 + 2"));
    assert!(lexes_safely(""));
    assert!(lexes_safely("let s = \"h\u{e9}llo \u{1F600}\""));
}

#[test]
fn lexes_safely_stops_where_the_lexer_stops() {
    // The lexer stays at `@` for good and never reaches the `\u{e9}`.
    assert!(lexes_safely("1 @ \u{e9}"));
}

#[test]
fn lexes_safely_finds_a_word_cut_inside_a_character() {
    assert!(!lexes_safely("\u{e9}"));
    assert!(!lexes_safely("let caf\u{e9} = 1"));
    // A lone `!` is stepped over, so the lexer goes on to the word.
    assert!(!lexes_safely("! \u{e9}"));
}
