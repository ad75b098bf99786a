use awu::lexer::{is_blank, Lexer};
use awu::tokens::Token;

fn lex_all(input: &str) -> Vec<Token> {
    let mut lexer = Lexer::new(input);
    let mut out = Vec::new();
    loop {
        let tok = lexer.next_token();
        let end = tok == Token::EOF;
        out.push(tok);
        if end {
            break;
        }
    }
    out
}

fn word(s: &str) -> Token {
    Token::Word(s.to_string())
}

fn lit(s: &str) -> Token {
    Token::StringLiteral(s.to_string())
}

#[test]
fn lexer_parsing_test_1() {
    let mut lexer = Lexer::new(r#"grep "hello world" < in.txt | sort > out.txt &"#);
    loop {
        let tok = lexer.next_token();
        println!("{:?}", tok);
        if tok == Token::EOF {
            break;
        }
    }
}

#[test]
fn full_line_token_sequence() {
    assert_eq!(
        lex_all(r#"grep "hello world" < in.txt | sort > out.txt &"#),
        vec![
            word("grep"),
            lit("hello world"),
            Token::RedirectIn,
            word("in.txt"),
            Token::Pipe,
            word("sort"),
            Token::RedirectOut,
            word("out.txt"),
            Token::Background,
            Token::EOF,
        ]
    );
}

#[test]
fn two_words_then_eof_repeats() {
    let mut lexer = Lexer::new("a b");
    assert_eq!(lexer.next_token(), word("a"));
    assert_eq!(lexer.next_token(), word("b"));
    assert_eq!(lexer.next_token(), Token::EOF);
    assert_eq!(lexer.next_token(), Token::EOF);
    assert_eq!(lexer.next_token(), Token::EOF);
}

#[test]
fn double_quoted_literal() {
    assert_eq!(
        lex_all(r#"echo "hello world""#),
        vec![word("echo"), lit("hello world"), Token::EOF]
    );
}

#[test]
fn redirect_out_and_append() {
    assert_eq!(lex_all(">"), vec![Token::RedirectOut, Token::EOF]);
    assert_eq!(lex_all(">>"), vec![Token::RedirectAppend, Token::EOF]);
    assert_eq!(lex_all("> >"), vec![Token::RedirectOut, Token::RedirectOut, Token::EOF]);
    assert_eq!(lex_all(">>>"), vec![Token::RedirectAppend, Token::RedirectOut, Token::EOF]);
    assert_eq!(
        lex_all("a>>b"),
        vec![word("a"), Token::RedirectAppend, word("b"), Token::EOF]
    );
}

#[test]
fn unterminated_single_quote() {
    assert_eq!(lex_all("'abc"), vec![lit("abc"), Token::EOF]);
}

#[test]
fn unterminated_double_quote() {
    assert_eq!(lex_all("\"ab c"), vec![lit("ab c"), Token::EOF]);
    assert_eq!(lex_all("\"ab\\"), vec![lit("ab"), Token::EOF]);
}

#[test]
fn single_quote_keeps_backslash() {
    assert_eq!(lex_all(r"'a\b' c"), vec![lit(r"a\b"), word("c"), Token::EOF]);
}

#[test]
fn double_quote_escapes() {
    assert_eq!(lex_all(r#""a\"b\\c\n""#), vec![lit("a\"b\\cn"), Token::EOF]);
}

#[test]
fn other_operators() {
    assert_eq!(
        lex_all("| || & ( ) <"),
        vec![
            Token::Pipe,
            Token::Or,
            Token::Background,
            Token::LeftParen,
            Token::RightParen,
            Token::RedirectIn,
            Token::EOF,
        ]
    );
    assert_eq!(lex_all("&&"), vec![Token::Background, Token::Background, Token::EOF]);
}

#[test]
fn words_stop_at_reserved_characters() {
    assert_eq!(
        lex_all("a|b(c)d'e'"),
        vec![
            word("a"),
            Token::Pipe,
            word("b"),
            Token::LeftParen,
            word("c"),
            Token::RightParen,
            word("d"),
            lit("e"),
            Token::EOF,
        ]
    );
}

#[test]
fn empty_and_blank_input() {
    assert_eq!(lex_all(""), vec![Token::EOF]);
    assert_eq!(lex_all(" \t\n "), vec![Token::EOF]);
    assert_eq!(lex_all("\u{3000}x\u{a0}"), vec![word("x"), Token::EOF]);
}

#[test]
fn empty_quoted_literal() {
    assert_eq!(lex_all("''"), vec![lit(""), Token::EOF]);
}

#[test]
fn blank_matches_std_whitespace() {
    for n in 0u32..0x3100 {
        if let Some(c) = char::from_u32(n) {
            assert_eq!(is_blank(c), c.is_whitespace(), "{:?}", c);
        }
    }
}

#[test]
fn token_copied_is_equal() {
    let t = word("x");
    assert_eq!(t.copied(), t);
    assert_eq!(Token::Or.copied(), Token::Or);
}
