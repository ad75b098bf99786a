use vstd::prelude::*;

verus! {

/// A lexical unit of a command line.
#[derive(Debug, PartialEq, Eq, Clone)]
pub enum Token {
    Word(String),
    StringLiteral(String),
    Pipe,
    And,
    Or,
    RedirectOut,
    RedirectAppend,
    RedirectIn,
    Background,
    LeftParen,
    RightParen,
    EOF,
}

/// The mathematical value of a `Token`: text payloads as character sequences.
pub ghost enum Tok {
    Word(Seq<char>),
    StringLiteral(Seq<char>),
    Pipe,
    And,
    Or,
    RedirectOut,
    RedirectAppend,
    RedirectIn,
    Background,
    LeftParen,
    RightParen,
    EOF,
}

impl View for Token {
    type V = Tok;

    open spec fn view(&self) -> Tok {
        match self {
            Token::Word(w) => Tok::Word(w@),
            Token::StringLiteral(s) => Tok::StringLiteral(s@),
            Token::Pipe => Tok::Pipe,
            Token::And => Tok::And,
            Token::Or => Tok::Or,
            Token::RedirectOut => Tok::RedirectOut,
            Token::RedirectAppend => Tok::RedirectAppend,
            Token::RedirectIn => Tok::RedirectIn,
            Token::Background => Tok::Background,
            Token::LeftParen => Tok::LeftParen,
            Token::RightParen => Tok::RightParen,
            Token::EOF => Tok::EOF,
        }
    }
}

impl Token {
    /// A token equal to this one.
    pub fn copied(&self) -> (r: Token)
        ensures
            r@ == self@,
    {
        match self {
            Token::Word(w) => Token::Word(w.clone()),
            Token::StringLiteral(s) => Token::StringLiteral(s.clone()),
            Token::Pipe => Token::Pipe,
            Token::And => Token::And,
            Token::Or => Token::Or,
            Token::RedirectOut => Token::RedirectOut,
            Token::RedirectAppend => Token::RedirectAppend,
            Token::RedirectIn => Token::RedirectIn,
            Token::Background => Token::Background,
            Token::LeftParen => Token::LeftParen,
            Token::RightParen => Token::RightParen,
            Token::EOF => Token::EOF,
        }
    }
}

} // verus!
