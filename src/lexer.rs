use vstd::prelude::*;
use vstd::string::*;
use crate::tokens::{Tok, Token};

verus! {

/// Unicode `White_Space`: the characters that separate tokens.
pub open spec fn is_white(c: char) -> bool {
    let n = c as u32;
    n == 0x20 || (0x09 <= n && n <= 0x0d) || n == 0x85 || n == 0xa0 || n == 0x1680 || (0x2000
        <= n && n <= 0x200a) || n == 0x2028 || n == 0x2029 || n == 0x202f || n == 0x205f || n
        == 0x3000
}

/// Characters that end an unquoted word and start an operator or a quoted literal.
pub open spec fn is_reserved(c: char) -> bool {
    c == '|' || c == '&' || c == '<' || c == '>' || c == '"' || c == '\'' || c == '(' || c == ')'
}

/// First position at or after `p` that does not hold whitespace.
pub open spec fn skip_white(s: Seq<char>, p: int) -> int
    decreases s.len() - p,
{
    if 0 <= p < s.len() && is_white(s[p]) {
        skip_white(s, p + 1)
    } else {
        p
    }
}

/// End of the unquoted word that starts at `p`.
pub open spec fn word_end(s: Seq<char>, p: int) -> int
    decreases s.len() - p,
{
    if 0 <= p < s.len() && !is_white(s[p]) && !is_reserved(s[p]) {
        word_end(s, p + 1)
    } else {
        p
    }
}

/// First position at or after `p` that holds a single quote, or the end of input.
pub open spec fn quote_end(s: Seq<char>, p: int) -> int
    decreases s.len() - p,
{
    if 0 <= p < s.len() && s[p] != '\'' {
        quote_end(s, p + 1)
    } else {
        p
    }
}

/// Text of a single-quoted literal whose body starts at `p`, and the position after it.
pub open spec fn single_quoted(s: Seq<char>, p: int) -> (Seq<char>, int) {
    let e = quote_end(s, p);
    (s.subrange(p, e), if e < s.len() { e + 1 } else { e })
}

/// Text of a double-quoted literal whose body starts at `p`, and the position after it.
/// A backslash takes the next character literally.
pub open spec fn double_quoted(s: Seq<char>, p: int) -> (Seq<char>, int)
    decreases s.len() - p,
{
    if p < 0 || p >= s.len() {
        (Seq::empty(), p)
    } else if s[p] == '"' {
        (Seq::empty(), p + 1)
    } else if s[p] == '\\' {
        if p + 1 < s.len() {
            let r = double_quoted(s, p + 2);
            (seq![s[p + 1]] + r.0, r.1)
        } else {
            (Seq::empty(), p + 1)
        }
    } else {
        let r = double_quoted(s, p + 1);
        (seq![s[p]] + r.0, r.1)
    }
}

/// The token that starts at or after position `p` of `s`, and the position after it.
pub open spec fn next_tok(s: Seq<char>, p: int) -> (Tok, int) {
    let q = skip_white(s, p);
    if q >= s.len() {
        (Tok::EOF, q)
    } else {
        let c = s[q];
        if c == '>' {
            if q + 1 < s.len() && s[q + 1] == '>' {
                (Tok::RedirectAppend, q + 2)
            } else {
                (Tok::RedirectOut, q + 1)
            }
        } else if c == '<' {
            (Tok::RedirectIn, q + 1)
        } else if c == '|' {
            if q + 1 < s.len() && s[q + 1] == '|' {
                (Tok::Or, q + 2)
            } else {
                (Tok::Pipe, q + 1)
            }
        } else if c == '&' {
            (Tok::Background, q + 1)
        } else if c == '(' {
            (Tok::LeftParen, q + 1)
        } else if c == ')' {
            (Tok::RightParen, q + 1)
        } else if c == '"' {
            let r = double_quoted(s, q + 1);
            (Tok::StringLiteral(r.0), r.1)
        } else if c == '\'' {
            let r = single_quoted(s, q + 1);
            (Tok::StringLiteral(r.0), r.1)
        } else {
            let e = word_end(s, q);
            (Tok::Word(s.subrange(q, e)), e)
        }
    }
}

/// Whether `c` is whitespace (Unicode `White_Space`, as `char::is_whitespace` documents).
pub fn is_blank(c: char) -> (r: bool)
    ensures
        r == is_white(c),
{
    let n = c as u32;
    n == 0x20 || (0x09 <= n && n <= 0x0d) || n == 0x85 || n == 0xa0 || n == 0x1680 || (0x2000
        <= n && n <= 0x200a) || n == 0x2028 || n == 0x2029 || n == 0x202f || n == 0x205f || n
        == 0x3000
}

/// Whether `c` is one of the operator and quote characters.
pub fn is_reserved_char(c: char) -> (r: bool)
    ensures
        r == is_reserved(c),
{
    c == '|' || c == '&' || c == '<' || c == '>' || c == '"' || c == '\'' || c == '(' || c == ')'
}

/// Relies on `String::push`: appends one character.
#[verifier::external_body]
pub(crate) fn push_char(s: &mut String, c: char)
    ensures
        final(s)@ == old(s)@.push(c),
{
    s.push(c)
}

/// Turns one line of text into tokens, one at a time.
pub struct Lexer {
    chars: Vec<char>,
    pos: usize,
}

impl Lexer {
    /// The characters of the line.
    pub closed spec fn text(&self) -> Seq<char> {
        self.chars@
    }

    /// The position of the next character to read.
    pub closed spec fn cursor(&self) -> int {
        self.pos as int
    }

    pub closed spec fn wf(&self) -> bool {
        self.pos <= self.chars.len()
    }

    pub proof fn lemma_cursor_in_text(&self)
        requires
            self.wf(),
        ensures
            0 <= self.cursor() <= self.text().len(),
    {
    }

    pub fn new(input: &str) -> (r: Lexer)
        ensures
            r.wf(),
            r.text() == input@,
            r.cursor() == 0,
    {
        let n = input.unicode_len();
        let mut chars: Vec<char> = Vec::new();
        let mut i: usize = 0;
        while i < n
            invariant
                n == input@.len(),
                i <= n,
                chars@ == input@.subrange(0, i as int),
            decreases n - i,
        {
            chars.push(input.get_char(i));
            i = i + 1;
        }
        Lexer { chars, pos: 0 }
    }

    fn peek(&self) -> (r: Option<char>)
        requires
            self.wf(),
        ensures
            self.pos < self.chars.len() ==> r == Some(self.chars@[self.pos as int]),
            self.pos >= self.chars.len() ==> r is None,
    {
        if self.pos < self.chars.len() {
            Some(self.chars[self.pos])
        } else {
            None
        }
    }

    fn next(&mut self) -> (r: Option<char>)
        requires
            old(self).wf(),
        ensures
            final(self).wf(),
            final(self).chars@ == old(self).chars@,
            old(self).pos < old(self).chars.len() ==> r == Some(old(self).chars@[old(self).pos as int])
                && final(self).pos == old(self).pos + 1,
            old(self).pos >= old(self).chars.len() ==> r is None && final(self).pos == old(self).pos,
    {
        if self.pos >= self.chars.len() {
            None
        } else {
            let ch = self.chars[self.pos];
            self.pos += 1;
            Some(ch)
        }
    }

    fn match_next(&mut self, expected: char) -> (r: bool)
        requires
            old(self).wf(),
        ensures
            final(self).wf(),
            final(self).chars@ == old(self).chars@,
            r == (old(self).pos < old(self).chars.len() && old(self).chars@[old(self).pos as int]
                == expected),
            final(self).pos == if r {
                old(self).pos + 1
            } else {
                old(self).pos as int
            },
    {
        match self.peek() {
            Some(c) => {
                if c == expected {
                    self.next();
                    true
                } else {
                    false
                }
            },
            None => false,
        }
    }

    fn skip_whitespace(&mut self)
        requires
            old(self).wf(),
        ensures
            final(self).wf(),
            final(self).chars@ == old(self).chars@,
            final(self).pos == skip_white(old(self).chars@, old(self).pos as int),
    {
        while self.pos < self.chars.len() && is_blank(self.chars[self.pos])
            invariant
                self.wf(),
                self.chars@ == old(self).chars@,
                skip_white(self.chars@, self.pos as int) == skip_white(
                    old(self).chars@,
                    old(self).pos as int,
                ),
            decreases self.chars.len() - self.pos,
        {
            self.pos += 1;
        }
    }

    fn read_word(&mut self) -> (r: Token)
        requires
            old(self).wf(),
        ensures
            final(self).wf(),
            final(self).chars@ == old(self).chars@,
            ({
                let e = word_end(old(self).chars@, old(self).pos as int);
                r@ == Tok::Word(old(self).chars@.subrange(old(self).pos as int, e))
                    && final(self).pos == e
            }),
    {
        let ghost p0 = self.pos as int;
        let mut buf = String::new();
        while self.pos < self.chars.len() && !is_blank(self.chars[self.pos]) && !is_reserved_char(
            self.chars[self.pos],
        )
            invariant
                self.wf(),
                self.chars@ == old(self).chars@,
                p0 == old(self).pos,
                p0 <= self.pos,
                buf@ == self.chars@.subrange(p0, self.pos as int),
                word_end(self.chars@, self.pos as int) == word_end(self.chars@, p0),
            decreases self.chars.len() - self.pos,
        {
            push_char(&mut buf, self.chars[self.pos]);
            proof {
                assert(self.chars@.subrange(p0, self.pos + 1) =~= self.chars@.subrange(
                    p0,
                    self.pos as int,
                ).push(self.chars@[self.pos as int]));
            }
            self.pos += 1;
        }
        Token::Word(buf)
    }

    fn read_single_quoted(&mut self) -> (r: Token)
        requires
            old(self).wf(),
            old(self).pos < old(self).chars.len(),
        ensures
            final(self).wf(),
            final(self).chars@ == old(self).chars@,
            ({
                let q = single_quoted(old(self).chars@, old(self).pos + 1);
                r@ == Tok::StringLiteral(q.0) && final(self).pos == q.1
            }),
    {
        self.next();
        let ghost p0 = self.pos as int;
        let mut buf = String::new();
        loop
            invariant
                self.wf(),
                self.chars@ == old(self).chars@,
                p0 == old(self).pos + 1,
                p0 <= self.pos,
                buf@ == self.chars@.subrange(p0, self.pos as int),
                quote_end(self.chars@, self.pos as int) == quote_end(self.chars@, p0),
            decreases self.chars.len() - self.pos,
        {
            let ghost p = self.pos as int;
            match self.next() {
                None => {
                    return Token::StringLiteral(buf);
                },
                Some(ch) => {
                    if ch == '\'' {
                        return Token::StringLiteral(buf);
                    }
                    push_char(&mut buf, ch);
                    proof {
                        assert(self.chars@.subrange(p0, p + 1) =~= self.chars@.subrange(
                            p0,
                            p,
                        ).push(ch));
                    }
                },
            }
        }
    }

    fn read_double_quoted(&mut self) -> (r: Token)
        requires
            old(self).wf(),
            old(self).pos < old(self).chars.len(),
        ensures
            final(self).wf(),
            final(self).chars@ == old(self).chars@,
            ({
                let q = double_quoted(old(self).chars@, old(self).pos + 1);
                r@ == Tok::StringLiteral(q.0) && final(self).pos == q.1
            }),
    {
        self.next();
        let ghost s = self.chars@;
        let ghost p0 = self.pos as int;
        let mut buf = String::new();
        loop
            invariant
                self.wf(),
                self.chars@ == s,
                s == old(self).chars@,
                p0 == old(self).pos + 1,
                ({
                    let whole = double_quoted(s, p0);
                    let rest = double_quoted(s, self.pos as int);
                    whole.0 == buf@ + rest.0 && whole.1 == rest.1
                }),
            decreases self.chars.len() - self.pos,
        {
            let ghost p = self.pos as int;
            let ghost b = buf@;
            match self.next() {
                None => {
                    assert(buf@ + Seq::<char>::empty() =~= buf@);
                    return Token::StringLiteral(buf);
                },
                Some(ch) => {
                    if ch == '"' {
                        assert(buf@ + Seq::<char>::empty() =~= buf@);
                        return Token::StringLiteral(buf);
                    } else if ch == '\\' {
                        let ghost p1 = self.pos as int;
                        match self.next() {
                            Some(esc) => {
                                push_char(&mut buf, esc);
                                assert(b + (seq![esc] + double_quoted(s, p + 2).0) =~= buf@
                                    + double_quoted(s, p + 2).0);
                            },
                            None => {
                                assert(buf@ + Seq::<char>::empty() =~= buf@);
                                return Token::StringLiteral(buf);
                            },
                        }
                    } else {
                        push_char(&mut buf, ch);
                        assert(b + (seq![ch] + double_quoted(s, p + 1).0) =~= buf@
                            + double_quoted(s, p + 1).0);
                    }
                },
            }
        }
    }

    /// Reads the next token; at the end of input it returns `EOF`, on every call.
    pub fn next_token(&mut self) -> (r: Token)
        requires
            old(self).wf(),
        ensures
            final(self).wf(),
            final(self).text() == old(self).text(),
            (r@, final(self).cursor()) == next_tok(old(self).text(), old(self).cursor()),
    {
        self.skip_whitespace();
        let ch = match self.peek() {
            Some(c) => c,
            None => return Token::EOF,
        };
        if ch == '>' {
            self.next();
            if self.match_next('>') {
                return Token::RedirectAppend;
            }
            return Token::RedirectOut;
        } else if ch == '<' {
            self.next();
            return Token::RedirectIn;
        } else if ch == '|' {
            self.next();
            if self.match_next('|') {
                return Token::Or;
            }
            return Token::Pipe;
        } else if ch == '&' {
            self.next();
            return Token::Background;
        } else if ch == '(' {
            self.next();
            return Token::LeftParen;
        } else if ch == ')' {
            self.next();
            return Token::RightParen;
        } else if ch == '"' {
            return self.read_double_quoted();
        } else if ch == '\'' {
            return self.read_single_quoted();
        } else {
            return self.read_word();
        }
    }
}

/// The tokens of `s` from position `p` on, at most `n` of them, ending with `EOF`.
pub open spec fn lex_from(s: Seq<char>, p: int, n: nat) -> Seq<Tok>
    decreases n,
{
    if n == 0 {
        Seq::empty()
    } else {
        let (t, q) = next_tok(s, p);
        if t is EOF {
            seq![Tok::EOF]
        } else {
            seq![t] + lex_from(s, q, (n - 1) as nat)
        }
    }
}

/// The whole token stream of a line, ending with `EOF`.
pub open spec fn tokens(s: Seq<char>) -> Seq<Tok> {
    lex_from(s, 0, s.len() + 1)
}

proof fn lemma_skip_white_bounds(s: Seq<char>, p: int)
    requires
        0 <= p <= s.len(),
    ensures
        p <= skip_white(s, p) <= s.len(),
        skip_white(s, p) < s.len() ==> !is_white(s[skip_white(s, p)]),
    decreases s.len() - p,
{
    if p < s.len() && is_white(s[p]) {
        lemma_skip_white_bounds(s, p + 1);
    }
}

proof fn lemma_word_end_bounds(s: Seq<char>, p: int)
    requires
        0 <= p <= s.len(),
    ensures
        p <= word_end(s, p) <= s.len(),
    decreases s.len() - p,
{
    if p < s.len() && !is_white(s[p]) && !is_reserved(s[p]) {
        lemma_word_end_bounds(s, p + 1);
    }
}

proof fn lemma_quote_end_bounds(s: Seq<char>, p: int)
    requires
        0 <= p <= s.len(),
    ensures
        p <= quote_end(s, p) <= s.len(),
    decreases s.len() - p,
{
    if p < s.len() && s[p] != '\'' {
        lemma_quote_end_bounds(s, p + 1);
    }
}

proof fn lemma_double_quoted_bounds(s: Seq<char>, p: int)
    requires
        0 <= p <= s.len(),
    ensures
        p <= double_quoted(s, p).1 <= s.len(),
    decreases s.len() - p,
{
    if p < s.len() && s[p] != '"' {
        if s[p] == '\\' {
            if p + 1 < s.len() {
                lemma_double_quoted_bounds(s, p + 2);
            }
        } else {
            lemma_double_quoted_bounds(s, p + 1);
        }
    }
}

/// Every token but `EOF` consumes at least one character; `EOF` leaves the cursor at the end.
pub proof fn lemma_next_tok_progress(s: Seq<char>, p: int)
    requires
        0 <= p <= s.len(),
    ensures
        p <= next_tok(s, p).1 <= s.len(),
        next_tok(s, p).0 is EOF ==> next_tok(s, p).1 == s.len(),
        !(next_tok(s, p).0 is EOF) ==> p < next_tok(s, p).1,
{
    let q = skip_white(s, p);
    lemma_skip_white_bounds(s, p);
    if q < s.len() {
        lemma_double_quoted_bounds(s, q + 1);
        lemma_quote_end_bounds(s, q + 1);
        lemma_word_end_bounds(s, q);
        if !is_reserved(s[q]) {
            assert(word_end(s, q) == word_end(s, q + 1));
            lemma_word_end_bounds(s, q + 1);
        }
    }
}

/// Any bound on the number of tokens that is at least the characters left, plus one,
/// gives the same stream.
pub proof fn lemma_lex_fuel(s: Seq<char>, p: int, n: nat, m: nat)
    requires
        0 <= p <= s.len(),
        n >= s.len() - p + 1,
        m >= s.len() - p + 1,
    ensures
        lex_from(s, p, n) == lex_from(s, p, m),
    decreases n,
{
    lemma_next_tok_progress(s, p);
    let (t, q) = next_tok(s, p);
    if !(t is EOF) {
        lemma_lex_fuel(s, q, (n - 1) as nat, (m - 1) as nat);
    }
}

} // verus!
