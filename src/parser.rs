use vstd::prelude::*;
use crate::lexer::{Lexer, lex_from, next_tok, tokens, lemma_lex_fuel, lemma_next_tok_progress};
use crate::tokens::{Tok, Token};

verus! {

/// One program invocation with its arguments and redirections.
#[derive(Debug)]
pub struct SimpleCommand {
    pub program: String,
    pub arg: Vec<String>,
    pub redirect_in: Option<String>,
    pub redirect_out: Option<String>,
    pub append: bool,
}

/// A single command, or two or more commands joined by pipes.
#[derive(Debug)]
pub enum Command {
    Pipeline { commands: Vec<SimpleCommand>, background: bool },
    Single(SimpleCommand),
}

/// Why a line could not be parsed.
#[derive(Debug, PartialEq, Eq)]
pub enum ParseError {
    /// No program name before an operator or the end of the line.
    MissingProgram,
    /// A redirection operator not followed by a word.
    ExpectedFilename(Token),
    /// A token left over after a complete pipeline.
    UnexpectedToken(Token),
}

/// The value of a `SimpleCommand`.
pub ghost struct SimpleCmd {
    pub program: Seq<char>,
    pub args: Seq<Seq<char>>,
    pub redirect_in: Option<Seq<char>>,
    pub redirect_out: Option<Seq<char>>,
    pub append: bool,
}

/// The value of a `Command`.
pub ghost enum Cmd {
    Pipeline { commands: Seq<SimpleCmd>, background: bool },
    Single(SimpleCmd),
}

/// The value of a `ParseError`.
pub ghost enum PErr {
    MissingProgram,
    ExpectedFilename(Tok),
    UnexpectedToken(Tok),
}

pub open spec fn opt_text(o: Option<String>) -> Option<Seq<char>> {
    match o {
        Some(s) => Some(s@),
        None => None,
    }
}

pub open spec fn texts(v: Seq<String>) -> Seq<Seq<char>> {
    v.map_values(|s: String| s@)
}

impl View for SimpleCommand {
    type V = SimpleCmd;

    open spec fn view(&self) -> SimpleCmd {
        SimpleCmd {
            program: self.program@,
            args: texts(self.arg@),
            redirect_in: opt_text(self.redirect_in),
            redirect_out: opt_text(self.redirect_out),
            append: self.append,
        }
    }
}

pub open spec fn cmds_view(v: Seq<SimpleCommand>) -> Seq<SimpleCmd> {
    v.map_values(|c: SimpleCommand| c@)
}

impl View for Command {
    type V = Cmd;

    open spec fn view(&self) -> Cmd {
        match self {
            Command::Pipeline { commands, background } => Cmd::Pipeline {
                commands: cmds_view(commands@),
                background: *background,
            },
            Command::Single(c) => Cmd::Single(c@),
        }
    }
}

impl View for ParseError {
    type V = PErr;

    open spec fn view(&self) -> PErr {
        match self {
            ParseError::MissingProgram => PErr::MissingProgram,
            ParseError::ExpectedFilename(t) => PErr::ExpectedFilename(t@),
            ParseError::UnexpectedToken(t) => PErr::UnexpectedToken(t@),
        }
    }
}

pub open spec fn result_view(r: Result<Command, ParseError>) -> Result<Cmd, PErr> {
    match r {
        Ok(c) => Ok(c@),
        Err(e) => Err(e@),
    }
}

/// A simple command while its tokens are being read.
pub ghost struct Draft {
    pub program: Option<Seq<char>>,
    pub args: Seq<Seq<char>>,
    pub redirect_in: Option<Seq<char>>,
    pub redirect_out: Option<Seq<char>>,
    pub append: bool,
}

pub open spec fn empty_draft() -> Draft {
    Draft {
        program: None,
        args: Seq::empty(),
        redirect_in: None,
        redirect_out: None,
        append: false,
    }
}

/// The first word names the program; later ones are arguments.
pub open spec fn with_word(d: Draft, w: Seq<char>) -> Draft {
    if d.program is None {
        Draft { program: Some(w), ..d }
    } else {
        Draft { args: d.args.push(w), ..d }
    }
}

pub open spec fn has_program(d: Draft) -> bool {
    d.program is Some && d.program->0.len() > 0
}

pub open spec fn draft_cmd(d: Draft) -> SimpleCmd {
    SimpleCmd {
        program: d.program->0,
        args: d.args,
        redirect_in: d.redirect_in,
        redirect_out: d.redirect_out,
        append: d.append,
    }
}

pub open spec fn cmd_draft(c: SimpleCmd) -> Draft {
    Draft {
        program: Some(c.program),
        args: c.args,
        redirect_in: c.redirect_in,
        redirect_out: c.redirect_out,
        append: c.append,
    }
}

/// Tokens that end a simple command.
pub open spec fn ends_command(t: Tok) -> bool {
    !(t is Word || t is StringLiteral || t is RedirectIn || t is RedirectOut
        || t is RedirectAppend)
}

/// Adds `k` to the number of tokens used by a successful result.
pub open spec fn shift<A>(r: Result<(A, nat), PErr>, k: nat) -> Result<(A, nat), PErr> {
    match r {
        Ok((a, n)) => Ok((a, n + k)),
        Err(e) => Err(e),
    }
}

/// Reads words and redirections from the front of `ts` into the draft `d`, up to the first
/// token that ends a simple command: the draft then, and the number of tokens read.
pub open spec fn scan_stage(ts: Seq<Tok>, d: Draft) -> Result<(Draft, nat), PErr>
    decreases ts.len(),
{
    if ts.len() == 0 {
        Ok((d, 0))
    } else {
        match ts[0] {
            Tok::Word(w) => shift(scan_stage(ts.drop_first(), with_word(d, w)), 1),
            Tok::StringLiteral(w) => shift(scan_stage(ts.drop_first(), with_word(d, w)), 1),
            Tok::RedirectIn => if ts.len() > 1 && ts[1] is Word {
                shift(
                    scan_stage(
                        ts.subrange(2, ts.len() as int),
                        Draft { redirect_in: Some(ts[1]->Word_0), ..d },
                    ),
                    2,
                )
            } else {
                Err(PErr::ExpectedFilename(Tok::RedirectIn))
            },
            Tok::RedirectOut => if ts.len() > 1 && ts[1] is Word {
                shift(
                    scan_stage(
                        ts.subrange(2, ts.len() as int),
                        Draft { redirect_out: Some(ts[1]->Word_0), append: false, ..d },
                    ),
                    2,
                )
            } else {
                Err(PErr::ExpectedFilename(Tok::RedirectOut))
            },
            Tok::RedirectAppend => if ts.len() > 1 && ts[1] is Word {
                shift(
                    scan_stage(
                        ts.subrange(2, ts.len() as int),
                        Draft { redirect_out: Some(ts[1]->Word_0), append: true, ..d },
                    ),
                    2,
                )
            } else {
                Err(PErr::ExpectedFilename(Tok::RedirectAppend))
            },
            _ => Ok((d, 0)),
        }
    }
}

/// The simple command at the front of `ts` and the number of tokens it takes, or the error.
pub open spec fn stage(ts: Seq<Tok>) -> Result<(SimpleCmd, nat), PErr> {
    match scan_stage(ts, empty_draft()) {
        Err(e) => Err(e),
        Ok((d, n)) => if has_program(d) {
            Ok((draft_cmd(d), n))
        } else {
            Err(PErr::MissingProgram)
        },
    }
}

/// The command once its last stage `d` is complete; `used` tokens were read.
pub open spec fn finish(done: Seq<SimpleCmd>, d: Draft, background: bool, used: nat) -> Result<
    (Cmd, nat),
    PErr,
> {
    if !has_program(d) {
        Err(PErr::MissingProgram)
    } else {
        let all = done.push(draft_cmd(d));
        if all.len() == 1 {
            Ok((Cmd::Single(all[0]), used))
        } else {
            Ok((Cmd::Pipeline { commands: all, background }, used))
        }
    }
}

/// The pipeline at the front of `ts`, and the number of tokens it takes (an `&` that
/// follows it included): `done` holds the finished stages, `d` the stage being read.
pub open spec fn pipe_from(ts: Seq<Tok>, done: Seq<SimpleCmd>, d: Draft) -> Result<
    (Cmd, nat),
    PErr,
>
    decreases ts.len(),
{
    if ts.len() == 0 {
        finish(done, d, false, 0)
    } else {
        match ts[0] {
            Tok::Word(w) => shift(pipe_from(ts.drop_first(), done, with_word(d, w)), 1),
            Tok::StringLiteral(w) => shift(pipe_from(ts.drop_first(), done, with_word(d, w)), 1),
            Tok::RedirectIn => if ts.len() > 1 && ts[1] is Word {
                shift(
                    pipe_from(
                        ts.subrange(2, ts.len() as int),
                        done,
                        Draft { redirect_in: Some(ts[1]->Word_0), ..d },
                    ),
                    2,
                )
            } else {
                Err(PErr::ExpectedFilename(Tok::RedirectIn))
            },
            Tok::RedirectOut => if ts.len() > 1 && ts[1] is Word {
                shift(
                    pipe_from(
                        ts.subrange(2, ts.len() as int),
                        done,
                        Draft { redirect_out: Some(ts[1]->Word_0), append: false, ..d },
                    ),
                    2,
                )
            } else {
                Err(PErr::ExpectedFilename(Tok::RedirectOut))
            },
            Tok::RedirectAppend => if ts.len() > 1 && ts[1] is Word {
                shift(
                    pipe_from(
                        ts.subrange(2, ts.len() as int),
                        done,
                        Draft { redirect_out: Some(ts[1]->Word_0), append: true, ..d },
                    ),
                    2,
                )
            } else {
                Err(PErr::ExpectedFilename(Tok::RedirectAppend))
            },
            Tok::Pipe => if !has_program(d) {
                Err(PErr::MissingProgram)
            } else {
                shift(pipe_from(ts.drop_first(), done.push(draft_cmd(d)), empty_draft()), 1)
            },
            Tok::Background => finish(done, d, true, 1),
            _ => finish(done, d, false, 0),
        }
    }
}

/// The pipeline at the front of `ts` and the number of tokens it takes, or the error.
pub open spec fn pipeline(ts: Seq<Tok>) -> Result<(Cmd, nat), PErr> {
    pipe_from(ts, Seq::empty(), empty_draft())
}

/// The grammar over a whole token stream: one pipeline, then `EOF`.
pub open spec fn parse_tokens(ts: Seq<Tok>) -> Result<Cmd, PErr> {
    match pipeline(ts) {
        Err(e) => Err(e),
        Ok((c, n)) => if n < ts.len() && !(ts[n as int] is EOF) {
            Err(PErr::UnexpectedToken(ts[n as int]))
        } else {
            Ok(c)
        },
    }
}

/// Reading a stage and then going on with the pipeline is the same as reading the pipeline.
pub proof fn lemma_pipe_from_scan(ts: Seq<Tok>, done: Seq<SimpleCmd>, d: Draft)
    ensures
        scan_stage(ts, d) matches Ok((d2, n)) ==> n <= ts.len() && (n < ts.len()
            ==> ends_command(ts[n as int])) && pipe_from(ts, done, d) == shift(
            pipe_from(ts.subrange(n as int, ts.len() as int), done, d2),
            n,
        ),
        scan_stage(ts, d) matches Err(e) ==> pipe_from(ts, done, d) == Err::<(Cmd, nat), PErr>(e),
    decreases ts.len(),
{
    if ts.len() > 0 {
        let t = ts.drop_first();
        let t2 = ts.subrange(2, ts.len() as int);
        match ts[0] {
            Tok::Word(w) => {
                lemma_pipe_from_scan(t, done, with_word(d, w));
                if let Ok((d2, n)) = scan_stage(t, with_word(d, w)) {
                    assert(t.subrange(n as int, t.len() as int) =~= ts.subrange(
                        (n + 1) as int,
                        ts.len() as int,
                    ));
                }
            },
            Tok::StringLiteral(w) => {
                lemma_pipe_from_scan(t, done, with_word(d, w));
                if let Ok((d2, n)) = scan_stage(t, with_word(d, w)) {
                    assert(t.subrange(n as int, t.len() as int) =~= ts.subrange(
                        (n + 1) as int,
                        ts.len() as int,
                    ));
                }
            },
            Tok::RedirectIn => if ts.len() > 1 && ts[1] is Word {
                let d1 = Draft { redirect_in: Some(ts[1]->Word_0), ..d };
                lemma_pipe_from_scan(t2, done, d1);
                if let Ok((d2, n)) = scan_stage(t2, d1) {
                    assert(t2.subrange(n as int, t2.len() as int) =~= ts.subrange(
                        (n + 2) as int,
                        ts.len() as int,
                    ));
                }
            },
            Tok::RedirectOut => if ts.len() > 1 && ts[1] is Word {
                let d1 = Draft { redirect_out: Some(ts[1]->Word_0), append: false, ..d };
                lemma_pipe_from_scan(t2, done, d1);
                if let Ok((d2, n)) = scan_stage(t2, d1) {
                    assert(t2.subrange(n as int, t2.len() as int) =~= ts.subrange(
                        (n + 2) as int,
                        ts.len() as int,
                    ));
                }
            },
            Tok::RedirectAppend => if ts.len() > 1 && ts[1] is Word {
                let d1 = Draft { redirect_out: Some(ts[1]->Word_0), append: true, ..d };
                lemma_pipe_from_scan(t2, done, d1);
                if let Ok((d2, n)) = scan_stage(t2, d1) {
                    assert(t2.subrange(n as int, t2.len() as int) =~= ts.subrange(
                        (n + 2) as int,
                        ts.len() as int,
                    ));
                }
            },
            _ => {
                assert(ts.subrange(0, ts.len() as int) =~= ts);
            },
        }
    } else {
        assert(ts.subrange(0, 0) =~= ts);
    }
}

/// A stage that ends without a program makes the pipeline fail with `MissingProgram`.
proof fn lemma_pipe_from_no_program(ts: Seq<Tok>, done: Seq<SimpleCmd>, d: Draft)
    requires
        !has_program(d),
        ts.len() > 0 ==> ends_command(ts[0]),
    ensures
        pipe_from(ts, done, d) == Err::<(Cmd, nat), PErr>(PErr::MissingProgram),
{
}

/// Reading one simple command and then going on with the pipeline is the same as reading
/// the pipeline.
pub proof fn lemma_pipe_from_stage(ts: Seq<Tok>, done: Seq<SimpleCmd>)
    ensures
        stage(ts) matches Ok((c, n)) ==> n <= ts.len() && (n < ts.len() ==> ends_command(
            ts[n as int],
        )) && pipe_from(ts, done, empty_draft()) == shift(
            pipe_from(ts.subrange(n as int, ts.len() as int), done, cmd_draft(c)),
            n,
        ),
        stage(ts) matches Err(e) ==> pipe_from(ts, done, empty_draft()) == Err::<
            (Cmd, nat),
            PErr,
        >(e),
{
    lemma_pipe_from_scan(ts, done, empty_draft());
    if let Ok((d2, n)) = scan_stage(ts, empty_draft()) {
        let rest = ts.subrange(n as int, ts.len() as int);
        if has_program(d2) {
            assert(cmd_draft(draft_cmd(d2)) == d2);
        } else {
            lemma_pipe_from_no_program(rest, done, d2);
        }
    }
}

/// A command is well formed when every stage names a program and a pipeline has at least
/// two stages.
pub open spec fn cmd_wf(c: Cmd) -> bool {
    match c {
        Cmd::Single(sc) => sc.program.len() > 0,
        Cmd::Pipeline { commands, background } => commands.len() >= 2 && forall|i: int|
            0 <= i < commands.len() ==> (#[trigger] commands[i]).program.len() > 0,
    }
}

/// What parsing the line `s` gives.
pub open spec fn parse_line(s: Seq<char>) -> Result<Cmd, PErr> {
    parse_tokens(tokens(s))
}

/// Recursive-descent parser with one token of lookahead.
pub struct Parser {
    lexer: Lexer,
    current: Token,
}

impl Parser {
    pub closed spec fn wf(&self) -> bool {
        self.lexer.wf()
    }

    /// The tokens not yet consumed, the lookahead first.
    pub closed spec fn remaining(&self) -> Seq<Tok> {
        let s = self.lexer.text();
        let p = self.lexer.cursor();
        if self.current@ is EOF {
            seq![Tok::EOF]
        } else {
            seq![self.current@] + lex_from(s, p, (s.len() - p + 1) as nat)
        }
    }

    pub fn new(input: &str) -> (r: Parser)
        ensures
            r.wf(),
            r.remaining() == tokens(input@),
    {
        let mut lexer = Lexer::new(input);
        let current = lexer.next_token();
        proof {
            let s = input@;
            lemma_next_tok_progress(s, 0);
            if !(current@ is EOF) {
                let q = next_tok(s, 0).1;
                lemma_lex_fuel(s, q, s.len() as nat, (s.len() - q + 1) as nat);
            }
        }
        Parser { lexer, current }
    }

    proof fn lemma_remaining(&self)
        requires
            self.wf(),
        ensures
            self.remaining().len() >= 1,
            self.remaining()[0] == self.current@,
    {
    }

    fn advance(&mut self)
        requires
            old(self).wf(),
            !(old(self).current@ is EOF),
        ensures
            final(self).wf(),
            final(self).remaining() == old(self).remaining().drop_first(),
    {
        let ghost s = self.lexer.text();
        let ghost p = self.lexer.cursor();
        proof {
            self.lexer.lemma_cursor_in_text();
        }
        self.current = self.lexer.next_token();
        proof {
            lemma_next_tok_progress(s, p);
            let q = next_tok(s, p).1;
            let k = (s.len() - p + 1) as nat;
            assert(lex_from(s, p, k) == if next_tok(s, p).0 is EOF {
                seq![Tok::EOF]
            } else {
                seq![next_tok(s, p).0] + lex_from(s, q, (k - 1) as nat)
            });
            if !(self.current@ is EOF) {
                lemma_lex_fuel(s, q, (k - 1) as nat, (s.len() - q + 1) as nat);
            }
            assert(old(self).remaining().drop_first() =~= self.remaining());
        }
    }

    fn parse_simple_command(&mut self) -> (r: Result<SimpleCommand, ParseError>)
        requires
            old(self).wf(),
        ensures
            final(self).wf(),
            match stage(old(self).remaining()) {
                Ok((c, n)) => r matches Ok(x) && x@ == c && final(self).remaining() == old(
                    self,
                ).remaining().subrange(n as int, old(self).remaining().len() as int),
                Err(e) => r matches Err(x) && x@ == e,
            },
    {
        let ghost ts0 = self.remaining();
        let ghost mut k: int = 0;
        let mut program: Option<String> = None;
        let mut args: Vec<String> = Vec::new();
        let mut redirect_in: Option<String> = None;
        let mut redirect_out: Option<String> = None;
        let mut append = false;
        assert(texts(args@) =~= Seq::<Seq<char>>::empty());
        assert(ts0.subrange(0, ts0.len() as int) =~= ts0);
        loop
            invariant
                self.wf(),
                ts0 == old(self).remaining(),
                0 <= k <= ts0.len(),
                self.remaining() == ts0.subrange(k, ts0.len() as int),
                scan_stage(ts0, empty_draft()) == shift(
                    scan_stage(
                        self.remaining(),
                        Draft {
                            program: opt_text(program),
                            args: texts(args@),
                            redirect_in: opt_text(redirect_in),
                            redirect_out: opt_text(redirect_out),
                            append,
                        },
                    ),
                    k as nat,
                ),
            ensures
                self.wf(),
                0 <= k <= ts0.len(),
                self.remaining() == ts0.subrange(k, ts0.len() as int),
                ends_command(self.current@),
                scan_stage(ts0, empty_draft()) == shift(
                    scan_stage(
                        self.remaining(),
                        Draft {
                            program: opt_text(program),
                            args: texts(args@),
                            redirect_in: opt_text(redirect_in),
                            redirect_out: opt_text(redirect_out),
                            append,
                        },
                    ),
                    k as nat,
                ),
            decreases self.remaining().len(),
        {
            proof {
                self.lemma_remaining();
            }
            let ghost ts = self.remaining();
            assert(ts.drop_first() =~= ts0.subrange(k + 1, ts0.len() as int));
            match &self.current {
                Token::Word(w) | Token::StringLiteral(w) => {
                    let w = w.clone();
                    let ghost wv = w@;
                    let ghost a0 = args@;
                    if program.is_none() {
                        program = Some(w);
                    } else {
                        args.push(w);
                        assert(texts(args@) =~= texts(a0).push(wv));
                    }
                    self.advance();
                    proof {
                        k = k + 1;
                    }
                },
                Token::RedirectIn => {
                    self.advance();
                    proof {
                        self.lemma_remaining();
                    }
                    match &self.current {
                        Token::Word(file) => {
                            redirect_in = Some(file.clone());
                            self.advance();
                            assert(self.remaining() =~= ts.subrange(2, ts.len() as int));
                            assert(self.remaining() =~= ts0.subrange(k + 2, ts0.len() as int));
                            proof {
                                k = k + 2;
                            }
                        },
                        _ => {
                            return Err(ParseError::ExpectedFilename(Token::RedirectIn));
                        },
                    }
                },
                Token::RedirectOut => {
                    self.advance();
                    proof {
                        self.lemma_remaining();
                    }
                    match &self.current {
                        Token::Word(file) => {
                            redirect_out = Some(file.clone());
                            append = false;
                            self.advance();
                            assert(self.remaining() =~= ts.subrange(2, ts.len() as int));
                            assert(self.remaining() =~= ts0.subrange(k + 2, ts0.len() as int));
                            proof {
                                k = k + 2;
                            }
                        },
                        _ => {
                            return Err(ParseError::ExpectedFilename(Token::RedirectOut));
                        },
                    }
                },
                Token::RedirectAppend => {
                    self.advance();
                    proof {
                        self.lemma_remaining();
                    }
                    match &self.current {
                        Token::Word(file) => {
                            redirect_out = Some(file.clone());
                            append = true;
                            self.advance();
                            assert(self.remaining() =~= ts.subrange(2, ts.len() as int));
                            assert(self.remaining() =~= ts0.subrange(k + 2, ts0.len() as int));
                            proof {
                                k = k + 2;
                            }
                        },
                        _ => {
                            return Err(ParseError::ExpectedFilename(Token::RedirectAppend));
                        },
                    }
                },
                _ => break,
            }
        }
        proof {
            self.lemma_remaining();
        }
        match program {
            Some(p) => {
                if p.as_str().is_empty() {
                    Err(ParseError::MissingProgram)
                } else {
                    Ok(SimpleCommand { program: p, arg: args, redirect_in, redirect_out, append })
                }
            },
            None => Err(ParseError::MissingProgram),
        }
    }

    fn parse_pipeline(&mut self) -> (r: Result<Command, ParseError>)
        requires
            old(self).wf(),
        ensures
            final(self).wf(),
            match pipeline(old(self).remaining()) {
                Ok((c, n)) => r matches Ok(x) && x@ == c && n <= old(self).remaining().len()
                    && final(self).remaining() == old(
                    self,
                ).remaining().subrange(n as int, old(self).remaining().len() as int),
                Err(e) => r matches Err(x) && x@ == e,
            },
    {
        let ghost ts0 = self.remaining();
        proof {
            lemma_pipe_from_stage(ts0, Seq::empty());
        }
        let first = match self.parse_simple_command() {
            Ok(c) => c,
            Err(e) => return Err(e),
        };
        let ghost mut k: int = stage(ts0)->Ok_0.1 as int;
        let mut commands: Vec<SimpleCommand> = Vec::new();
        commands.push(first);
        assert(cmds_view(commands@.drop_last()) =~= Seq::<SimpleCmd>::empty());
        loop
            invariant
                self.wf(),
                ts0 == old(self).remaining(),
                0 <= k <= ts0.len(),
                self.remaining() == ts0.subrange(k, ts0.len() as int),
                commands.len() >= 1,
                has_program(cmd_draft(commands@.last()@)),
                k < ts0.len() ==> ends_command(ts0[k]),
                pipeline(ts0) == shift(
                    pipe_from(
                        self.remaining(),
                        cmds_view(commands@.drop_last()),
                        cmd_draft(commands@.last()@),
                    ),
                    k as nat,
                ),
            ensures
                self.wf(),
                0 <= k <= ts0.len(),
                self.remaining() == ts0.subrange(k, ts0.len() as int),
                commands.len() >= 1,
                has_program(cmd_draft(commands@.last()@)),
                ends_command(self.current@),
                !(self.current@ is Pipe),
                pipeline(ts0) == shift(
                    pipe_from(
                        self.remaining(),
                        cmds_view(commands@.drop_last()),
                        cmd_draft(commands@.last()@),
                    ),
                    k as nat,
                ),
            decreases self.remaining().len(),
        {
            proof {
                self.lemma_remaining();
            }
            match &self.current {
                Token::Pipe => {},
                _ => break,
            }
            let ghost rem = self.remaining();
            proof {
                let last = commands@.last()@;
                assert(draft_cmd(cmd_draft(last)) == last);
                assert(cmds_view(commands@.drop_last()).push(last) =~= cmds_view(commands@));
                lemma_pipe_from_stage(rem.drop_first(), cmds_view(commands@));
                assert(rem.drop_first() =~= ts0.subrange(k + 1, ts0.len() as int));
            }
            self.advance();
            let ghost done = cmds_view(commands@);
            let ghost rem1 = self.remaining();
            match self.parse_simple_command() {
                Ok(c) => {
                    let ghost n = stage(rem1)->Ok_0.1;
                    commands.push(c);
                    assert(cmds_view(commands@.drop_last()) =~= done);
                    assert(rem1.subrange(n as int, rem1.len() as int) =~= ts0.subrange(
                        k + 1 + n,
                        ts0.len() as int,
                    ));
                    proof {
                        k = k + 1 + n;
                    }
                },
                Err(e) => return Err(e),
            }
        }
        proof {
            self.lemma_remaining();
            let last = commands@.last()@;
            assert(draft_cmd(cmd_draft(last)) == last);
            assert(cmds_view(commands@.drop_last()).push(last) =~= cmds_view(commands@));
        }
        let ghost rem = self.remaining();
        let mut background = false;
        match &self.current {
            Token::Background => {
                background = true;
                self.advance();
                assert(rem.drop_first() =~= ts0.subrange(k + 1, ts0.len() as int));
            },
            _ => {},
        }
        if commands.len() == 1 {
            let c = commands.remove(0);
            Ok(Command::Single(c))
        } else {
            Ok(Command::Pipeline { commands, background })
        }
    }

    /// Parses the whole line: one pipeline, then the end of input.
    pub fn parse(&mut self) -> (r: Result<Command, ParseError>)
        requires
            old(self).wf(),
        ensures
            final(self).wf(),
            result_view(r) == parse_tokens(old(self).remaining()),
            r matches Ok(c) ==> cmd_wf(c@),
    {
        proof {
            crate::laws::law_parse_well_formed(self.remaining());
        }
        let ghost ts0 = self.remaining();
        let cmd = match self.parse_pipeline() {
            Ok(c) => c,
            Err(e) => return Err(e),
        };
        proof {
            self.lemma_remaining();
            let n = pipeline(ts0)->Ok_0.1;
            assert(self.remaining() == ts0.subrange(n as int, ts0.len() as int));
            assert(n < ts0.len());
            assert(self.current@ == ts0[n as int]);
        }
        match &self.current {
            Token::EOF => Ok(cmd),
            other => Err(ParseError::UnexpectedToken(other.copied())),
        }
    }
}

} // verus!
