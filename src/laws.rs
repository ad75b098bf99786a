use vstd::prelude::*;
use crate::lexer::{
    is_white, lemma_next_tok_progress, lex_from, next_tok, quote_end, skip_white, tokens,
};
use crate::parser::{
    Cmd, cmd_wf, Draft, PErr, SimpleCmd, draft_cmd, empty_draft, has_program, parse_line, with_word,
    parse_tokens, pipe_from,
};
use crate::tokens::Tok;

verus! {

proof fn lemma_skip_white_all(s: Seq<char>, p: int)
    requires
        0 <= p <= s.len(),
        forall|i: int| p <= i < s.len() ==> is_white(#[trigger] s[i]),
    ensures
        skip_white(s, p) == s.len(),
    decreases s.len() - p,
{
    if p < s.len() {
        lemma_skip_white_all(s, p + 1);
    }
}

proof fn lemma_quote_end_none(s: Seq<char>, p: int)
    requires
        0 <= p <= s.len(),
        forall|i: int| p <= i < s.len() ==> #[trigger] s[i] != '\'',
    ensures
        quote_end(s, p) == s.len(),
    decreases s.len() - p,
{
    if p < s.len() {
        lemma_quote_end_none(s, p + 1);
    }
}

/// At the end of input the lexer returns `EOF`, and returns it again on the next call.
pub proof fn law_eof_repeats(s: Seq<char>, p: int)
    requires
        0 <= p <= s.len(),
        next_tok(s, p).0 is EOF,
    ensures
        next_tok(s, p).1 == s.len(),
        next_tok(s, next_tok(s, p).1) == (Tok::EOF, s.len() as int),
{
    lemma_next_tok_progress(s, p);
}

/// A `>` followed at once by another `>` is one `RedirectAppend` that consumes both;
/// any other `>` is a `RedirectOut`.
pub proof fn law_redirect_out_or_append(s: Seq<char>, p: int)
    requires
        0 <= p <= s.len(),
        skip_white(s, p) < s.len(),
        s[skip_white(s, p)] == '>',
    ensures
        ({
            let q = skip_white(s, p);
            if q + 1 < s.len() && s[q + 1] == '>' {
                next_tok(s, p) == (Tok::RedirectAppend, q + 2)
            } else {
                next_tok(s, p) == (Tok::RedirectOut, q + 1)
            }
        }),
{
}

/// A single quote that is never closed gives the rest of the line as a literal, then the
/// end of input, and no error.
pub proof fn law_unterminated_single_quote(t: Seq<char>)
    requires
        forall|i: int| 0 <= i < t.len() ==> #[trigger] t[i] != '\'',
    ensures
        tokens(seq!['\''] + t) == seq![Tok::StringLiteral(t), Tok::EOF],
{
    let s = seq!['\''] + t;
    let n = s.len() as int;
    assert(s[0] == '\'');
    assert(skip_white(s, 0) == 0);
    assert forall|i: int| 1 <= i < n implies #[trigger] s[i] != '\'' by {
        assert(s[i] == t[i - 1]);
    }
    lemma_quote_end_none(s, 1);
    assert(s.subrange(1, n) =~= t);
    assert(next_tok(s, 0) == (Tok::StringLiteral(t), n));
    assert(next_tok(s, n) == (Tok::EOF, n));
    assert(lex_from(s, n, n as nat) == seq![Tok::EOF]);
    assert(tokens(s) =~= seq![Tok::StringLiteral(t), Tok::EOF]);
}

/// A line that is empty or holds only whitespace fails with `MissingProgram`.
pub proof fn law_blank_line_missing_program(s: Seq<char>)
    requires
        forall|i: int| 0 <= i < s.len() ==> is_white(#[trigger] s[i]),
    ensures
        parse_line(s) == Err::<Cmd, PErr>(PErr::MissingProgram),
{
    lemma_skip_white_all(s, 0);
    assert(tokens(s) =~= seq![Tok::EOF]);
}

proof fn lemma_pipe_from_wf(ts: Seq<Tok>, done: Seq<SimpleCmd>, d: Draft)
    requires
        forall|i: int| 0 <= i < done.len() ==> (#[trigger] done[i]).program.len() > 0,
    ensures
        pipe_from(ts, done, d) matches Ok((c, n)) ==> cmd_wf(c),
    decreases ts.len(),
{
    let all = done.push(draft_cmd(d));
    if has_program(d) {
        assert forall|i: int| 0 <= i < all.len() implies (#[trigger] all[i]).program.len()
            > 0 by {
            if i < done.len() {
                assert(all[i] == done[i]);
            }
        }
    }
    if ts.len() > 0 {
        let t2 = ts.subrange(2, ts.len() as int);
        match ts[0] {
            Tok::Word(w) => lemma_pipe_from_wf(ts.drop_first(), done, with_word(d, w)),
            Tok::StringLiteral(w) => lemma_pipe_from_wf(ts.drop_first(), done, with_word(d, w)),
            Tok::RedirectIn => if ts.len() > 1 && ts[1] is Word {
                lemma_pipe_from_wf(t2, done, Draft { redirect_in: Some(ts[1]->Word_0), ..d });
            },
            Tok::RedirectOut => if ts.len() > 1 && ts[1] is Word {
                lemma_pipe_from_wf(
                    t2,
                    done,
                    Draft { redirect_out: Some(ts[1]->Word_0), append: false, ..d },
                );
            },
            Tok::RedirectAppend => if ts.len() > 1 && ts[1] is Word {
                lemma_pipe_from_wf(
                    t2,
                    done,
                    Draft { redirect_out: Some(ts[1]->Word_0), append: true, ..d },
                );
            },
            Tok::Pipe => if has_program(d) {
                lemma_pipe_from_wf(ts.drop_first(), all, empty_draft());
            },
            _ => {},
        }
    }
}

/// Every command that parsing returns is well formed: a lone command is `Single`, never a
/// one-stage pipeline, and no stage has an empty program name.
pub proof fn law_parse_well_formed(ts: Seq<Tok>)
    ensures
        parse_tokens(ts) matches Ok(c) ==> cmd_wf(c),
{
    lemma_pipe_from_wf(ts, Seq::empty(), empty_draft());
}

} // verus!
