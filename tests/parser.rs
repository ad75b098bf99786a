use awu::parser::{Command, ParseError, Parser, SimpleCommand};
use awu::tokens::Token;

fn parse(input: &str) -> Result<Command, ParseError> {
    Parser::new(input).parse()
}

fn single(input: &str) -> SimpleCommand {
    match parse(input) {
        Ok(Command::Single(c)) => c,
        other => panic!("expected a single command, got {:?}", other),
    }
}

#[test]
fn pipeline_in_background() {
    match parse("cmd1 | cmd2 | cmd3 &") {
        Ok(Command::Pipeline { commands, background }) => {
            assert!(background);
            let names: Vec<&str> = commands.iter().map(|c| c.program.as_str()).collect();
            assert_eq!(names, vec!["cmd1", "cmd2", "cmd3"]);
            assert!(commands.iter().all(|c| c.arg.is_empty()));
        }
        other => panic!("unexpected {:?}", other),
    }
}

#[test]
fn redirections_on_single_command() {
    let c = single("cmd < in.txt > out.txt");
    assert_eq!(c.program, "cmd");
    assert!(c.arg.is_empty());
    assert_eq!(c.redirect_in.as_deref(), Some("in.txt"));
    assert_eq!(c.redirect_out.as_deref(), Some("out.txt"));
    assert!(!c.append);
}

#[test]
fn append_redirection() {
    let c = single("echo hi >> log.txt");
    assert_eq!(c.program, "echo");
    assert_eq!(c.arg, vec!["hi".to_string()]);
    assert_eq!(c.redirect_out.as_deref(), Some("log.txt"));
    assert!(c.append);
}

#[test]
fn later_redirection_overrides() {
    let c = single("cmd >> a > b < x < y");
    assert_eq!(c.redirect_out.as_deref(), Some("b"));
    assert!(!c.append);
    assert_eq!(c.redirect_in.as_deref(), Some("y"));
}

#[test]
fn redirection_before_program() {
    let c = single("< in.txt sort -r");
    assert_eq!(c.program, "sort");
    assert_eq!(c.arg, vec!["-r".to_string()]);
    assert_eq!(c.redirect_in.as_deref(), Some("in.txt"));
}

#[test]
fn quoted_arguments_keep_order() {
    let c = single(r#"grep "hello world" 'a b' c c"#);
    assert_eq!(c.program, "grep");
    assert_eq!(
        c.arg,
        vec!["hello world".to_string(), "a b".to_string(), "c".to_string(), "c".to_string()]
    );
    assert_eq!(single("'my prog' x").program, "my prog");
}

#[test]
fn blank_input_is_missing_program() {
    assert_eq!(parse("").unwrap_err(), ParseError::MissingProgram);
    assert_eq!(parse("   \t ").unwrap_err(), ParseError::MissingProgram);
}

#[test]
fn operator_first_is_missing_program() {
    assert_eq!(parse("| cmd").unwrap_err(), ParseError::MissingProgram);
    assert_eq!(parse("cmd |").unwrap_err(), ParseError::MissingProgram);
    assert_eq!(parse("&").unwrap_err(), ParseError::MissingProgram);
    assert_eq!(parse("> out").unwrap_err(), ParseError::MissingProgram);
}

#[test]
fn empty_program_name_is_missing_program() {
    assert_eq!(parse("'' x").unwrap_err(), ParseError::MissingProgram);
}

#[test]
fn redirect_without_filename() {
    assert_eq!(parse("cmd >").unwrap_err(), ParseError::ExpectedFilename(Token::RedirectOut));
    assert_eq!(parse("cmd <").unwrap_err(), ParseError::ExpectedFilename(Token::RedirectIn));
    assert_eq!(
        parse("cmd >> | x").unwrap_err(),
        ParseError::ExpectedFilename(Token::RedirectAppend)
    );
    assert_eq!(
        parse("cmd > \"out file\"").unwrap_err(),
        ParseError::ExpectedFilename(Token::RedirectOut)
    );
}

#[test]
fn trailing_tokens_are_unexpected() {
    assert_eq!(parse("a || b").unwrap_err(), ParseError::UnexpectedToken(Token::Or));
    assert_eq!(parse("a )").unwrap_err(), ParseError::UnexpectedToken(Token::RightParen));
    assert_eq!(parse("a & b").unwrap_err(), ParseError::UnexpectedToken(Token::Word("b".to_string())));
    assert_eq!(parse("a & &").unwrap_err(), ParseError::UnexpectedToken(Token::Background));
}

#[test]
fn pipeline_without_background() {
    match parse("cmd1 | cmd2") {
        Ok(Command::Pipeline { commands, background }) => {
            assert!(!background);
            assert_eq!(commands.len(), 2);
            assert_eq!(commands[0].program, "cmd1");
            assert_eq!(commands[1].program, "cmd2");
        }
        other => panic!("unexpected {:?}", other),
    }
}

#[test]
fn lone_command_is_single() {
    let c = single("cmd");
    assert_eq!(c.program, "cmd");
    let c = single("cmd &");
    assert_eq!(c.program, "cmd");
}

#[test]
fn pipeline_stage_redirections() {
    match parse(r#"grep "hello world" < in.txt | sort > out.txt &"#) {
        Ok(Command::Pipeline { commands, background }) => {
            assert!(background);
            assert_eq!(commands[0].program, "grep");
            assert_eq!(commands[0].arg, vec!["hello world".to_string()]);
            assert_eq!(commands[0].redirect_in.as_deref(), Some("in.txt"));
            assert_eq!(commands[1].program, "sort");
            assert_eq!(commands[1].redirect_out.as_deref(), Some("out.txt"));
            assert!(!commands[1].append);
        }
        other => panic!("unexpected {:?}", other),
    }
}

#[test]
fn redirect_target_is_not_an_argument() {
    let c = single("cmd a > f b");
    assert_eq!(c.program, "cmd");
    assert_eq!(c.arg, vec!["a".to_string(), "b".to_string()]);
    assert_eq!(c.redirect_out.as_deref(), Some("f"));
    assert!(!c.append);
    assert_eq!(parse("cmd < | x").unwrap_err(), ParseError::ExpectedFilename(Token::RedirectIn));
    assert_eq!(parse("cmd >>").unwrap_err(), ParseError::ExpectedFilename(Token::RedirectAppend));
}
