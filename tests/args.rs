use awu::args::{parse_command, split_words, Command};

#[test]
fn split_words_on_whitespace() {
    assert_eq!(split_words("  a\tbc \n d  "), vec!["a", "bc", "d"]);
    assert!(split_words("").is_empty());
    assert!(split_words(" \t ").is_empty());
}

#[test]
fn empty_line_is_unknown() {
    match parse_command("   ") {
        Command::Unknown(s) => assert_eq!(s, "empty"),
        other => panic!("unexpected {:?}", other),
    }
}

#[test]
fn echo_keeps_words() {
    match parse_command("echo  hello   world") {
        Command::Echo(r) => assert_eq!(r.repeated_vector, vec!["hello", "world"]),
        other => panic!("unexpected {:?}", other),
    }
}

#[test]
fn list_flags_and_directory() {
    match parse_command("list -a src --long") {
        Command::List(a) => {
            assert_eq!(a.directory, "src");
            assert!(a.all);
            assert!(a.long);
        }
        other => panic!("unexpected {:?}", other),
    }
    match parse_command("list") {
        Command::List(a) => {
            assert_eq!(a.directory, ".");
            assert!(!a.all);
            assert!(!a.long);
        }
        other => panic!("unexpected {:?}", other),
    }
    match parse_command("list one -l two") {
        Command::List(a) => {
            assert_eq!(a.directory, "two");
            assert!(!a.all);
            assert!(a.long);
        }
        other => panic!("unexpected {:?}", other),
    }
}

#[test]
fn cat_flags_and_files() {
    match parse_command("cat a.txt --dir b.txt") {
        Command::Cat(a) => {
            assert!(a.dir);
            assert_eq!(a.files, vec!["a.txt", "b.txt"]);
        }
        other => panic!("unexpected {:?}", other),
    }
}

#[test]
fn find_needs_two_arguments() {
    match parse_command("find . x.rs") {
        Command::Find(a) => {
            assert_eq!(a.dir_name, ".");
            assert_eq!(a.file_name, "x.rs");
        }
        other => panic!("unexpected {:?}", other),
    }
    match parse_command("find .") {
        Command::Unknown(s) => assert_eq!(s, "find needs 2 args"),
        other => panic!("unexpected {:?}", other),
    }
}

#[test]
fn grep_pattern_and_files() {
    match parse_command("grep fn a.rs b.rs") {
        Command::Grep(a) => {
            assert_eq!(a.match_text, "fn");
            assert_eq!(a.file_name, vec!["a.rs", "b.rs"]);
        }
        other => panic!("unexpected {:?}", other),
    }
    match parse_command("grep") {
        Command::Unknown(s) => assert_eq!(s, "grep needs 1+ args"),
        other => panic!("unexpected {:?}", other),
    }
}

#[test]
fn create_flag_and_name() {
    match parse_command("create -d new_dir") {
        Command::Create(a) => {
            assert!(a.directory);
            assert_eq!(a.file_name, "new_dir");
        }
        other => panic!("unexpected {:?}", other),
    }
    match parse_command("create") {
        Command::Create(a) => {
            assert!(!a.directory);
            assert_eq!(a.file_name, "");
        }
        other => panic!("unexpected {:?}", other),
    }
}

#[test]
fn exit_and_unknown() {
    assert!(matches!(parse_command("exit now"), Command::Exit()));
    match parse_command("frobnicate x") {
        Command::Unknown(s) => assert_eq!(s, "frobnicate"),
        other => panic!("unexpected {:?}", other),
    }
}
