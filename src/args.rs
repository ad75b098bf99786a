use vstd::prelude::*;
use vstd::string::*;
use crate::lexer::{is_blank, is_white, push_char};
use crate::parser::texts;

verus! {

/// A built-in command with its arguments.
#[derive(Debug)]
pub enum Command {
    /// Repeats user input
    Echo(Repeat),
    /// Lists the files and directories
    List(ListArgs),
    /// Concatenates files
    Cat(CatArgs),
    /// Finds a file if it exists
    Find(FindArgs),
    /// Matches text in files
    Grep(GrepArgs),
    /// Creates a directory or a file
    Create(CreateArgs),
    /// Exit
    Exit(),
    /// A command with no handler
    Unknown(String),
}

#[derive(Debug)]
pub struct Repeat {
    /// The words to be repeated
    pub repeated_vector: Vec<String>,
}

#[derive(Debug)]
pub struct ListArgs {
    /// The directory to list
    pub directory: String,
    /// Also list hidden files
    pub all: bool,
    /// Use the long listing format
    pub long: bool,
}

#[derive(Debug)]
pub struct CatArgs {
    /// Concatenates the files of a directory
    pub dir: bool,
    /// The files to concatenate
    pub files: Vec<String>,
}

#[derive(Debug)]
pub struct FindArgs {
    /// Where the file is searched
    pub dir_name: String,
    /// The file to search for
    pub file_name: String,
}

#[derive(Debug)]
pub struct GrepArgs {
    /// The pattern to match
    pub match_text: String,
    /// The files to search in
    pub file_name: Vec<String>,
}

#[derive(Debug)]
pub struct CreateArgs {
    /// Create a directory rather than a file
    pub directory: bool,
    /// The path to create
    pub file_name: String,
}

/// The value of a `Command`.
pub ghost enum Request {
    Echo(Seq<Seq<char>>),
    List { directory: Seq<char>, all: bool, long: bool },
    Cat { dir: bool, files: Seq<Seq<char>> },
    Find { dir_name: Seq<char>, file_name: Seq<char> },
    Grep { match_text: Seq<char>, file_name: Seq<Seq<char>> },
    Create { directory: bool, file_name: Seq<char> },
    Exit,
    Unknown(Seq<char>),
}

impl View for Command {
    type V = Request;

    open spec fn view(&self) -> Request {
        match self {
            Command::Echo(r) => Request::Echo(texts(r.repeated_vector@)),
            Command::List(a) => Request::List {
                directory: a.directory@,
                all: a.all,
                long: a.long,
            },
            Command::Cat(a) => Request::Cat { dir: a.dir, files: texts(a.files@) },
            Command::Find(a) => Request::Find { dir_name: a.dir_name@, file_name: a.file_name@ },
            Command::Grep(a) => Request::Grep {
                match_text: a.match_text@,
                file_name: texts(a.file_name@),
            },
            Command::Create(a) => Request::Create {
                directory: a.directory,
                file_name: a.file_name@,
            },
            Command::Exit() => Request::Exit,
            Command::Unknown(s) => Request::Unknown(s@),
        }
    }
}

/// Splits `s` at whitespace: `cur` is the word being read, `acc` the words already read.
pub open spec fn split_fields(s: Seq<char>, cur: Seq<char>, acc: Seq<Seq<char>>) -> Seq<Seq<char>>
    decreases s.len(),
{
    let flushed = if cur.len() > 0 {
        acc.push(cur)
    } else {
        acc
    };
    if s.len() == 0 {
        flushed
    } else if is_white(s[0]) {
        split_fields(s.drop_first(), Seq::empty(), flushed)
    } else {
        split_fields(s.drop_first(), cur.push(s[0]), acc)
    }
}

/// The whitespace-separated words of `s`, in order.
pub open spec fn fields(s: Seq<char>) -> Seq<Seq<char>> {
    split_fields(s, Seq::empty(), Seq::empty())
}

/// Directory, `all` flag and `long` flag of `list`: the last plain word names the directory.
pub open spec fn list_options(ws: Seq<Seq<char>>) -> (Seq<char>, bool, bool)
    decreases ws.len(),
{
    if ws.len() == 0 {
        ("."@, false, false)
    } else {
        let (d, a, l) = list_options(ws.drop_last());
        let w = ws.last();
        if w == "-a"@ || w == "--all"@ {
            (d, true, l)
        } else if w == "-l"@ || w == "--long"@ {
            (d, a, true)
        } else {
            (w, a, l)
        }
    }
}

/// Directory flag and files of `cat`.
pub open spec fn cat_options(ws: Seq<Seq<char>>) -> (bool, Seq<Seq<char>>)
    decreases ws.len(),
{
    if ws.len() == 0 {
        (false, Seq::empty())
    } else {
        let (d, fs) = cat_options(ws.drop_last());
        let w = ws.last();
        if w == "-d"@ || w == "--dir"@ {
            (true, fs)
        } else {
            (d, fs.push(w))
        }
    }
}

/// Directory flag and path of `create`: the last plain word names the path.
pub open spec fn create_options(ws: Seq<Seq<char>>) -> (bool, Seq<char>)
    decreases ws.len(),
{
    if ws.len() == 0 {
        (false, ""@)
    } else {
        let (d, f) = create_options(ws.drop_last());
        let w = ws.last();
        if w == "-d"@ || w == "--directory"@ {
            (true, f)
        } else {
            (d, w)
        }
    }
}

/// The built-in command that the words `ws` ask for.
pub open spec fn request_of(ws: Seq<Seq<char>>) -> Request {
    if ws.len() == 0 {
        Request::Unknown("empty"@)
    } else {
        let name = ws[0];
        let rest = ws.drop_first();
        if name == "echo"@ {
            Request::Echo(rest)
        } else if name == "list"@ {
            let (d, a, l) = list_options(rest);
            Request::List { directory: d, all: a, long: l }
        } else if name == "cat"@ {
            let (d, fs) = cat_options(rest);
            Request::Cat { dir: d, files: fs }
        } else if name == "find"@ {
            if rest.len() < 2 {
                Request::Unknown("find needs 2 args"@)
            } else {
                Request::Find { dir_name: rest[0], file_name: rest[1] }
            }
        } else if name == "grep"@ {
            if rest.len() == 0 {
                Request::Unknown("grep needs 1+ args"@)
            } else {
                Request::Grep { match_text: rest[0], file_name: rest.drop_first() }
            }
        } else if name == "create"@ {
            let (d, f) = create_options(rest);
            Request::Create { directory: d, file_name: f }
        } else if name == "exit"@ {
            Request::Exit
        } else {
            Request::Unknown(name)
        }
    }
}

/// Whether `s` holds exactly the text `lit`.
fn text_is(s: &String, lit: &str) -> (r: bool)
    ensures
        r == (s@ == lit@),
{
    let l = String::from_str(lit);
    *s == l
}

/// The whitespace-separated words of `input`.
pub fn split_words(input: &str) -> (r: Vec<String>)
    ensures
        texts(r@) == fields(input@),
{
    let ghost s = input@;
    let n = input.unicode_len();
    let mut acc: Vec<String> = Vec::new();
    let mut cur = String::new();
    let mut i: usize = 0;
    assert(s.subrange(0, n as int) =~= s);
    assert(texts(acc@) =~= Seq::<Seq<char>>::empty());
    while i < n
        invariant
            n == s.len(),
            s == input@,
            i <= n,
            fields(s) == split_fields(s.subrange(i as int, n as int), cur@, texts(acc@)),
        decreases n - i,
    {
        let c = input.get_char(i);
        let ghost t = s.subrange(i as int, n as int);
        assert(t.drop_first() =~= s.subrange(i + 1, n as int));
        if is_blank(c) {
            if cur.as_str().is_empty() {
            } else {
                let ghost a0 = texts(acc@);
                let ghost w = cur@;
                acc.push(cur);
                assert(texts(acc@) =~= a0.push(w));
            }
            cur = String::new();
        } else {
            push_char(&mut cur, c);
        }
        i = i + 1;
    }
    assert(s.subrange(n as int, n as int) =~= Seq::<char>::empty());
    if cur.as_str().is_empty() {
    } else {
        let ghost a0 = texts(acc@);
        let ghost w = cur@;
        acc.push(cur);
        assert(texts(acc@) =~= a0.push(w));
    }
    acc
}

/// Reads a line as one of the built-in commands.
pub fn parse_command(input: &str) -> (r: Command)
    ensures
        r@ == request_of(fields(input@)),
{
    let mut parts = split_words(input);
    let ghost ws = texts(parts@);
    if parts.len() == 0 {
        return Command::Unknown(String::from_str("empty"));
    }
    let cmd = parts.remove(0);
    let ghost rest = texts(parts@);
    assert(rest =~= ws.drop_first());
    if text_is(&cmd, "echo") {
        Command::Echo(Repeat { repeated_vector: parts })
    } else if text_is(&cmd, "list") {
        let mut all = false;
        let mut long = false;
        let mut directory = String::from_str(".");
        let mut i: usize = 0;
        while i < parts.len()
            invariant
                i <= parts.len(),
                rest == texts(parts@),
                (directory@, all, long) == list_options(rest.subrange(0, i as int)),
            decreases parts.len() - i,
        {
            assert(rest.subrange(0, i + 1).drop_last() =~= rest.subrange(0, i as int));
            let p = &parts[i];
            if text_is(p, "-a") || text_is(p, "--all") {
                all = true;
            } else if text_is(p, "-l") || text_is(p, "--long") {
                long = true;
            } else {
                directory = p.clone();
            }
            i = i + 1;
        }
        assert(rest.subrange(0, parts.len() as int) =~= rest);
        Command::List(ListArgs { directory, all, long })
    } else if text_is(&cmd, "cat") {
        let mut dir = false;
        let mut files: Vec<String> = Vec::new();
        let mut i: usize = 0;
        assert(texts(files@) =~= Seq::<Seq<char>>::empty());
        while i < parts.len()
            invariant
                i <= parts.len(),
                rest == texts(parts@),
                (dir, texts(files@)) == cat_options(rest.subrange(0, i as int)),
            decreases parts.len() - i,
        {
            assert(rest.subrange(0, i + 1).drop_last() =~= rest.subrange(0, i as int));
            let p = &parts[i];
            if text_is(p, "-d") || text_is(p, "--dir") {
                dir = true;
            } else {
                let ghost f0 = texts(files@);
                files.push(p.clone());
                assert(texts(files@) =~= f0.push(p@));
            }
            i = i + 1;
        }
        assert(rest.subrange(0, parts.len() as int) =~= rest);
        Command::Cat(CatArgs { dir, files })
    } else if text_is(&cmd, "find") {
        if parts.len() < 2 {
            return Command::Unknown(String::from_str("find needs 2 args"));
        }
        Command::Find(FindArgs { dir_name: parts[0].clone(), file_name: parts[1].clone() })
    } else if text_is(&cmd, "grep") {
        if parts.len() == 0 {
            return Command::Unknown(String::from_str("grep needs 1+ args"));
        }
        let match_text = parts.remove(0);
        assert(texts(parts@) =~= rest.drop_first());
        Command::Grep(GrepArgs { match_text, file_name: parts })
    } else if text_is(&cmd, "create") {
        let mut directory = false;
        let mut file_name = String::new();
        let mut i: usize = 0;
        assert(file_name@ =~= ""@) by {
            reveal_strlit("");
        }
        while i < parts.len()
            invariant
                i <= parts.len(),
                rest == texts(parts@),
                (directory, file_name@) == create_options(rest.subrange(0, i as int)),
            decreases parts.len() - i,
        {
            assert(rest.subrange(0, i + 1).drop_last() =~= rest.subrange(0, i as int));
            let p = &parts[i];
            if text_is(p, "-d") || text_is(p, "--directory") {
                directory = true;
            } else {
                file_name = p.clone();
            }
            i = i + 1;
        }
        assert(rest.subrange(0, parts.len() as int) =~= rest);
        Command::Create(CreateArgs { directory, file_name })
    } else if text_is(&cmd, "exit") {
        Command::Exit()
    } else {
        Command::Unknown(cmd)
    }
}

} // verus!
