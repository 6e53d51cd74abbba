//! How a shell is started: its arguments, and where its files are.
use vstd::prelude::*;

use crate::builtin::text3;
use crate::byte_paths::{byte_text, bytes_of, opt_text, text_bytes, text_of};
use crate::dirs::{file_name, file_name_of, join_path, joined_path, renamed, with_file_name};
use crate::text::{chars_of, push_str, str_eq, string_of};

verus! {

// -- Arguments --

/// What a shell is started with.
pub struct Args {
    /// A configuration file in place of the usual one.
    pub config: Option<Vec<u8>>,
    /// No configuration file is read.
    pub no_config: bool,
}

#[verifier::ext_equal]
pub struct ArgsView {
    pub config: Option<Seq<u8>>,
    pub no_config: bool,
}

impl View for Args {
    type V = ArgsView;

    open spec fn view(&self) -> ArgsView {
        ArgsView {
            config: match self.config {
                Some(path) => Some(path@),
                None => None,
            },
            no_config: self.no_config,
        }
    }
}

/// How a shell starts.
pub enum Start {
    Run(Args),
    /// A text is printed, and the shell ends.
    Print(String),
    /// What is wrong is told, and the shell ends with a failure.
    Fail(String),
}

#[verifier::ext_equal]
pub enum StartView {
    Run(ArgsView),
    Print(Seq<char>),
    Fail(Seq<char>),
}

impl View for Start {
    type V = StartView;

    open spec fn view(&self) -> StartView {
        match self {
            Start::Run(args) => StartView::Run(args@),
            Start::Print(text) => StartView::Print(text@),
            Start::Fail(text) => StartView::Fail(text@),
        }
    }
}

pub open spec fn help_text() -> Seq<char> {
    "ish \u{2014} minimal interactive shell\n\nusage: ish [-c config] [--no-config] [-V|--version] [-h|--help]\n\noptions:\n  -c <path>      Use a custom config file instead of the default\n  --no-config    Skip loading the config file\n  -V, --version  Show version\n  -h, --help     Show this help message\n"@
}

/// The text that `--help` prints.
pub fn print_help() -> (r: String)
    ensures
        r@ == help_text(),
{
    String::from_str(
        "ish \u{2014} minimal interactive shell\n\nusage: ish [-c config] [--no-config] [-V|--version] [-h|--help]\n\noptions:\n  -c <path>      Use a custom config file instead of the default\n  --no-config    Skip loading the config file\n  -V, --version  Show version\n  -h, --help     Show this help message\n",
    )
}

/// The bytes of each argument.
pub open spec fn arg_bytes(v: Seq<Vec<u8>>) -> Seq<Seq<u8>> {
    Seq::new(v.len(), |i: int| v[i]@)
}

/// What the arguments from `i` on say, behind those that said `done`.
pub open spec fn read_args(
    argv: Seq<Seq<u8>>,
    i: int,
    done: ArgsView,
    version: Seq<char>,
) -> StartView
    decreases argv.len() - i,
{
    let arg = byte_text(argv[i]);
    if i >= argv.len() {
        StartView::Run(done)
    } else if arg == "-V"@ || arg == "--version"@ {
        StartView::Print("ish "@ + version + "\n"@)
    } else if arg == "-h"@ || arg == "--help"@ {
        StartView::Print(help_text())
    } else if arg == "-c"@ {
        if i + 1 < argv.len() {
            read_args(argv, i + 2, ArgsView { config: Some(argv[i + 1]), ..done }, version)
        } else {
            StartView::Fail("ish: -c requires a config file path\n"@)
        }
    } else if arg == "--no-config"@ {
        read_args(argv, i + 1, ArgsView { no_config: true, ..done }, version)
    } else {
        StartView::Fail(
            "ish: this shell is interactive-only and does not run scripts\nusage: ish [-c config] [--no-config] [-h|--help]\n"@,
        )
    }
}

/// Reads the arguments behind the program's name. A script is refused: the shell is interactive
/// only.
pub fn parse_args(argv: &Vec<Vec<u8>>, version: &str) -> (r: Start)
    ensures
        r@ == read_args(
            arg_bytes(argv@),
            0,
            (ArgsView { config: None, no_config: false }),
            version@,
        ),
{
    let ghost all = arg_bytes(argv@);
    assert(all.len() == argv@.len());
    let mut args = Args { config: None, no_config: false };
    let mut i: usize = 0;
    while i < argv.len()
        invariant
            i <= argv.len(),
            all == arg_bytes(argv@),
            all.len() == argv@.len(),
            read_args(all, 0, (ArgsView { config: None, no_config: false }), version@)
                == read_args(all, i as int, args@, version@),
        decreases argv.len() - i,
    {
        assert(all[i as int] == argv@[i as int]@);
        let text = text_of(&argv[i]);
        let arg = text.as_str();
        if str_eq(arg, "-V") || str_eq(arg, "--version") {
            return Start::Print(text3("ish ", version, "\n"));
        }
        if str_eq(arg, "-h") || str_eq(arg, "--help") {
            return Start::Print(print_help());
        }
        if str_eq(arg, "-c") {
            if i + 1 >= argv.len() {
                return Start::Fail(String::from_str("ish: -c requires a config file path\n"));
            }
            assert(all[i + 1] == argv@[i + 1]@);
            let path = argv[i + 1].clone();
            assert(path@ =~= argv@[i + 1]@);
            args.config = Some(path);
            i += 2;
        } else if str_eq(arg, "--no-config") {
            args.no_config = true;
            i += 1;
        } else {
            return Start::Fail(
                String::from_str(
                    "ish: this shell is interactive-only and does not run scripts\nusage: ish [-c config] [--no-config] [-h|--help]\n",
                ),
            );
        }
    }
    Start::Run(args)
}

// -- Where the history is --

pub open spec fn history_place(xdg: Option<Seq<char>>, home: Option<Seq<char>>) -> Seq<char> {
    match xdg {
        Some(dir) => joined_path(dir, "ish/history"@),
        None => home_history_place(home),
    }
}

pub open spec fn home_history_place(home: Option<Seq<char>>) -> Seq<char> {
    match home {
        Some(dir) => joined_path(dir, ".local/share/ish/history"@),
        None => "/tmp/ish_history"@,
    }
}

/// Where the history is kept below a home directory.
pub fn history_path_for_home(home: &Option<Vec<u8>>) -> (r: Vec<u8>)
    ensures
        r@ == text_bytes(home_history_place(opt_text(*home))),
{
    let path = match home {
        Some(dir) => join_path(text_of(dir).as_str(), ".local/share/ish/history"),
        None => String::from_str("/tmp/ish_history"),
    };
    bytes_of(path.as_str())
}

/// Where the history is kept, from `$XDG_DATA_HOME` and `$HOME`.
pub fn history_path(xdg: &Option<Vec<u8>>, home: &Option<Vec<u8>>) -> (r: Vec<u8>)
    ensures
        r@ == text_bytes(history_place(opt_text(*xdg), opt_text(*home))),
{
    match xdg {
        Some(dir) => bytes_of(join_path(text_of(dir).as_str(), "ish/history").as_str()),
        None => history_path_for_home(home),
    }
}

/// A path whose name has more behind it.
pub open spec fn name_extended(path: Seq<char>, more: Seq<char>) -> Seq<char> {
    renamed(
        path,
        match file_name(path) {
            Some(name) => name + more,
            None => more,
        },
    )
}

fn extend_name(path: &str, more: &str) -> (r: String)
    ensures
        r@ == name_extended(path@, more@),
{
    let mut name: Vec<char> = match file_name_of(path) {
        Some(name) => chars_of(name.as_str()),
        None => Vec::new(),
    };
    push_str(&mut name, more);
    assert(name@ =~= (match file_name(path@) {
        Some(n) => n + more@,
        None => more@,
    }));
    with_file_name(path, string_of(name.as_slice()).as_str())
}

/// The cache beside a history.
pub fn cache_path_for(path: &Vec<u8>) -> (r: Vec<u8>)
    ensures
        r@ == text_bytes(name_extended(byte_text(path@), ".bin"@)),
{
    bytes_of(extend_name(text_of(path).as_str(), ".bin").as_str())
}

/// The lock beside a history.
pub fn lock_path_for(path: &Vec<u8>) -> (r: Vec<u8>)
    ensures
        r@ == text_bytes(name_extended(byte_text(path@), ".lock"@)),
{
    bytes_of(extend_name(text_of(path).as_str(), ".lock").as_str())
}

/// Whether an argument is one that the shell knows.
pub open spec fn is_option(arg: Seq<char>) -> bool {
    arg == "-V"@ || arg == "--version"@ || arg == "-h"@ || arg == "--help"@ || arg == "-c"@ || arg
        == "--no-config"@
}

/// A script is refused, whatever its name and whatever follows it: the shell is interactive only.
pub proof fn law_scripts_are_refused(argv: Seq<Seq<u8>>, version: Seq<char>)
    requires
        argv.len() > 0,
        !is_option(byte_text(argv[0])),
    ensures
        read_args(argv, 0, (ArgsView { config: None, no_config: false }), version) is Fail,
{
}

} // verus!
