use ish::error::Error;
use ish::expand::{
    expand_argv, expand_tilde, expand_variables, expand_word, finish_word, pattern_match,
    strip_prefix_glob, strip_suffix_glob, word_step, ArgvExpansion, DirEntry, Expansion, Glob,
    Part, WordStep,
};

fn env(v: &[(&str, &str)]) -> Vec<(String, String)> {
    v.iter().map(|(k, w)| (k.to_string(), w.to_string())).collect()
}

#[test]
fn tilde() {
    assert_eq!(expand_tilde("~/foo", "/home/u"), "/home/u/foo");
    assert_eq!(expand_tilde("~", "/home/u"), "/home/u");
    assert_eq!(expand_tilde("~bar", "/home/u"), "~bar");
}

#[test]
fn variables() {
    let e = env(&[("ISH_TEST_VAR", "hello")]);
    assert_eq!(expand_variables("$ISH_TEST_VAR world", 0, &e), "hello world");
    assert_eq!(expand_variables("${ISH_TEST_VAR}", 0, &e), "hello");
    assert_eq!(expand_variables("${ISH_TEST_VAR}!", 0, &e), "hello!");
    // Undefined var → empty
    assert_eq!(expand_variables("$UNDEFINED_ISH_VAR", 0, &e), "");
    assert_eq!(expand_variables("${UNDEFINED_ISH_VAR}", 0, &e), "");
}

#[test]
fn braced_var_default() {
    let e = env(&[("ISH_SET", "val")]);
    // ${VAR:-default} — default if unset or empty
    assert_eq!(expand_variables("${ISH_SET:-fallback}", 0, &e), "val");
    assert_eq!(expand_variables("${ISH_UNSET:-fallback}", 0, &e), "fallback");
    // ${VAR-default} — default if unset only
    assert_eq!(expand_variables("${ISH_SET-fallback}", 0, &e), "val");
    assert_eq!(expand_variables("${ISH_UNSET-fallback}", 0, &e), "fallback");
}

#[test]
fn braced_var_alternate() {
    let e = env(&[("ISH_SET", "val")]);
    // ${VAR:+alt} — alt if set and non-empty
    assert_eq!(expand_variables("${ISH_SET:+yes}", 0, &e), "yes");
    assert_eq!(expand_variables("${ISH_UNSET:+yes}", 0, &e), "");
    // ${VAR+alt} — alt if set
    assert_eq!(expand_variables("${ISH_SET+yes}", 0, &e), "yes");
    assert_eq!(expand_variables("${ISH_UNSET+yes}", 0, &e), "");
}

#[test]
fn braced_var_strip() {
    let e = env(&[("ISH_PATH", "/home/user/file.txt")]);
    // ${VAR#pattern} — remove shortest prefix
    assert_eq!(expand_variables("${ISH_PATH#*/}", 0, &e), "home/user/file.txt");
    // ${VAR%pattern} — remove shortest suffix
    assert_eq!(expand_variables("${ISH_PATH%/*}", 0, &e), "/home/user");
    // ${VAR%.ext}
    assert_eq!(expand_variables("${ISH_PATH%.txt}", 0, &e), "/home/user/file");
}

#[test]
fn last_status() {
    let e = env(&[]);
    assert_eq!(expand_variables("$?", 0, &e), "0");
    assert_eq!(expand_variables("$?", 127, &e), "127");
    assert_eq!(expand_variables("exit:$?", 1, &e), "exit:1");
}

#[test]
fn strip_prefix_glob_cases() {
    assert_eq!(
        strip_prefix_glob("/home/user/file.txt", "*/"),
        "home/user/file.txt"
    );
    assert_eq!(
        strip_prefix_glob("/home/user/file.txt", "/home/"),
        "user/file.txt"
    );
    assert_eq!(strip_prefix_glob("foobar", "foo"), "bar");
    assert_eq!(strip_prefix_glob("foobar", "baz"), "foobar");
    assert_eq!(strip_prefix_glob("anything", "*"), "");
}

#[test]
fn strip_suffix_glob_cases() {
    assert_eq!(strip_suffix_glob("/home/user/file.txt", "/*"), "/home/user");
    assert_eq!(
        strip_suffix_glob("/home/user/file.txt", ".txt"),
        "/home/user/file"
    );
    assert_eq!(strip_suffix_glob("foobar", "bar"), "foo");
    assert_eq!(strip_suffix_glob("foobar", "baz"), "foobar");
    assert_eq!(strip_suffix_glob("anything", "*"), "");
}

#[test]
fn pattern_matching() {
    assert!(pattern_match("*.rs", "main.rs"));
    assert!(pattern_match("*.rs", "test.rs"));
    assert!(!pattern_match("*.rs", "main.py"));
    assert!(pattern_match("test?", "test1"));
    assert!(!pattern_match("test?", "test12"));
    assert!(pattern_match("*", "anything"));
}

#[test]
fn question_mark_matches_one_character() {
    assert!(pattern_match("a?c", "aéc"));
    assert!(!pattern_match("a?c", "ac"));
}

fn entry(name: &str, is_dir: bool) -> DirEntry {
    DirEntry { name: name.to_string(), is_dir, leads_to_dir: is_dir }
}

fn glob(pattern: &str) -> Result<Vec<String>, String> {
    let mut g = Glob::new(pattern);
    loop {
        let dir = match g.pending() {
            Some(dir) => dir.to_string(),
            None => break,
        };
        let entries = match dir.trim_end_matches('/') {
            "" | "." => vec![
                entry("src", true),
                entry("main.py", false),
                entry("lib.rs", false),
                entry(".hidden.rs", false),
            ],
            "src" | "./src" => vec![entry("deep", true), entry("b.rs", false), entry("a.rs", false)],
            "src/deep" | "./src/deep" => vec![entry("c.rs", false)],
            _ => Vec::new(),
        };
        g.feed(&entries);
    }
    g.finish(pattern).map_err(|e| e.message())
}

#[test]
fn globs_match_entries_in_order() {
    assert_eq!(glob("src/*.rs").unwrap(), ["src/a.rs", "src/b.rs"]);
    assert_eq!(glob("*.rs").unwrap(), ["lib.rs"]);
    assert_eq!(
        glob("src/**/*.rs").unwrap(),
        ["src/a.rs", "src/b.rs", "src/deep/c.rs"]
    );
}

#[test]
fn glob_without_match_is_an_error() {
    assert_eq!(glob("*.zzz").unwrap_err(), "no matches for glob: *.zzz");
}

#[test]
fn commands_in_words_are_run_between_the_halves() {
    let e = env(&[("X", "1")]);
    let plan = expand_word("a$(whoami)b$X", "/h", 0, &e);
    assert!(plan.error.is_none());
    let runs: Vec<&String> = plan
        .parts
        .iter()
        .filter_map(|p| match p {
            Part::Run(c) => Some(c),
            Part::Text(_) => None,
        })
        .collect();
    assert_eq!(runs, ["whoami"]);
    match finish_word(&plan, &vec!["josh\n".to_string()]) {
        Expansion::Word(w) => assert_eq!(w, "ajoshb1"),
        Expansion::Pattern(p) => panic!("{p}"),
    }
}

#[test]
fn quoted_characters_skip_expansion() {
    let e = env(&[("HOME", "/h")]);
    let line = ish::parse::parse("echo '$HOME' \"$HOME\"").unwrap();
    let argv = &line.segments[0].0.commands[0].cmd.argv;
    let plans = expand_argv(argv, "/h", 0, &e);
    let words: Vec<String> = plans
        .iter()
        .map(|p| match finish_word(p, &Vec::new()) {
            Expansion::Word(w) => w,
            Expansion::Pattern(p) => panic!("{p}"),
        })
        .collect();
    assert_eq!(words, ["echo", "$HOME", "/h"]);
}

#[test]
fn quoted_pattern_characters_stand_for_themselves() {
    let line = ish::parse::parse("ls '*'x*").unwrap();
    let argv = &line.segments[0].0.commands[0].cmd.argv;
    let plan = expand_word(&argv[1], "/h", 0, &env(&[]));
    let pattern = match word_step(&plan, &Vec::new()) {
        WordStep::Ready(Expansion::Pattern(p)) => p,
        other => panic!("{other:?}"),
    };
    let mut g = Glob::new(&pattern);
    assert_eq!(g.pending(), Some("."));
    g.feed(&vec![entry("axb", false), entry("*xb", false), entry("*x", false)]);
    assert!(g.pending().is_none());
    assert_eq!(g.finish(&pattern).unwrap(), ["*x", "*xb"]);
    let mut g = Glob::new(&pattern);
    g.feed(&vec![entry("axb", false)]);
    assert_eq!(g.finish(&pattern).unwrap_err().message(), "no matches for glob: *x*");
}

#[test]
fn unclosed_operand_reaches_to_the_end() {
    let e = env(&[("SET", "v")]);
    assert_eq!(expand_variables("${UNSET:-ab", 0, &e), "ab");
    assert_eq!(expand_variables("${SET+yes", 0, &e), "yes");
    assert_eq!(expand_variables("${UNSET:-{a}", 0, &e), "{a}");
    assert_eq!(expand_variables("${UNSET", 0, &e), "");
}

#[test]
fn commands_of_a_word_run_in_order_before_its_error() {
    let plan = expand_word("$(a)$(b)", "/h", 0, &env(&[]));
    let mut outputs = Vec::new();
    assert!(matches!(word_step(&plan, &outputs), WordStep::Run(c) if c == "a"));
    outputs.push("1\n".to_string());
    assert!(matches!(word_step(&plan, &outputs), WordStep::Run(c) if c == "b"));
    outputs.push("2\n".to_string());
    assert!(
        matches!(word_step(&plan, &outputs), WordStep::Ready(Expansion::Word(w)) if w == "12")
    );
    let plan = expand_word("$(a)$(b", "/h", 0, &env(&[]));
    assert!(matches!(word_step(&plan, &Vec::new()), WordStep::Run(c) if c == "a"));
    match word_step(&plan, &vec![String::new()]) {
        WordStep::Fail(e) => assert_eq!(e.message(), "bad substitution: unclosed $("),
        other => panic!("{other:?}"),
    }
}

fn strings(v: &[&str]) -> Vec<String> {
    v.iter().map(|s| s.to_string()).collect()
}

#[test]
fn argument_lists_join_their_words() {
    let argv = strings(&["a", "b*", "c"]);
    let mut x = ArgvExpansion::new(&argv, "/h", 0, &env(&[]));
    assert!(x.pending().is_some());
    x.take(Ok(strings(&["a"])));
    assert!(x.pending().is_some_and(|p| p.glob));
    x.take(Ok(strings(&["b1", "b2"])));
    x.take(Ok(strings(&["c"])));
    assert!(x.pending().is_none());
    assert_eq!(x.finish().unwrap(), ["a", "b1", "b2", "c"]);
}

#[test]
fn the_first_word_that_fails_ends_the_expansion() {
    let argv = strings(&["a", "b", "c"]);
    let mut x = ArgvExpansion::new(&argv, "/h", 0, &env(&[]));
    x.take(Ok(strings(&["a"])));
    x.take(Err(Error::msg("no")));
    assert!(x.pending().is_none());
    assert_eq!(x.finish().unwrap_err().message(), "no");
}
