use ish::alias::AliasMap;
use ish::builtin::{
    all_builtin_names, is_builtin, is_ish_extension_builtin, list_directory, list_status,
    locate_command,
};
use ish::commands::{
    cd_directory, cd_step, dir_picker_entries, dispatch, handle_alias, handle_exit,
    handle_exit_command, handle_history, handler_for, parse_alias_words, plain_arguments,
    push_dir_stack, reads_history, CdStep, Dispatch, ExitStep, HistoryStep, DIR_STACK_LIMIT,
};
use ish::config::{config_path, init_path, load, parse_line, Directive};
use ish::dirs::{
    ancestors_of, file_name_of, is_within, join_path, parent_of, parts_of, with_file_name,
};
use ish::history::History;
use ish::lex::{lex_words, parse_simple_command_words};
use ish::rewrite::{
    base64_encode, cd_path_for_history, cwd_notice, is_recorded, join_continuation_lines,
    maybe_rewrite_cd, needs_continuation, resolve_cd_for_history, rewritten_line, CdRewrite,
};
use ish::startup::{parse_args, print_help, Start};
use std::path::Path;

fn strings(v: &[&str]) -> Vec<String> {
    v.iter().map(|s| s.to_string()).collect()
}

fn text(s: &str) -> Option<String> {
    Some(s.to_string())
}

fn aliases(v: &[(&str, &[&str])]) -> AliasMap {
    let mut map = AliasMap::new();
    for (name, words) in v {
        map.set(name.to_string(), strings(words));
    }
    map
}

// -- Aliases --

#[test]
fn alias_that_was_set_is_found() {
    let mut map = AliasMap::new();
    map.set("gs".to_string(), strings(&["git", "status"]));
    map.set("gs".to_string(), strings(&["git", "show"]));
    assert_eq!(map.get("gs").unwrap(), strings(&["git", "show"]).as_slice());
    assert!(map.get("gx").is_none());
    assert_eq!(map.iter().len(), 1);
}

#[test]
fn aliases_expand_at_the_start_of_a_line() {
    let map = aliases(&[("g", &["git"])]);
    assert_eq!(map.expand_line("g status"), "git status");
    assert_eq!(map.expand_line("echo g"), "echo g");
    assert_eq!(map.try_expand("x"), None);
}

#[test]
fn words_are_split_as_the_shell_splits_them() {
    assert_eq!(lex_words("echo 'a b' c"), strings(&["echo", "'a b'", "c"]));
    let words = parse_simple_command_words("cd 'my dir'").unwrap();
    assert_eq!(words.len(), 2);
    assert_eq!(words[1].text, "my dir");
    assert!(words[1].quoted);
    assert!(!words[0].quoted);
    assert!(parse_simple_command_words("a | b").is_none());
}

#[test]
fn alias_command_defines_and_lists() {
    let mut map = AliasMap::new();
    let report = handle_alias("alias gs git status", &mut map);
    assert_eq!(report.status, 0);
    assert_eq!(map.get("gs").unwrap(), strings(&["git", "status"]).as_slice());
    let report = handle_alias("alias", &mut map);
    assert!(report.out.contains("gs"), "{}", report.out);
    assert_eq!(parse_alias_words("alias a b"), strings(&["a", "b"]));
    assert_eq!(handle_alias("alias gs", &mut map).out, "alias gs git status\n");
    let report = handle_alias("alias nope", &mut map);
    assert_eq!(report.status, 1);
    assert_eq!(report.err, "ish: alias: not found: nope\n");
}

// -- Builtins --

#[test]
fn builtins_of_both_kinds_are_known() {
    assert!(is_ish_extension_builtin("z"));
    assert!(!is_ish_extension_builtin("cd"));
    assert!(is_builtin("z"));
    assert!(is_builtin("cd"));
    assert!(!is_builtin("make"));
    let names = all_builtin_names();
    assert!(names.iter().any(|n| n == "history"));
    assert!(names.iter().any(|n| n == "cd"));
    assert!(names.iter().all(|n| is_builtin(n)));
}

#[test]
fn aliases_are_located_before_programs() {
    let map = aliases(&[("ll", &["l", "-a"])]);
    let r = locate_command(&strings(&["ll"]), &map, false, &text("/bin/ll"));
    assert_eq!(r.status, 0);
    assert!(r.out.contains("alias"), "{}", r.out);
    let r = locate_command(&strings(&["make"]), &map, false, &text("/usr/bin/make"));
    assert!(r.out.contains("/usr/bin/make"), "{}", r.out);
    let r = locate_command(&strings(&["nope"]), &map, false, &None);
    assert_ne!(r.status, 0);
    let r = locate_command(&[], &map, false, &None);
    assert_eq!(r.err, "ish: w: expected command name\n");
}

#[test]
fn several_directories_are_listed_under_headings() {
    let steps = list_directory(&[]);
    assert_eq!(steps.len(), 1);
    assert_eq!(steps[0].path, ".");
    let steps = list_directory(&strings(&["a", "b"]));
    assert_eq!(steps.len(), 2);
    assert!(steps[1].heading.contains("b"));
    assert_eq!(list_status(&[0, 1]), 1);
    assert_eq!(list_status(&[0, 0]), 0);
}

// -- Commands of the shell itself --

#[test]
fn commands_are_dispatched_by_their_first_word() {
    assert!(matches!(dispatch("alias x y"), Dispatch::Alias));
    assert!(matches!(dispatch("cd /"), Dispatch::Cd));
    assert!(matches!(dispatch("fg"), Dispatch::Foreground));
    assert!(matches!(dispatch("which ls"), Dispatch::Locate));
    assert!(matches!(dispatch("make all"), Dispatch::Shell));
    // A line that is more than one command goes to the shell language.
    assert!(matches!(handler_for("cd / && ls", false), Dispatch::Shell));
    assert_eq!(plain_arguments("z a b"), strings(&["a", "b"]));
    assert!(reads_history("history | wc"));
    assert!(!reads_history("ls"));
}

#[test]
fn cd_goes_home_back_and_to_directories() {
    match cd_step(&Vec::new(), &None, "/h") {
        CdStep::Go(dir) => assert_eq!(dir, "/h"),
        _ => unreachable!(),
    }
    match cd_step(&strings(&["-"]), &text("/old"), "/h") {
        CdStep::Previous(dir) => assert_eq!(dir, "/old"),
        _ => unreachable!(),
    }
    match cd_step(&strings(&["-"]), &None, "/h") {
        CdStep::Fail(e) => assert_eq!(e, "ish: cd: no previous directory\n"),
        _ => unreachable!(),
    }
    match cd_step(&strings(&["a", "b"]), &None, "/h") {
        CdStep::Fail(e) => assert_eq!(e, "ish: cd: too many arguments\n"),
        _ => unreachable!(),
    }
    assert_eq!(cd_directory("~/x", "/h"), "/h/x");
    assert_eq!(cd_directory("~", "/h"), "/h");
    assert_eq!(cd_directory("", "/h"), "/h");
    assert_eq!(cd_directory("y", "/h"), "y");
}

#[test]
fn second_request_leaves_with_a_job() {
    assert!(matches!(handle_exit(false, false), ExitStep::Leave(_)));
    assert!(matches!(handle_exit(true, false), ExitStep::Warn));
    assert!(matches!(handle_exit(true, true), ExitStep::EndJobAndLeave));
    match handle_exit_command("exit 3", false, false) {
        ExitStep::Leave(status) => assert_eq!(status, 3),
        _ => unreachable!(),
    }
    assert!(matches!(handle_exit_command("exit", true, false), ExitStep::Warn));
}

#[test]
fn history_command_prints_what_was_run() {
    let h = History::from_entries(&strings(&["ls", "make"]), 1, 1);
    match handle_history("history", &h) {
        HistoryStep::Print(out) => assert!(out.contains("ls") && out.contains("make"), "{out}"),
        _ => unreachable!(),
    }
    assert!(matches!(handle_history("history compact", &h), HistoryStep::Compact));
    assert!(matches!(handle_history("history rebuild", &h), HistoryStep::Rebuild));
    assert!(matches!(handle_history("history nope", &h), HistoryStep::Unknown(_)));
}

#[test]
fn visited_directories_are_kept_and_bounded() {
    let mut stack = Vec::new();
    push_dir_stack(&mut stack, "/a");
    push_dir_stack(&mut stack, "/a");
    assert_eq!(stack, ["/a"]);
    push_dir_stack(&mut stack, "/b");
    push_dir_stack(&mut stack, "/a");
    assert_eq!(stack, ["/a", "/b", "/a"]);
    for i in 0..200 {
        push_dir_stack(&mut stack, &format!("/d{i}"));
    }
    assert!(stack.len() <= DIR_STACK_LIMIT);
    let entries = dir_picker_entries(&stack, "/d199");
    assert!(entries.iter().all(|d| d != "/d199"));
}

// -- Rewriting lines --

#[test]
fn continued_lines_are_joined() {
    assert_eq!(join_continuation_lines("ls -l"), "ls -l");
    let joined = join_continuation_lines("a &&\nb");
    assert!(!joined.contains('\n'), "{joined:?}");
    assert!(needs_continuation("ls \\"));
    assert!(needs_continuation("a |"));
    assert!(!needs_continuation("a"));
}

#[test]
fn dots_stand_for_cd() {
    let map = AliasMap::new();
    match maybe_rewrite_cd("...", &map, "/h") {
        CdRewrite::Line(line) => assert_eq!(line, "cd ../.."),
        _ => unreachable!(),
    }
    match maybe_rewrite_cd("src", &map, "/h") {
        CdRewrite::IfDirectory { path, line } => {
            assert_eq!(path, "src");
            assert_eq!(rewritten_line("src", CdRewrite::IfDirectory { path, line }, false), "src");
        }
        _ => unreachable!(),
    }
    let rewrite = maybe_rewrite_cd("src", &map, "/h");
    assert_eq!(rewritten_line("src", rewrite, true), "cd src");
    assert!(matches!(maybe_rewrite_cd("ls -l", &map, "/h"), CdRewrite::Unchanged));
}

#[test]
fn relative_cd_is_resolved_for_history() {
    let path = cd_path_for_history("cd src && ls").unwrap();
    assert_eq!(path.path, "src");
    assert_eq!(
        resolve_cd_for_history("cd src && ls", &text("/a/src")),
        "cd /a/src && ls"
    );
    assert!(cd_path_for_history("cd /abs").is_none());
    assert!(cd_path_for_history("ls").is_none());
    assert_eq!(resolve_cd_for_history("ls", &None), "ls");
    assert!(!is_recorded("l"));
    assert!(is_recorded("ls"));
}

#[test]
fn terminal_is_told_of_the_directory() {
    assert_eq!(cwd_notice("mac", "/a b"), "\x1b]7;file://mac/a%20b\x07");
}

#[test]
fn base64_of_bytes() {
    assert_eq!(base64_encode(b""), "");
    assert_eq!(base64_encode(b"f"), "Zg==");
    assert_eq!(base64_encode(b"fo"), "Zm8=");
    assert_eq!(base64_encode(b"foobar"), "Zm9vYmFy");
}

// -- Configuration --

#[test]
fn configuration_defines_aliases_and_variables() {
    let mut map = AliasMap::new();
    let requests = load(
        "# Environment\nset EDITOR nvim\n\nalias gs git status\nalias .. \"cd ..\"\nbogus\nalias x\n",
        "/c/config.ish",
        &mut map,
    );
    assert_eq!(map.get("gs").unwrap(), strings(&["git", "status"]).as_slice());
    assert_eq!(map.get("..").unwrap(), strings(&["cd .."]).as_slice());
    assert_eq!(requests.len(), 3);
    match &requests[0] {
        Directive::Export { name, source, expands, lineno } => {
            assert_eq!(name, "EDITOR");
            assert_eq!(source, "nvim");
            assert!(*expands);
            assert_eq!(*lineno, 2);
        }
        _ => unreachable!(),
    }
    match &requests[1] {
        Directive::Warn(w) => {
            assert_eq!(w, "ish: /c/config.ish:6: unrecognized directive: bogus\n")
        }
        _ => unreachable!(),
    }
    match &requests[2] {
        Directive::Warn(w) => {
            assert_eq!(w, "ish: /c/config.ish:7: alias: missing expansion for 'x'\n")
        }
        _ => unreachable!(),
    }
}

#[test]
fn configuration_lines() {
    assert!(matches!(parse_line("  # comment", 1, "p"), Directive::Nothing));
    assert!(matches!(parse_line("   ", 1, "p"), Directive::Nothing));
    match parse_line("set A", 1, "p") {
        Directive::Export { name, source, expands, lineno } => {
            assert_eq!(name, "A");
            assert_eq!(source, "");
            assert!(!expands);
            assert_eq!(lineno, 1);
        }
        _ => unreachable!(),
    }
    match parse_line("set B  \"x y\" ", 1, "p") {
        Directive::Export { source, .. } => assert_eq!(source, "\"x y\""),
        _ => unreachable!(),
    }
    match parse_line("alias | x", 4, "p") {
        Directive::Warn(w) => assert_eq!(w, "ish: p:4: alias: missing name\n"),
        _ => unreachable!(),
    }
    match ish::config::parse_set("", 4, "p") {
        Directive::Warn(w) => assert_eq!(w, "ish: p:4: set: missing variable name\n"),
        _ => unreachable!(),
    }
}

#[test]
fn places_of_the_configuration() {
    let path = |s: &str| Some(s.as_bytes().to_vec());
    assert_eq!(config_path(&path("/x"), &path("/h")), b"/x/ish/config.ish");
    assert_eq!(config_path(&None, &path("/h")), b"/h/.config/ish/config.ish");
    assert_eq!(config_path(&None, &None), b"/etc/ish/config.ish");
    assert_eq!(init_path(&b"/x/ish/config.ish".to_vec()), b"/x/ish/init.sh");
}

#[test]
fn config_path_uses_non_utf8_xdg_config_home() {
    let raw = vec![b'/', b't', b'm', b'p', b'/', 0xf0, 0x80, 0x80, b'x'];
    let path = config_path(&Some(raw.clone()), &None);
    let mut expected = raw;
    expected.extend_from_slice(b"/ish/config.ish");
    assert_eq!(path, expected);
}

// -- Paths --

#[test]
fn paths_have_parts() {
    assert_eq!(parts_of("/a//b/./c/"), strings(&["/", "a", "b", "c"]));
    assert_eq!(parts_of("./a"), strings(&[".", "a"]));
    assert!(is_within("/a/b", "/a"));
    assert!(is_within("/a", "/a/"));
    assert!(!is_within("/ab", "/a"));
    assert!(!is_within("/a", "/a/b"));
    assert_eq!(parent_of("/a/b"), text("/a"));
    assert_eq!(parent_of("/a"), text("/"));
    assert_eq!(parent_of("/"), None);
    assert_eq!(parent_of("a"), text(""));
    assert_eq!(parent_of(""), None);
    assert_eq!(ancestors_of("/a/b"), strings(&["/a/b", "/a", "/"]));
    assert_eq!(file_name_of("/a/b/"), text("b"));
    assert_eq!(file_name_of("/a/.."), None);
    assert_eq!(with_file_name("/a/b", "c"), "/a/c");
    assert_eq!(join_path("/a", "b"), "/a/b");
    assert_eq!(join_path("/a/", "b"), "/a/b");
    assert_eq!(join_path("/a", "/b"), "/b");
}

#[test]
fn paths_agree_with_std() {
    for p in ["/a//b/./c/", "./a", "a/b", "/", "", "/a/..", "a/.", "//x", "."] {
        let path = Path::new(p);
        assert_eq!(
            parent_of(p),
            path.parent().map(|d| d.to_str().unwrap().to_string()),
            "{p}"
        );
        assert_eq!(
            file_name_of(p),
            path.file_name().map(|d| d.to_str().unwrap().to_string()),
            "{p}"
        );
        assert_eq!(join_path(p, "x"), path.join("x").to_str().unwrap(), "{p}");
        assert_eq!(
            with_file_name(p, "x"),
            path.with_file_name("x").to_str().unwrap(),
            "{p}"
        );
        for q in ["/a", "/a/b", ".", "", "a", "/"] {
            assert_eq!(is_within(p, q), path.starts_with(q), "{p} {q}");
        }
    }
}

// -- Starting --

fn args(v: &[&str]) -> Vec<Vec<u8>> {
    v.iter().map(|s| s.as_bytes().to_vec()).collect()
}

#[test]
fn arguments_of_the_shell() {
    match parse_args(&args(&["-c", "f", "--no-config"]), "1.0") {
        Start::Run(args) => {
            assert_eq!(args.config.as_deref(), Some(b"f".as_slice()));
            assert!(args.no_config);
        }
        _ => unreachable!(),
    }
    match parse_args(&vec![b"-c".to_vec(), vec![0xff]], "1.0") {
        Start::Run(args) => assert_eq!(args.config, Some(vec![0xff])),
        _ => unreachable!(),
    }
    match parse_args(&args(&["-V"]), "1.0") {
        Start::Print(out) => assert_eq!(out, "ish 1.0\n"),
        _ => unreachable!(),
    }
    match parse_args(&args(&["--help"]), "1.0") {
        Start::Print(out) => assert_eq!(out, print_help()),
        _ => unreachable!(),
    }
    match parse_args(&args(&["-c"]), "1.0") {
        Start::Fail(e) => assert_eq!(e, "ish: -c requires a config file path\n"),
        _ => unreachable!(),
    }
    match parse_args(&args(&["script.sh"]), "1.0") {
        Start::Fail(e) => assert!(e.contains("interactive-only")),
        _ => unreachable!(),
    }
}
