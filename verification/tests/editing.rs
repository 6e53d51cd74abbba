use ish::alias::AliasMap;
use ish::candidates::DirItem;
use ish::complete::Completions;
use ish::completing::{
    complete_command, complete_files, complete_variables, directory_of, needs_quoting, next_stage,
    preview_completion, start_completion, Source, Stage,
};
use ish::editor::{handle_normal_key, navigate_history, suggestion, KeyAction, Prompt};
use ish::history::History;
use ish::input::{Key, KeyEvent, Modifiers};
use ish::line::LineBuffer;
use ish::path::{
    command_paths, complete_commands, fnv1a, is_command, path_dirs, scan_path, PathCache, PathDir,
};
use ish::pickers::{
    handle_dir_picker_key, handle_file_picker_key, handle_history_search_key, DirAction,
    FilePicker, FilePickerAction, HistAction, HistorySearch,
};
use ish::session::{Editor, Mode, Step};

fn strings(v: &[&str]) -> Vec<String> {
    v.iter().map(|s| s.to_string()).collect()
}

fn line(s: &str) -> LineBuffer {
    let mut lb = LineBuffer::new();
    lb.set(s);
    lb
}

fn prompt(s: &str) -> Prompt {
    Prompt { line: line(s), history_idx: None, saved_line: String::new() }
}

fn history(v: &[&str]) -> History {
    History::from_entries(&strings(v), 1, 1)
}

fn ctrl(c: char) -> KeyEvent {
    KeyEvent::ctrl(c)
}

fn item(name: &str, mode: u32) -> DirItem {
    DirItem { name: name.to_string(), mode, is_link: false, mtime: 0 }
}

#[test]
fn up_and_down_walk_the_history() {
    let h = history(&["git log", "ls", "git status"]);
    let mut p = prompt("git");
    navigate_history(&mut p, &h, true);
    assert_eq!(p.line.text(), "git status");
    navigate_history(&mut p, &h, true);
    assert_eq!(p.line.text(), "git log");
    navigate_history(&mut p, &h, false);
    assert_eq!(p.line.text(), "git status");
    navigate_history(&mut p, &h, false);
    assert_eq!(p.line.text(), "git");
    assert_eq!(p.history_idx, None);
}

#[test]
fn keys_edit_the_line() {
    let h = history(&[]);
    let a = AliasMap::new();
    let mut p = prompt("one two");
    assert!(matches!(handle_normal_key(ctrl('w'), &mut p, &h, &a), KeyAction::Continue));
    assert_eq!(p.line.text(), "one ");
    handle_normal_key(ctrl('y'), &mut p, &h, &a);
    assert_eq!(p.line.text(), "one two");
    handle_normal_key(ctrl('a'), &mut p, &h, &a);
    assert_eq!(p.line.cursor(), 0);
    handle_normal_key(ctrl('k'), &mut p, &h, &a);
    assert!(p.line.is_empty());
    assert!(matches!(handle_normal_key(ctrl('d'), &mut p, &h, &a), KeyAction::Exit));
    assert!(matches!(handle_normal_key(ctrl('c'), &mut p, &h, &a), KeyAction::Cancel));
    assert!(matches!(handle_normal_key(ctrl('l'), &mut p, &h, &a), KeyAction::ClearScreen));
    let mut p = prompt("ls");
    match handle_normal_key(KeyEvent::key(Key::Enter), &mut p, &h, &a) {
        KeyAction::Execute(l) => assert_eq!(l, "ls"),
        _ => unreachable!(),
    }
    let mut p = prompt("ls |");
    assert!(matches!(
        handle_normal_key(KeyEvent::key(Key::Enter), &mut p, &h, &a),
        KeyAction::Continuation
    ));
}

#[test]
fn aliases_expand_on_space() {
    let mut a = AliasMap::new();
    a.set("gs".to_string(), strings(&["git", "status"]));
    let mut p = prompt("gs");
    handle_normal_key(KeyEvent::char(' '), &mut p, &history(&[]), &a);
    assert_eq!(p.line.text(), "git status ");
}

#[test]
fn newest_command_is_suggested() {
    let h = history(&["git log", "git status"]);
    assert_eq!(suggestion(&line("git s"), &h), "tatus");
    assert_eq!(suggestion(&line("x"), &h), "");
}

#[test]
fn tab_on_an_empty_line_inserts_cd() {
    let mut p = prompt("");
    handle_normal_key(KeyEvent::key(Key::Tab), &mut p, &history(&[]), &AliasMap::new());
    assert_eq!(p.line.text(), "cd ");
}

#[test]
fn words_ask_for_their_candidates() {
    let plan = start_completion(&line("cd sr"), "/h");
    assert!(matches!(plan.source, Source::Files));
    assert!(plan.dirs_only);
    assert_eq!(plan.partial, "sr");
    let plan = start_completion(&line("echo $HO"), "/h");
    match plan.source {
        Source::Variables(prefix) => assert_eq!(prefix, "HO"),
        _ => unreachable!(),
    }
    let plan = start_completion(&line("ma"), "/h");
    assert!(matches!(plan.source, Source::Commands));
    let plan = start_completion(&line("cat ~/x"), "/h");
    assert_eq!(plan.expanded, "/h/x");
}

#[test]
fn candidate_takes_the_place_of_the_word() {
    let base = line("cat ma");
    let plan = start_completion(&base, "/h");
    let items = vec![item("my file", 0o100644), item("main.rs", 0o100644)];
    let mut state = complete_files(&plan, &items, 80).unwrap();
    state.selected = 0;
    assert_eq!(state.selected_name(), Some("main.rs"));
    let mut l = base.clone();
    preview_completion(&mut l, &state, &base);
    assert!(l.text().starts_with("cat main.rs"), "{}", l.text());
    assert!(needs_quoting(&"my file".chars().collect()));
    assert!(!needs_quoting(&"main.rs".chars().collect()));
}

#[test]
fn variables_complete_without_quotes() {
    let state = complete_variables("HO", &strings(&["HOME", "PATH", "HOST"]), 80).unwrap();
    let names: Vec<&str> = (0..state.comp.len()).map(|i| state.comp.name(i)).collect();
    assert_eq!(names.len(), 2);
    assert!(names.iter().all(|n| n.contains("HO")), "{names:?}");
    assert!(complete_variables("ZZ", &strings(&["HOME"]), 80).is_none());
}

#[test]
fn commands_complete_from_everywhere() {
    let plan = start_completion(&line("hi"), "/h");
    let mut a = AliasMap::new();
    a.set("hist2".to_string(), strings(&["history"]));
    let dirs = vec![PathDir {
        dir: "/bin".to_string(),
        items: vec![item("hi-there", 0o100755), item("hidden", 0o100644)],
    }];
    let state = complete_command(&plan, &a, &dirs, &Vec::new(), 80);
    let names: Vec<&str> = (0..state.comp.len()).map(|i| state.comp.name(i)).collect();
    assert!(names.contains(&"history"), "{names:?}");
    assert!(names.contains(&"hist2"), "{names:?}");
    assert!(names.contains(&"hi-there"), "{names:?}");
    assert!(!names.contains(&"hidden"), "{names:?}");
}

// -- Programs --

#[test]
fn path_cache_finds_programs() {
    assert_eq!(fnv1a(b""), 0xcbf29ce484222325);
    assert_eq!(fnv1a(b"a"), 0xaf63dc4c8601ec8c);
    let mut cache = PathCache::new();
    let path = "/bin:/usr/bin".to_string();
    assert!(cache.ensure_fresh(&Some(path.clone())));
    let dirs = vec![PathDir {
        dir: "/bin".to_string(),
        items: vec![item("make", 0o100755), item("notes", 0o100644)],
    }];
    cache.rebuild(&path, &dirs);
    assert!(cache.contains("make"));
    assert!(!cache.contains("notes"));
    assert!(!cache.ensure_fresh(&Some(path)));
    assert!(cache.ensure_fresh(&Some("/other".to_string())));
    assert!(!cache.ensure_fresh(&None));
    assert!(!cache.contains("make"));
}

#[test]
fn first_program_of_the_path_is_found() {
    assert_eq!(path_dirs("/a::/b"), strings(&["/a", "/b"]));
    let paths = command_paths("make", "/a:/b");
    assert_eq!(paths, strings(&["/a/make", "/b/make"]));
    assert_eq!(
        scan_path(&paths, &vec![Some(0o100644), Some(0o100755)]).as_deref(),
        Some("/b/make")
    );
    assert_eq!(scan_path(&paths, &vec![None, None]), None);
    assert!(is_command(0o100755));
    assert!(!is_command(0o100644));
    assert!(!is_command(0o140755));
    let mut comp = Completions::new();
    let dirs = vec![PathDir { dir: "/a".to_string(), items: vec![item("make", 0o100755)] }];
    complete_commands("ma", &dirs, &mut comp);
    assert_eq!(comp.len(), 1);
}

// -- Pickers --

#[test]
fn search_shows_the_best_matches() {
    let h = history(&["cargo build", "ls", "cargo test"]);
    let mut s = HistorySearch::start(&h, "typed");
    assert_eq!(s.matches().len(), 3);
    for c in "cargo".chars() {
        handle_history_search_key(KeyEvent::char(c), &mut s, &h);
    }
    assert_eq!(s.query().text(), "cargo");
    assert_eq!(s.matches().len(), 2);
    handle_history_search_key(KeyEvent::key(Key::Backspace), &mut s, &h);
    assert_eq!(s.query().text(), "carg");
    match handle_history_search_key(KeyEvent::key(Key::Enter), &mut s, &h) {
        HistAction::Accept(l) => assert_eq!(l, "cargo test"),
        _ => unreachable!(),
    }
    assert_eq!(s.saved_line(), "typed");
    assert!(matches!(
        handle_history_search_key(KeyEvent::key(Key::Escape), &mut s, &h),
        HistAction::Cancel
    ));
}

#[test]
fn files_are_picked() {
    let mut p = FilePicker::start(&line("cat "));
    p.all_entries = vec![(1, "one.rs".to_string()), (1, "two.rs".to_string())];
    p.filter();
    assert_eq!(p.filtered.len(), 2);
    handle_file_picker_key(KeyEvent::char('t'), &mut p);
    assert_eq!(p.filtered.len(), 1);
    match handle_file_picker_key(KeyEvent::key(Key::Enter), &mut p) {
        FilePickerAction::Accept(path) => {
            assert_eq!(path, "two.rs");
            assert_eq!(p.accepted(&path).text(), "cat two.rs");
        }
        _ => unreachable!(),
    }
}

#[test]
fn directories_are_picked() {
    let entries = strings(&["/a", "/b"]);
    let mut selected = 0;
    handle_dir_picker_key(KeyEvent::key(Key::Down), &entries, &mut selected);
    assert_eq!(selected, 1);
    match handle_dir_picker_key(KeyEvent::key(Key::Enter), &entries, &mut selected) {
        DirAction::Change(d) => assert_eq!(d, "/b"),
        _ => unreachable!(),
    }
    assert!(matches!(
        handle_dir_picker_key(KeyEvent::key(Key::Escape), &entries, &mut selected),
        DirAction::Leave
    ));
}

// -- Sessions --

#[test]
fn escape_gives_the_line_back() {
    let h = history(&["ls", "make"]);
    let a = AliasMap::new();
    let mut e = Editor::new();
    for c in "typed".chars() {
        e.handle_key(KeyEvent::char(c), &h, &a);
    }
    assert!(matches!(e.handle_key(ctrl('r'), &h, &a), Step::SearchHistory));
    e.begin_search(&h);
    assert!(matches!(e.mode, Mode::HistorySearch(_)));
    e.handle_key(KeyEvent::char('m'), &h, &a);
    e.handle_key(KeyEvent::key(Key::Escape), &h, &a);
    assert!(matches!(e.mode, Mode::Normal));
    assert_eq!(e.prompt.line.text(), "typed");
}

#[test]
fn lines_are_typed_and_run() {
    let h = history(&[]);
    let a = AliasMap::new();
    let mut e = Editor::new();
    e.handle_key(KeyEvent::char('l'), &h, &a);
    e.handle_paste("s -la");
    assert_eq!(e.prompt.line.text(), "ls -la");
    match e.handle_key(KeyEvent::key(Key::Enter), &h, &a) {
        Step::Run(l) => assert_eq!(l, "ls -la"),
        _ => unreachable!(),
    }
    let mut e = Editor::new();
    e.handle_paste_rejected();
    assert_eq!(e.prompt.line.text(), "# paste rejected: larger than 1 KiB");
    let mut e = Editor::new();
    assert!(matches!(e.handle_key(ctrl('d'), &h, &a), Step::Leave));
}

#[test]
fn modified_keys_move_by_words() {
    let h = history(&[]);
    let a = AliasMap::new();
    let mut p = prompt("one two");
    let mods = Modifiers { ctrl: true, alt: false, shift: false };
    handle_normal_key(KeyEvent::with_mods(Key::Left, mods), &mut p, &h, &a);
    assert_eq!(p.line.cursor(), 4);
    handle_normal_key(KeyEvent::alt('b'), &mut p, &h, &a);
    assert_eq!(p.line.cursor(), 0);
}

#[test]
fn candidates_are_looked_for_in_stages() {
    let plan = start_completion(&line("ma"), "/h");
    assert_eq!(next_stage(&plan, None), Some(Stage::Named));
    assert_eq!(next_stage(&plan, Some(Stage::Named)), None);
    let plan = start_completion(&line("ssh ho"), "/h");
    assert!(matches!(plan.source, Source::Hosts));
    assert_eq!(next_stage(&plan, None), Some(Stage::Named));
    assert_eq!(next_stage(&plan, Some(Stage::Named)), Some(Stage::Files));
    let plan = start_completion(&line("cat x"), "/h");
    assert_eq!(next_stage(&plan, None), Some(Stage::Files));
    assert_eq!(next_stage(&plan, Some(Stage::Files)), Some(Stage::Abbreviated));
    assert_eq!(next_stage(&plan, Some(Stage::Abbreviated)), None);
}

#[test]
fn stages_list_the_directory_of_the_word() {
    let plan = start_completion(&line("ssh ~"), "/h");
    assert!(matches!(plan.source, Source::Hosts));
    assert_eq!(directory_of(&plan, Stage::Named), "");
    assert_eq!(directory_of(&plan, Stage::Files), "/h/");
    let plan = start_completion(&line("cat ~/d/x"), "/h");
    assert_eq!(directory_of(&plan, Stage::Files), "/h/d/");
}
