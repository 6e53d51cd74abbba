use ish::candidates::{
    complete_hostnames, complete_partial_path, complete_path, complete_path_into,
    complete_remote_path,
    parse_ssh_hosts, partial_dir, remote_list_command, shell_escape, split_path, DirItem,
    PartialDir, Query,
};
use ish::complete::{compute_grid, CompletionState, Completions};
use ish::text::contains_icase;

const DIR: u32 = 0o040755;
const FILE: u32 = 0o100644;
const PROGRAM: u32 = 0o100755;

fn item(name: &str, mode: u32) -> DirItem {
    DirItem { name: name.to_string(), mode, is_link: false, mtime: 0 }
}

/// The entries of a directory of a small project.
fn listing(dir: &str) -> Vec<DirItem> {
    match dir {
        "." | "./" => vec![
            item("src", DIR),
            item("benches", DIR),
            item("Cargo.toml", FILE),
            item("README.md", FILE),
        ],
        "./src" | "src" | "./src/" | "src/" => {
            vec![item("main.rs", FILE), item("math.rs", FILE), item("lib.rs", FILE)]
        }
        "/" => vec![item("usr", DIR), item("tmp", DIR)],
        "/usr" | "/usr/" => vec![item("bin", DIR), item("lib", DIR)],
        "/usr/bin" | "/usr/bin/" => {
            vec![item("tail", PROGRAM), item("test", PROGRAM), item("cat", PROGRAM)]
        }
        _ => Vec::new(),
    }
}

fn is_dir(path: &str) -> bool {
    matches!(
        path,
        "." | "./" | "src" | "./src" | "src/" | "./src/" | "/" | "/usr" | "/usr/" | "/usr/bin"
            | "/usr/bin/"
    )
}

fn resolve_partial_dir(dir: &str) -> Vec<String> {
    let mut search = PartialDir::new(dir);
    loop {
        match search.pending() {
            Some(Query::IsDir(path)) => search.answer(is_dir(&path)),
            Some(Query::List(path)) => search.feed(&listing(&path)),
            None => return search.results(),
        }
    }
}

fn complete_partial(prefix: &str) -> (Completions, Vec<(String, usize, usize)>) {
    let dir = partial_dir(prefix);
    let dirs = resolve_partial_dir(&dir);
    let listings: Vec<Vec<DirItem>> = dirs.iter().map(|d| listing(d)).collect();
    complete_partial_path(prefix, false, is_dir(&dir), &dirs, &listings)
}

fn group_names(comp: &Completions, groups: &[(String, usize, usize)]) -> Vec<String> {
    groups
        .iter()
        .flat_map(|(_, start, count)| *start..*start + *count)
        .map(|i| comp.name(i).to_string())
        .collect()
}

#[test]
fn host_flag() {
    let mut comp = Completions::new();
    comp.push_host("myhost");
    assert!(comp.entries[0].is_host());
    assert!(!comp.entries[0].is_dir());
    assert_eq!(comp.entries[0].flags, 8);
    assert_eq!(comp.entries[0].display_width(), 7); // "myhost" + ":"
}

#[test]
fn shell_escape_no_quotes() {
    assert_eq!(shell_escape("hello"), "hello");
    assert_eq!(shell_escape("/tmp/foo"), "/tmp/foo");
}

#[test]
fn shell_escape_with_quotes() {
    assert_eq!(shell_escape("it's"), "it'\\''s");
}

#[test]
fn split_path_no_slash() {
    assert_eq!(split_path("foo"), ("", "foo"));
}

#[test]
fn split_path_with_dir() {
    assert_eq!(split_path("src/ma"), ("src/", "ma"));
}

#[test]
fn grid_computation() {
    let mut comp = Completions::new();
    for i in 0..7 {
        comp.push(&format!("file{i}.rs"), false, false, false);
    }
    let (cols, rows) = compute_grid(&comp.entries, 80);
    assert!(cols >= 1);
    assert!(rows >= 1);
    assert!(cols * rows >= 7);
}

#[test]
fn partial_path_resolves_this_repo() {
    let resolved = resolve_partial_dir("sr");
    assert!(
        resolved.iter().any(|d| d == "src"),
        "expected 'src' in {resolved:?}"
    );
}

#[test]
fn partial_path_two_levels() {
    let resolved = resolve_partial_dir("sr");
    assert!(!resolved.is_empty());
}

#[test]
fn partial_path_complete_finds_entries() {
    let (comp, groups) = complete_partial("./sr/m");
    let names = group_names(&comp, &groups);
    assert!(
        names.iter().any(|n| n.starts_with("main")),
        "expected main.rs in {names:?}"
    );
}

#[test]
fn partial_path_existing_dir_returns_empty() {
    let (_comp, groups) = complete_partial("./src/m");
    assert!(groups.is_empty());
}

#[test]
fn partial_path_nonexistent_returns_empty() {
    let (_comp, groups) = complete_partial("./zzzzz/m");
    assert!(groups.is_empty());
}

#[test]
fn complete_contains_icase_basic() {
    assert!(contains_icase(b"Cargo.toml", b"tom"));
    assert!(contains_icase(b"Cargo.toml", b"TOM"));
    assert!(contains_icase(b"Cargo.toml", b"cargo"));
    assert!(contains_icase(b"Cargo.toml", b"Cargo"));
    assert!(!contains_icase(b"Cargo.toml", b"xyz"));
    assert!(contains_icase(b"anything", b""));
    assert!(!contains_icase(b"ab", b"abc"));
}

#[test]
fn substring_fallback_finds_toml() {
    // "tom" starts no name, and stands in "Cargo.toml"
    let comp = complete_path("tom", false, &listing("."));
    let names: Vec<&str> = (0..comp.len()).map(|i| comp.name(i)).collect();
    assert!(
        names.iter().any(|n| n.contains("toml")),
        "expected Cargo.toml in {names:?}"
    );
}

#[test]
fn prefix_match_preferred_over_substring() {
    let comp = complete_path("src", false, &listing("."));
    let names: Vec<&str> = (0..comp.len()).map(|i| comp.name(i)).collect();
    assert!(names.contains(&"src"), "expected exact 'src' in {names:?}");
}

#[test]
fn partial_path_absolute() {
    let (comp, groups) = complete_partial("/usr/bi/t");
    let all_names = group_names(&comp, &groups);
    assert!(
        all_names.iter().any(|n| n.starts_with("t")),
        "expected entries starting with 't' in /usr/bin: {all_names:?}"
    );
}

#[test]
fn prefix_matches_leave_substrings_out() {
    let items = vec![item("main.rs", FILE), item("domain", FILE)];
    let comp = complete_path("main", false, &items);
    assert_eq!(comp.len(), 1);
    assert_eq!(comp.name(0), "main.rs");
}

#[test]
fn only_directories_complete_where_asked() {
    let comp = complete_path("", true, &listing("."));
    let names: Vec<&str> = (0..comp.len()).map(|i| comp.name(i)).collect();
    assert_eq!(names.len(), 2);
    assert!(names.contains(&"src") && names.contains(&"benches"));
}

#[test]
fn completed_entries_are_sorted_and_deduplicated() {
    let mut comp = Completions::new();
    comp.push("b", false, false, false);
    comp.push("A", true, false, false);
    comp.push("b", false, false, false);
    comp.sort_entries();
    comp.dedup_sorted();
    assert_eq!(comp.len(), 2);
    assert_eq!(comp.name(0), "A");
    assert_eq!(comp.name(1), "b");
    assert!(comp.entries[0].is_dir());
}

#[test]
fn newest_entries_come_first_by_time() {
    let mut comp = Completions::new();
    comp.push_with_mtime("old", false, false, false, 1);
    comp.push_with_mtime("new", false, true, true, 9);
    comp.sort_by_mtime();
    assert_eq!(comp.name(0), "new");
    assert!(comp.entries[0].is_link() && comp.entries[0].is_exec());
}

fn grid_state(n: usize, cols: usize, rows: usize) -> CompletionState {
    let mut comp = Completions::new();
    for i in 0..n {
        comp.push(&format!("f{i}"), false, false, false);
    }
    CompletionState {
        comp,
        selected: 0,
        cols,
        rows,
        scroll: 0,
        dir_prefix: String::new(),
        in_quote: false,
    }
}

#[test]
fn grid_moves_undo_each_other() {
    let mut state = grid_state(6, 2, 3);
    state.move_down();
    assert_eq!(state.selected, 1);
    state.move_right();
    assert_eq!(state.selected, 4);
    state.move_left();
    assert_eq!(state.selected, 1);
    state.move_up();
    assert_eq!(state.selected, 0);
    assert_eq!(state.selected_name(), Some("f0"));
}

#[test]
fn hosts_come_from_config_and_known_hosts() {
    let hosts = parse_ssh_hosts(
        "Host alpha beta\n  HostName x\nHost *\n",
        "gamma,10.0.0.1 ssh-ed25519 AAAA\n|1|hash= ssh-rsa BBBB\n",
    );
    assert!(hosts.iter().any(|h| h == "alpha"));
    assert!(hosts.iter().any(|h| h == "beta"));
    assert!(hosts.iter().any(|h| h == "gamma"));
    assert!(!hosts.iter().any(|h| h == "*"));
    let mut comp = Completions::new();
    complete_hostnames("al", &hosts, &mut comp);
    assert_eq!(comp.len(), 1);
    assert_eq!(comp.name(0), "alpha");
    assert!(comp.entries[0].is_host());
}

#[test]
fn remote_listings_complete() {
    let mut comp = Completions::new();
    complete_remote_path("src/\nsample.txt\nother\n", "s", &mut comp);
    let names: Vec<&str> = (0..comp.len()).map(|i| comp.name(i)).collect();
    assert!(names.contains(&"src"), "{names:?}");
    assert!(names.contains(&"sample.txt"), "{names:?}");
    assert!(remote_list_command("host", "it's").contains("it'\\''s"));
}

#[test]
fn names_are_built_in_the_arena() {
    let mut comp = Completions::with_capacity(64, 4);
    assert!(comp.is_empty());
    let start = comp.begin_entry();
    comp.names.push_str("src/");
    comp.names.push_str("main.rs");
    comp.finish_entry(start, false, true, false);
    assert_eq!(comp.name(0), "src/main.rs");
    assert!(comp.entries[0].is_link());
    assert!(!comp.entries[0].is_dir());
    let mut state = CompletionState {
        comp,
        selected: 0,
        cols: 1,
        rows: 1,
        scroll: 0,
        dir_prefix: String::new(),
        in_quote: false,
    };
    assert!(state.selected_entry().is_some_and(|e| e.is_link()));
    state.selected = usize::MAX;
    assert!(state.selected_entry().is_none());
}

#[test]
fn candidates_are_added_to_those_that_are_there() {
    let mut comp = Completions::new();
    comp.push_host("other");
    complete_path_into("s", false, Some(&listing(".")), &mut comp);
    let mut names: Vec<&str> = (0..comp.len()).map(|i| comp.name(i)).collect();
    names.sort();
    assert_eq!(names, ["other", "src"]);
}

#[test]
fn directory_that_cannot_be_opened_adds_nothing() {
    let entry = |name: &str, mtime: i64| DirItem {
        name: name.to_string(),
        mode: FILE,
        is_link: false,
        mtime,
    };
    let items = vec![entry("old", 1), entry("new", 2)];
    let mut comp = Completions::new();
    comp.push_with_mtime("first", false, false, false, 1);
    comp.push_with_mtime("second", false, false, false, 2);
    complete_path_into("none/", false, None, &mut comp);
    assert_eq!((comp.name(0), comp.name(1)), ("first", "second"));
    complete_path_into("", false, Some(&Vec::new()), &mut comp);
    assert_eq!((comp.name(0), comp.name(1)), ("second", "first"));
    let found = complete_path("", false, &items);
    assert_eq!((found.name(0), found.name(1)), ("new", "old"));
}

#[test]
fn groups_are_what_their_directories_give() {
    let (comp, groups) = complete_partial("/u/b/t");
    assert_eq!(groups.len(), 1);
    let (dir, start, count) = &groups[0];
    assert_eq!(dir, "/usr/bin/");
    let alone = complete_path(&format!("{dir}t"), false, &listing(dir));
    assert_eq!((*start, *count), (0, comp.len()));
    assert_eq!(alone.len(), *count);
    for i in 0..*count {
        assert_eq!(comp.name(start + i), alone.name(i));
    }
    let (comp, groups) = complete_partial("src/m");
    assert!(comp.is_empty() && groups.is_empty());
}
