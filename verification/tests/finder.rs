use ish::finder::{contains_icase, filter_entries, find};

/// The walk of a small project, hidden files on request.
fn walk(hidden: bool) -> Vec<(usize, String)> {
    let mut entries = vec![
        (2, "src/main.rs".to_string()),
        (2, "src/lib.rs".to_string()),
        (3, "src/sub/deep.rs".to_string()),
        (1, "Cargo.toml".to_string()),
        (1, "build.rs".to_string()),
        (1, "gitlog".to_string()),
    ];
    if hidden {
        entries.push((2, ".git/gitk".to_string()));
        entries.push((1, ".gitignore".to_string()));
    }
    entries
}

#[test]
fn finder_contains_icase_basic() {
    assert!(contains_icase(b"Hello World", b"hello"));
    assert!(contains_icase(b"Hello World", b"world"));
    assert!(!contains_icase(b"Hello", b"xyz"));
    assert!(contains_icase(b"abc", b"")); // empty needle matches everything
}

#[test]
fn find_in_src() {
    let results = find(&walk(false), "rs", 100);
    assert!(
        results.iter().any(|r| r.ends_with("main.rs")),
        "should find main.rs: {results:?}"
    );
}

#[test]
fn find_respects_limit() {
    let results = find(&walk(false), "", 5);
    assert!(results.len() <= 5);
}

#[test]
fn find_shallow_results_first() {
    let results = find(&walk(false), "rs", 100);
    assert!(results.len() >= 2);
    let first_depth = results[0].matches('/').count();
    let last_depth = results.last().unwrap().matches('/').count();
    assert!(
        first_depth <= last_depth,
        "shallow results should come first: first={} (depth {first_depth}), last={} (depth {last_depth})",
        results[0],
        results.last().unwrap()
    );
}

#[test]
fn find_hidden_includes_dotfiles() {
    let normal = find(&walk(false), "git", 1000);
    let with_hidden = find(&walk(true), "git", 1000);
    // Hidden mode should find more (or equal) results
    assert!(
        with_hidden.len() >= normal.len(),
        "hidden mode should find at least as many: normal={}, hidden={}",
        normal.len(),
        with_hidden.len()
    );
    assert_eq!(normal, ["gitlog"]);
    assert_eq!(with_hidden, [".gitignore", "gitlog", ".git/gitk"]);
}

#[test]
fn filter_narrows_the_picker() {
    let all = walk(false);
    let mut filtered = Vec::new();
    let mut selected = 3;
    filter_entries("rs", &all, &mut filtered, &mut selected);
    assert_eq!(filtered.len(), 4);
    assert_eq!(all[filtered[0]].1, "build.rs");
    assert!(selected < filtered.len());
}
