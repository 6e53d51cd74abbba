use ish::prompt::{
    find_git_dir, host_label, read_head, resolve_gitdir_file, shorten_pwd, DotGit, GitStep, Prompt,
};

#[test]
fn pwd_shortens_middle() {
    assert_eq!(
        shorten_pwd("/home/u/dev/fish-shell", "/home/u"),
        "~/d/fish-shell"
    );
}

#[test]
fn pwd_home_exactly() {
    assert_eq!(shorten_pwd("/home/u", "/home/u"), "~");
}

#[test]
fn pwd_preserves_dot() {
    assert_eq!(shorten_pwd("/home/u/.config/fish", "/home/u"), "~/.c/fish");
}

#[test]
fn pwd_root() {
    assert_eq!(shorten_pwd("/", "/home/u"), "/");
}

#[test]
fn pwd_outside_home() {
    assert_eq!(shorten_pwd("/var/log/syslog", "/home/u"), "/v/l/syslog");
}

#[test]
fn pwd_no_false_tilde() {
    assert_eq!(shorten_pwd("/home/user2/foo", "/home/user"), "/h/u/foo");
}

#[test]
fn prompt_shows_user_directory_and_branch() {
    let mut p = Prompt::new("josh", "mac", "/home/josh");
    let mut out = String::new();
    p.render_into(&mut out, 0, "/home/josh/d/ish", true, &Some("main".to_string()));
    assert_eq!(
        out,
        "josh@mac \x1b[38;5;10m~/d/ish\x1b[0m\x1b[38;5;1m*\x1b[0m main $ "
    );
    assert_eq!(p.display_len(&out), "josh@mac ~/d/ish* main $ ".len());
    p.render_into(&mut out, 1, "/", false, &None);
    assert_eq!(out, "josh@mac \x1b[38;5;1m/\x1b[0m $ ");
    assert_eq!(p.render(1, "/", false, &None), out);
}

#[test]
fn repository_is_searched_upwards_once() {
    let mut p = Prompt::new("u", "h", "/home/u");
    match p.git_branch("/a/b") {
        GitStep::Search(dirs) => assert_eq!(dirs, ["/a/b", "/a", "/"]),
        _ => unreachable!(),
    }
    let head = p.resolve_git(&Some("/a/.git".to_string()), "/a/b");
    assert_eq!(head, Some("/a/.git/HEAD".to_string()));
    match p.git_branch("/a/b/c") {
        GitStep::Read(path) => assert_eq!(path, "/a/.git/HEAD"),
        _ => unreachable!(),
    }
    assert!(matches!(p.git_branch("/x"), GitStep::Search(_)));
    assert_eq!(p.resolve_git(&None, "/x/y"), None);
    assert!(matches!(p.git_branch("/x"), GitStep::NoBranch));
    match p.git_branch("/x/y/z") {
        GitStep::Search(dirs) => assert_eq!(dirs, ["/x/y/z", "/x/y"]),
        _ => unreachable!(),
    }
    p.invalidate_git();
    match p.git_branch("/x") {
        GitStep::Search(dirs) => assert_eq!(dirs, ["/x", "/"]),
        _ => unreachable!(),
    }
}

#[test]
fn git_files_are_read() {
    let dirs = |d: DotGit| {
        vec![
            ("/a/b".to_string(), DotGit::Missing),
            ("/a".to_string(), d),
            ("/".to_string(), DotGit::Directory),
        ]
    };
    assert_eq!(find_git_dir(&dirs(DotGit::Directory)), Some("/a/.git".to_string()));
    assert_eq!(
        find_git_dir(&dirs(DotGit::File(Some("gitdir: ../w/.git\n".to_string())))),
        Some("/a/../w/.git".to_string())
    );
    assert_eq!(find_git_dir(&dirs(DotGit::File(None))), None);
    assert_eq!(find_git_dir(&dirs(DotGit::Missing)), Some("/.git".to_string()));
    assert_eq!(
        resolve_gitdir_file("gitdir: /w/.git", "/a"),
        Some("/w/.git".to_string())
    );
    assert_eq!(resolve_gitdir_file("junk", "/a"), None);
    assert_eq!(read_head("ref: refs/heads/feature/x\n"), Some("feature/x".to_string()));
    assert_eq!(read_head("ref: refs/tags/v1\n"), Some("refs/tags/v1".to_string()));
    assert_eq!(
        read_head("0123456789abcdef0123456789abcdef01234567\n"),
        Some("01234567".to_string())
    );
    assert_eq!(read_head("\n"), None);
    assert_eq!(host_label("mac.local"), "mac");
    assert_eq!(host_label("mac"), "mac");
}
