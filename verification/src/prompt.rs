//! The prompt: `user@host`, the shortened working directory, and the branch of the repository
//! that it lies in.
//!
//! The caller looks for `.git` and reads what it is pointed to.
use vstd::prelude::*;

use crate::builtin::text3;
use crate::dirs::{
    ancestors, ancestors_of, is_within, join_path, joined_path, parent, parent_of, parts, within,
};
use crate::line::{fit, fit_prefix};
use crate::text::{
    chars_of, ends_with, find_char, has_prefix_str, head_of, index_from, join_strings, joined,
    push_str, split, split_on, starts_with, string_of, strs, substring, tail_of, trim_end_of,
    trim_of, trimmed, trimmed_end,
};

verus! {

// -- The working directory --

/// A part that is not the last: its first character, and the dot before it.
pub open spec fn short_part(part: Seq<char>) -> Seq<char> {
    let n: int = if part.len() > 0 && part[0] == '.' {
        2
    } else {
        1
    };
    if part.len() < n {
        part
    } else {
        part.take(n)
    }
}

/// Whether a path is the home directory or lies in it.
pub open spec fn in_home(pwd: Seq<char>, home: Seq<char>) -> bool {
    home.len() > 0 && starts_with(pwd, home) && (pwd.len() == home.len() || pwd[home.len() as int]
        == '/')
}

/// The parts of a path as they are shown. The home directory is shown as `~`.
pub open spec fn short_parts(all: Seq<Seq<char>>, tilde: bool) -> Seq<Seq<char>> {
    Seq::new(
        all.len(),
        |i: int|
            if tilde && i == 0 {
                seq!['~']
            } else if i < all.len() - 1 {
                short_part(all[i])
            } else {
                all[i]
            },
    )
}

pub open spec fn below_home(pwd: Seq<char>, home: Seq<char>) -> Seq<char> {
    if in_home(pwd, home) {
        pwd.skip(home.len() as int)
    } else {
        pwd
    }
}

/// The working directory as it is shown.
pub open spec fn shortened(pwd: Seq<char>, home: Seq<char>) -> Seq<char> {
    joined(short_parts(split(below_home(pwd, home), '/'), in_home(pwd, home)), "/"@)
}

fn shorten_part(part: &str) -> (r: String)
    ensures
        r@ == short_part(part@),
{
    let v = chars_of(part);
    let n: usize = if v.len() > 0 && v[0] == '.' {
        2
    } else {
        1
    };
    let r = if v.len() < n {
        string_of(v.as_slice())
    } else {
        substring(&v, 0, n)
    };
    assert(r@ =~= short_part(part@));
    r
}

/// The working directory as it is shown: `~` for the home directory, and one character for each
/// part but the last.
pub fn shorten_pwd(pwd: &str, home: &str) -> (r: String)
    ensures
        r@ == shortened(pwd@, home@),
{
    let p = chars_of(pwd);
    let h = chars_of(home);
    let tilde = h.len() > 0 && has_prefix_str(&p, home) && (p.len() == h.len() || p[h.len()]
        == '/');
    assert(tilde == in_home(pwd@, home@));
    let rest = if tilde {
        tail_of(&p, h.len())
    } else {
        p
    };
    let all = split_on(&rest, '/');
    let ghost av = strs(all@);
    let ghost goal = short_parts(av, tilde);
    assert(av.len() == all@.len());
    let mut out: Vec<String> = Vec::new();
    let mut i: usize = 0;
    assert(strs(out@) =~= goal.take(0));
    while i < all.len()
        invariant
            i <= all.len(),
            av == strs(all@),
            av.len() == all@.len(),
            goal == short_parts(av, tilde),
            strs(out@) == goal.take(i as int),
        decreases all.len() - i,
    {
        let ghost had = strs(out@);
        assert(av[i as int] == all@[i as int]@);
        let part = if tilde && i == 0 {
            let mut one = String::new();
            one.push('~');
            assert(one@ =~= seq!['~']);
            one
        } else if i < all.len() - 1 {
            shorten_part(all[i].as_str())
        } else {
            all[i].clone()
        };
        let ghost pv = part@;
        assert(pv == goal[i as int]);
        out.push(part);
        assert(strs(out@) =~= had.push(pv));
        assert(goal.take(i + 1) =~= had.push(pv));
        i += 1;
    }
    assert(goal.take(i as int) =~= goal);
    join_strings(out.as_slice(), "/")
}

/// The last part of the working directory is shown whole.
pub proof fn law_last_part_kept(pwd: Seq<char>, home: Seq<char>)
    requires
        pwd != home || home.len() == 0,
    ensures
        ends_with(shortened(pwd, home), split(below_home(pwd, home), '/').last()),
{
    let rest = below_home(pwd, home);
    let all = split(rest, '/');
    let shown = short_parts(all, in_home(pwd, home));
    crate::text::lemma_index_from(rest, '/', 0);
    assert(all.len() >= 1) by {
        reveal_with_fuel(crate::text::split_from, 2);
    }
    if in_home(pwd, home) {
        if pwd.len() == home.len() {
            assert(pwd =~= home) by {
                assert(pwd.subrange(0, home.len() as int) =~= pwd);
            }
        }
        assert(rest[0] == '/');
        assert(all.len() >= 2) by {
            reveal_with_fuel(crate::text::split_from, 3);
            assert(index_from(rest, '/', 0) == 0);
        }
    }
    assert(shown.last() == all.last());
    let text = joined(shown, "/"@);
    let last = all.last();
    if shown.len() == 1 {
        assert(text.subrange(0, last.len() as int) =~= last);
    } else {
        let front = joined(shown.drop_last(), "/"@) + "/"@;
        assert(text =~= front + last);
        assert(text.subrange(front.len() as int, text.len() as int) =~= last);
    }
}

// -- Repositories --

/// What is known of the repository that the working directory lies in.
pub enum GitCache {
    Unknown,
    /// The directory that holds a repository, and the file that names its branch.
    Repo { root: String, head: String },
    /// Neither a directory nor one above it holds a repository.
    NoRepo { from: String },
}

#[verifier::ext_equal]
pub enum GitView {
    Unknown,
    Repo { root: Seq<char>, head: Seq<char> },
    NoRepo { from: Seq<char> },
}

impl View for GitCache {
    type V = GitView;

    open spec fn view(&self) -> GitView {
        match self {
            GitCache::Unknown => GitView::Unknown,
            GitCache::Repo { root, head } => GitView::Repo { root: root@, head: head@ },
            GitCache::NoRepo { from } => GitView::NoRepo { from: from@ },
        }
    }
}

/// How the branch is found.
pub enum GitStep {
    /// There is none.
    NoBranch,
    /// A file names it.
    Read(String),
    /// The directories are to be looked at for a repository, in order.
    Search(Vec<String>),
}

#[verifier::ext_equal]
pub enum GitStepView {
    NoBranch,
    Read(Seq<char>),
    Search(Seq<Seq<char>>),
}

impl View for GitStep {
    type V = GitStepView;

    open spec fn view(&self) -> GitStepView {
        match self {
            GitStep::NoBranch => GitStepView::NoBranch,
            GitStep::Read(path) => GitStepView::Read(path@),
            GitStep::Search(dirs) => GitStepView::Search(strs(dirs@)),
        }
    }
}

/// Number of directories up to the one that is the ceiling; all where none is.
pub open spec fn up_to(dirs: Seq<Seq<char>>, ceiling: Seq<char>, i: int) -> int
    decreases dirs.len() - i,
{
    if i >= dirs.len() {
        dirs.len() as int
    } else if parts(dirs[i]) == parts(ceiling) {
        i + 1
    } else {
        up_to(dirs, ceiling, i + 1)
    }
}

/// How the branch is found, from what is known. Below a directory that is known to hold no
/// repository only the directories down from it are looked at.
pub open spec fn git_step_from(git: GitView, cwd: Seq<char>) -> GitStepView {
    match git {
        GitView::Unknown => GitStepView::Search(ancestors(cwd)),
        GitView::Repo { root, head } => if within(cwd, root) {
            GitStepView::Read(head)
        } else {
            GitStepView::Search(ancestors(cwd))
        },
        GitView::NoRepo { from } => if within(from, cwd) {
            GitStepView::NoBranch
        } else if within(cwd, from) {
            GitStepView::Search(ancestors(cwd).take(up_to(ancestors(cwd), from, 0)))
        } else {
            GitStepView::Search(ancestors(cwd))
        },
    }
}

fn same_path(a: &str, b: &str) -> (r: bool)
    ensures
        r == (parts(a@) == parts(b@)),
{
    let r = is_within(a, b) && is_within(b, a);
    proof {
        let x = parts(a@);
        let y = parts(b@);
        if within(a@, b@) && within(b@, a@) {
            assert(x.take(y.len() as int) =~= x);
        }
        if x == y {
            assert(x.take(y.len() as int) =~= x);
        }
    }
    r
}

/// How the branch is found.
pub fn git_step(git: &GitCache, cwd: &str) -> (r: GitStep)
    ensures
        r@ == git_step_from(git@, cwd@),
{
    match git {
        GitCache::Unknown => GitStep::Search(ancestors_of(cwd)),
        GitCache::Repo { root, head } => if is_within(cwd, root.as_str()) {
            GitStep::Read(head.clone())
        } else {
            GitStep::Search(ancestors_of(cwd))
        },
        GitCache::NoRepo { from } => {
            if is_within(from.as_str(), cwd) {
                return GitStep::NoBranch;
            }
            let mut dirs = ancestors_of(cwd);
            let ghost all = strs(dirs@);
            assert(all.len() == dirs@.len());
            if is_within(cwd, from.as_str()) {
                let mut i: usize = 0;
                while i < dirs.len()
                    invariant_except_break
                        i <= dirs.len(),
                        all == strs(dirs@),
                        all.len() == dirs@.len(),
                        up_to(all, from@, 0) == up_to(all, from@, i as int),
                    ensures
                        i <= dirs.len(),
                        i == up_to(all, from@, 0),
                    decreases dirs.len() - i,
                {
                    assert(all[i as int] == dirs@[i as int]@);
                    if same_path(dirs[i].as_str(), from.as_str()) {
                        i += 1;
                        break;
                    }
                    i += 1;
                }
                dirs.truncate(i);
                assert(strs(dirs@) =~= all.take(i as int));
            }
            GitStep::Search(dirs)
        },
    }
}

/// What `.git` in a directory is.
pub enum DotGit {
    Missing,
    Directory,
    /// A file, and its text where it is one.
    File(Option<String>),
}

pub enum DotGitView {
    Missing,
    Directory,
    File(Option<Seq<char>>),
}

impl View for DotGit {
    type V = DotGitView;

    open spec fn view(&self) -> DotGitView {
        match self {
            DotGit::Missing => DotGitView::Missing,
            DotGit::Directory => DotGitView::Directory,
            DotGit::File(Some(text)) => DotGitView::File(Some(text@)),
            DotGit::File(None) => DotGitView::File(None),
        }
    }
}

/// The directory that a `.git` file names, against the directory the file lies in.
pub open spec fn gitdir_named(text: Seq<char>, dir: Seq<char>) -> Option<Seq<char>> {
    let t = trimmed(text);
    if starts_with(t, "gitdir: "@) {
        Some(joined_path(dir, t.skip("gitdir: "@.len() as int)))
    } else {
        None
    }
}

pub open spec fn opt_text(s: Option<String>) -> Option<Seq<char>> {
    match s {
        Some(t) => Some(t@),
        None => None,
    }
}

/// Reads a `.git` file.
pub fn resolve_gitdir_file(text: &str, dir: &str) -> (r: Option<String>)
    ensures
        opt_text(r) == gitdir_named(text@, dir@),
{
    let v = chars_of(text);
    let t = trim_of(&v);
    if has_prefix_str(&t, "gitdir: ") {
        let n = chars_of("gitdir: ").len();
        let target = tail_of(&t, n);
        Some(join_path(dir, string_of(target.as_slice()).as_str()))
    } else {
        None
    }
}

pub open spec fn dot_git_views(v: Seq<(String, DotGit)>) -> Seq<(Seq<char>, DotGitView)> {
    Seq::new(v.len(), |i: int| (v[i].0@, v[i].1@))
}

/// The repository of the first directory from `i` on that has a `.git`. A file that names none
/// ends the search.
pub open spec fn git_dir(all: Seq<(Seq<char>, DotGitView)>, i: int) -> Option<Seq<char>>
    decreases all.len() - i,
{
    if i >= all.len() {
        None
    } else {
        match all[i].1 {
            DotGitView::Missing => git_dir(all, i + 1),
            DotGitView::Directory => Some(joined_path(all[i].0, ".git"@)),
            DotGitView::File(Some(text)) => gitdir_named(text, all[i].0),
            DotGitView::File(None) => None,
        }
    }
}

/// The repository of the first of some directories that has a `.git`.
pub fn find_git_dir(all: &Vec<(String, DotGit)>) -> (r: Option<String>)
    ensures
        opt_text(r) == git_dir(dot_git_views(all@), 0),
{
    let ghost av = dot_git_views(all@);
    let mut i: usize = 0;
    while i < all.len()
        invariant
            i <= all.len(),
            av == dot_git_views(all@),
            git_dir(av, 0) == git_dir(av, i as int),
        decreases all.len() - i,
    {
        assert(av[i as int] == (all@[i as int].0@, all@[i as int].1@));
        match &all[i].1 {
            DotGit::Missing => {},
            DotGit::Directory => {
                return Some(join_path(all[i].0.as_str(), ".git"));
            },
            DotGit::File(Some(text)) => {
                return resolve_gitdir_file(text.as_str(), all[i].0.as_str());
            },
            DotGit::File(None) => {
                return None;
            },
        }
        i += 1;
    }
    None
}

/// What is known after a search from a directory, and the file that names the branch.
pub open spec fn searched(found: Option<Seq<char>>, cwd: Seq<char>) -> GitView {
    match found {
        Some(dir) => GitView::Repo {
            root: match parent(dir) {
                Some(root) => root,
                None => cwd,
            },
            head: joined_path(dir, "HEAD"@),
        },
        None => GitView::NoRepo { from: cwd },
    }
}

/// What is known after a search.
pub fn search_result(found: &Option<String>, cwd: &str) -> (r: GitCache)
    ensures
        r@ == searched(opt_text(*found), cwd@),
{
    match found {
        Some(dir) => {
            let root = match parent_of(dir.as_str()) {
                Some(root) => root,
                None => string_of(chars_of(cwd).as_slice()),
            };
            GitCache::Repo { root, head: join_path(dir.as_str(), "HEAD") }
        },
        None => GitCache::NoRepo { from: string_of(chars_of(cwd).as_slice()) },
    }
}

/// The branch that the text of a `HEAD` file names: the name of a branch, of another reference,
/// or the first bytes of a hash.
pub open spec fn branch_named(text: Seq<char>) -> Option<Seq<char>> {
    let line = trimmed_end(text);
    let name = if starts_with(line, "ref: refs/heads/"@) {
        line.skip("ref: refs/heads/"@.len() as int)
    } else if starts_with(line, "ref: "@) {
        line.skip("ref: "@.len() as int)
    } else {
        line.take(fit(line, 8))
    };
    if name.len() == 0 {
        None
    } else {
        Some(name)
    }
}

/// Reads a `HEAD` file.
pub fn read_head(text: &str) -> (r: Option<String>)
    ensures
        opt_text(r) == branch_named(text@),
{
    let v = chars_of(text);
    let line = trim_end_of(&v);
    let name = if has_prefix_str(&line, "ref: refs/heads/") {
        let n = chars_of("ref: refs/heads/").len();
        tail_of(&line, n)
    } else if has_prefix_str(&line, "ref: ") {
        let n = chars_of("ref: ").len();
        tail_of(&line, n)
    } else {
        let n = fit_prefix(&line, 0, line.len(), 8);
        assert(line@.subrange(0, line@.len() as int) =~= line@);
        head_of(&line, n)
    };
    if name.len() == 0 {
        None
    } else {
        Some(string_of(name.as_slice()))
    }
}

/// The first label of a host's name.
pub open spec fn first_label(name: Seq<char>) -> Seq<char> {
    name.take(index_from(name, '.', 0))
}

/// The first label of a host's name.
pub fn host_label(name: &str) -> (r: String)
    ensures
        r@ == first_label(name@),
        r@ == name@.take(index_from(name@, '.', 0)),
{
    let v = chars_of(name);
    let k = find_char(&v, '.', 0);
    string_of(head_of(&v, k).as_slice())
}

// -- The prompt --

/// The prompt, with what is known from the last time it was shown.
pub struct Prompt {
    user_host: String,
    home: String,
    git: GitCache,
    pwd_last: String,
    pwd_short: String,
}

#[verifier::ext_equal]
pub struct PromptView {
    pub user_host: Seq<char>,
    pub home: Seq<char>,
    pub git: GitView,
}

impl View for Prompt {
    type V = PromptView;

    closed spec fn view(&self) -> PromptView {
        PromptView { user_host: self.user_host@, home: self.home@, git: self.git@ }
    }
}

/// The text of the prompt: `user@host pwd[*][ branch] $ `, with the working directory green
/// after a success and red after a failure.
pub open spec fn prompt_text(
    p: PromptView,
    status: i32,
    pwd: Seq<char>,
    dirty: bool,
    branch: Option<Seq<char>>,
) -> Seq<char> {
    p.user_host + (if status == 0 {
        "\x1b[38;5;10m"@
    } else {
        "\x1b[38;5;1m"@
    }) + shortened(pwd, p.home) + "\x1b[0m"@ + (if dirty {
        "\x1b[38;5;1m*\x1b[0m"@
    } else {
        Seq::empty()
    }) + (match branch {
        Some(name) => " "@ + name,
        None => Seq::empty(),
    }) + " $ "@
}

/// Number of characters that show, from `i` on: what an escape starts is not shown up to the `m`
/// that ends it.
pub open spec fn visible(s: Seq<char>, i: int, in_escape: bool) -> nat
    decreases s.len() - i,
{
    if i >= s.len() {
        0
    } else if in_escape {
        visible(s, i + 1, s[i] != 'm')
    } else if s[i] == '\x1b' {
        visible(s, i + 1, true)
    } else {
        1 + visible(s, i + 1, false)
    }
}

/// Whether an escape is open behind the characters from `i` on.
pub open spec fn escape_open(s: Seq<char>, i: int, in_escape: bool) -> bool
    decreases s.len() - i,
{
    if i >= s.len() {
        in_escape
    } else if in_escape {
        escape_open(s, i + 1, s[i] != 'm')
    } else {
        escape_open(s, i + 1, s[i] == '\x1b')
    }
}

proof fn lemma_visible_shift(a: Seq<char>, b: Seq<char>, k: int, in_escape: bool)
    requires
        0 <= k <= b.len(),
    ensures
        visible(a + b, a.len() + k, in_escape) == visible(b, k, in_escape),
        escape_open(a + b, a.len() + k, in_escape) == escape_open(b, k, in_escape),
    decreases b.len() - k,
{
    if k < b.len() {
        assert((a + b)[a.len() + k] == b[k]);
        lemma_visible_shift(a, b, k + 1, b[k] != 'm');
        lemma_visible_shift(a, b, k + 1, b[k] == '\x1b');
        lemma_visible_shift(a, b, k + 1, true);
        lemma_visible_shift(a, b, k + 1, false);
    }
}

proof fn lemma_visible_concat(a: Seq<char>, b: Seq<char>, k: int, in_escape: bool)
    requires
        0 <= k <= a.len(),
    ensures
        visible(a + b, k, in_escape) == visible(a, k, in_escape) + visible(
            b,
            0,
            escape_open(a, k, in_escape),
        ),
        escape_open(a + b, k, in_escape) == escape_open(b, 0, escape_open(a, k, in_escape)),
    decreases a.len() - k,
{
    if k < a.len() {
        assert((a + b)[k] == a[k]);
        lemma_visible_concat(a, b, k + 1, a[k] != 'm');
        lemma_visible_concat(a, b, k + 1, a[k] == '\x1b');
        lemma_visible_concat(a, b, k + 1, true);
        lemma_visible_concat(a, b, k + 1, false);
    } else {
        lemma_visible_shift(a, b, 0, in_escape);
    }
}

/// Texts without escapes show whole.
proof fn lemma_plain_visible(s: Seq<char>, k: int)
    requires
        0 <= k <= s.len(),
        !s.contains('\x1b'),
    ensures
        visible(s, k, false) == s.len() - k,
        !escape_open(s, k, false),
    decreases s.len() - k,
{
    if k < s.len() {
        assert(s[k] != '\x1b') by {
            if s[k] == '\x1b' {
                assert(s.contains('\x1b'));
            }
        }
        lemma_plain_visible(s, k + 1);
    }
}

proof fn lemma_colors_hidden()
    ensures
        visible("\x1b[38;5;10m"@, 0, false) == 0,
        !escape_open("\x1b[38;5;10m"@, 0, false),
        visible("\x1b[38;5;1m"@, 0, false) == 0,
        !escape_open("\x1b[38;5;1m"@, 0, false),
        visible("\x1b[0m"@, 0, false) == 0,
        !escape_open("\x1b[0m"@, 0, false),
        visible("\x1b[38;5;1m*\x1b[0m"@, 0, false) == 1,
        !escape_open("\x1b[38;5;1m*\x1b[0m"@, 0, false),
{
    reveal_strlit("\x1b[38;5;10m");
    reveal_strlit("\x1b[38;5;1m");
    reveal_strlit("\x1b[0m");
    reveal_strlit("\x1b[38;5;1m*\x1b[0m");
    reveal_with_fuel(visible, 16);
    reveal_with_fuel(escape_open, 16);
}

/// The columns of a prompt are those of its texts: the colors take none.
pub proof fn law_prompt_columns(
    p: PromptView,
    status: i32,
    pwd: Seq<char>,
    dirty: bool,
    branch: Option<Seq<char>>,
)
    requires
        !p.user_host.contains('\x1b'),
        !shortened(pwd, p.home).contains('\x1b'),
        branch is Some ==> !branch->0.contains('\x1b'),
    ensures
        visible(prompt_text(p, status, pwd, dirty, branch), 0, false) == p.user_host.len()
            + shortened(pwd, p.home).len() + (if dirty {
            1int
        } else {
            0
        }) + (match branch {
            Some(name) => 1 + name.len(),
            None => 0,
        }) + 3,
{
    lemma_colors_hidden();
    let color = if status == 0 {
        "\x1b[38;5;10m"@
    } else {
        "\x1b[38;5;1m"@
    };
    let short = shortened(pwd, p.home);
    let reset = "\x1b[0m"@;
    let star = if dirty {
        "\x1b[38;5;1m*\x1b[0m"@
    } else {
        Seq::empty()
    };
    let name = match branch {
        Some(name) => " "@ + name,
        None => Seq::empty(),
    };
    let end = " $ "@;
    reveal_strlit(" ");
    reveal_strlit(" $ ");
    assert(!name.contains('\x1b')) by {
        if name.contains('\x1b') {
            let i = choose|i: int| 0 <= i < name.len() && name[i] == '\x1b';
            if i > 0 {
                assert(branch->0[i - 1] == '\x1b');
            }
        }
    }
    assert(!end.contains('\x1b'));
    lemma_plain_visible(p.user_host, 0);
    lemma_plain_visible(short, 0);
    lemma_plain_visible(name, 0);
    lemma_plain_visible(end, 0);
    let a = p.user_host + color;
    let b = a + short;
    let c = b + reset;
    let d = c + star;
    let e = d + name;
    lemma_visible_concat(p.user_host, color, 0, false);
    lemma_visible_concat(a, short, 0, false);
    lemma_visible_concat(b, reset, 0, false);
    lemma_visible_concat(c, star, 0, false);
    lemma_visible_concat(d, name, 0, false);
    lemma_visible_concat(e, end, 0, false);
    assert(prompt_text(p, status, pwd, dirty, branch) =~= e + end);
}

impl Prompt {
    #[verifier::type_invariant]
    closed spec fn wf(self) -> bool {
        self.pwd_short@ == shortened(self.pwd_last@, self.home@)
    }

    /// A prompt for a user, a host and a home directory.
    pub fn new(user: &str, host: &str, home: &str) -> (r: Self)
        ensures
            r@ == (PromptView {
                user_host: user@ + "@"@ + host@ + " "@,
                home: home@,
                git: GitView::Unknown,
            }),
    {
        let name = text3(user, "@", host);
        let user_host = text3(name.as_str(), " ", "");
        proof {
            reveal_strlit("");
        }
        assert(user_host@ =~= user@ + "@"@ + host@ + " "@);
        let pwd_short = shorten_pwd("", home);
        Self {
            user_host,
            home: string_of(chars_of(home).as_slice()),
            git: GitCache::Unknown,
            pwd_last: String::from_str(""),
            pwd_short,
        }
    }

    /// Writes the prompt.
    pub fn render_into(
        &mut self,
        out: &mut String,
        last_status: i32,
        pwd: &str,
        denv_dirty: bool,
        branch: &Option<String>,
    )
        ensures
            final(out)@ == prompt_text(old(self)@, last_status, pwd@, denv_dirty, opt_text(*branch)),
            final(self)@ == old(self)@,
    {
        proof {
            use_type_invariant(&*self);
        }
        if !crate::text::str_eq(pwd, self.pwd_last.as_str()) {
            let home = self.home.clone();
            let user_host = self.user_host.clone();
            let pwd_short = shorten_pwd(pwd, home.as_str());
            let mut git = GitCache::Unknown;
            core::mem::swap(&mut git, &mut self.git);
            *self = Prompt {
                user_host,
                home,
                git,
                pwd_last: string_of(chars_of(pwd).as_slice()),
                pwd_short,
            };
        }
        assert(self.pwd_short@ == shortened(pwd@, self.home@));
        let mut v = chars_of(self.user_host.as_str());
        if last_status == 0 {
            push_str(&mut v, "\x1b[38;5;10m");
        } else {
            push_str(&mut v, "\x1b[38;5;1m");
        }
        push_str(&mut v, self.pwd_short.as_str());
        push_str(&mut v, "\x1b[0m");
        if denv_dirty {
            push_str(&mut v, "\x1b[38;5;1m*\x1b[0m");
        }
        if let Some(name) = branch {
            push_str(&mut v, " ");
            push_str(&mut v, name.as_str());
        }
        push_str(&mut v, " $ ");
        assert(v@ =~= prompt_text(old(self)@, last_status, pwd@, denv_dirty, opt_text(*branch)));
        *out = string_of(v.as_slice());
    }

    /// The prompt.
    pub fn render(
        &mut self,
        last_status: i32,
        pwd: &str,
        denv_dirty: bool,
        branch: &Option<String>,
    ) -> (r: String)
        ensures
            r@ == prompt_text(old(self)@, last_status, pwd@, denv_dirty, opt_text(*branch)),
            final(self)@ == old(self)@,
    {
        let mut out = String::new();
        self.render_into(&mut out, last_status, pwd, denv_dirty, branch);
        out
    }

    /// Number of columns that a prompt takes.
    pub fn display_len(&self, prompt_str: &str) -> (r: usize)
        ensures
            r == visible(prompt_str@, 0, false),
    {
        let v = chars_of(prompt_str);
        let mut len: usize = 0;
        let mut in_escape = false;
        let mut i: usize = 0;
        while i < v.len()
            invariant
                i <= v.len(),
                len <= i,
                v@ == prompt_str@,
                len + visible(v@, i as int, in_escape) == visible(v@, 0, false),
            decreases v.len() - i,
        {
            let c = v[i];
            if in_escape {
                if c == 'm' {
                    in_escape = false;
                }
            } else if c == '\x1b' {
                in_escape = true;
            } else {
                len += 1;
            }
            i += 1;
        }
        len
    }

    /// Forgets the repository. To be called when the working directory changes.
    pub fn invalidate_git(&mut self)
        ensures
            final(self)@ == (PromptView { git: GitView::Unknown, ..old(self)@ }),
    {
        proof {
            use_type_invariant(&*self);
        }
        self.git = GitCache::Unknown;
    }

    /// How the branch is found.
    pub fn git_branch(&self, cwd: &str) -> (r: GitStep)
        ensures
            r@ == git_step_from(self@.git, cwd@),
    {
        git_step(&self.git, cwd)
    }

    /// Remembers what a search from a directory found. Returns the file that names the branch.
    pub fn resolve_git(&mut self, found: &Option<String>, cwd: &str) -> (r: Option<String>)
        ensures
            final(self)@ == (PromptView { git: searched(opt_text(*found), cwd@), ..old(self)@ }),
            opt_text(r) == (match opt_text(*found) {
                Some(dir) => Some(joined_path(dir, "HEAD"@)),
                None => None,
            }),
    {
        proof {
            use_type_invariant(&*self);
        }
        let git = search_result(found, cwd);
        let head = match &git {
            GitCache::Repo { head, .. } => Some(head.clone()),
            _ => None,
        };
        self.git = git;
        head
    }
}

} // verus!
