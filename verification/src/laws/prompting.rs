//! What the prompt shows.
use vstd::prelude::*;

use crate::dirs::joined_path;
use crate::laws::shell::{is_path_name, law_path_of_name, lemma_split_concat};
use crate::laws::texts::{is_blank, is_trim, lemma_trim_back_is};
use crate::line::fit;
use crate::prompt::{
    branch_named, first_label, git_dir, git_step_from, prompt_text, searched, short_part,
    short_parts, shortened, DotGitView, GitView, PromptView,
};
use crate::text::{byte_len, index_from, joined, lemma_index_from, split, split_from};

verus! {

proof fn lemma_split_joined(parts: Seq<Seq<char>>)
    requires
        parts.len() > 0,
        forall|i: int| 0 <= i < parts.len() ==> !(#[trigger] parts[i]).contains('/'),
    ensures
        split(joined(parts, "/"@), '/') == parts,
    decreases parts.len(),
{
    reveal_strlit("/");
    assert("/"@ =~= seq!['/']);
    if parts.len() == 1 {
        crate::laws::texts::law_split(parts[0], '/', Seq::empty());
        assert(seq![parts[0]] =~= parts);
    } else {
        let a = parts.drop_last();
        assert forall|i: int| 0 <= i < a.len() implies !(#[trigger] a[i]).contains('/') by {
            assert(a[i] == parts[i]);
        }
        lemma_split_joined(a);
        assert(!parts[parts.len() - 1].contains('/'));
        lemma_split_concat(joined(a, "/"@), parts.last(), 0);
        assert(a.push(parts.last()) =~= parts);
    }
}

proof fn lemma_split_parts(s: Seq<char>, i: int)
    requires
        0 <= i <= s.len(),
    ensures
        split_from(s, '/', i).len() > 0,
        forall|k: int|
            0 <= k < split_from(s, '/', i).len() ==> !(#[trigger] split_from(s, '/', i)[k]).contains(
                '/',
            ),
    decreases s.len() - i,
{
    lemma_index_from(s, '/', i);
    let k = index_from(s, '/', i);
    let all = split_from(s, '/', i);
    let first = if k < s.len() {
        s.subrange(i, k)
    } else {
        s.skip(i)
    };
    assert(!first.contains('/')) by {
        if first.contains('/') {
            let j = choose|j: int| 0 <= j < first.len() && first[j] == '/';
            assert(s[i + j] == '/');
        }
    }
    if k < s.len() {
        lemma_split_parts(s, k + 1);
        let rest = split_from(s, '/', k + 1);
        assert forall|j: int| 0 <= j < all.len() implies !(#[trigger] all[j]).contains('/') by {
            if j > 0 {
                assert(all[j] == rest[j - 1]);
            }
        }
    }
}

/// How a part of the working directory that is not the last is shown: by its first character, with
/// the dot before it where it is hidden.
pub open spec fn is_shown_short(shown: Seq<char>, part: Seq<char>) -> bool {
    &&& part.len() > 0 && part[0] != '.' ==> shown == seq![part[0]]
    &&& part.len() >= 2 && part[0] == '.' ==> shown == seq!['.', part[1]]
    &&& part.len() == 0 ==> shown.len() == 0
    &&& part == seq!['.'] ==> shown == part
}

proof fn lemma_shown(all: Seq<Seq<char>>, tilde: bool)
    requires
        all.len() > 0,
        forall|i: int| 0 <= i < all.len() ==> !(#[trigger] all[i]).contains('/'),
    ensures
        ({
            let shown = split(joined(short_parts(all, tilde), "/"@), '/');
            &&& shown.len() == all.len()
            &&& tilde ==> shown[0] == seq!['~']
            &&& all.len() > 1 || !tilde ==> shown.last() == all.last()
            &&& forall|i: int|
                0 <= i < all.len() - 1 && !(tilde && i == 0) ==> is_shown_short(
                    #[trigger] shown[i],
                    all[i],
                )
        }),
{
    let s = short_parts(all, tilde);
    assert forall|i: int| 0 <= i < s.len() implies !(#[trigger] s[i]).contains('/') by {
        assert(!all[i].contains('/'));
        if s[i].contains('/') {
            let j = choose|j: int| 0 <= j < s[i].len() && s[i][j] == '/';
            if !(tilde && i == 0) {
                assert(all[i][j] == '/');
            }
        }
    }
    lemma_split_joined(s);
    assert forall|i: int| 0 <= i < all.len() - 1 && !(tilde && i == 0) implies is_shown_short(
        #[trigger] s[i],
        all[i],
    ) by {
        let part = all[i];
        assert(s[i] == short_part(part));
        if part.len() > 0 && part[0] != '.' {
            assert(part.take(1) =~= seq![part[0]]);
        }
        if part.len() >= 2 && part[0] == '.' {
            assert(part.take(2) =~= seq!['.', part[1]]);
        }
    }
}

/// A working directory outside the home directory is shown part by part: the last one whole, the
/// others short.
pub proof fn law_directory_is_shortened(pwd: Seq<char>, home: Seq<char>)
    requires
        home.len() == 0 || pwd.len() < home.len() || pwd.take(home.len() as int) != home || pwd.len()
            > home.len() && pwd[home.len() as int] != '/',
    ensures
        ({
            let shown = split(shortened(pwd, home), '/');
            let parts = split(pwd, '/');
            &&& shown.len() == parts.len()
            &&& shown.last() == parts.last()
            &&& forall|i: int|
                0 <= i < parts.len() - 1 ==> is_shown_short(#[trigger] shown[i], parts[i])
        }),
{
    if pwd.len() >= home.len() {
        assert(pwd.subrange(0, home.len() as int) =~= pwd.take(home.len() as int));
    }
    lemma_split_parts(pwd, 0);
    lemma_shown(split(pwd, '/'), false);
}

/// In the home directory `~` is shown, and below it `~` and the parts below: the last one whole,
/// the others short.
pub proof fn law_home_is_tilde(home: Seq<char>, rest: Seq<char>)
    requires
        home.len() > 0,
    ensures
        shortened(home, home) == seq!['~'],
        ({
            let shown = split(shortened(home + seq!['/'] + rest, home), '/');
            let parts = split(seq!['/'] + rest, '/');
            &&& shown.len() == parts.len()
            &&& shown[0] == seq!['~']
            &&& shown.last() == parts.last()
            &&& forall|i: int|
                1 <= i < parts.len() - 1 ==> is_shown_short(#[trigger] shown[i], parts[i])
        }),
{
    let e = Seq::<char>::empty();
    let n = home.len() as int;
    assert(home.subrange(0, n) =~= home);
    assert(home.skip(n) =~= e);
    crate::laws::texts::law_split(e, '/', e);
    let one = short_parts(seq![e], true);
    assert(one =~= seq![seq!['~']]);
    assert(joined(one, "/"@) == seq!['~']);
    let pwd = home + seq!['/'] + rest;
    assert(pwd.subrange(0, n) =~= home);
    assert(pwd[n] == '/');
    let below = seq!['/'] + rest;
    assert(pwd.skip(n) =~= below);
    lemma_split_parts(below, 0);
    crate::laws::texts::law_split(e, '/', rest);
    assert(e + seq!['/'] + rest =~= below);
    lemma_split_parts(rest, 0);
    assert(split(below, '/').len() > 1);
    lemma_shown(split(below, '/'), true);
}

/// The prompt is the user and the host, the directory between a color and its end, a red star
/// where the environment is dirty, the branch, and a dollar sign. The directory is green after a
/// success, and red after a failure.
pub proof fn law_prompt(
    p: PromptView,
    status: i32,
    pwd: Seq<char>,
    dirty: bool,
    branch: Option<Seq<char>>,
)
    ensures
        ({
            let dir = shortened(pwd, p.home);
            let green = seq!['\x1b', '[', '3', '8', ';', '5', ';', '1', '0', 'm'];
            let red = seq!['\x1b', '[', '3', '8', ';', '5', ';', '1', 'm'];
            let reset = seq!['\x1b', '[', '0', 'm'];
            let star = red + seq!['*'] + reset;
            let end = seq![' ', '$', ' '];
            let r = prompt_text(p, status, pwd, dirty, branch);
            &&& status == 0 && !dirty && branch is None ==> r == p.user_host + green + dir + reset
                + end
            &&& status == 0 && dirty && branch is None ==> r == p.user_host + green + dir + reset
                + star + end
            &&& status == 0 && !dirty && branch is Some ==> r == p.user_host + green + dir + reset
                + seq![' '] + branch->0 + end
            &&& status == 0 && dirty && branch is Some ==> r == p.user_host + green + dir + reset
                + star + seq![' '] + branch->0 + end
            &&& status != 0 && !dirty && branch is None ==> r == p.user_host + red + dir + reset
                + end
            &&& status != 0 && dirty && branch is Some ==> r == p.user_host + red + dir + reset
                + star + seq![' '] + branch->0 + end
        }),
{
    reveal_strlit("\x1b[38;5;10m");
    reveal_strlit("\x1b[38;5;1m");
    reveal_strlit("\x1b[0m");
    reveal_strlit("\x1b[38;5;1m*\x1b[0m");
    reveal_strlit(" ");
    reveal_strlit(" $ ");
    let green = seq!['\x1b', '[', '3', '8', ';', '5', ';', '1', '0', 'm'];
    let red = seq!['\x1b', '[', '3', '8', ';', '5', ';', '1', 'm'];
    let reset = seq!['\x1b', '[', '0', 'm'];
    assert("\x1b[38;5;10m"@ =~= green);
    assert("\x1b[38;5;1m"@ =~= red);
    assert("\x1b[0m"@ =~= reset);
    assert("\x1b[38;5;1m*\x1b[0m"@ =~= red + seq!['*'] + reset);
    assert(" "@ =~= seq![' ']);
    assert(" $ "@ =~= seq![' ', '$', ' ']);
    let dir = shortened(pwd, p.home);
    let e = Seq::<char>::empty();
    let r = prompt_text(p, status, pwd, dirty, branch);
    let color = if status == 0 {
        green
    } else {
        red
    };
    let star = if dirty {
        red + seq!['*'] + reset
    } else {
        e
    };
    let name = match branch {
        Some(n) => seq![' '] + n,
        None => e,
    };
    assert(r =~= p.user_host + color + dir + reset + star + name + seq![' ', '$', ' ']);
    match branch {
        Some(n) => {
            assert(r =~= p.user_host + color + dir + reset + star + seq![' '] + n + seq![
                ' ',
                '$',
                ' ',
            ]);
        },
        None => {},
    }
}

/// The label of a host is its name up to the first dot.
pub proof fn law_host_label(label: Seq<char>, domain: Seq<char>)
    requires
        !label.contains('.'),
    ensures
        first_label(label + seq!['.'] + domain) == label,
        first_label(label) == label,
{
    let s = label + seq!['.'] + domain;
    lemma_index_from(s, '.', 0);
    lemma_index_from(label, '.', 0);
    let n = label.len() as int;
    assert(s[n] == '.');
    let k = index_from(s, '.', 0);
    if k < n {
        assert(s[k] == label[k]);
        assert(label.contains(label[k]));
    }
    assert(s.take(n) =~= label);
    let j = index_from(label, '.', 0);
    if j < n {
        assert(label.contains(label[j]));
    }
    assert(label.take(n) =~= label);
}

proof fn lemma_fit_ascii(s: Seq<char>, limit: int)
    requires
        0 <= limit <= s.len(),
        forall|i: int| 0 <= i < s.len() ==> (#[trigger] s[i]) as u32 <= 127,
    ensures
        fit(s, limit) == limit,
        byte_len(s) == s.len(),
    decreases s.len(),
{
    if s.len() == 0 {
        assert(byte_len(s) == 0);
    } else {
        let t = s.drop_last();
        assert forall|i: int| 0 <= i < t.len() implies (#[trigger] t[i]) as u32 <= 127 by {
            assert(t[i] == s[i]);
        }
        assert(t.push(s.last()) =~= s);
        crate::text::lemma_byte_len_push(t, s.last());
        crate::text::lemma_byte_len_one(s.last());
        assert(s[s.len() - 1] as u32 <= 127);
        if limit < s.len() {
            lemma_fit_ascii(t, limit);
        } else {
            lemma_fit_ascii(t, t.len() as int);
        }
    }
}

/// A `HEAD` file names a branch, or holds a hash, of which the first eight characters are shown.
pub proof fn law_branch(name: Seq<char>, hash: Seq<char>, b: Seq<char>)
    requires
        is_trim(name),
        is_trim(hash),
        hash.len() >= 8,
        forall|i: int| 0 <= i < hash.len() ==> (#[trigger] hash[i]) as u32 <= 127,
        hash[0] != 'r',
        is_blank(b),
    ensures
        branch_named("ref: refs/heads/"@ + name + b) == Some(name),
        branch_named(hash + b) == Some(hash.take(8)),
        branch_named(b) is None,
{
    reveal_strlit("ref: refs/heads/");
    reveal_strlit("ref: ");
    let p = "ref: refs/heads/"@;
    let s = p + name;
    assert(s.last() == name.last());
    lemma_trim_back_is(s, b);
    assert((s + b).take(s.len() as int) =~= s);
    assert(s.subrange(0, p.len() as int) =~= p);
    assert(s.skip(p.len() as int) =~= name);
    lemma_trim_back_is(hash, b);
    assert((hash + b).take(hash.len() as int) =~= hash);
    if hash.len() >= p.len() {
        assert(hash.subrange(0, p.len() as int)[0] == hash[0]);
        assert(p[0] == 'r');
    }
    assert(hash.subrange(0, 5)[0] == hash[0]);
    assert("ref: "@[0] == 'r');
    lemma_fit_ascii(hash, 8);
    let e = Seq::<char>::empty();
    lemma_trim_back_is(e, b);
    assert(e + b =~= b);
    assert(b.take(0) =~= e);
    assert(fit(e, 8) == 0) by {
        assert(byte_len(e) == 0);
    }
}

/// The repository is the `.git` directory of the first directory upwards that has one, and its
/// `HEAD` names the branch; the directory that holds it is the root of the repository.
pub proof fn law_repository(all: Seq<(Seq<char>, DotGitView)>, i: int, cwd: Seq<char>)
    requires
        0 <= i < all.len(),
        forall|j: int| 0 <= j < i ==> (#[trigger] all[j]).1 is Missing,
        all[i].1 is Directory,
        all[i].0.len() > 0,
        all[i].0.last() != '/',
        all[i].0.last() != '.',
    ensures
        git_dir(all, 0) == Some(all[i].0 + "/.git"@),
        searched(git_dir(all, 0), cwd) == (GitView::Repo {
            root: all[i].0,
            head: all[i].0 + "/.git/HEAD"@,
        }),
{
    reveal_strlit(".git");
    reveal_strlit("/.git");
    reveal_strlit("HEAD");
    reveal_strlit("/.git/HEAD");
    lemma_git_dir(all, i, 0);
    let d = all[i].0;
    let g = d.push('/') + ".git"@;
    assert(".git"@[0] == '.');
    assert(g =~= d + "/.git"@);
    assert("HEAD"@[0] == 'H');
    assert(g.last() == 't');
    assert(g.push('/') + "HEAD"@ =~= d + "/.git/HEAD"@);
    assert(is_path_name(".git"@)) by {
        let w = ".git"@;
        assert(w[0] == '.' && w[1] == 'g' && w[2] == 'i' && w[3] == 't');
        assert(w.len() == 4);
        assert(!w.contains('/'));
    }
    law_path_of_name(d, ".git"@, ".git"@);
    assert(d + seq!['/'] + ".git"@ =~= g);
}

proof fn lemma_git_dir(all: Seq<(Seq<char>, DotGitView)>, i: int, k: int)
    requires
        0 <= k <= i < all.len(),
        forall|j: int| 0 <= j < i ==> (#[trigger] all[j]).1 is Missing,
        all[i].1 is Directory,
    ensures
        git_dir(all, k) == Some(joined_path(all[i].0, ".git"@)),
    decreases i - k,
{
    if k < i {
        assert(all[k].1 is Missing);
        lemma_git_dir(all, i, k + 1);
    }
}

/// Without a `.git` in any directory there is no repository, and this is remembered: no directory
/// above is looked at again.
pub proof fn law_no_repository(all: Seq<(Seq<char>, DotGitView)>, k: int, cwd: Seq<char>)
    requires
        0 <= k <= all.len(),
        forall|j: int| k <= j < all.len() ==> (#[trigger] all[j]).1 is Missing,
    ensures
        git_dir(all, k) is None,
        searched(None, cwd) == (GitView::NoRepo { from: cwd }),
        git_step_from(searched(None, cwd), cwd) is NoBranch,
    decreases all.len() - k,
{
    crate::dirs::law_within_orders(cwd, cwd, cwd);
    if k < all.len() {
        assert(all[k].1 is Missing);
        law_no_repository(all, k + 1, cwd);
    }
}

} // verus!
