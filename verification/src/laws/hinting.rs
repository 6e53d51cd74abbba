//! What is suggested for a line before it is run: the rest of an earlier command, whether its
//! command exists, the commands of `$PATH` and the hosts that are known.
use vstd::prelude::*;

use crate::alias::{alias_of, AliasView};
use crate::builtin::is_builtin_name;
use crate::candidates::{
    alias_hosts, all_hosts, bare_host, config_line_hosts, continues_path, dir_part, dir_room,
    file_hosts, has_prefix, host_entries, known_line_hosts, plain_hosts, quotes_escaped,
    remote_command, remote_entries, searched, strings_deduped, DirItem,
};
use crate::complete::PATH_LIMIT;
use crate::complete::{host_entry, kept};
use crate::completing::{below_root, real_root, stage_dir, user_root, PlanView, Stage};
use crate::editor::{suggested_rest, word_color};
use crate::history::HistoryView;
use crate::laws::editing::{answers, lemma_latest};
use crate::laws::texts::{is_blank, is_word, law_split, law_trimmed, law_words};
use crate::line::LineState;
use crate::path::{
    command_matches, completes, dir_matches, name_hash, search_dirs, PathCacheView, PathDir,
};
use crate::text::{
    byte_len, index_from, lemma_index_from, spec_is_whitespace, split, trimmed, words,
};

verus! {

// -- Suggestions --

/// The suggestion for a line of three bytes or more with the cursor at its end is the rest of the
/// latest entry that starts with it, so that the line and the suggestion make up the entry.
pub proof fn law_suggestion(line: LineState, h: HistoryView, i: int)
    requires
        byte_len(line.text()) >= 3,
        !line.text().contains('\n'),
        line.after.len() == 0,
        answers(h, i, line.text()),
        forall|j: int| i < j ==> !#[trigger] answers(h, j, line.text()),
    ensures
        line.text() + suggested_rest(line, h) == h.entries[i].text,
{
    let t = line.text();
    lemma_latest(h, t, h.entries.len() as int);
    let e = h.entries[i].text;
    assert(e.take(t.len() as int) + e.skip(t.len() as int) =~= e);
}

/// Nothing is suggested for a shorter line, for one with the cursor within it or with several
/// lines, and where no entry starts with the line.
pub proof fn law_no_suggestion(line: LineState, h: HistoryView)
    ensures
        byte_len(line.text()) < 3 ==> suggested_rest(line, h).len() == 0,
        line.text().contains('\n') ==> suggested_rest(line, h).len() == 0,
        line.after.len() > 0 ==> suggested_rest(line, h).len() == 0,
        (forall|j: int| !#[trigger] answers(h, j, line.text())) ==> suggested_rest(line, h).len()
            == 0,
{
    lemma_latest(h, line.text(), h.entries.len() as int);
}

/// The first word is shown as a command that exists where it is the name of a builtin, of an alias
/// or of a command on `$PATH`, or a path; as one that does not in any other case.
pub proof fn law_command_color(
    line: LineState,
    a: Seq<char>,
    w: Seq<char>,
    rest: Seq<char>,
    al: Seq<AliasView>,
    in_path: bool,
)
    requires
        is_blank(a),
        is_word(w),
        rest.len() == 0 || spec_is_whitespace(rest[0]),
        line.text() == a + w + rest,
        !line.text().contains('\n'),
    ensures
        (word_color(line, al, in_path) == Some(true)) == (in_path || is_builtin_name(w)
            || alias_of(al, w) is Some || w.contains('/')),
        word_color(line, al, in_path) is Some,
{
    law_words(a, w, rest);
}

/// A line without a word, or with several lines, is shown plainly.
pub proof fn law_no_command_color(line: LineState, al: Seq<AliasView>, in_path: bool)
    ensures
        line.text().contains('\n') ==> word_color(line, al, in_path) is None,
        is_blank(line.text()) ==> word_color(line, al, in_path) is None,
{
    let t = line.text();
    if is_blank(t) {
        let e = Seq::<char>::empty();
        crate::laws::texts::lemma_span_is(t, e, true);
        assert(t + e =~= t);
        assert(t.skip(t.len() as int) =~= e);
    }
}

// -- Commands of `$PATH` --

/// Which entry of a directory of `$PATH` is offered as a command: one that starts with what was
/// typed and may be run, and is no directory. Hidden ones are offered where a dot was typed.
pub open spec fn is_offered(dir: Seq<char>, prefix: Seq<char>, item: DirItem) -> bool {
    let name = item.name@;
    &&& name != seq!['.'] && name != seq!['.', '.']
    &&& has_prefix(name, prefix)
    &&& name.len() > 0 && name[0] == '.' ==> prefix.len() > 0 && prefix[0] == '.'
    &&& byte_len(dir) + 1 + byte_len(name) < 4096
    &&& item.mode & 0xF000 != 0x4000
    &&& item.mode & 0x49 != 0
}

proof fn lemma_offered(dir: Seq<char>, prefix: Seq<char>, item: DirItem)
    ensures
        completes(dir, prefix, item) == is_offered(dir, prefix, item),
{
    reveal_strlit(".");
    reveal_strlit("..");
    assert("."@ =~= seq!['.']);
    assert(".."@ =~= seq!['.', '.']);
}

/// Every command of `$PATH` that starts with what was typed is offered, as a file that may be run.
pub proof fn law_commands_are_offered(
    prefix: Seq<char>,
    dirs: Seq<PathDir>,
    n: int,
    d: int,
    k: int,
)
    requires
        0 <= d < n <= dirs.len(),
        0 <= k < dirs[d].items@.len(),
        is_offered(dirs[d].dir@, prefix, dirs[d].items@[k]),
    ensures
        exists|i: int|
            0 <= i < command_matches(prefix, dirs, n).len() && {
                let e = #[trigger] command_matches(prefix, dirs, n)[i];
                e.name == kept(dirs[d].items@[k].name@) && e.is_exec && !e.is_dir && !e.is_link
                    && !e.is_host
            },
    decreases n,
{
    let all = command_matches(prefix, dirs, n);
    let before = command_matches(prefix, dirs, n - 1);
    let name = dirs[d].items@[k].name@;
    if d < n - 1 {
        law_commands_are_offered(prefix, dirs, n - 1, d, k);
        let i = choose|i: int|
            0 <= i < before.len() && {
                let e = #[trigger] before[i];
                e.name == kept(name) && e.is_exec && !e.is_dir && !e.is_link && !e.is_host
            };
        assert(all[i] == before[i]);
    } else {
        let items = dirs[d].items@;
        lemma_dir_offered(dirs[d].dir@, prefix, items, items.len() as int, k);
        let here = dir_matches(dirs[d].dir@, prefix, items, items.len() as int);
        let i = choose|i: int|
            0 <= i < here.len() && {
                let e = #[trigger] here[i];
                e.name == kept(name) && e.is_exec && !e.is_dir && !e.is_link && !e.is_host
            };
        assert(all[before.len() + i] == here[i]);
    }
}

proof fn lemma_dir_offered(
    dir: Seq<char>,
    prefix: Seq<char>,
    items: Seq<DirItem>,
    n: int,
    k: int,
)
    requires
        0 <= k < n <= items.len(),
        is_offered(dir, prefix, items[k]),
    ensures
        exists|i: int|
            0 <= i < dir_matches(dir, prefix, items, n).len() && {
                let e = #[trigger] dir_matches(dir, prefix, items, n)[i];
                e.name == kept(items[k].name@) && e.is_exec && !e.is_dir && !e.is_link
                    && !e.is_host
            },
    decreases n,
{
    let all = dir_matches(dir, prefix, items, n);
    let before = dir_matches(dir, prefix, items, n - 1);
    if k == n - 1 {
        lemma_offered(dir, prefix, items[k]);
        assert(all.last() == all[all.len() - 1]);
    } else {
        lemma_dir_offered(dir, prefix, items, n - 1, k);
        let i = choose|i: int|
            0 <= i < before.len() && {
                let e = #[trigger] before[i];
                e.name == kept(items[k].name@) && e.is_exec && !e.is_dir && !e.is_link
                    && !e.is_host
            };
        assert(all[i] == before[i]);
    }
}

/// Nothing else is offered as a command.
pub proof fn law_offered_are_commands(
    dir: Seq<char>,
    prefix: Seq<char>,
    items: Seq<DirItem>,
    n: int,
    i: int,
)
    requires
        0 <= n <= items.len(),
        0 <= i < dir_matches(dir, prefix, items, n).len(),
    ensures
        exists|k: int|
            0 <= k < n && is_offered(dir, prefix, #[trigger] items[k]) && dir_matches(
                dir,
                prefix,
                items,
                n,
            )[i].name == kept(items[k].name@),
    decreases n,
{
    if n > 0 {
        let all = dir_matches(dir, prefix, items, n);
        let before = dir_matches(dir, prefix, items, n - 1);
        lemma_offered(dir, prefix, items[n - 1]);
        if i < before.len() {
            law_offered_are_commands(dir, prefix, items, n - 1, i);
            assert(all[i] == before[i]);
        } else {
            assert(all[i].name == kept(items[n - 1].name@));
        }
    }
}

/// The directories of `$PATH` are its parts that are not empty and short enough, in order.
pub proof fn law_directories_of_path(parts: Seq<Seq<char>>, n: int)
    requires
        0 < n <= parts.len(),
    ensures
        parts[n - 1].len() > 0 && byte_len(parts[n - 1]) < 4096 ==> search_dirs(parts, n)
            == search_dirs(parts, n - 1).push(parts[n - 1]),
        parts[n - 1].len() == 0 || byte_len(parts[n - 1]) >= 4096 ==> search_dirs(parts, n)
            == search_dirs(parts, n - 1),
        search_dirs(parts, 0).len() == 0,
{
}

/// What is known of the commands is looked up anew when `$PATH` changes, and forgotten when it is
/// gone.
pub proof fn law_cache_follows_path(v: PathCacheView, p: Seq<char>)
    ensures
        v.path_hash != name_hash(p) ==> v.is_stale(Some(p)),
        v.path_hash == name_hash(p) && !v.commands.is_empty() ==> !v.is_stale(Some(p)),
        v.commands.is_empty() ==> v.is_stale(Some(p)),
        !v.is_stale(None),
        v.checked(Some(p)) == v,
        v.path_hash != 0 ==> v.checked(None).commands.is_empty(),
{
    assert(v.commands.is_empty() == (v.commands =~= Set::empty()));
}

// -- Hosts --

proof fn lemma_plain(w: Seq<char>)
    requires
        w != seq!['.'],
    ensures
        !w.contains('*') && !w.contains('?') ==> plain_hosts(seq![w], 1) == seq![w],
        w.contains('*') || w.contains('?') ==> plain_hosts(seq![w], 1).len() == 0,
{
    reveal_strlit(".");
    assert("."@ =~= seq!['.']);
    let ws = seq![w];
    assert(plain_hosts(ws, 0) =~= Seq::empty());
    assert(ws[0] == w);
    assert(Seq::<Seq<char>>::empty().push(w) =~= seq![w]);
}

proof fn lemma_host_line(
    head: Seq<char>,
    a: Seq<char>,
    b: Seq<char>,
    w: Seq<char>,
    c: Seq<char>,
)
    requires
        head == "Host "@ || head == "Host\t"@,
        is_blank(a),
        is_blank(b),
        is_word(w),
        is_blank(c),
    ensures
        config_line_hosts(a + head + b + w + c) == plain_hosts(seq![w], 1),
{
    assert(head.len() == 5 && head[0] == 'H') by {
        reveal_strlit("Host ");
        reveal_strlit("Host\t");
    }
    let e = Seq::<char>::empty();
    let x = b + w;
    let t = head + x;
    assert(words(x) == seq![w]) by {
        law_words(b, w, e);
        assert(x =~= b + w + e);
        law_words(e, w, e);
        assert(words(e) =~= Seq::empty());
        assert(seq![w] + Seq::<Seq<char>>::empty() =~= seq![w]);
    }
    assert(trimmed(a + t + c) == t) by {
        assert(!spec_is_whitespace(w[w.len() - 1]));
        assert(t[0] == 'H' && t.last() == w[w.len() - 1]);
        law_trimmed(a, t, c);
    }
    assert(a + t + c =~= a + head + b + w + c);
    assert(t.subrange(0, 5) =~= head);
    assert(t.skip(5) =~= x);
    assert("Host "@.len() == 5 && "Host\t"@.len() == 5) by {
        reveal_strlit("Host ");
        reveal_strlit("Host\t");
    }
}

/// A name on a `Host` line of the SSH configuration is a host, unless it is a pattern.
pub proof fn law_config_hosts(a: Seq<char>, b: Seq<char>, w: Seq<char>, c: Seq<char>)
    requires
        is_blank(a),
        is_blank(b),
        is_word(w),
        is_blank(c),
        w != seq!['.'],
    ensures
        !w.contains('*') && !w.contains('?') ==> config_line_hosts(a + "Host "@ + b + w + c)
            == seq![w] && config_line_hosts(a + "Host\t"@ + b + w + c) == seq![w],
        w.contains('*') || w.contains('?') ==> config_line_hosts(a + "Host "@ + b + w + c).len()
            == 0,
{
    lemma_plain(w);
    lemma_host_line("Host "@, a, b, w, c);
    lemma_host_line("Host\t"@, a, b, w, c);
}

/// The first field of a line of known hosts names the host, with or without brackets and a port;
/// a hashed name and a comment name none.
pub proof fn law_known_hosts(w: Seq<char>, port: Seq<char>, rest: Seq<char>)
    requires
        is_word(w),
        !w.contains(','),
        !w.contains('*'),
        !w.contains(']'),
        w[0] != '#',
        w[0] != '|',
        w[0] != '[',
        is_blank(port) ==> port.len() == 0,
        !port.contains(','),
        forall|i: int| 0 <= i < port.len() ==> !spec_is_whitespace(#[trigger] port[i]),
        rest.len() == 0 || spec_is_whitespace(rest[0]) && !spec_is_whitespace(rest.last()),
    ensures
        known_line_hosts(w + rest) == seq![w],
        known_line_hosts(seq!['['] + w + seq![']'] + port + rest) == seq![w],
        known_line_hosts(seq!['|'] + w + rest).len() == 0,
        known_line_hosts(seq!['#'] + w + rest).len() == 0,
{
    lemma_known(w, w, rest);
    let b = seq!['['] + w + seq![']'] + port;
    assert(is_word(b)) by {
        assert forall|i: int| 0 <= i < b.len() implies !spec_is_whitespace(#[trigger] b[i]) by {
            if 1 <= i < 1 + w.len() {
                assert(b[i] == w[i - 1]);
            } else if i >= 2 + w.len() {
                assert(b[i] == port[i - 2 - w.len()]);
            }
        }
    }
    assert(!b.contains(',')) by {
        if b.contains(',') {
            let i = choose|i: int| 0 <= i < b.len() && b[i] == ',';
            if 1 <= i < 1 + w.len() {
                assert(w[i - 1] == ',');
            } else if i >= 2 + w.len() {
                assert(port[i - 2 - w.len()] == ',');
            }
        }
    }
    assert(bare_host(b) == w) by {
        lemma_index_from(b, ']', 1);
        let k = index_from(b, ']', 1);
        let n = 1 + w.len() as int;
        assert(b[n] == ']');
        if k < n {
            assert(b[k] == w[k - 1]);
            assert(w.contains(w[k - 1]));
        }
        assert(b.subrange(1, n) =~= w);
    }
    lemma_known(b, w, rest);
    let e = Seq::<char>::empty();
    let p = seq!['|'] + w + rest;
    let q = seq!['#'] + w + rest;
    lemma_front(w, rest);
    assert(p[0] == '|' && q[0] == '#');
    assert(p.last() == (w + rest).last() && q.last() == (w + rest).last());
    law_trimmed(e, p, e);
    law_trimmed(e, q, e);
    assert(e + p + e =~= p);
    assert(e + q + e =~= q);
}

proof fn lemma_front(w: Seq<char>, rest: Seq<char>)
    requires
        is_word(w),
        rest.len() == 0 || spec_is_whitespace(rest[0]) && !spec_is_whitespace(rest.last()),
    ensures
        trimmed(w + rest) == w + rest,
        !spec_is_whitespace((w + rest).last()),
{
    let e = Seq::<char>::empty();
    let t = w + rest;
    assert(t[0] == w[0]);
    assert(t.last() == if rest.len() > 0 {
        rest.last()
    } else {
        w.last()
    });
    assert(!spec_is_whitespace(w[w.len() - 1]));
    law_trimmed(e, t, e);
    assert(e + t + e =~= t);
}

proof fn lemma_known(f: Seq<char>, w: Seq<char>, rest: Seq<char>)
    requires
        is_word(f),
        is_word(w),
        bare_host(f) == w,
        !f.contains(','),
        !w.contains('*'),
        f[0] != '#',
        f[0] != '|',
        rest.len() == 0 || spec_is_whitespace(rest[0]) && !spec_is_whitespace(rest.last()),
    ensures
        known_line_hosts(f + rest) == seq![w],
{
    let e = Seq::<char>::empty();
    let t = f + rest;
    lemma_front(f, rest);
    law_words(e, f, rest);
    assert(e + f + rest =~= t);
    assert(words(t)[0] == f);
    assert(split(f, ',') == seq![f]) by {
        law_split(f, ',', e);
    }
    let s = seq![f];
    assert(s[0] == f);
    assert(alias_hosts(s, 0) =~= Seq::empty());
    assert(alias_hosts(s, 1) =~= seq![w]);
    assert(t[0] == f[0]);
}

/// The hosts of a file are those of its lines, and all hosts are those of both files.
pub proof fn law_hosts_of_files(
    ls: Seq<Seq<char>>,
    n: int,
    w: Seq<char>,
    config: Seq<char>,
    known: Seq<char>,
)
    requires
        0 < n <= ls.len(),
    ensures
        file_hosts(ls, true, n) == file_hosts(ls, true, n - 1) + config_line_hosts(ls[n - 1]),
        file_hosts(ls, false, n) == file_hosts(ls, false, n - 1) + known_line_hosts(ls[n - 1]),
        all_hosts(config, known).len() == file_hosts(
            crate::text::lines(config),
            true,
            crate::text::lines(config).len() as int,
        ).len() + file_hosts(
            crate::text::lines(known),
            false,
            crate::text::lines(known).len() as int,
        ).len(),
{
}

/// Each host is kept once, in its place.
pub proof fn law_hosts_are_named_once(v: Seq<Seq<char>>, h: Seq<char>, i: int)
    ensures
        v.len() > 0 && v.last() == h ==> strings_deduped(v.push(h)) == strings_deduped(v),
        v.len() == 0 || v.last() != h ==> strings_deduped(v.push(h)) == strings_deduped(v).push(h),
        v.len() > 0 ==> strings_deduped(v).len() > 0 && strings_deduped(v).last() == v.last(),
    decreases v.len(),
{
    assert(v.push(h).drop_last() =~= v);
    if v.len() > 0 {
        let u = v.drop_last();
        law_hosts_are_named_once(u, v.last(), i);
        assert(u.push(v.last()) =~= v);
    }
}

/// A host is offered where it starts with what was typed, and marked as a host.
pub proof fn law_hosts_are_offered(hosts: Seq<Seq<char>>, prefix: Seq<char>, rest: Seq<char>, n: int)
    requires
        0 < n <= hosts.len(),
    ensures
        hosts[n - 1] == prefix + rest ==> host_entries(hosts, prefix, n) == host_entries(
            hosts,
            prefix,
            n - 1,
        ).push(host_entry(prefix + rest)),
        hosts[n - 1].len() < prefix.len() || hosts[n - 1].take(prefix.len() as int) != prefix
            ==> host_entries(hosts, prefix, n) == host_entries(hosts, prefix, n - 1),
        host_entry(prefix).is_host && host_entry(prefix).name == kept(prefix),
        !host_entry(prefix).is_dir && !host_entry(prefix).is_exec && !host_entry(prefix).is_link,
{
    let h = hosts[n - 1];
    if h == prefix + rest {
        assert(h.subrange(0, prefix.len() as int) =~= prefix);
    }
    if h.len() >= prefix.len() {
        assert(h.subrange(0, prefix.len() as int) =~= h.take(prefix.len() as int));
    }
}

/// A line of a remote listing stands for the file below the directory that was typed, a directory
/// where it ends in a slash.
pub proof fn law_remote_files(ls: Seq<Seq<char>>, dir: Seq<char>, part: Seq<char>, f: Seq<char>, n: int)
    requires
        0 < n <= ls.len(),
        f.len() > 0,
        !f.contains('/'),
        !part.contains('/'),
        dir.len() > 0,
        dir.last() == '/',
    ensures
        ls[n - 1] == dir + f ==> ({
            let all = remote_entries(ls, dir + part, n);
            &&& all.drop_last() == remote_entries(ls, dir + part, n - 1)
            &&& all.last().name == kept(f)
            &&& !all.last().is_dir
        }),
        ls[n - 1] == dir + f + seq!['/'] ==> ({
            let all = remote_entries(ls, dir + part, n);
            &&& all.drop_last() == remote_entries(ls, dir + part, n - 1)
            &&& all.last().name == kept(f)
            &&& all.last().is_dir
        }),
{
    crate::laws::choosing::law_path_parts(dir, part);
    let p = dir + f;
    assert(p.last() == f.last());
    assert(f.contains(f[f.len() - 1]));
    assert(p.subrange(0, dir.len() as int) =~= dir);
    assert(p.skip(dir.len() as int) =~= f);
    let q = p + seq!['/'];
    assert(q.last() == '/');
    assert(q.drop_last() =~= p);
    reveal_with_fuel(crate::candidates::slashes_trimmed, 3);
    let before = remote_entries(ls, dir + part, n - 1);
    assert forall|e| #[trigger] before.push(e).drop_last() == before by {
        assert(before.push(e).drop_last() =~= before);
    }
}

/// The files of another host are listed by the name of the host and the quoted path.
pub proof fn law_remote_command(host: Seq<char>, path: Seq<char>)
    ensures
        remote_command(host, path) == "ssh -o BatchMode=yes -o ConnectTimeout=2 "@ + host
            + " 'ls -dp "@ + quotes_escaped(path) + "* 2>/dev/null'"@,
{
}

// -- Places to look --

/// The directory that is looked in is that of the word, with its tilde expanded where files are
/// looked for.
pub proof fn law_directory_looked_in(plan: PlanView, stage: Stage)
    ensures
        stage_dir(plan, Stage::Named) == dir_part(plan.partial),
        stage_dir(plan, Stage::Files) == dir_part(plan.expanded),
        stage_dir(plan, Stage::Abbreviated) == dir_part(plan.expanded),
{
}

/// A candidate of an abbreviated path is written below the root that was typed: the home directory
/// as a tilde, the root as a slash.
pub proof fn law_roots(x: Seq<char>, home: Seq<char>)
    requires
        x.len() > 0,
        x[0] != '~',
        x[0] != '/',
    ensures
        user_root(seq!['~', '/'] + x) == seq!['~', '/'],
        real_root(seq!['~', '/'] + x, home) == home + seq!['/'],
        user_root(seq!['/'] + x) == seq!['/'],
        real_root(seq!['/'] + x, home) == seq!['/'],
        user_root(x).len() == 0,
        real_root(x, home).len() == 0,
        below_root(home + x, home) == x,
{
    reveal_strlit("~/");
    reveal_strlit("~");
    reveal_strlit("/");
    assert("~/"@ =~= seq!['~', '/']);
    assert("/"@ =~= seq!['/']);
    let a = seq!['~', '/'] + x;
    assert(a.subrange(0, 2) =~= "~/"@);
    let b = seq!['/'] + x;
    assert(b.subrange(0, 1) =~= "/"@);
    assert(b.subrange(0, 2)[0] == '/');
    assert("~/"@[0] == '~' && "~"@[0] == '~' && "/"@[0] == '/');
    if x.len() >= 2 {
        assert(x.subrange(0, 2)[0] == x[0]);
    }
    assert(x.subrange(0, 1)[0] == x[0]);
    let h = home + x;
    assert(h.subrange(0, home.len() as int) =~= home);
    assert(h.skip(home.len() as int) =~= x);
}

/// A part of an abbreviated path stands for the directories whose names start with it; hidden ones
/// where it starts with a dot.
pub proof fn law_parts_are_continued(dir: Seq<char>, part: Seq<char>, item: DirItem)
    ensures
        ({
            let name = item.name@;
            continues_path(dir, part, item) <==> {
                &&& name != seq!['.'] && name != seq!['.', '.']
                &&& has_prefix(name, part)
                &&& name.len() > 0 && name[0] == '.' ==> part.len() > 0 && part[0] == '.'
                &&& dir_room(dir) + byte_len(name) < PATH_LIMIT
                &&& item.mode & 0xF000 == 0x4000
            }
        }),
{
    reveal_strlit(".");
    reveal_strlit("..");
    assert("."@ =~= seq!['.']);
    assert(".."@ =~= seq!['.', '.']);
}

/// A path is taken as abbreviated where it has a directory part that names no directory.
pub proof fn law_abbreviated_where_needed(d: Seq<char>, n: Seq<char>, v: Seq<Seq<char>>)
    requires
        d.len() > 0,
        d.last() == '/',
        !n.contains('/'),
    ensures
        searched(d + n, false, v) == v,
        searched(d + n, true, v).len() == 0,
        searched(n, false, v).len() == 0,
{
    crate::laws::choosing::law_path_parts(d, n);
    let e = Seq::<char>::empty();
    crate::laws::choosing::law_path_parts(e, n);
    assert(e + n =~= n);
}

} // verus!
