//! When an environment is loaded, and what its files say.
use vstd::prelude::*;

use crate::candidates::quotes_escaped;
use crate::denv::{
    allowed_by, data_path, denv_action, dotenv_diff, envrc_place, failed_step, fast_path,
    finished_active, finished_step, first_with_files, hex_digit, init_changes, key_of, loading_text,
    outcome_status, refreshed, sh_quoted, sh_quoted_from, shown, started, state_text, summary,
    trust_text, unmet, up_to_date, ActiveView, EnvFiles, FilesView, Load,
};
use crate::dirs::within;
use crate::env_changes::{applied, value_in, ChangeView};
use crate::env_files::{
    assignment_in, assignments, escape_meaning, unescaped_from, value_meaning, DiffView,
};
use crate::laws::completion::{lemma_escaped_front, lemma_reads_single, read_as_one_word};
use crate::laws::texts::{is_blank, is_trim, is_word, law_trimmed};
use crate::parse::LITERAL;
use crate::text::{index_from, lemma_index_from, spec_is_whitespace, starts_with, trimmed};

verus! {

// -- Trust --

/// An `.envrc` that is not trusted is never run: nothing is loaded, and the environment is marked
/// as not loaded. One that is trusted is run, and a `.env` without an `.envrc` needs no trust.
pub proof fn law_only_trusted_is_run(
    f: FilesView,
    active: Option<ActiveView>,
    allowed: bool,
    dir: Seq<char>,
    envrc: Seq<char>,
    env: Map<Seq<char>, Seq<char>>,
)
    ensures
        ({
            let s = started(Some(f), active, allowed, dir, envrc);
            &&& s.load == Load::Script ==> allowed && f.envrc is Some
            &&& f.envrc is Some && allowed ==> s.load == Load::Script
            &&& f.envrc is Some && !allowed ==> s.load == Load::Nothing && s.report.len() > 0
                && value_in(applied(env, s.changes), "__DENV_DIRTY"@) == Some(seq!['1'])
                && value_in(applied(env, s.changes), "__DENV_DIR"@) == Some(dir)
                && value_in(applied(env, s.changes), "__DENV_STATE"@) is None
            &&& f.envrc is None ==> s.load == Load::Dotenv
        }),
        started(None, active, allowed, dir, envrc).load == Load::Nothing,
{
    reveal_strlit("1");
    reveal_strlit("denv: ");
    reveal_strlit("__DENV_DIR");
    reveal_strlit("__DENV_DIRTY");
    reveal_strlit("__DENV_STATE");
    assert("1"@ =~= seq!['1']);
    assert("__DENV_DIR"@.len() == 10 && "__DENV_DIRTY"@.len() == 12 && "__DENV_STATE"@.len() == 12);
    assert("__DENV_DIRTY"@[7] == 'D' && "__DENV_STATE"@[7] == 'S');
    if f.envrc is Some && !allowed {
        let s = started(Some(f), active, allowed, dir, envrc);
        let cs = s.changes;
        let n = cs.len() as int;
        let c1 = cs.drop_last();
        let c2 = c1.drop_last();
        let c3 = c2.drop_last();
        assert(cs.last() == ChangeView::Unset("__DENV_STATE"@));
        assert(c1.last() == ChangeView::Assign("__DENV_DIRTY"@, "1"@));
        assert(c2.last() == ChangeView::Assign("__DENV_DIR"@, dir));
        reveal_with_fuel(applied, 4);
        let e2 = applied(env, c2);
        let e1 = applied(env, c1);
        assert(e2 == crate::env_changes::changed(applied(env, c3), c2.last()));
        assert(e1 == crate::env_changes::changed(e2, c1.last()));
    }
}

/// What `denv allow` stores trusts the file at the time that it was last modified, and at no other.
pub proof fn law_trust_lasts_until_modified(mtime: u64, current: u64, a: Seq<char>, b: Seq<char>)
    ensures
        allowed_by(Some(trust_text(mtime)), Some(current)) == (mtime == current),
        !allowed_by(None, Some(current)),
        !allowed_by(Some(trust_text(mtime)), None),
        key_of(a) == key_of(b) ==> a == b,
{
    crate::denv::law_allowed_until_modified(mtime, current);
    if key_of(a) == key_of(b) {
        crate::denv::law_trust_keys_differ(a, b);
    }
}

/// The digits of a hexadecimal number.
pub proof fn law_hex_digits(n: int)
    requires
        0 <= n < 16,
    ensures
        hex_digit(n) == "0123456789abcdef"@[n],
{
    reveal_strlit("0123456789abcdef");
}

/// `denv` knows `allow`, `deny` and `reload`, and shows how it is used for anything else.
pub proof fn law_denv_words(args: Seq<Seq<char>>)
    requires
        args.len() > 0,
    ensures
        (denv_action(args) is Allow) == (args[0] == "allow"@),
        (denv_action(args) is Deny) == (args[0] == "deny"@),
        (denv_action(args) is Reload) == (args[0] == "reload"@),
        denv_action(Seq::empty()) is Usage,
{
    reveal_strlit("allow");
    reveal_strlit("deny");
    reveal_strlit("reload");
    assert("allow"@.len() == 5 && "deny"@.len() == 4 && "reload"@.len() == 6);
}

/// A command of `denv` succeeds where it has a result, and fails where it has an error.
pub proof fn law_denv_status()
    ensures
        outcome_status(true) == 0,
        outcome_status(false) == 1,
{
}

/// The files that hold are those of the innermost directory that has any.
pub proof fn law_innermost_files_hold(all: Seq<EnvFiles>, i: int, k: int)
    requires
        0 <= k <= i < all.len(),
        all[i].envrc is Some || all[i].dotenv is Some,
        forall|j: int|
            k <= j < i ==> (#[trigger] all[j]).envrc is None && all[j].dotenv is None,
    ensures
        first_with_files(all, k) == Some(
            FilesView { dir: all[i].dir@, envrc: all[i].envrc, dotenv: all[i].dotenv },
        ),
    decreases i - k,
{
    if k < i {
        assert(all[k].envrc is None && all[k].dotenv is None);
        law_innermost_files_hold(all, i, k + 1);
    }
}

/// Without any file no environment holds.
pub proof fn law_no_files(all: Seq<EnvFiles>, k: int)
    requires
        0 <= k <= all.len(),
        forall|j: int|
            k <= j < all.len() ==> (#[trigger] all[j]).envrc is None && all[j].dotenv is None,
    ensures
        first_with_files(all, k) is None,
    decreases all.len() - k,
{
    if k < all.len() {
        assert(all[k].envrc is None && all[k].dotenv is None);
        law_no_files(all, k + 1);
    }
}

/// Nothing is loaded again below the directory of the loaded environment while its files have the
/// times that they had; a file with another time, or a directory outside, calls for a look.
pub proof fn law_unchanged_is_not_loaded_again(
    a: u64,
    b: u64,
    dir: Seq<char>,
    cwd: Seq<char>,
    envrc: Option<u64>,
    dotenv: Option<u64>,
)
    ensures
        within(cwd, dir) && envrc == Some(a) && dotenv == Some(b) ==> fast_path(
            Some(state_text(a, b, dir)),
            cwd,
            envrc,
            dotenv,
        ),
        a != 0 && envrc != Some(a) ==> !fast_path(
            Some(state_text(a, b, dir)),
            cwd,
            envrc,
            dotenv,
        ),
        b != 0 && dotenv != Some(b) ==> !fast_path(
            Some(state_text(a, b, dir)),
            cwd,
            envrc,
            dotenv,
        ),
        !within(cwd, dir) ==> !fast_path(Some(state_text(a, b, dir)), cwd, envrc, dotenv),
        !fast_path(None, cwd, envrc, dotenv),
{
    crate::denv::law_state_round_trip(a, b, dir);
}

/// A refresh that is not forced does nothing where what is loaded is up to date, and starts in any
/// other case.
pub proof fn law_refresh(
    found: Option<FilesView>,
    state: Option<Seq<char>>,
    canonical: Option<Seq<char>>,
    active: Option<ActiveView>,
    same_dir: bool,
    allowed: bool,
    dir: Seq<char>,
    envrc: Seq<char>,
)
    ensures
        refreshed(true, found, state, canonical, active, same_dir, allowed, dir, envrc) is Some,
        refreshed(false, found, state, canonical, active, same_dir, allowed, dir, envrc) is None
            <==> up_to_date(found, state, canonical, active, same_dir),
        found is None ==> refreshed(
            false,
            found,
            state,
            canonical,
            active,
            same_dir,
            allowed,
            dir,
            envrc,
        ) is Some,
{
}

/// What was loaded is remembered with the times of its files, so that it is up to date until one of
/// them changes.
pub proof fn law_loaded_is_remembered(
    f: FilesView,
    dir: Seq<char>,
    diff: DiffView,
    prev: Seq<ChangeView>,
    envrc: Option<u64>,
)
    ensures
        finished_active(f, dir, prev).dir == dir,
        finished_active(f, dir, prev).prev == prev,
        up_to_date(Some(f), None, None, Some(finished_active(f, dir, prev)), true),
        f.envrc is Some && envrc is Some && envrc != f.envrc ==> !up_to_date(
            Some(FilesView { envrc, ..f }),
            None,
            None,
            Some(finished_active(f, dir, prev)),
            true,
        ),
        finished_step(f, dir, diff).load == Load::Nothing,
{
}

/// Where the files cannot be loaded the error is told, and the environment is marked as not loaded.
pub proof fn law_failure_is_told(
    env: Map<Seq<char>, Seq<char>>,
    dir: Seq<char>,
    err: Seq<char>,
)
    ensures
        failed_step(dir, err).report == "denv: "@ + err + "\n"@,
        failed_step(dir, err).load == Load::Nothing,
        value_in(applied(env, failed_step(dir, err).changes), "__DENV_DIRTY"@) == Some(seq!['1']),
        value_in(applied(env, failed_step(dir, err).changes), "__DENV_DIR"@) == Some(dir),
        value_in(applied(env, failed_step(dir, err).changes), "__DENV_STATE"@) is None,
{
    reveal_strlit("1");
    reveal_strlit("__DENV_DIR");
    reveal_strlit("__DENV_DIRTY");
    reveal_strlit("__DENV_STATE");
    assert("1"@ =~= seq!['1']);
    assert("__DENV_DIR"@.len() == 10 && "__DENV_DIRTY"@.len() == 12 && "__DENV_STATE"@.len() == 12);
    assert("__DENV_DIRTY"@[7] == 'D' && "__DENV_STATE"@[7] == 'S');
    let cs = failed_step(dir, err).changes;
    let c1 = cs.drop_last();
    let c2 = c1.drop_last();
    let c3 = c2.drop_last();
    assert(cs.last() == ChangeView::Unset("__DENV_STATE"@));
    assert(c1.last() == ChangeView::Assign("__DENV_DIRTY"@, "1"@));
    assert(c2.last() == ChangeView::Assign("__DENV_DIR"@, dir));
    let e2 = applied(env, c2);
    let e1 = applied(env, c1);
    assert(e2 == crate::env_changes::changed(applied(env, c3), c2.last()));
    assert(e1 == crate::env_changes::changed(e2, c1.last()));
}

/// After an environment is loaded the variables tell of its directory and its files.
pub proof fn law_loaded_is_told(
    env: Map<Seq<char>, Seq<char>>,
    f: FilesView,
    dir: Seq<char>,
    diff: DiffView,
)
    ensures
        value_in(applied(env, finished_step(f, dir, diff).changes), "__DENV_DIR"@) == Some(dir),
        value_in(applied(env, finished_step(f, dir, diff).changes), "__DENV_DIRTY"@) is None,
        f.envrc is Some && f.dotenv is Some ==> value_in(
            applied(env, finished_step(f, dir, diff).changes),
            "__DENV_STATE"@,
        ) == Some(state_text(f.envrc->0, f.dotenv->0, f.dir)),
{
    reveal_strlit("__DENV_DIR");
    reveal_strlit("__DENV_DIRTY");
    reveal_strlit("__DENV_STATE");
    assert("__DENV_DIR"@.len() == 10 && "__DENV_DIRTY"@.len() == 12 && "__DENV_STATE"@.len() == 12);
    assert("__DENV_DIRTY"@[7] == 'D' && "__DENV_STATE"@[7] == 'S');
    let cs = finished_step(f, dir, diff).changes;
    let c1 = cs.drop_last();
    let c2 = c1.drop_last();
    let c3 = c2.drop_last();
    assert(c1.last() == ChangeView::Unset("__DENV_DIRTY"@));
    assert(c2.last() == ChangeView::Assign("__DENV_DIR"@, dir));
    let e2 = applied(env, c2);
    let e1 = applied(env, c1);
    assert(e2 == crate::env_changes::changed(applied(env, c3), c2.last()));
    assert(e1 == crate::env_changes::changed(e2, c1.last()));
    assert(applied(env, cs) == crate::env_changes::changed(e1, cs.last()));
}

/// Programs are told of the shell by its process number and its name.
pub proof fn law_shell_is_told(env: Map<Seq<char>, Seq<char>>, pid: u32)
    ensures
        value_in(applied(env, init_changes(pid)), "__DENV_PID"@) == Some(
            crate::text::decimal(pid as nat),
        ),
        value_in(applied(env, init_changes(pid)), "__DENV_SHELL"@) == Some("bash"@),
{
    reveal_strlit("__DENV_PID");
    reveal_strlit("__DENV_SHELL");
    assert("__DENV_PID"@.len() == 10 && "__DENV_SHELL"@.len() == 12);
    let cs = init_changes(pid);
    let c1 = cs.drop_last();
    assert(c1.last() == ChangeView::Assign("__DENV_PID"@, crate::text::decimal(pid as nat)));
    assert(cs.last() == ChangeView::Assign("__DENV_SHELL"@, "bash"@));
    let e1 = applied(env, c1);
    assert(e1 == crate::env_changes::changed(applied(env, c1.drop_last()), c1.last()));
}

/// `denv allow` and `denv deny` speak of the `.envrc` beside the files that hold; where there is
/// none they fail.
pub proof fn law_envrc_is_named(f: FilesView)
    requires
        f.dir.len() > 0,
        f.dir.last() != '/',
    ensures
        f.envrc is Some ==> envrc_place(Some(f)) == Ok::<Seq<char>, Seq<char>>(
            f.dir + "/.envrc"@,
        ),
        f.envrc is None ==> envrc_place(Some(f)) is Err,
        envrc_place(None) is Err,
{
    reveal_strlit(".envrc");
    reveal_strlit("/.envrc");
    assert(f.dir.push('/') + ".envrc"@ =~= f.dir + "/.envrc"@);
}

/// The loading of each file that is there is told.
pub proof fn law_loading_is_told(f: FilesView)
    ensures
        f.envrc is Some && f.dotenv is None ==> loading_text(f) == "denv: loading .envrc\n"@,
        f.envrc is None && f.dotenv is Some ==> loading_text(f) == "denv: loading .env\n"@,
        f.envrc is Some && f.dotenv is Some ==> loading_text(f) == "denv: loading .envrc\n"@
            + "denv: loading .env\n"@,
{
    let e = Seq::<char>::empty();
    assert("denv: loading .envrc\n"@ + e =~= "denv: loading .envrc\n"@);
    assert(e + "denv: loading .env\n"@ =~= "denv: loading .env\n"@);
}

/// The line that tells of a loaded environment names each variable that was set behind a plus, and
/// each that was removed behind a minus.
pub proof fn law_summary(plus: Seq<Seq<char>>, k: Seq<char>, sign: char)
    requires
        !starts_with(k, "__DENV_"@),
    ensures
        shown(plus.push(k), sign) == shown(plus, sign).push(seq![sign] + k),
        shown(Seq::empty(), sign).len() == 0,
        summary(seq![k], Seq::empty()) == "denv: +"@ + k + seq!['\n'],
        summary(Seq::empty(), seq![k]) == "denv: -"@ + k + seq!['\n'],
        summary(Seq::empty(), Seq::empty()).len() == 0,
{
    reveal_strlit("denv: ");
    reveal_strlit("denv: +");
    reveal_strlit("denv: -");
    reveal_strlit("\n");
    assert("\n"@ =~= seq!['\n']);
    assert(plus.push(k).drop_last() =~= plus);
    let e = Seq::<Seq<char>>::empty();
    assert(e.push(k) =~= seq![k]);
    assert(seq![k].drop_last() =~= e);
    let p = seq!['+'] + k;
    let m = seq!['-'] + k;
    assert(shown(e, '+') =~= e && shown(e, '-') =~= e);
    let one = seq![k];
    assert(one.last() == k);
    assert(shown(one, '+') == shown(one.drop_last(), '+').push(p));
    assert(shown(one, '-') == shown(one.drop_last(), '-').push(m));
    assert(shown(one, '+') =~= seq![p]);
    assert(shown(one, '-') =~= seq![m]);
    assert(shown(seq![k], '+') + shown(e, '-') =~= seq![p]);
    assert(shown(e, '+') + shown(seq![k], '-') =~= seq![m]);
    assert(crate::text::joined(seq![p], " "@) == p);
    assert(crate::text::joined(seq![m], " "@) == m);
    assert("denv: "@ + p + "\n"@ =~= "denv: +"@ + k + seq!['\n']);
    assert("denv: "@ + m + "\n"@ =~= "denv: -"@ + k + seq!['\n']);
}

proof fn lemma_sh_quoted(s: Seq<char>, i: int)
    requires
        0 <= i <= s.len(),
    ensures
        sh_quoted_from(s, i) == quotes_escaped(s.skip(i)),
    decreases s.len() - i,
{
    let t = s.skip(i);
    if i < s.len() {
        lemma_sh_quoted(s, i + 1);
        lemma_escaped_front(t);
        assert(t.drop_first() =~= s.skip(i + 1));
        assert(t[0] == s[i]);
    } else {
        assert(t =~= Seq::empty());
    }
}

/// A value is handed to the shell as one word that stands for it, whatever characters it holds.
pub proof fn law_quoted_value_is_one_word(s: Seq<char>)
    requires
        !s.contains(LITERAL),
    ensures
        read_as_one_word(sh_quoted(s), 0, s),
{
    lemma_sh_quoted(s, 0);
    assert(s.skip(0) =~= s);
    let e = Seq::<char>::empty();
    lemma_reads_single(e, s);
    assert(e + seq!['\''] + quotes_escaped(s) + seq!['\''] =~= sh_quoted(s));
}

/// Trust and state are kept below `$DENV_DATA_DIR`, or in `denv` below `$XDG_DATA_HOME`, or in
/// `.local/share/denv` below the home directory.
pub proof fn law_data_place(dir: Seq<char>, xdg: Option<Seq<char>>, home: Option<Seq<char>>)
    requires
        dir.len() > 0,
        dir.last() != '/',
    ensures
        data_path(Some(dir), xdg, home) == Ok::<Seq<char>, Seq<char>>(dir),
        data_path(None, Some(dir), home) == Ok::<Seq<char>, Seq<char>>(dir + "/denv"@),
        data_path(None, None, Some(dir)) == Ok::<Seq<char>, Seq<char>>(
            dir + "/.local/share/denv"@,
        ),
        data_path(None, None, None) is Err,
{
    reveal_strlit("denv");
    reveal_strlit("/denv");
    reveal_strlit(".local/share/denv");
    reveal_strlit("/.local/share/denv");
    assert(dir.push('/') + "denv"@ =~= dir + "/denv"@);
    assert(dir.push('/') + ".local/share/denv"@ =~= dir + "/.local/share/denv"@);
}

/// A variable of a `.env` is set unless it has its value already.
pub proof fn law_dotenv_sets(
    entries: Seq<(Seq<char>, Seq<char>)>,
    values: Seq<Option<Seq<char>>>,
    n: int,
    k: int,
)
    requires
        0 <= k < n <= entries.len(),
        values.len() == entries.len(),
        values[k] != Some(entries[k].1),
    ensures
        unmet(entries, values, n).contains(entries[k]),
        unmet(entries, values, n).len() <= n,
        n == entries.len() ==> dotenv_diff(entries, values).set.contains(entries[k])
            && dotenv_diff(entries, values).unset.len() == 0,
    decreases n,
{
    let r = unmet(entries, values, n);
    lemma_unmet_len(entries, values, n);
    if k == n - 1 {
        assert(r.last() == entries[k]);
    } else {
        law_dotenv_sets(entries, values, n - 1, k);
        let b = unmet(entries, values, n - 1);
        let j = choose|j: int| 0 <= j < b.len() && b[j] == entries[k];
        assert(r[j] == entries[k]);
    }
}

proof fn lemma_unmet_len(
    entries: Seq<(Seq<char>, Seq<char>)>,
    values: Seq<Option<Seq<char>>>,
    n: int,
)
    requires
        0 <= n,
    ensures
        unmet(entries, values, n).len() <= n,
    decreases n,
{
    if n > 0 {
        lemma_unmet_len(entries, values, n - 1);
    }
}

// -- Files --

/// A name that can be assigned to in a file.
pub open spec fn is_file_name(key: Seq<char>) -> bool {
    is_word(key) && !key.contains('=') && key[0] != '#' && key != "export"@
}

proof fn lemma_assignment(key: Seq<char>, b: Seq<char>, c: Seq<char>, value: Seq<char>)
    requires
        is_file_name(key),
        is_blank(b),
        is_blank(c),
        is_trim(value),
    ensures
        ({
            let t = key + b + seq!['='] + c + value;
            let eq = index_from(t, '=', 0);
            &&& eq == key.len() + b.len()
            &&& trimmed(t.take(eq)) == key
            &&& trimmed(t.skip(eq + 1)) == value
            &&& is_trim(t)
            &&& !starts_with(t, "export "@)
        }),
{
    let t = key + b + seq!['='] + c + value;
    let n = (key.len() + b.len()) as int;
    lemma_index_from(t, '=', 0);
    let k = index_from(t, '=', 0);
    assert(t[n] == '=');
    assert forall|i: int| 0 <= i < n implies t[i] != '=' by {
        if i < key.len() {
            assert(t[i] == key[i]);
            assert(key.contains(key[i]));
        } else {
            assert(t[i] == b[i - key.len()]);
            assert(spec_is_whitespace(b[i - key.len()]));
        }
    }
    assert(k == n);
    let e = Seq::<char>::empty();
    assert(t.take(n) =~= e + key + b);
    assert(is_trim(key)) by {
        assert(!spec_is_whitespace(key[0]) && !spec_is_whitespace(key[key.len() - 1]));
    }
    law_trimmed(e, key, b);
    assert(t.skip(n + 1) =~= c + value + e);
    law_trimmed(c, value, e);
    assert(t[0] == key[0] && t.last() == value.last());
    reveal_strlit("export ");
    reveal_strlit("export");
    if starts_with(t, "export "@) {
        let p = t.subrange(0, 7);
        assert(p[0] == 'e' && p[1] == 'x' && p[2] == 'p' && p[3] == 'o' && p[4] == 'r' && p[5]
            == 't' && p[6] == ' ');
        assert(t[0] == 'e' && t[1] == 'x' && t[2] == 'p' && t[3] == 'o' && t[4] == 'r' && t[5]
            == 't' && t[6] == ' ');
        assert(key.len() == 6) by {
            if key.len() > 6 {
                assert(t[6] == key[6]);
                assert(!spec_is_whitespace(key[6]));
            }
            if key.len() < 6 {
                if b.len() > 0 {
                    assert(t[key.len() as int] == b[0]);
                    assert(spec_is_whitespace(b[0]));
                } else {
                    assert(t[key.len() as int] == '=');
                }
            }
        }
        assert(key =~= "export"@);
    }
}

/// A line `NAME=value` of a `.env` sets the name to the value; white space around both, and
/// `export` before them, does not matter.
pub proof fn law_line_assigns(
    a: Seq<char>,
    key: Seq<char>,
    b: Seq<char>,
    c: Seq<char>,
    value: Seq<char>,
    d: Seq<char>,
)
    requires
        is_blank(a),
        is_file_name(key),
        is_blank(b),
        is_blank(c),
        is_trim(value),
        is_blank(d),
        value[0] != '"',
        value[0] != '\'',
    ensures
        assignment_in(a + key + b + seq!['='] + c + value + d) == Some((key, value)),
        assignment_in(a + "export "@ + key + b + seq!['='] + c + value + d) == Some((key, value)),
{
    let t = key + b + seq!['='] + c + value;
    lemma_assignment(key, b, c, value);
    law_trimmed(a, t, d);
    assert(a + t + d =~= a + key + b + seq!['='] + c + value + d);
    assert(t[0] == key[0]);
    reveal_strlit("export ");
    let x = "export "@;
    let u = x + t;
    assert(u[0] == 'e' && u.last() == t.last());
    law_trimmed(a, u, d);
    assert(a + u + d =~= a + "export "@ + key + b + seq!['='] + c + value + d);
    assert(u.subrange(0, 7) =~= x);
    assert(u.skip(7) =~= t);
    assert(value_meaning(value) == value);
}

/// A value in double quotes stands for what is between them, in which a backslash and `n` or `t`
/// stand for a newline and a tab; one in single quotes stands for what is between them.
pub proof fn law_quoted_values(key: Seq<char>, x: Seq<char>)
    requires
        is_file_name(key),
    ensures
        !x.contains('\\') ==> assignment_in(key + seq!['=', '"'] + x + seq!['"']) == Some((key, x)),
        assignment_in(key + seq!['=', '\''] + x + seq!['\'']) == Some((key, x)),
{
    let e = Seq::<char>::empty();
    let v = seq!['"'] + x + seq!['"'];
    lemma_assignment(key, e, e, v);
    let t = key + e + seq!['='] + e + v;
    assert(t =~= key + seq!['=', '"'] + x + seq!['"']);
    law_trimmed(e, t, e);
    assert(e + t + e =~= t);
    assert(t[0] == key[0]);
    assert(v.subrange(1, v.len() - 1) =~= x);
    if !x.contains('\\') {
        lemma_unescaped_plain(x, 0, x.len() as int);
        assert(unescaped_from(x, x.len() as int) =~= e);
        assert(x.subrange(0, x.len() as int) + e =~= x);
    }
    let w = seq!['\''] + x + seq!['\''];
    lemma_assignment(key, e, e, w);
    let u = key + e + seq!['='] + e + w;
    assert(u =~= key + seq!['=', '\''] + x + seq!['\'']);
    law_trimmed(e, u, e);
    assert(e + u + e =~= u);
    assert(u[0] == key[0]);
    assert(w.subrange(1, w.len() - 1) =~= x);
    assert(w[0] == '\'');
}

proof fn lemma_unescaped_plain(s: Seq<char>, i: int, n: int)
    requires
        0 <= i <= n <= s.len(),
        !s.take(n).contains('\\'),
    ensures
        unescaped_from(s, i) == s.subrange(i, n) + unescaped_from(s, n),
    decreases n - i,
{
    if i < n {
        assert(s.take(n)[i] == s[i]);
        assert(s.take(n).contains(s.take(n)[i]));
        lemma_unescaped_plain(s, i + 1, n);
        assert(seq![s[i]] + (s.subrange(i + 1, n) + unescaped_from(s, n)) =~= s.subrange(i, n)
            + unescaped_from(s, n));
    } else {
        assert(s.subrange(i, n) + unescaped_from(s, n) =~= unescaped_from(s, n));
    }
}

/// What a backslash in double quotes stands for with the character behind it.
pub proof fn law_escapes(a: Seq<char>, c: char, b: Seq<char>)
    requires
        !a.contains('\\'),
    ensures
        ({
            let s = a + seq!['\\', c] + b;
            unescaped_from(s, 0) == a + (if c == 'n' {
                seq!['\n']
            } else if c == 't' {
                seq!['\t']
            } else if c == '\\' || c == '"' || c == '$' {
                seq![c]
            } else {
                seq!['\\', c]
            }) + unescaped_from(s, s.len() - b.len())
        }),
{
    let s = a + seq!['\\', c] + b;
    let n = a.len() as int;
    assert(s.take(n) =~= a);
    lemma_unescaped_plain(s, 0, n);
    assert(s[n] == '\\' && s[n + 1] == c);
    assert(s.subrange(0, n) =~= a);
    let m = escape_meaning(c);
    assert(a + (m + unescaped_from(s, n + 2)) =~= a + m + unescaped_from(s, n + 2));
}

/// Comments, empty lines and lines without `=` set nothing.
pub proof fn law_lines_that_say_nothing(a: Seq<char>, x: Seq<char>)
    requires
        is_blank(a),
        is_trim(x),
    ensures
        assignment_in(a) is None,
        x[0] == '#' ==> assignment_in(a + x) is None,
        !x.contains('=') ==> assignment_in(a + x) is None,
{
    let e = Seq::<char>::empty();
    law_trimmed(a, e, e);
    assert(a + e + e =~= a);
    law_trimmed(a, x, e);
    assert(a + x + e =~= a + x);
    if !x.contains('=') {
        lemma_index_from(x, '=', 0);
        let k = index_from(x, '=', 0);
        if k < x.len() {
            assert(x.contains(x[k]));
        }
        reveal_strlit("export ");
        if starts_with(x, "export "@) {
            let y = x.skip(7);
            lemma_index_from(y, '=', 0);
            let j = index_from(y, '=', 0);
            if j < y.len() {
                assert(x[j + 7] == '=');
            }
        }
    }
}

/// The assignments of a file are those of its lines, in order.
pub proof fn law_assignments_in_order(ls: Seq<Seq<char>>, n: int)
    requires
        0 < n <= ls.len(),
    ensures
        assignment_in(ls[n - 1]) matches Some(p) ==> assignments(ls, n) == assignments(
            ls,
            n - 1,
        ).push(p),
        assignment_in(ls[n - 1]) is None ==> assignments(ls, n) == assignments(ls, n - 1),
        assignments(ls, 0).len() == 0,
{
}

} // verus!
