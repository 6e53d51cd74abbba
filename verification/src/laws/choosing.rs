//! Which candidates a word has, and how one is chosen.
use vstd::prelude::*;
use vstd::seq_lib::*;
use vstd::utf8::*;

use crate::alias::AliasView;
use crate::candidates::{
    any_prefix, chosen, dir_part, dir_path, dir_room, has_prefix, is_candidate, item_entry,
    last_slash, listed, name_part, DirItem,
};
use crate::complete::{
    above, below, left_of, name_order, right_of, time_order, CompletionState, EntryView, PATH_LIMIT,
};
use crate::completing::{
    after_separator, command_position, home_expanded, plan_of, source_of, SourceView,
};
use crate::expand::has_control;
use crate::history::HistoryView;
use crate::input::{Key, KeyEvent};
use crate::laws::completion::law_word_starts_behind_blank;
use crate::laws::texts::{is_word, law_words, lemma_trim_back_is};
use crate::line::LineState;
use crate::pickers::{completion_key, CompAction};
use crate::session::{candidates_shown, key_step, EditorView, ModeView, StepView};
use crate::sort::{law_sort_permutes, stable_sorted};
use crate::text::{
    byte_len, ends_with, icase_contains, lemma_encode_concat, lex_le, lower_chars,
    spec_is_whitespace, trimmed_end,
};

verus! {

// -- The grid --

/// Candidates stand in columns, one below the other. From row `r` of column `c` Down leads to the
/// next row and at the end of a column to the top of the next one; Up leads the other way. Right
/// leads to the next column and Left to the one before, in the same row. From the last place Down
/// leads to the first, and Up from there to the last.
pub proof fn law_grid_steps(c: int, r: int, rows: int, n: int)
    requires
        0 <= c,
        0 <= r < rows,
        c * rows + r < n,
    ensures
        ({
            let sel = c * rows + r;
            &&& r + 1 < rows && sel + 1 < n ==> below(sel, rows, n) == sel + 1
            &&& r + 1 == rows && sel + 1 < n ==> below(sel, rows, n) == (c + 1) * rows
            &&& sel + 1 == n ==> below(sel, rows, n) == 0
            &&& r > 0 ==> above(sel, rows, n) == sel - 1
            &&& r == 0 && c > 0 ==> above(sel, rows, n) == sel - 1
            &&& sel == 0 ==> above(sel, rows, n) == n - 1
            &&& sel + rows < n ==> right_of(sel, rows, n) == (c + 1) * rows + r
            &&& sel + rows >= n ==> right_of(sel, rows, n) == r
            &&& c > 0 ==> left_of(sel, rows, n) == (c - 1) * rows + r
        }),
{
    let sel = c * rows + r;
    assert(sel % rows == r && sel / rows == c) by {
        vstd::arithmetic::div_mod::lemma_fundamental_div_mod_converse(sel, rows, c, r);
    }
    assert((c + 1) * rows == c * rows + rows) by (nonlinear_arith);
    assert((c - 1) * rows == c * rows - rows) by (nonlinear_arith);
    assert(c > 0 ==> c * rows >= rows) by (nonlinear_arith)
        requires
            rows > 0,
    ;
    assert(c * rows >= 0) by (nonlinear_arith)
        requires
            c >= 0,
            rows > 0,
    ;
    if sel == 0 {
        assert(c * rows == 0);
        let q = (n - 1) / rows;
        assert((n - 1) == rows * q + (n - 1) % rows && 0 <= (n - 1) % rows < rows) by {
            vstd::arithmetic::div_mod::lemma_fundamental_div_mod(n - 1, rows);
            vstd::arithmetic::div_mod::lemma_mod_bound(n - 1, rows);
        }
        assert(rows * q == q * rows) by (nonlinear_arith);
    }
}

/// With nothing selected yet, Down, Right and Tab select the first candidate, and Up and Left the
/// last; Tab steps as Down does. Enter takes the selected one, and Escape leaves the line.
pub proof fn law_grid_keys(key: KeyEvent, state: CompletionState, line: LineState)
    requires
        state.comp.entries@.len() > 0,
        state.comp.entries@.len() <= usize::MAX,
    ensures
        ({
            let r = completion_key(key, state, line);
            let n = state.comp.entries@.len() as int;
            let sel = state.selected as int;
            let rows = state.rows as int;
            &&& key.key is Down || key.key is Up || key.key is Left || key.key is Right
                || key.key is Tab ==> r.2 == CompAction::Navigate && r.1 == line && r.0.comp
                == state.comp
            &&& sel >= n && (key.key is Down || key.key is Right || key.key is Tab)
                ==> r.0.selected == 0
            &&& sel >= n && (key.key is Up || key.key is Left) ==> r.0.selected == n - 1
            &&& sel < n && rows > 0 && key.key is Down ==> r.0.selected == below(sel, rows, n)
            &&& sel < n && rows > 0 && key.key is Tab ==> r.0.selected == below(sel, rows, n)
            &&& sel < n && rows > 0 && key.key is Up ==> r.0.selected == above(sel, rows, n)
            &&& sel < n && rows > 0 && key.key is Left ==> r.0.selected == left_of(sel, rows, n)
            &&& sel < n && rows > 0 && key.key is Right ==> r.0.selected == right_of(sel, rows, n)
            &&& key.key is Enter ==> r == (state, line, CompAction::Accept)
            &&& key.key is Escape ==> r == (state, line, CompAction::Cancel)
        }),
{
    let n = state.comp.entries@.len() as int;
    let sel = state.selected as int;
    let rows = state.rows as int;
    if sel < n && rows > 0 {
        crate::complete::law_moves_stay_in_grid(sel, rows, n);
    }
}

/// A typed character goes into the word while candidates are shown, Backspace takes one out, and
/// the candidates are looked for again.
pub proof fn law_grid_types(key: KeyEvent, c: char, state: CompletionState, line: LineState)
    requires
        !key.mods.ctrl,
        !key.mods.alt,
    ensures
        ({
            let r = completion_key(key, state, line);
            &&& key.key == Key::Char(c) ==> r.2 == CompAction::Refilter && r.1.before
                == line.before.push(c) && r.1.after == line.after
            &&& key.key is Backspace && line.before.len() > 0 ==> r.2 == CompAction::Refilter
                && r.1.before == line.before.take(line.before.len() - 1) && r.1.after == line.after
            &&& key.key is Backspace && line.before.len() == 0 ==> r.2 == CompAction::Cancel
        }),
{
    assert(line.before + seq![c] =~= line.before.push(c));
    assert(line.before.len() > 0 ==> line.before.drop_last() =~= line.before.take(
        line.before.len() - 1,
    ));
}

/// One candidate is taken at once, of several none is selected yet, and without any the line
/// stays.
pub proof fn law_candidates_come(p: crate::editor::PromptView, state: CompletionState)
    ensures
        ({
            let r = candidates_shown(p, state);
            &&& state.comp@.len() == 1 && state.selected == 0 ==> r.mode is Normal
                && r.prompt.line == crate::completing::previewed(p.line, state, p.line)
            &&& state.comp@.len() > 1 ==> r.prompt == p && (r.mode matches ModeView::Completion {
                state: s,
                base,
            } && s.selected == usize::MAX && s.comp == state.comp && base == p.line)
            &&& state.comp@.len() == 0 ==> r.mode is Normal && r.prompt == p
        }),
{
}

// -- What a picked result does --

/// Enter puts the selected match of a history search on the line, with the cursor behind it.
pub proof fn law_search_result_is_line(
    key: KeyEvent,
    a: EditorView,
    b: EditorView,
    step: StepView,
    h: HistoryView,
    aliases: Seq<AliasView>,
)
    requires
        key.key is Enter,
        a.mode is Search,
        0 <= a.mode->Search_0.selected < a.mode->Search_0.matches.len(),
        key_step(key, a, b, step, h, aliases),
    ensures
        b.mode is Normal,
        b.prompt.line.before == h.entries[a.mode->Search_0.matches[a.mode->Search_0.selected].idx].text,
        b.prompt.line.after.len() == 0,
{
}

/// Enter puts the path of the selected file where the cursor was.
pub proof fn law_picked_file_is_inserted(
    key: KeyEvent,
    a: EditorView,
    b: EditorView,
    step: StepView,
    h: HistoryView,
    aliases: Seq<AliasView>,
)
    requires
        key.key is Enter,
        a.mode is Files,
        0 <= a.mode->Files_0.selected < a.mode->Files_0.filtered.len(),
        key_step(key, a, b, step, h, aliases),
    ensures
        b.mode is Normal,
        b.prompt.line.before == a.mode->Files_0.saved.before
            + a.mode->Files_0.all[a.mode->Files_0.filtered[a.mode->Files_0.selected] as int].1@,
        b.prompt.line.after == a.mode->Files_0.saved.after,
{
}

/// Enter changes to the selected directory, and the line stays.
pub proof fn law_picked_directory_is_entered(
    key: KeyEvent,
    a: EditorView,
    b: EditorView,
    step: StepView,
    h: HistoryView,
    aliases: Seq<AliasView>,
)
    requires
        key.key is Enter,
        a.mode is Dirs,
        0 <= a.mode->Dirs_selected < a.mode->Dirs_entries.len(),
        key_step(key, a, b, step, h, aliases),
    ensures
        b.mode is Normal,
        b.prompt.line == a.prompt.line,
        step == StepView::ChangeDirectory(a.mode->Dirs_entries[a.mode->Dirs_selected]),
{
}

// -- Contexts --

/// A word without anything that the shell or a path would act on.
pub open spec fn is_plain_word(w: Seq<char>) -> bool {
    w.len() > 0 && forall|i: int|
        0 <= i < w.len() ==> ('a' <= (#[trigger] w[i]) <= 'z' || 'A' <= w[i] <= 'Z' || '0' <= w[i]
            <= '9' || w[i] == '_' || w[i] == '-' || w[i] == '.')
}

proof fn lemma_plain_word(w: Seq<char>)
    requires
        is_plain_word(w),
    ensures
        is_word(w),
        !w.contains('/'),
        !w.contains(':'),
        forall|i: int|
            0 <= i < w.len() ==> (#[trigger] w[i]) != '\'' && w[i] != '"' && w[i] != '\\' && w[i]
                != ' ' && w[i] != '\t' && w[i] != '\n' && w[i] != '$' && w[i] != '~' && w[i] != '|'
                && w[i] != ';' && w[i] != '&',
{
    assert forall|i: int| 0 <= i < w.len() implies !spec_is_whitespace(#[trigger] w[i]) by {
        assert('a' <= w[i] <= 'z' || 'A' <= w[i] <= 'Z' || '0' <= w[i] <= '9' || w[i] == '_' || w[i]
            == '-' || w[i] == '.');
    }
    if w.contains('/') {
        let i = choose|i: int| 0 <= i < w.len() && w[i] == '/';
        assert('a' <= w[i] <= 'z' || 'A' <= w[i] <= 'Z' || '0' <= w[i] <= '9' || w[i] == '_' || w[i]
            == '-' || w[i] == '.');
    }
    if w.contains(':') {
        let i = choose|i: int| 0 <= i < w.len() && w[i] == ':';
        assert('a' <= w[i] <= 'z' || 'A' <= w[i] <= 'Z' || '0' <= w[i] <= '9' || w[i] == '_' || w[i]
            == '-' || w[i] == '.');
    }
}

proof fn lemma_after_separator(s: Seq<char>)
    requires
        is_plain_word(s),
    ensures
        after_separator(s) == 0 || s.len() == 0,
    decreases s.len(),
{
    lemma_plain_word(s);
    let r = s.drop_last();
    assert(!spec_is_whitespace(s[s.len() - 1]));
    if r.len() > 0 {
        assert forall|i: int| 0 <= i < r.len() implies ('a' <= (#[trigger] r[i]) <= 'z' || 'A'
            <= r[i] <= 'Z' || '0' <= r[i] <= '9' || r[i] == '_' || r[i] == '-' || r[i] == '.') by {
            assert(r[i] == s[i]);
        }
        lemma_after_separator(r);
    }
    assert(s[s.len() - 1] != '|' && s[s.len() - 1] != ';');
    assert(after_separator(s) == after_separator(r));
    assert(r.len() == 0 ==> after_separator(r) == 0);
}

/// The first word of a line is completed to a command.
pub proof fn law_first_word_completes_to_command(w: Seq<char>, after: Seq<char>, home: Seq<char>)
    requires
        is_plain_word(w),
    ensures
        ({
            let plan = plan_of(
                LineState { before: w, after, kill: Seq::empty() },
                home,
            );
            &&& plan.source is Commands
            &&& plan.partial == w
            &&& !plan.dirs_only
            &&& !plan.in_quote
        }),
{
    lemma_plain_word(w);
    let e = Seq::<char>::empty();
    law_word_starts_behind_blank(e, w);
    assert(e + w =~= w);
    assert(w.skip(0) =~= w);
    assert(w[0] != '\'' && w[0] != '~' && w[0] != '$');
    reveal_strlit("~/'");
    if w.len() >= 3 {
        assert(w.subrange(0, 3)[0] == w[0]);
        assert("~/'"@[0] == '~');
    }
}

proof fn lemma_second_word(c: Seq<char>, w: Seq<char>)
    requires
        is_plain_word(c),
    ensures
        ({
            let before = c + seq![' '] + w;
            let n = c.len() as int + 1;
            let b = trimmed_end(before.take(n));
            &&& b == c
            &&& b.skip(after_separator(b)) == c
            &&& !ends_with(b, "|"@)
            &&& !ends_with(b, ";"@)
            &&& !ends_with(b, "&&"@)
        }),
{
    lemma_plain_word(c);
    let before = c + seq![' '] + w;
    let n = c.len() as int + 1;
    assert(before.take(n) =~= c + seq![' ']);
    assert(!spec_is_whitespace(c[c.len() - 1]));
    lemma_trim_back_is(c, seq![' ']);
    assert((c + seq![' ']).take(c.len() as int) =~= c);
    lemma_after_separator(c);
    assert(c.skip(0) =~= c);
    reveal_strlit("|");
    reveal_strlit(";");
    reveal_strlit("&&");
    let l = c[c.len() - 1];
    if ends_with(c, "|"@) {
        assert(c.subrange(c.len() - 1, c.len() - 1 + 1)[0] == l);
        assert("|"@[0] == '|');
    }
    if ends_with(c, ";"@) {
        assert(c.subrange(c.len() - 1, c.len() - 1 + 1)[0] == l);
        assert(";"@[0] == ';');
    }
    if ends_with(c, "&&"@) {
        assert(c.subrange(c.len() - 2, c.len() - 2 + 2)[1] == l);
        assert("&&"@[1] == '&');
    }
}

/// Behind a command a word is completed to files, and behind `cd` to directories only.
pub proof fn law_arguments_complete_to_files(
    c: Seq<char>,
    w: Seq<char>,
    after: Seq<char>,
    home: Seq<char>,
)
    requires
        is_plain_word(c),
        w.len() == 0 || is_plain_word(w),
        after.len() == 0 || spec_is_whitespace(after[0]),
        c != "sudo"@ && c != "doas"@ && c != "su"@ && c != "ssh"@ && c != "scp"@ && c != "rsync"@
            && c != "sftp"@ && c != "mosh"@,
    ensures
        ({
            let plan = plan_of(
                LineState { before: c + seq![' '] + w, after, kill: Seq::empty() },
                home,
            );
            &&& plan.source is Files
            &&& plan.partial == w
            &&& plan.dirs_only == (c == "cd"@)
            &&& !plan.in_quote
        }),
{
    lemma_plain_word(c);
    if w.len() > 0 {
        lemma_plain_word(w);
    }
    let before = c + seq![' '] + w;
    let line = LineState { before, after, kill: Seq::empty() };
    let n = c.len() as int + 1;
    let head = c + seq![' '];
    assert forall|i: int| 0 <= i < head.len() implies (#[trigger] head[i]) != '\'' && head[i] != '"'
        && head[i] != '\\' by {
        if i < c.len() {
            assert(head[i] == c[i]);
        }
    }
    law_word_starts_behind_blank(head, w);
    assert(before.skip(n) =~= w);
    reveal_strlit("~/'");
    if w.len() > 0 {
        assert(w[0] != '\'' && w[0] != '~' && w[0] != '$');
        if w.len() >= 3 {
            assert(w.subrange(0, 3)[0] == w[0]);
            assert("~/'"@[0] == '~');
        }
    }
    lemma_second_word(c, w);
    let e = Seq::<char>::empty();
    let rest = seq![' '] + w + after;
    assert(rest[0] == ' ');
    law_words(e, c, rest);
    assert(e + c + rest =~= line.text());
}

/// A word that starts with a dollar sign is completed to a variable, wherever it stands.
pub proof fn law_dollar_completes_to_variable(
    a: Seq<char>,
    w: Seq<char>,
    after: Seq<char>,
    home: Seq<char>,
)
    requires
        a.len() == 0 || a.last() == ' ',
        forall|i: int|
            0 <= i < a.len() ==> (#[trigger] a[i]) != '\'' && a[i] != '"' && a[i] != '\\',
        w.len() == 0 || is_plain_word(w),
    ensures
        plan_of(
            LineState { before: a + seq!['$'] + w, after, kill: Seq::empty() },
            home,
        ).source matches SourceView::Variables(v) && v == w,
{
    if w.len() > 0 {
        lemma_plain_word(w);
    }
    let word = seq!['$'] + w;
    let before = a + seq!['$'] + w;
    assert(before =~= a + word);
    assert forall|i: int| 0 <= i < word.len() implies (#[trigger] word[i]) != '\'' && word[i] != '"'
        && word[i] != '\\' && word[i] != ' ' && word[i] != '\t' && word[i] != '\n' by {
        if i > 0 {
            assert(word[i] == w[i - 1]);
        }
    }
    law_word_starts_behind_blank(a, word);
    assert(before.skip(a.len() as int) =~= word);
    assert(word[0] == '$');
    reveal_strlit("~/'");
    if word.len() >= 3 {
        assert(word.subrange(0, 3)[0] == '$');
        assert("~/'"@[0] == '~');
    }
    assert(word.skip(1) =~= w);
}

/// A path from the home directory is looked for there.
pub proof fn law_tilde_is_looked_up(x: Seq<char>, w: Seq<char>, home: Seq<char>)
    requires
        w.len() == 0 || w[0] != '~',
    ensures
        home_expanded(seq!['~', '/'] + x, home) == home + seq!['/'] + x,
        home_expanded(w, home) == w,
{
    reveal_strlit("~");
    reveal_strlit("~/");
    let p = seq!['~', '/'] + x;
    assert(p.subrange(0, 2) =~= "~/"@);
    assert(p != "~"@) by {
        assert("~"@.len() == 1);
    }
    assert(home + p.skip(1) =~= home + seq!['/'] + x);
    if w.len() >= 2 {
        assert(w.subrange(0, 2)[0] == w[0]);
        assert("~/"@[0] == '~');
    }
    assert("~"@[0] == '~');
}

/// What stands for itself in an argument: no quotes, no blanks and no backslash, and neither a
/// tilde nor a dollar at its front.
pub open spec fn is_plain_argument(w: Seq<char>) -> bool {
    &&& forall|i: int|
        0 <= i < w.len() ==> (#[trigger] w[i]) != '\'' && w[i] != '"' && w[i] != '\\' && w[i] != ' '
            && w[i] != '\t' && w[i] != '\n'
    &&& w.len() > 0 ==> w[0] != '~' && w[0] != '$'
}

proof fn lemma_argument(c: Seq<char>, w: Seq<char>, after: Seq<char>, home: Seq<char>)
    requires
        is_plain_word(c),
        is_plain_argument(w),
        after.len() == 0 || spec_is_whitespace(after[0]),
    ensures
        ({
            let line = LineState { before: c + seq![' '] + w, after, kill: Seq::empty() };
            let plan = plan_of(line, home);
            &&& plan.partial == w
            &&& !plan.in_quote
            &&& plan.source == source_of(line.before, (c.len() + 1) as int, c, w, false)
        }),
{
    lemma_plain_word(c);
    let before = c + seq![' '] + w;
    let line = LineState { before, after, kill: Seq::empty() };
    let n = c.len() as int + 1;
    let head = c + seq![' '];
    assert forall|i: int| 0 <= i < head.len() implies (#[trigger] head[i]) != '\'' && head[i] != '"'
        && head[i] != '\\' by {
        if i < c.len() {
            assert(head[i] == c[i]);
        }
    }
    law_word_starts_behind_blank(head, w);
    assert(before.skip(n) =~= w);
    reveal_strlit("~/'");
    if w.len() > 0 {
        assert(w[0] != '\'');
        if w.len() >= 3 {
            assert(w.subrange(0, 3)[0] == w[0]);
            assert("~/'"@[0] == '~');
        }
    }
    let e = Seq::<char>::empty();
    let rest = seq![' '] + w + after;
    assert(rest[0] == ' ');
    law_words(e, c, rest);
    assert(e + c + rest =~= line.text());
}

/// Commands that go to another machine.
pub open spec fn goes_elsewhere(c: Seq<char>) -> bool {
    c == "ssh"@ || c == "scp"@ || c == "rsync"@ || c == "sftp"@ || c == "mosh"@
}

proof fn lemma_elsewhere(c: Seq<char>)
    requires
        goes_elsewhere(c),
    ensures
        c != "sudo"@ && c != "doas"@ && c != "su"@,
        c.len() >= 3,
{
    reveal_strlit("ssh");
    reveal_strlit("scp");
    reveal_strlit("rsync");
    reveal_strlit("sftp");
    reveal_strlit("mosh");
    reveal_strlit("sudo");
    reveal_strlit("doas");
    reveal_strlit("su");
    assert("sudo"@.len() == 4 && "doas"@.len() == 4 && "su"@.len() == 2);
    assert("ssh"@.len() == 3 && "scp"@.len() == 3 && "rsync"@.len() == 5 && "sftp"@.len() == 4
        && "mosh"@.len() == 4);
    assert("sftp"@[1] == 'f' && "mosh"@[0] == 'm' && "sudo"@[1] == 'u' && "sudo"@[0] == 's'
        && "doas"@[0] == 'd');
}

/// Behind a command that goes to another machine a word is completed to hosts, and what follows a
/// colon to the files of the host before it.
pub proof fn law_machines_are_completed(
    c: Seq<char>,
    w: Seq<char>,
    host: Seq<char>,
    path: Seq<char>,
    after: Seq<char>,
    home: Seq<char>,
)
    requires
        is_plain_word(c),
        goes_elsewhere(c),
        w.len() == 0 || is_plain_word(w),
        is_plain_word(host),
        is_plain_argument(path),
        after.len() == 0 || spec_is_whitespace(after[0]),
    ensures
        plan_of(
            LineState { before: c + seq![' '] + w, after, kill: Seq::empty() },
            home,
        ).source is Hosts,
        plan_of(
            LineState {
                before: c + seq![' '] + (host + seq![':'] + path),
                after,
                kill: Seq::empty(),
            },
            home,
        ).source == (SourceView::Remote { host, path }),
{
    lemma_elsewhere(c);
    if w.len() > 0 {
        lemma_plain_word(w);
    }
    lemma_argument(c, w, after, home);
    lemma_second_word(c, w);
    lemma_plain_word(host);
    let r = host + seq![':'] + path;
    assert forall|i: int| 0 <= i < r.len() implies (#[trigger] r[i]) != '\'' && r[i] != '"' && r[i]
        != '\\' && r[i] != ' ' && r[i] != '\t' && r[i] != '\n' by {
        if i < host.len() {
            assert(r[i] == host[i]);
        } else if i > host.len() {
            assert(r[i] == path[i - host.len() - 1]);
        }
    }
    assert(r[0] == host[0]);
    lemma_argument(c, r, after, home);
    lemma_second_word(c, r);
    let k = host.len() as int;
    assert(r[k] == ':');
    crate::text::lemma_index_from(r, ':', 0);
    let j = crate::text::index_from(r, ':', 0);
    if j < k {
        assert(r[j] == host[j]);
        assert(host.contains(host[j]));
    }
    assert(r.take(k) =~= host);
    assert(r.skip(k + 1) =~= path);
    assert(r.contains(':'));
}

/// Behind `sudo`, `doas` and `su` a word is completed to a command.
pub proof fn law_commands_behind_commands(
    c: Seq<char>,
    w: Seq<char>,
    after: Seq<char>,
    home: Seq<char>,
)
    requires
        is_plain_word(c),
        c == "sudo"@ || c == "doas"@ || c == "su"@,
        is_plain_word(w),
        after.len() == 0 || spec_is_whitespace(after[0]),
    ensures
        plan_of(
            LineState { before: c + seq![' '] + w, after, kill: Seq::empty() },
            home,
        ).source is Commands,
{
    lemma_plain_word(w);
    lemma_argument(c, w, after, home);
    lemma_second_word(c, w);
}

/// Behind a bar, a semicolon and two ampersands a word is completed to a command.
pub proof fn law_commands_behind_connectors(a: Seq<char>, sep: Seq<char>, w: Seq<char>)
    requires
        sep == seq!['|'] || sep == seq![';'] || sep == seq!['&', '&'],
        a.len() > 0,
    ensures
        command_position(a + sep + seq![' '] + w, (a.len() + sep.len() + 1) as int),
{
    reveal_strlit("|");
    reveal_strlit(";");
    reveal_strlit("&&");
    let b = a + sep;
    let s = a + sep + seq![' '] + w;
    let n = (a.len() + sep.len() + 1) as int;
    assert(s.take(n) =~= b + seq![' ']);
    assert(b.last() == sep.last());
    assert(!spec_is_whitespace(b[b.len() - 1]));
    lemma_trim_back_is(b, seq![' ']);
    assert((b + seq![' ']).take(b.len() as int) =~= b);
    assert("|"@ =~= seq!['|']);
    assert(";"@ =~= seq![';']);
    assert("&&"@ =~= seq!['&', '&']);
    assert(b.subrange(b.len() - sep.len(), b.len() as int) =~= sep);
}

// -- Candidates --

/// An entry that a word may be completed to: it starts with the word, it is hidden only where the
/// word starts with a dot, and it is a directory where only those are asked for.
pub open spec fn completes_word(
    prefix: Seq<char>,
    dirs_only: bool,
    item: DirItem,
) -> bool {
    let name = item.name@;
    &&& name.len() >= prefix.len() && name.take(prefix.len() as int) == prefix
    &&& name != seq!['.'] && name != seq!['.', '.']
    &&& name.len() > 0 && name[0] == '.' ==> prefix.len() > 0 && prefix[0] == '.'
    &&& forall|i: int|
        0 <= i < name.len() ==> (#[trigger] name[i]) as u32 >= 32 && name[i] as u32 != 127
    &&& dirs_only ==> item.mode & 0o170000 == 0o040000
}

proof fn lemma_has_prefix(name: Seq<char>, prefix: Seq<char>)
    requires
        name.len() >= prefix.len(),
        name.take(prefix.len() as int) == prefix,
    ensures
        has_prefix(name, prefix),
{
    let rest = name.skip(prefix.len() as int);
    assert(prefix + rest =~= name);
    lemma_encode_concat(prefix, rest);
    let a = encode_utf8(name);
    let p = encode_utf8(prefix);
    assert(a.subrange(0, p.len() as int) =~= p);
}

proof fn lemma_chosen_member(
    dir: Seq<char>,
    prefix: Seq<char>,
    dirs_only: bool,
    items: Seq<DirItem>,
    strict: bool,
    n: int,
    i: int,
)
    requires
        0 <= i < n <= items.len(),
        is_candidate(dir, prefix, dirs_only, items[i]),
        strict ==> has_prefix(items[i].name@, prefix),
    ensures
        chosen(dir, prefix, dirs_only, items, strict, n).contains(item_entry(items[i])),
    decreases n,
{
    let all = chosen(dir, prefix, dirs_only, items, strict, n);
    if i == n - 1 {
        assert(all.last() == item_entry(items[i]));
    } else {
        lemma_chosen_member(dir, prefix, dirs_only, items, strict, n - 1, i);
        let b = chosen(dir, prefix, dirs_only, items, strict, n - 1);
        let k = choose|k: int| 0 <= k < b.len() && b[k] == item_entry(items[i]);
        assert(all[k] == b[k]);
    }
}

proof fn lemma_chosen_source(
    dir: Seq<char>,
    prefix: Seq<char>,
    dirs_only: bool,
    items: Seq<DirItem>,
    strict: bool,
    n: int,
    e: EntryView,
) -> (i: int)
    requires
        0 <= n <= items.len(),
        chosen(dir, prefix, dirs_only, items, strict, n).contains(e),
    ensures
        0 <= i < n,
        is_candidate(dir, prefix, dirs_only, items[i]),
        strict ==> has_prefix(items[i].name@, prefix),
        e == item_entry(items[i]),
    decreases n,
{
    let all = chosen(dir, prefix, dirs_only, items, strict, n);
    let k = choose|k: int| 0 <= k < all.len() && all[k] == e;
    let b = chosen(dir, prefix, dirs_only, items, strict, n - 1);
    if k < b.len() {
        assert(b[k] == e);
        lemma_chosen_source(dir, prefix, dirs_only, items, strict, n - 1, e)
    } else {
        n - 1
    }
}

/// Every entry of a directory that a word may be completed to is a candidate, with its name and
/// with what it is told to be: a directory, a link, a file that may be run.
pub proof fn law_entries_are_candidates(
    dir: Seq<char>,
    prefix: Seq<char>,
    dirs_only: bool,
    items: Seq<DirItem>,
    i: int,
)
    requires
        0 <= i < items.len(),
        completes_word(prefix, dirs_only, items[i]),
        byte_len(dir_path(dir)) < PATH_LIMIT,
        dir_room(dir) + byte_len(items[i].name@) < PATH_LIMIT,
        byte_len(items[i].name@) <= 255,
    ensures
        exists|k: int|
            0 <= k < listed(dir, prefix, dirs_only, items).len() && {
                let e = #[trigger] listed(dir, prefix, dirs_only, items)[k];
                &&& e.name == items[i].name@
                &&& e.is_dir == (items[i].mode & 0o170000 == 0o040000)
                &&& e.is_link == items[i].is_link
                &&& e.is_exec == (items[i].mode & 0o170000 != 0o040000 && items[i].mode & 0o111
                    != 0)
                &&& e.mtime == items[i].mtime
                &&& !e.is_host
            },
{
    reveal_strlit(".");
    reveal_strlit("..");
    assert("."@ =~= seq!['.']);
    assert(".."@ =~= seq!['.', '.']);
    let item = items[i];
    lemma_has_prefix(item.name@, prefix);
    assert(!has_control(item.name@)) by {
        if has_control(item.name@) {
            let j = choose|j: int|
                0 <= j < item.name@.len() && crate::expand::spec_is_control(
                    #[trigger] item.name@[j],
                );
            assert(item.name@[j] as u32 >= 32 && item.name@[j] as u32 != 127);
        }
    }
    assert(is_candidate(dir, prefix, dirs_only, item));
    let strict = any_prefix(dir, prefix, dirs_only, items);
    lemma_chosen_member(dir, prefix, dirs_only, items, strict, items.len() as int, i);
    let all = listed(dir, prefix, dirs_only, items);
    crate::complete::law_short_name_kept(item.name@);
    let k = choose|k: int| 0 <= k < all.len() && all[k] == item_entry(item);
    assert(all[k] == item_entry(item));
}

/// Every candidate is an entry of the directory; where some entry starts with the word, each
/// candidate does, and where only directories are asked for, each is one.
pub proof fn law_candidates_are_entries(
    dir: Seq<char>,
    prefix: Seq<char>,
    dirs_only: bool,
    items: Seq<DirItem>,
    e: EntryView,
)
    requires
        listed(dir, prefix, dirs_only, items).contains(e),
        forall|i: int| 0 <= i < items.len() ==> byte_len((#[trigger] items[i]).name@) <= 255,
    ensures
        exists|i: int|
            0 <= i < items.len() && {
                let item = #[trigger] items[i];
                &&& e.name == item.name@
                &&& e.is_dir == (item.mode & 0o170000 == 0o040000)
                &&& dirs_only ==> e.is_dir
                &&& e.name.len() > 0 && e.name[0] == '.' ==> prefix.len() > 0 && prefix[0] == '.'
                &&& has_prefix(e.name, prefix) || icase_contains(
                    encode_utf8(e.name),
                    encode_utf8(prefix),
                )
                &&& (exists|j: int|
                    0 <= j < items.len() && is_candidate(dir, prefix, dirs_only, #[trigger] items[j])
                        && has_prefix(items[j].name@, prefix)) ==> has_prefix(e.name, prefix)
            },
{
    let strict = any_prefix(dir, prefix, dirs_only, items);
    let i = lemma_chosen_source(dir, prefix, dirs_only, items, strict, items.len() as int, e);
    crate::complete::law_short_name_kept(items[i].name@);
    assert(items[i].name@ == e.name);
}

/// Files are shown with the newest first, and by name where they are as old.
pub proof fn law_newest_first(v: Seq<EntryView>, r: Seq<EntryView>, e: EntryView, i: int, j: int)
    requires
        v.len() <= usize::MAX,
        stable_sorted(v, r, time_order()),
        0 <= i < j < r.len(),
    ensures
        r[i].mtime >= r[j].mtime,
        r[i].mtime == r[j].mtime ==> lex_le(lower_chars(r[i].name), lower_chars(r[j].name)),
        r.len() == v.len(),
        r.contains(e) == v.contains(e),
{
    law_sort_permutes(v, r, time_order());
    broadcast use group_to_multiset_ensures;

    assert(r.to_multiset().count(e) == v.to_multiset().count(e));
}

/// Names are shown in their order, whatever the case of their letters.
pub proof fn law_names_in_order(v: Seq<EntryView>, r: Seq<EntryView>, e: EntryView, i: int, j: int)
    requires
        v.len() <= usize::MAX,
        stable_sorted(v, r, name_order()),
        0 <= i < j < r.len(),
    ensures
        lex_le(lower_chars(r[i].name), lower_chars(r[j].name)),
        r.len() == v.len(),
        r.contains(e) == v.contains(e),
{
    law_sort_permutes(v, r, name_order());
    broadcast use group_to_multiset_ensures;

    assert(r.to_multiset().count(e) == v.to_multiset().count(e));
}

proof fn lemma_last_slash(d: Seq<char>, n: Seq<char>)
    requires
        d.len() == 0 || d.last() == '/',
        !n.contains('/'),
    ensures
        last_slash(d + n) == d.len() - 1,
    decreases n.len(),
{
    let s = d + n;
    if n.len() == 0 {
        assert(s =~= d);
    } else {
        let m = n.drop_last();
        assert(n.contains(n.last()));
        assert(s.drop_last() =~= d + m);
        assert(!m.contains('/')) by {
            if m.contains('/') {
                let i = choose|i: int| 0 <= i < m.len() && m[i] == '/';
                assert(n[i] == '/');
            }
        }
        lemma_last_slash(d, m);
    }
}

/// A path is looked for in the directory up to its last slash, by the name behind it.
pub proof fn law_path_parts(d: Seq<char>, n: Seq<char>)
    requires
        d.len() == 0 || d.last() == '/',
        !n.contains('/'),
    ensures
        dir_part(d + n) == d,
        name_part(d + n) == n,
{
    lemma_last_slash(d, n);
    assert((d + n).take(d.len() as int) =~= d);
    assert((d + n).skip(d.len() as int) =~= n);
}

/// In an open single quote the word is what stands behind the quote, blanks and all, and a
/// completion of it is quoted again.
pub proof fn law_quoted_word_is_completed(
    c: Seq<char>,
    x: Seq<char>,
    after: Seq<char>,
    home: Seq<char>,
)
    requires
        is_plain_word(c),
        forall|i: int| 0 <= i < x.len() ==> (#[trigger] x[i]) != '\'',
    ensures
        ({
            let plan = plan_of(
                LineState { before: c + seq![' '] + seq!['\''] + x, after, kill: Seq::empty() },
                home,
            );
            &&& plan.partial == x
            &&& plan.in_quote
        }),
{
    lemma_plain_word(c);
    let head = c + seq![' '];
    assert forall|i: int| 0 <= i < head.len() implies (#[trigger] head[i]) != '\'' && head[i] != '"'
        && head[i] != '\\' by {
        if i < c.len() {
            assert(head[i] == c[i]);
        }
    }
    crate::laws::completion::law_word_starts_at_quote(head, x);
    let before = c + seq![' '] + seq!['\''] + x;
    let raw = before.skip(head.len() as int);
    assert(raw =~= seq!['\''] + x);
    assert(raw.skip(1) =~= x);
    assert(head.last() == ' ');
}

} // verus!
