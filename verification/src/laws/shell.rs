//! What the shell's own commands, its configuration and its paths do.
use vstd::prelude::*;

use crate::alias::{alias_of, law_set_get, AliasView};
use crate::byte_paths::byte_text;
use crate::commands::{
    alias_command_says, alias_command_sets, cd_decided, dir_pushed, dirs_to_pick, exit_code,
    exit_decided, handler_of, history_decided, on_lines, CdView, Dispatch, ExitStep,
    HistoryStepView,
};
use crate::config::{config_place, line_directive};
use crate::dirs::{
    ancestors, file_name, joined_path, name_start, parent, parts, parts_from, path_end, renamed,
    within,
};
use crate::laws::texts::{is_blank, is_trim, is_word, law_trimmed, law_words, lemma_span_is};
use crate::startup::{history_place, read_args, ArgsView, StartView};
use crate::text::{
    decimal, index_from, law_decimal_value, lemma_index_from, spec_is_digit, spec_is_whitespace,
    split, split_from, starts_with, trimmed, words,
};

verus! {

proof fn lemma_command_names()
    ensures
        "alias"@ =~= seq!['a', 'l', 'i', 'a', 's'],
        "exit"@ =~= seq!['e', 'x', 'i', 't'],
        "cd"@ =~= seq!['c', 'd'],
        "history"@ =~= seq!['h', 'i', 's', 't', 'o', 'r', 'y'],
        "copy-scrollback"@.len() == 15,
        "denv"@ =~= seq!['d', 'e', 'n', 'v'],
        "fg"@ =~= seq!['f', 'g'],
        "z"@ =~= seq!['z'],
        "w"@ =~= seq!['w'],
        "which"@ =~= seq!['w', 'h', 'i', 'c', 'h'],
        "type"@ =~= seq!['t', 'y', 'p', 'e'],
        "l"@ =~= seq!['l'],
        "c"@ =~= seq!['c'],
{
    reveal_strlit("alias");
    reveal_strlit("exit");
    reveal_strlit("cd");
    reveal_strlit("history");
    reveal_strlit("copy-scrollback");
    reveal_strlit("denv");
    reveal_strlit("fg");
    reveal_strlit("z");
    reveal_strlit("w");
    reveal_strlit("which");
    reveal_strlit("type");
    reveal_strlit("l");
    reveal_strlit("c");
}

proof fn lemma_names_differ()
    ensures
        "alias"@ != "exit"@,
        "alias"@ != "cd"@,
        "alias"@ != "history"@,
        "alias"@ != "copy-scrollback"@,
        "alias"@ != "denv"@,
        "alias"@ != "fg"@,
        "alias"@ != "z"@,
        "alias"@ != "w"@,
        "alias"@ != "which"@,
        "alias"@ != "type"@,
        "alias"@ != "l"@,
        "alias"@ != "c"@,
        "exit"@ != "cd"@,
        "exit"@ != "history"@,
        "exit"@ != "copy-scrollback"@,
        "exit"@ != "denv"@,
        "exit"@ != "fg"@,
        "exit"@ != "z"@,
        "exit"@ != "w"@,
        "exit"@ != "which"@,
        "exit"@ != "type"@,
        "exit"@ != "l"@,
        "exit"@ != "c"@,
        "cd"@ != "history"@,
        "cd"@ != "copy-scrollback"@,
        "cd"@ != "denv"@,
        "cd"@ != "fg"@,
        "cd"@ != "z"@,
        "cd"@ != "w"@,
        "cd"@ != "which"@,
        "cd"@ != "type"@,
        "cd"@ != "l"@,
        "cd"@ != "c"@,
        "history"@ != "copy-scrollback"@,
        "history"@ != "denv"@,
        "history"@ != "fg"@,
        "history"@ != "z"@,
        "history"@ != "w"@,
        "history"@ != "which"@,
        "history"@ != "type"@,
        "history"@ != "l"@,
        "history"@ != "c"@,
        "copy-scrollback"@ != "denv"@,
        "copy-scrollback"@ != "fg"@,
        "copy-scrollback"@ != "z"@,
        "copy-scrollback"@ != "w"@,
        "copy-scrollback"@ != "which"@,
        "copy-scrollback"@ != "type"@,
        "copy-scrollback"@ != "l"@,
        "copy-scrollback"@ != "c"@,
        "denv"@ != "fg"@,
        "denv"@ != "z"@,
        "denv"@ != "w"@,
        "denv"@ != "which"@,
        "denv"@ != "type"@,
        "denv"@ != "l"@,
        "denv"@ != "c"@,
        "fg"@ != "z"@,
        "fg"@ != "w"@,
        "fg"@ != "which"@,
        "fg"@ != "type"@,
        "fg"@ != "l"@,
        "fg"@ != "c"@,
        "z"@ != "w"@,
        "z"@ != "which"@,
        "z"@ != "type"@,
        "z"@ != "l"@,
        "z"@ != "c"@,
        "w"@ != "which"@,
        "w"@ != "type"@,
        "w"@ != "l"@,
        "w"@ != "c"@,
        "which"@ != "type"@,
        "which"@ != "l"@,
        "which"@ != "c"@,
        "type"@ != "l"@,
        "type"@ != "c"@,
        "l"@ != "c"@,
{
    reveal_strlit("alias");
    reveal_strlit("exit");
    reveal_strlit("cd");
    reveal_strlit("history");
    reveal_strlit("copy-scrollback");
    reveal_strlit("denv");
    reveal_strlit("fg");
    reveal_strlit("z");
    reveal_strlit("w");
    reveal_strlit("which");
    reveal_strlit("type");
    reveal_strlit("l");
    reveal_strlit("c");
    assert("alias"@.len() != "exit"@.len());
    assert("alias"@.len() != "cd"@.len());
    assert("alias"@.len() != "history"@.len());
    assert("alias"@.len() != "copy-scrollback"@.len());
    assert("alias"@.len() != "denv"@.len());
    assert("alias"@.len() != "fg"@.len());
    assert("alias"@.len() != "z"@.len());
    assert("alias"@.len() != "w"@.len());
    assert("alias"@[0] != "which"@[0]);
    assert("alias"@.len() != "type"@.len());
    assert("alias"@.len() != "l"@.len());
    assert("alias"@.len() != "c"@.len());
    assert("exit"@.len() != "cd"@.len());
    assert("exit"@.len() != "history"@.len());
    assert("exit"@.len() != "copy-scrollback"@.len());
    assert("exit"@[0] != "denv"@[0]);
    assert("exit"@.len() != "fg"@.len());
    assert("exit"@.len() != "z"@.len());
    assert("exit"@.len() != "w"@.len());
    assert("exit"@.len() != "which"@.len());
    assert("exit"@[0] != "type"@[0]);
    assert("exit"@.len() != "l"@.len());
    assert("exit"@.len() != "c"@.len());
    assert("cd"@.len() != "history"@.len());
    assert("cd"@.len() != "copy-scrollback"@.len());
    assert("cd"@.len() != "denv"@.len());
    assert("cd"@[0] != "fg"@[0]);
    assert("cd"@.len() != "z"@.len());
    assert("cd"@.len() != "w"@.len());
    assert("cd"@.len() != "which"@.len());
    assert("cd"@.len() != "type"@.len());
    assert("cd"@.len() != "l"@.len());
    assert("cd"@.len() != "c"@.len());
    assert("history"@.len() != "copy-scrollback"@.len());
    assert("history"@.len() != "denv"@.len());
    assert("history"@.len() != "fg"@.len());
    assert("history"@.len() != "z"@.len());
    assert("history"@.len() != "w"@.len());
    assert("history"@.len() != "which"@.len());
    assert("history"@.len() != "type"@.len());
    assert("history"@.len() != "l"@.len());
    assert("history"@.len() != "c"@.len());
    assert("copy-scrollback"@.len() != "denv"@.len());
    assert("copy-scrollback"@.len() != "fg"@.len());
    assert("copy-scrollback"@.len() != "z"@.len());
    assert("copy-scrollback"@.len() != "w"@.len());
    assert("copy-scrollback"@.len() != "which"@.len());
    assert("copy-scrollback"@.len() != "type"@.len());
    assert("copy-scrollback"@.len() != "l"@.len());
    assert("copy-scrollback"@.len() != "c"@.len());
    assert("denv"@.len() != "fg"@.len());
    assert("denv"@.len() != "z"@.len());
    assert("denv"@.len() != "w"@.len());
    assert("denv"@.len() != "which"@.len());
    assert("denv"@[0] != "type"@[0]);
    assert("denv"@.len() != "l"@.len());
    assert("denv"@.len() != "c"@.len());
    assert("fg"@.len() != "z"@.len());
    assert("fg"@.len() != "w"@.len());
    assert("fg"@.len() != "which"@.len());
    assert("fg"@.len() != "type"@.len());
    assert("fg"@.len() != "l"@.len());
    assert("fg"@.len() != "c"@.len());
    assert("z"@[0] != "w"@[0]);
    assert("z"@.len() != "which"@.len());
    assert("z"@.len() != "type"@.len());
    assert("z"@[0] != "l"@[0]);
    assert("z"@[0] != "c"@[0]);
    assert("w"@.len() != "which"@.len());
    assert("w"@.len() != "type"@.len());
    assert("w"@[0] != "l"@[0]);
    assert("w"@[0] != "c"@[0]);
    assert("which"@.len() != "type"@.len());
    assert("which"@.len() != "l"@.len());
    assert("which"@.len() != "c"@.len());
    assert("type"@.len() != "l"@.len());
    assert("type"@.len() != "c"@.len());
    assert("l"@[0] != "c"@[0]);
}

/// The first word of a line tells who handles it; `cd` and `l` leave a line that is more than
/// words to the shell language.
pub proof fn law_first_word_decides(a: Seq<char>, w: Seq<char>, rest: Seq<char>, simple: bool)
    requires
        is_blank(a),
        is_word(w),
        rest.len() == 0 || spec_is_whitespace(rest[0]),
    ensures
        ({
            let d = handler_of(a + w + rest, simple);
            &&& (d == Dispatch::Alias) == (w == "alias"@)
            &&& (d == Dispatch::Exit) == (w == "exit"@)
            &&& (d == Dispatch::Cd) == (w == "cd"@ && simple)
            &&& (d == Dispatch::History) == (w == "history"@)
            &&& (d == Dispatch::CopyScrollback) == (w == "copy-scrollback"@)
            &&& (d == Dispatch::Denv) == (w == "denv"@)
            &&& (d == Dispatch::Foreground) == (w == "fg"@)
            &&& (d == Dispatch::Jump) == (w == "z"@)
            &&& (d == Dispatch::Locate) == (w == "w"@ || w == "which"@ || w == "type"@)
            &&& (d == Dispatch::List) == (w == "l"@ && simple)
            &&& (d == Dispatch::Clear) == (w == "c"@)
        }),
{
    law_words(a, w, rest);
    lemma_names_differ();
}

/// `cd` goes home without an argument, to the directory that its argument names with one, and to
/// the previous one with `-`. More arguments, or no previous directory, are refused.
pub proof fn law_cd(
    dir: Seq<char>,
    x: Seq<char>,
    prev: Seq<char>,
    other: Seq<char>,
    oldpwd: Option<Seq<char>>,
    home: Seq<char>,
)
    requires
        home.len() > 0,
        home[0] == '/',
        dir.len() > 0,
        dir[0] != '~',
        dir != seq!['-'],
    ensures
        cd_decided(Seq::empty(), oldpwd, home) == CdView::Go(home),
        cd_decided(seq![dir], oldpwd, home) == CdView::Go(dir),
        cd_decided(seq![seq!['~']], oldpwd, home) == CdView::Go(home),
        cd_decided(seq![seq!['~', '/'] + x], oldpwd, home) == CdView::Go(home + seq!['/'] + x),
        prev.len() > 0 ==> cd_decided(seq![seq!['-']], Some(prev), home) == CdView::Previous(prev),
        cd_decided(seq![seq!['-']], None, home) is Fail,
        cd_decided(seq![dir, other], oldpwd, home) is Fail,
{
    reveal_strlit("~");
    reveal_strlit("~/");
    reveal_strlit("-");
    assert("~"@ =~= seq!['~']);
    assert("~/"@ =~= seq!['~', '/']);
    assert("-"@ =~= seq!['-']);
    assert("~"@[0] == '~' && "~/"@[0] == '~');
    assert(home != "~"@ && dir != "~"@);
    if home.len() >= 2 {
        assert(home.subrange(0, 2)[0] == '/');
    }
    if dir.len() >= 2 {
        assert(dir.subrange(0, 2)[0] == dir[0]);
    }
    let p = seq!['~', '/'] + x;
    assert(p[0] == '~' && p[1] == '/');
    assert(p.len() >= 2);
    assert(p != "~"@);
    assert(p != "-"@) by {
        assert("-"@.len() == 1);
    }
    assert(p.subrange(0, 2) =~= "~/"@);
    assert(home + p.skip(1) =~= home + seq!['/'] + x);
    assert("~"@ != "-"@) by {
        assert("-"@[0] == '-');
    }
}

proof fn lemma_decimal_word(n: nat)
    ensures
        is_word(decimal(n)),
{
    law_decimal_value(n);
    assert forall|i: int| 0 <= i < decimal(n).len() implies !spec_is_whitespace(
        #[trigger] decimal(n)[i],
    ) by {
        assert(spec_is_digit(decimal(n)[i]));
    }
}

/// `exit` leaves with the status that it is given, and with 0 where it is given none; the first
/// request is held back by a suspended job, and the second ends the job too.
pub proof fn law_exit(n: i32, b: Seq<char>, rest: Seq<char>, code: i32)
    requires
        n >= 0,
        is_blank(b),
        b.len() > 0,
        rest.len() == 0 || spec_is_whitespace(rest[0]),
    ensures
        exit_code("exit"@ + b + decimal(n as nat) + rest) == n,
        exit_code("exit"@) == 0,
        exit_decided(false, false, code) == ExitStep::Leave(code),
        exit_decided(true, false, code) == ExitStep::Warn,
        exit_decided(true, true, code) == ExitStep::EndJobAndLeave,
{
    lemma_command_names();
    let e = Seq::<char>::empty();
    let w = "exit"@;
    assert(is_word(w)) by {
        assert(w[0] == 'e' && w[1] == 'x' && w[2] == 'i' && w[3] == 't');
    }
    let d = decimal(n as nat);
    let tail = b + d + rest;
    assert(tail[0] == b[0]);
    law_words(e, w, tail);
    assert(e + w + tail =~= "exit"@ + b + d + rest);
    lemma_decimal_word(n as nat);
    law_words(b, d, rest);
    let ws = words("exit"@ + b + d + rest);
    assert(ws[1] == d);
    law_decimal_value(n as nat);
    assert(spec_is_digit(d[0]));
    law_words(e, w, e);
    assert(e + w + e =~= w);
    law_words(e, w, tail);
    assert(words(e).len() == 0);
}

/// After `alias name word ...` the name stands for the words, and every other name for what it
/// did; `alias name` shows it, and changes nothing.
pub proof fn law_alias_command(
    name: Seq<char>,
    ws: Seq<Seq<char>>,
    other: Seq<char>,
    w: Seq<char>,
    v: Seq<AliasView>,
)
    requires
        ws.len() >= 2,
        ws[0] == name,
    ensures
        alias_of(alias_command_sets(ws, v), name) == Some(ws.skip(1)),
        other != name ==> alias_of(alias_command_sets(ws, v), other) == alias_of(v, other),
        alias_command_says(ws, v).status == 0,
        alias_command_sets(seq![name], v) == v,
        alias_command_sets(Seq::empty(), v) == v,
        alias_of(v, name) == Some(seq![w]) ==> alias_command_says(seq![name], v).status == 0
            && alias_command_says(seq![name], v).out == "alias "@ + name + seq![' '] + w + seq!['\n'],
        alias_of(v, name) is None ==> alias_command_says(seq![name], v).status == 1
            && alias_command_says(seq![name], v).err.len() > 0,
{
    law_set_get(v, name, ws.skip(1), other);
    reveal_strlit(" ");
    reveal_strlit("\n");
    reveal_strlit("ish: alias: not found: ");
    assert(" "@ =~= seq![' ']);
    assert("\n"@ =~= seq!['\n']);
    assert(crate::text::joined(seq![w], " "@) == w);
}

/// A directory that is entered comes on top of those that were entered before, unless it is there
/// already; of more than fifty the oldest is forgotten.
pub proof fn law_dir_stack(stack: Seq<Seq<char>>, pwd: Seq<char>)
    ensures
        stack.len() > 0 && stack.last() == pwd ==> dir_pushed(stack, pwd) == stack,
        stack.len() < 50 && (stack.len() == 0 || stack.last() != pwd) ==> dir_pushed(stack, pwd)
            == stack.push(pwd),
        stack.len() == 50 && stack.last() != pwd ==> dir_pushed(stack, pwd) == stack.skip(1).push(
            pwd,
        ),
{
    assert(stack.len() > 0 ==> stack.push(pwd).skip(1) =~= stack.skip(1).push(pwd));
}

/// The directories to pick from are those that were entered, the latest first, without the
/// current one.
pub proof fn law_dirs_to_pick(stack: Seq<Seq<char>>, d: Seq<char>, pwd: Seq<char>)
    ensures
        d != pwd ==> dirs_to_pick(stack.push(d), pwd) == seq![d] + dirs_to_pick(stack, pwd),
        d == pwd ==> dirs_to_pick(stack.push(d), pwd) == dirs_to_pick(stack, pwd),
        dirs_to_pick(Seq::empty(), pwd).len() == 0,
{
    assert(stack.push(d).drop_last() =~= stack);
}

/// `history` prints each command on a line of its own, in order; its other words are `compact` and
/// `rebuild`.
pub proof fn law_history_command(
    b: Seq<char>,
    w: Seq<char>,
    entries: Seq<Seq<char>>,
    text: Seq<char>,
)
    requires
        is_blank(b),
        b.len() > 0,
        is_word(w),
    ensures
        history_decided("history"@, entries) == HistoryStepView::Print(on_lines(entries)),
        on_lines(entries.push(text)) == on_lines(entries) + text + seq!['\n'],
        on_lines(Seq::empty()).len() == 0,
        (history_decided("history"@ + b + w, entries) is Compact) == (w == "compact"@),
        (history_decided("history"@ + b + w, entries) is Rebuild) == (w == "rebuild"@),
        history_decided("history"@ + b + w, entries) !is Print,
{
    lemma_command_names();
    reveal_strlit("\n");
    reveal_strlit("compact");
    reveal_strlit("rebuild");
    assert("\n"@ =~= seq!['\n']);
    assert(entries.push(text).drop_last() =~= entries);
    let e = Seq::<char>::empty();
    let h = "history"@;
    assert(is_word(h)) by {
        assert(h[0] == 'h' && h[1] == 'i' && h[2] == 's' && h[3] == 't' && h[4] == 'o' && h[5]
            == 'r' && h[6] == 'y');
    }
    let tail = b + w;
    assert(tail[0] == b[0]);
    law_words(e, h, tail);
    assert(e + h + tail =~= "history"@ + b + w);
    law_words(b, w, e);
    assert(b + w + e =~= tail);
    law_words(e, h, e);
    assert(e + h + e =~= h);
    assert(words(e).len() == 0);
    assert("compact"@[0] == 'c' && "rebuild"@[0] == 'r');
}

// -- Configuration --

proof fn lemma_set_parts(name: Seq<char>, b: Seq<char>, value: Seq<char>)
    requires
        is_word(name),
        is_blank(b),
        b.len() > 0,
        is_trim(value),
    ensures
        ({
            let rest = name + b + value;
            let n = name.len() as int;
            &&& trimmed(rest) == rest
            &&& crate::text::span_front(rest, false) == n
            &&& rest.take(n) == name
            &&& trimmed(rest.skip(n + 1)) == value
            &&& rest.len() > n
        }),
{
    let e = Seq::<char>::empty();
    let rest = name + b + value;
    assert(rest[0] == name[0]);
    assert(rest.last() == value.last());
    law_trimmed(e, rest, e);
    assert(e + rest + e =~= rest);
    lemma_span_is(name, b + value, false);
    assert(name + (b + value) =~= rest);
    assert((b + value)[0] == b[0]);
    let n = name.len() as int;
    let b1 = b.drop_first();
    assert(rest.skip(n + 1) =~= b1 + value + e);
    assert(is_blank(b1)) by {
        assert forall|i: int| 0 <= i < b1.len() implies spec_is_whitespace(#[trigger] b1[i]) by {
            assert(b1[i] == b[i + 1]);
        }
    }
    law_trimmed(b1, value, e);
    assert(rest.take(n) =~= name);
}

/// A line `set NAME value` of the configuration exports the variable with that value; white space
/// around its parts does not matter.
pub proof fn law_set_directive(
    a: Seq<char>,
    name: Seq<char>,
    b: Seq<char>,
    value: Seq<char>,
    c: Seq<char>,
    path: Seq<char>,
    lineno: nat,
)
    requires
        is_blank(a),
        is_word(name),
        is_blank(b),
        b.len() > 0,
        is_trim(value),
        is_blank(c),
    ensures
        ({
            let d = line_directive(a + "set "@ + name + b + value + c, path, lineno);
            &&& d is Export
            &&& d->Export_name == name
            &&& d->Export_source == value
            &&& d->Export_lineno == lineno
        }),
{
    reveal_strlit("set ");
    reveal_strlit("alias ");
    let rest = name + b + value;
    let t = "set "@ + rest;
    let line = a + "set "@ + name + b + value + c;
    assert(line =~= a + t + c);
    assert(t[0] == 's');
    assert(t.last() == value.last());
    law_trimmed(a, t, c);
    assert(t.subrange(0, 4) =~= "set "@);
    assert(t.skip(4) =~= rest);
    lemma_set_parts(name, b, value);
}

/// A line of the configuration that starts with anything but `set`, `alias` and `#` is warned of,
/// and an empty one or a comment is not.
pub proof fn law_other_directives(
    a: Seq<char>,
    w: Seq<char>,
    x: Seq<char>,
    path: Seq<char>,
    lineno: nat,
)
    requires
        is_blank(a),
        is_word(w),
        w[0] != '#',
        w != "set"@,
        w != "alias"@,
        x.len() == 0 || x[0] == ' ' && !spec_is_whitespace(x.last()),
    ensures
        line_directive(a + w + x, path, lineno) is Warn,
        line_directive(a, path, lineno) is Nothing,
        line_directive(a + seq!['#'] + w, path, lineno) is Nothing,
{
    reveal_strlit("set ");
    reveal_strlit("alias ");
    reveal_strlit("set");
    reveal_strlit("alias");
    let e = Seq::<char>::empty();
    let t = w + x;
    assert(t[0] == w[0]);
    assert(t.last() == if x.len() > 0 {
        x.last()
    } else {
        w.last()
    });
    assert(!spec_is_whitespace(w[w.len() - 1]));
    law_trimmed(a, t, e);
    assert(a + t + e =~= a + w + x);
    if starts_with(t, "set "@) {
        let p = t.subrange(0, 4);
        assert(p[0] == 's' && p[1] == 'e' && p[2] == 't' && p[3] == ' ');
        assert(t[0] == 's' && t[1] == 'e' && t[2] == 't' && t[3] == ' ');
        assert(w.len() == 3) by {
            if w.len() > 3 {
                assert(t[3] == w[3]);
                assert(!spec_is_whitespace(w[3]));
            }
            if w.len() < 3 {
                assert(t[w.len() as int] == x[0]);
            }
        }
        assert(w =~= "set"@);
    }
    if starts_with(t, "alias "@) {
        let p = t.subrange(0, 6);
        assert(p[0] == 'a' && p[1] == 'l' && p[2] == 'i' && p[3] == 'a' && p[4] == 's' && p[5]
            == ' ');
        assert(t[0] == 'a' && t[1] == 'l' && t[2] == 'i' && t[3] == 'a' && t[4] == 's' && t[5]
            == ' ');
        assert(w.len() == 5) by {
            if w.len() > 5 {
                assert(t[5] == w[5]);
                assert(!spec_is_whitespace(w[5]));
            }
            if w.len() < 5 {
                assert(t[w.len() as int] == x[0]);
            }
        }
        assert(w =~= "alias"@);
    }
    law_trimmed(a, e, e);
    assert(a + e + e =~= a);
    let h = seq!['#'] + w;
    assert(h.last() == w.last());
    law_trimmed(a, h, e);
    assert(a + h + e =~= a + seq!['#'] + w);
}

/// The configuration is in `ish/config.ish` below `$XDG_CONFIG_HOME`, or in
/// `.config/ish/config.ish` below the home directory; the history is in `ish/history` below
/// `$XDG_DATA_HOME`, or in `.local/share/ish/history` below the home directory.
pub proof fn law_places(dir: Seq<char>, home: Option<Seq<char>>)
    requires
        dir.len() > 0,
        dir.last() != '/',
    ensures
        config_place(Some(dir), home) == dir + "/ish/config.ish"@,
        config_place(None, Some(dir)) == dir + "/.config/ish/config.ish"@,
        history_place(Some(dir), home) == dir + "/ish/history"@,
        history_place(None, Some(dir)) == dir + "/.local/share/ish/history"@,
{
    reveal_strlit("/ish/config.ish");
    reveal_strlit("ish/config.ish");
    reveal_strlit("/.config/ish/config.ish");
    reveal_strlit(".config/ish/config.ish");
    reveal_strlit("/ish/history");
    reveal_strlit("ish/history");
    reveal_strlit("/.local/share/ish/history");
    reveal_strlit(".local/share/ish/history");
    assert(dir.push('/') + "ish/config.ish"@ =~= dir + "/ish/config.ish"@);
    assert(dir.push('/') + ".config/ish/config.ish"@ =~= dir + "/.config/ish/config.ish"@);
    assert(dir.push('/') + "ish/history"@ =~= dir + "/ish/history"@);
    assert(dir.push('/') + ".local/share/ish/history"@ =~= dir + "/.local/share/ish/history"@);
}

/// `-c` names the configuration file, `--no-config` asks for none, and both may be given; `-V`
/// and `-h` print and start no shell, and `-c` without a path is refused.
pub proof fn law_options(c: Seq<u8>, n: Seq<u8>, other: Seq<u8>, path: Seq<u8>, version: Seq<char>)
    requires
        byte_text(c) == "-c"@,
        byte_text(n) == "--no-config"@,
        byte_text(other) == "-V"@ || byte_text(other) == "--version"@ || byte_text(other) == "-h"@
            || byte_text(other) == "--help"@,
    ensures
        ({
            let start = ArgsView { config: None, no_config: false };
            &&& read_args(Seq::empty(), 0, start, version) == StartView::Run(start)
            &&& read_args(seq![c, path], 0, start, version) == StartView::Run(
                ArgsView { config: Some(path), no_config: false },
            )
            &&& read_args(seq![n], 0, start, version) == StartView::Run(
                ArgsView { config: None, no_config: true },
            )
            &&& read_args(seq![n, c, path], 0, start, version) == StartView::Run(
                ArgsView { config: Some(path), no_config: true },
            )
            &&& read_args(seq![c], 0, start, version) is Fail
            &&& read_args(seq![other, path], 0, start, version) is Print
        }),
{
    reveal_strlit("-c");
    reveal_strlit("-V");
    reveal_strlit("-h");
    reveal_strlit("--version");
    reveal_strlit("--help");
    reveal_strlit("--no-config");
    reveal_with_fuel(read_args, 4);
    assert("-c"@[1] == 'c' && "-V"@[1] == 'V' && "-h"@[1] == 'h');
    assert("--no-config"@.len() == 11 && "--version"@.len() == 9 && "--help"@.len() == 6);
    assert("-c"@.len() == 2 && "-V"@.len() == 2 && "-h"@.len() == 2);
}

// -- Paths --

/// A name that can stand between slashes and stays there.
pub open spec fn is_path_name(name: Seq<char>) -> bool {
    name.len() > 0 && !name.contains('/') && name != seq!['.'] && name != seq!['.', '.']
}

proof fn lemma_name_start(s: Seq<char>, k: int, n: int)
    requires
        0 <= k <= n <= s.len(),
        k == 0 || s[k - 1] == '/',
        forall|i: int| k <= i < n ==> s[i] != '/',
    ensures
        name_start(s, n) == k,
    decreases n,
{
    if n > k {
        assert(s[n - 1] != '/');
        lemma_name_start(s, k, n - 1);
    }
}

/// The path of a name in a directory leads back to both: the directory is above it, and the name
/// at its end; with another name it is in the same directory.
pub proof fn law_path_of_name(dir: Seq<char>, name: Seq<char>, other: Seq<char>)
    requires
        dir.len() > 0,
        dir.last() != '/',
        dir.last() != '.',
        is_path_name(name),
        is_path_name(other),
    ensures
        joined_path(dir, name) == dir + seq!['/'] + name,
        parent(dir + seq!['/'] + name) == Some(dir),
        file_name(dir + seq!['/'] + name) == Some(name),
        renamed(dir + seq!['/'] + name, other) == dir + seq!['/'] + other,
{
    reveal_strlit(".");
    reveal_strlit("..");
    assert("."@ =~= seq!['.']);
    assert(".."@ =~= seq!['.', '.']);
    let s = dir + seq!['/'] + name;
    let n = s.len() as int;
    let d = dir.len() as int;
    assert(name.contains(name[0]));
    assert(other.contains(other[0]));
    assert(dir.push('/') + name =~= s);
    assert(dir.push('/') + other =~= dir + seq!['/'] + other);
    assert(s[n - 1] == name[name.len() - 1]);
    assert(name.contains(name[name.len() - 1]));
    assert(path_end(s, n) == n) by {
        if s[n - 1] == '.' && s[n - 2] == '/' {
            if name.len() == 1 {
                assert(name =~= seq!['.']);
            } else {
                assert(s[n - 2] == name[name.len() - 2]);
                assert(name.contains(name[name.len() - 2]));
            }
        }
    }
    assert(s[d] == '/');
    assert forall|i: int| d + 1 <= i < n implies s[i] != '/' by {
        assert(s[i] == name[i - d - 1]);
        assert(name.contains(name[i - d - 1]));
    }
    lemma_name_start(s, d + 1, n);
    assert(s[d - 1] == dir.last());
    assert(path_end(s, d + 1) == d) by {
        assert(path_end(s, d + 1) == path_end(s, d));
        if d > 1 {
            assert(path_end(s, d) == d);
        }
    }
    assert(s.take(d) =~= dir);
    assert(s.subrange(d + 1, n) =~= name);
}

pub proof fn lemma_split_concat(a: Seq<char>, b: Seq<char>, i: int)
    requires
        0 <= i <= a.len(),
        !b.contains('/'),
    ensures
        split_from(a + seq!['/'] + b, '/', i) == split_from(a, '/', i).push(b),
    decreases a.len() - i,
{
    let s = a + seq!['/'] + b;
    let n = a.len() as int;
    lemma_index_from(a, '/', i);
    lemma_index_from(s, '/', i);
    let k = index_from(a, '/', i);
    let j = index_from(s, '/', i);
    assert(s[n] == '/');
    assert(k == j) by {
        if k < j {
            assert(s[k] == if k < n {
                a[k]
            } else {
                '/'
            });
        }
        if j < k {
            assert(s[j] == a[j]);
        }
    }
    if k < n {
        lemma_split_concat(a, b, k + 1);
        assert(s.subrange(i, k) =~= a.subrange(i, k));
        assert(seq![a.subrange(i, k)] + split_from(a, '/', k + 1).push(b) =~= split_from(
            a,
            '/',
            i,
        ).push(b));
    } else {
        assert(s.subrange(i, n) =~= a.skip(i));
        lemma_index_from(s, '/', n + 1);
        let m = index_from(s, '/', n + 1);
        if m < s.len() {
            assert(s[m] == b[m - n - 1]);
            assert(b.contains(b[m - n - 1]));
        }
        assert(s.skip(n + 1) =~= b);
        assert(split_from(s, '/', n + 1) == seq![b]);
        assert(seq![a.skip(i)] + seq![b] =~= seq![a.skip(i)].push(b));
    }
}

proof fn lemma_parts_push(pieces: Seq<Seq<char>>, b: Seq<char>, i: int)
    requires
        0 <= i <= pieces.len(),
        pieces.len() > 0,
        b.len() > 0,
        b != "."@,
    ensures
        parts_from(pieces.push(b), i) == parts_from(pieces, i).push(b),
    decreases pieces.len() - i,
{
    reveal_strlit("");
    let p = pieces.push(b);
    if i < pieces.len() {
        lemma_parts_push(pieces, b, i + 1);
        assert(p[i] == pieces[i]);
        let r = parts_from(pieces, i + 1);
        assert(seq![pieces[i]] + r.push(b) =~= (seq![pieces[i]] + r).push(b));
    } else {
        assert(p[i] == b);
        assert(b != ""@);
        assert(parts_from(p, i + 1) =~= Seq::empty());
        assert(seq![b] + Seq::<Seq<char>>::empty() =~= Seq::<Seq<char>>::empty().push(b));
    }
}

/// The parts of a path below a directory are those of the directory and the name; so it lies
/// within the directory, and within none that has another name in its place.
pub proof fn law_within(dir: Seq<char>, name: Seq<char>, other: Seq<char>, below: Seq<char>)
    requires
        dir.len() > 0,
        is_path_name(name),
        is_path_name(other),
        is_path_name(below),
    ensures
        parts(dir + seq!['/'] + name) == parts(dir).push(name),
        within(dir + seq!['/'] + name, dir),
        !within(dir, dir + seq!['/'] + name),
        within(dir + seq!['/'] + name + seq!['/'] + below, dir + seq!['/'] + name),
        name != other ==> !within(
            dir + seq!['/'] + name + seq!['/'] + below,
            dir + seq!['/'] + other,
        ),
{
    lemma_parts_of_name(dir, name);
    lemma_parts_of_name(dir, other);
    let p = dir + seq!['/'] + name;
    lemma_parts_of_name(p, below);
    let d = parts(dir);
    assert(d.push(name).take(d.len() as int) =~= d);
    let whole = parts(p + seq!['/'] + below);
    assert(whole == d.push(name).push(below));
    assert(whole.take(d.len() as int + 1) =~= d.push(name));
    if name != other {
        assert(d.push(name)[d.len() as int] == name);
        assert(d.push(other)[d.len() as int] == other);
    }
}

proof fn lemma_parts_of_name(dir: Seq<char>, name: Seq<char>)
    requires
        dir.len() > 0,
        is_path_name(name),
    ensures
        parts(dir + seq!['/'] + name) == parts(dir).push(name),
{
    reveal_strlit(".");
    assert("."@ =~= seq!['.']);
    let s = dir + seq!['/'] + name;
    assert(s[0] == dir[0]);
    lemma_split_concat(dir, name, 0);
    let pieces = split(dir, '/');
    assert(pieces.len() > 0);
    lemma_parts_push(pieces, name, 0);
    let r = parts_from(pieces, 0);
    assert(seq!["/"@] + r.push(name) =~= (seq!["/"@] + r).push(name));
}

/// The paths above a path are those of its directory; the root has none above it.
pub proof fn law_paths_above(dir: Seq<char>, name: Seq<char>)
    requires
        dir.len() > 0,
        dir.last() != '/',
        dir.last() != '.',
        is_path_name(name),
    ensures
        ancestors(dir + seq!['/'] + name) == seq![dir + seq!['/'] + name] + ancestors(dir),
        ancestors(seq!['/']) == seq![seq!['/']],
{
    law_path_of_name(dir, name, name);
}

/// A path whose name has more behind it lies in the same directory.
pub proof fn law_longer_name(dir: Seq<char>, name: Seq<char>, more: Seq<char>)
    requires
        dir.len() > 0,
        dir.last() != '/',
        dir.last() != '.',
        is_path_name(name),
        is_path_name(name + more),
    ensures
        crate::startup::name_extended(dir + seq!['/'] + name, more) == dir + seq!['/'] + name + more,
{
    law_path_of_name(dir, name, name + more);
    assert(dir + seq!['/'] + (name + more) =~= dir + seq!['/'] + name + more);
}

} // verus!
