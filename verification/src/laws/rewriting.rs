//! How lines are changed before they are run, recorded or told to the terminal.
use vstd::prelude::*;

use crate::alias::{alias_of, AliasView};
use crate::builtin::is_builtin_name;
use crate::frecency::visited;
use crate::laws::texts::{is_blank, is_trim, is_word, law_trimmed, lemma_span_is};
use crate::lex::SimpleView;
use crate::rewrite::{
    argument_len, base64, base64_char, cd_rewritten, directory_notice, ends_argument,
    goes_on_record, levels_up, line_to_run, lines_joined, resolved_line, spaces_encoded,
};
use crate::text::{spec_is_whitespace, starts_with, trimmed};

verus! {

// -- Lines --

proof fn lemma_joined_shift(a: Seq<char>, b: Seq<char>, i: int)
    requires
        0 <= i <= b.len(),
    ensures
        lines_joined(a + b, a.len() + i) == lines_joined(b, i),
    decreases b.len() - i,
{
    let s = a + b;
    let n = a.len() as int;
    if i < b.len() {
        assert(s[n + i] == b[i]);
        if i + 1 < b.len() {
            assert(s[n + i + 1] == b[i + 1]);
        }
        if b[i] == '\\' && i + 1 < b.len() && b[i + 1] == '\n' {
            lemma_joined_shift(a, b, i + 2);
        } else {
            lemma_joined_shift(a, b, i + 1);
        }
    }
}

proof fn lemma_joined_head(a: Seq<char>, b: Seq<char>, i: int)
    requires
        0 <= i <= a.len(),
        forall|k: int| i <= k < a.len() ==> (#[trigger] a[k]) != '\n' && a[k] != '\\',
    ensures
        lines_joined(a + b, i) == a.skip(i) + lines_joined(a + b, a.len() as int),
    decreases a.len() - i,
{
    let s = a + b;
    if i < a.len() {
        assert(s[i] == a[i]);
        assert(a[i] != '\n' && a[i] != '\\');
        lemma_joined_head(a, b, i + 1);
        assert(seq![a[i]] + (a.skip(i + 1) + lines_joined(s, a.len() as int)) =~= a.skip(i)
            + lines_joined(s, a.len() as int));
    } else {
        assert(a.skip(i) + lines_joined(s, i) =~= lines_joined(s, i));
    }
}

/// A line that goes on is joined with the next: a backslash before the newline is taken out with
/// it, and any other newline becomes a space.
pub proof fn law_lines_are_joined(a: Seq<char>, b: Seq<char>)
    requires
        forall|k: int| 0 <= k < a.len() ==> (#[trigger] a[k]) != '\n' && a[k] != '\\',
    ensures
        lines_joined(a + seq!['\\', '\n'] + b, 0) == a + lines_joined(b, 0),
        lines_joined(a + seq!['\n'] + b, 0) == a + seq![' '] + lines_joined(b, 0),
        lines_joined(a, 0) == a,
{
    let n = a.len() as int;
    let x = seq!['\\', '\n'] + b;
    let s = a + seq!['\\', '\n'] + b;
    assert(s =~= a + x);
    lemma_joined_head(a, x, 0);
    assert(s[n] == '\\' && s[n + 1] == '\n');
    lemma_joined_shift(a + seq!['\\', '\n'], b, 0);
    assert(a.skip(0) =~= a);
    let y = seq!['\n'] + b;
    let t = a + seq!['\n'] + b;
    assert(t =~= a + y);
    lemma_joined_head(a, y, 0);
    assert(t[n] == '\n');
    lemma_joined_shift(a + seq!['\n'], b, 0);
    assert(a + (seq![' '] + lines_joined(b, 0)) =~= a + seq![' '] + lines_joined(b, 0));
    let e = Seq::<char>::empty();
    lemma_joined_head(a, e, 0);
    assert(a + e =~= a);
    assert(a + lines_joined(a, n) =~= a);
}

// -- Shorthands for `cd` --

/// The path `n` levels up is `n` times two dots, with slashes between.
pub proof fn law_levels_up(n: int)
    requires
        n >= 1,
    ensures
        levels_up(n).len() == 3 * n - 1,
        forall|i: int|
            0 <= i < 3 * n - 1 ==> #[trigger] levels_up(n)[i] == (if i % 3 == 2 {
                '/'
            } else {
                '.'
            }),
    decreases n,
{
    reveal_strlit("..");
    reveal_strlit("/..");
    if n > 1 {
        law_levels_up(n - 1);
        let p = levels_up(n - 1);
        let m = 3 * (n - 1) - 1;
        let r = levels_up(n);
        assert forall|i: int| 0 <= i < 3 * n - 1 implies #[trigger] r[i] == (if i % 3 == 2 {
            '/'
        } else {
            '.'
        }) by {
            if i < m {
                assert(r[i] == p[i]);
            } else {
                assert(r[i] == "/.."@[i - m]);
            }
        }
    } else {
        assert(levels_up(0).len() == 0);
    }
}

/// A word of two dots or more goes up one level less than it has dots; a word that is a directory
/// and no command goes there; a command runs as it is.
pub proof fn law_shorthands(
    line: Seq<char>,
    word: SimpleView,
    aliases: Seq<AliasView>,
    home: Seq<char>,
    path: Seq<char>,
    is_dir: bool,
)
    requires
        !word.quoted,
        word.text.len() > 0,
    ensures
        ({
            let r = cd_rewritten(line, Some(seq![word]), aliases, home);
            let dots = forall|i: int| 0 <= i < word.text.len() ==> word.text[i] == '.';
            let command = is_builtin_name(word.text) || alias_of(aliases, word.text) is Some;
            &&& word.text.len() >= 2 && dots ==> line_to_run(line, r, is_dir) == seq![
                'c',
                'd',
                ' ',
            ] + levels_up(word.text.len() - 1)
            &&& !(word.text.len() >= 2 && dots) && command ==> line_to_run(line, r, is_dir) == line
            &&& !(word.text.len() >= 2 && dots) && !command && word.text[0] != '~' && word.text
                != "cd"@ ==> r is IfDirectory && r->path == word.text && line_to_run(line, r, true)
                == seq!['c', 'd', ' '] + trimmed(line) && line_to_run(line, r, false) == line
            &&& !(word.text.len() >= 2 && dots) && !command && word.text == seq!['~', '/'] + path
                ==> r is IfDirectory && r->path == home + seq!['/'] + path
        }),
        cd_rewritten(line, None, aliases, home) is Unchanged,
{
    reveal_strlit("cd ");
    reveal_strlit("cd");
    assert("cd "@ =~= seq!['c', 'd', ' ']);
    assert("cd"@[0] == 'c');
    let t = word.text;
    let dots = forall|i: int| 0 <= i < t.len() ==> t[i] == '.';
    assert(seq![word][0] == word);
    if dots && t.len() >= 2 {
        assert(t[0] == '.');
    }
    if t == seq!['~', '/'] + path {
        assert(t[0] == '~');
        assert(home + t.skip(1) =~= home + seq!['/'] + path);
    }
}

// -- What is recorded --

proof fn lemma_argument(a: Seq<char>, b: Seq<char>)
    requires
        forall|i: int| 0 <= i < a.len() ==> !ends_argument(#[trigger] a[i]),
        b.len() == 0 || ends_argument(b[0]),
    ensures
        argument_len(a + b) == a.len(),
    decreases a.len(),
{
    let s = a + b;
    if a.len() > 0 {
        let r = a.drop_first();
        assert(s[0] == a[0]);
        assert(!ends_argument(a[0]));
        assert(s.drop_first() =~= r + b);
        assert forall|i: int| 0 <= i < r.len() implies !ends_argument(#[trigger] r[i]) by {
            assert(r[i] == a[i + 1]);
        }
        lemma_argument(r, b);
    } else {
        assert(s =~= b);
    }
}

/// A path that can be the argument of `cd` as it stands.
pub open spec fn is_cd_argument(dir: Seq<char>) -> bool {
    dir.len() > 0 && forall|i: int|
        0 <= i < dir.len() ==> !spec_is_whitespace(#[trigger] dir[i]) && dir[i] != '&' && dir[i]
            != '|' && dir[i] != ';'
}

/// A `cd` or `z` line is recorded with the absolute path of the directory that it names, so that it
/// can be found from anywhere; a line with an absolute path, or any other, is recorded as it is.
pub proof fn law_relative_path_is_resolved(
    dir: Seq<char>,
    path: Seq<char>,
    w: Seq<char>,
)
    requires
        is_cd_argument(dir),
        w == "cd "@ || w == "z "@,
    ensures
        dir[0] != '/' && dir[0] != '~' && dir != seq!['-'] ==> resolved_line(w + dir, Some(path))
            == w + path,
        dir[0] == '/' || dir[0] == '~' || dir == seq!['-'] ==> resolved_line(w + dir, Some(path))
            == w + dir,
        resolved_line(w + dir, None) == w + dir,
{
    reveal_strlit("cd ");
    reveal_strlit("z ");
    reveal_strlit("/");
    reveal_strlit("~");
    reveal_strlit("-");
    let e = Seq::<char>::empty();
    let t = w + dir;
    let n = w.len() as int;
    assert(!spec_is_whitespace(dir[0]) && !spec_is_whitespace(dir[dir.len() - 1]));
    assert(t[0] == w[0] && t.last() == dir.last());
    law_trimmed(e, t, e);
    assert(e + t + e =~= t);
    assert(t.subrange(0, n) =~= w);
    if w == "z "@ {
        assert("z "@.len() == 2 && "cd "@.len() == 3);
        assert("cd "@[0] == 'c' && t[0] == 'z');
        if t.len() >= 3 {
            assert(t.subrange(0, 3)[0] == t[0]);
        }
    }
    assert(t.skip(n) =~= dir);
    lemma_span_is(e, dir, true);
    assert(e + dir =~= dir);
    assert(dir.skip(0) =~= dir);
    assert(dir.subrange(0, 1)[0] == dir[0]);
    assert("/"@ =~= seq!['/']);
    assert("~"@ =~= seq!['~']);
    assert("-"@ =~= seq!['-']);
    if dir[0] == '/' {
        assert(dir.subrange(0, 1) =~= "/"@);
    }
    if dir[0] == '~' {
        assert(dir.subrange(0, 1) =~= "~"@);
    }
    assert forall|i: int| 0 <= i < dir.len() implies !ends_argument(#[trigger] dir[i]) by {
        assert(!spec_is_whitespace(dir[i]) && dir[i] != '&' && dir[i] != '|' && dir[i] != ';');
    }
    lemma_argument(dir, e);
    assert(dir.take(dir.len() as int) =~= dir);
    assert(dir.skip(dir.len() as int) =~= e);
    assert(w + path + e =~= w + path);
}

/// Every line is recorded but `l` on its own.
pub proof fn law_recorded(a: Seq<char>, line: Seq<char>, b: Seq<char>)
    requires
        is_blank(a),
        is_blank(b),
        is_trim(line),
    ensures
        goes_on_record(a + line + b) == (line != seq!['l']),
{
    reveal_strlit("l");
    assert("l"@ =~= seq!['l']);
    law_trimmed(a, line, b);
}

/// A `cd` or `z` line of the history visits the directory that it names, from the home directory
/// where it starts with a tilde.
pub proof fn law_visited(dir: Seq<char>, x: Seq<char>, w: Seq<char>, home: Seq<char>)
    requires
        is_cd_argument(dir),
        x.len() == 0 || is_cd_argument(x),
        w == "cd "@ || w == "z "@,
    ensures
        dir[0] != '-' && dir[0] != '~' ==> visited(w + dir, home) == Some(dir),
        dir[0] == '-' ==> visited(w + dir, home) is None,
        visited(w + seq!['~'], home) == Some(home),
        visited(w + seq!['~', '/'] + x, home) == Some(home + seq!['/'] + x),
{
    reveal_strlit("~");
    reveal_strlit("~/");
    reveal_strlit("/");
    assert("~"@ =~= seq!['~']);
    assert("~/"@ =~= seq!['~', '/']);
    assert("/"@ =~= seq!['/']);
    lemma_visited(dir, w);
    lemma_visited(seq!['~'], w);
    let p = seq!['~', '/'] + x;
    assert forall|i: int| 0 <= i < p.len() implies !spec_is_whitespace(#[trigger] p[i]) && p[i]
        != '&' && p[i] != '|' && p[i] != ';' by {
        if i >= 2 {
            assert(p[i] == x[i - 2]);
        }
    }
    lemma_visited(p, w);
    assert(w + p =~= w + seq!['~', '/'] + x);
    if dir.len() >= 2 {
        assert(dir.subrange(0, 2)[0] == dir[0]);
        assert("~/"@[0] == '~');
    }
    assert("~"@[0] == '~');
    assert(p.subrange(0, 2) =~= "~/"@);
    assert(p.skip(2) =~= x);
}

proof fn lemma_visited(dir: Seq<char>, w: Seq<char>)
    requires
        is_cd_argument(dir),
        w == "cd "@ || w == "z "@,
    ensures
        crate::frecency::cd_target(w + dir) == Some(dir),
{
    reveal_strlit("cd ");
    reveal_strlit("z ");
    let e = Seq::<char>::empty();
    let t = w + dir;
    let n = w.len() as int;
    assert(!spec_is_whitespace(dir[0]) && !spec_is_whitespace(dir[dir.len() - 1]));
    assert(t[0] == w[0] && t.last() == dir.last());
    law_trimmed(e, t, e);
    assert(e + t + e =~= t);
    assert(t.subrange(0, n) =~= w);
    if w == "z "@ {
        assert("z "@.len() == 2 && "cd "@.len() == 3);
        assert("cd "@[0] == 'c' && t[0] == 'z');
        if t.len() >= 3 {
            assert(t.subrange(0, 3)[0] == t[0]);
        }
    }
    assert(t.skip(n) =~= dir);
    lemma_span_is(e, dir, true);
    assert(e + dir =~= dir);
    assert(dir.skip(0) =~= dir);
    assert forall|i: int| 0 <= i < dir.len() implies !ends_argument(#[trigger] dir[i]) by {
        assert(!spec_is_whitespace(dir[i]) && dir[i] != '&' && dir[i] != '|' && dir[i] != ';');
    }
    lemma_argument(dir, e);
    assert(dir.take(dir.len() as int) =~= dir);
}

/// A command that is neither `cd` nor `z` visits no directory.
pub proof fn law_other_commands_visit_nothing(w: Seq<char>, x: Seq<char>, home: Seq<char>)
    requires
        is_word(w),
        w != "cd"@,
        w != "z"@,
        x.len() == 0 || x[0] == ' ' && !spec_is_whitespace(x.last()),
    ensures
        visited(w + x, home) is None,
{
    reveal_strlit("cd ");
    reveal_strlit("z ");
    reveal_strlit("cd");
    reveal_strlit("z");
    let e = Seq::<char>::empty();
    let t = w + x;
    assert(t[0] == w[0]);
    assert(!spec_is_whitespace(w[0]) && !spec_is_whitespace(w[w.len() - 1]));
    assert(t.last() == if x.len() > 0 {
        x.last()
    } else {
        w.last()
    });
    law_trimmed(e, t, e);
    assert(e + t + e =~= t);
    if starts_with(t, "cd "@) {
        let p = t.subrange(0, 3);
        assert(p[0] == 'c' && p[1] == 'd' && p[2] == ' ');
        assert(t[0] == 'c' && t[1] == 'd' && t[2] == ' ');
        assert(w.len() == 2) by {
            if w.len() > 2 {
                assert(!spec_is_whitespace(w[2]));
                assert(t[2] == w[2]);
            }
            if w.len() < 2 {
                assert(t[w.len() as int] == x[0]);
            }
        }
        assert(w =~= "cd"@);
    }
    if starts_with(t, "z "@) {
        let p = t.subrange(0, 2);
        assert(p[0] == 'z' && p[1] == ' ');
        assert(t[0] == 'z' && t[1] == ' ');
        assert(w.len() == 1) by {
            if w.len() > 1 {
                assert(!spec_is_whitespace(w[1]));
                assert(t[1] == w[1]);
            }
        }
        assert(w =~= "z"@);
    }
}

// -- What the terminal is told --

proof fn lemma_encoded_concat(a: Seq<char>, b: Seq<char>)
    ensures
        spaces_encoded(a + b) == spaces_encoded(a) + spaces_encoded(b),
    decreases b.len(),
{
    if b.len() == 0 {
        assert(a + b =~= a);
        assert(spaces_encoded(a) + spaces_encoded(b) =~= spaces_encoded(a));
    } else {
        lemma_encoded_concat(a, b.drop_last());
        assert((a + b).drop_last() =~= a + b.drop_last());
        assert((a + b).last() == b.last());
        assert(spaces_encoded(a + b) =~= spaces_encoded(a) + spaces_encoded(b));
    }
}

proof fn lemma_encoded_plain(a: Seq<char>)
    requires
        !a.contains(' '),
    ensures
        spaces_encoded(a) == a,
    decreases a.len(),
{
    if a.len() > 0 {
        let r = a.drop_last();
        assert(a.contains(a.last()));
        assert(!r.contains(' ')) by {
            if r.contains(' ') {
                let i = choose|i: int| 0 <= i < r.len() && r[i] == ' ';
                assert(a[i] == ' ');
            }
        }
        lemma_encoded_plain(r);
        assert(r + seq![a.last()] =~= a);
    }
}

/// The terminal is told the working directory as a file of the host, in which each space is
/// `%20`.
pub proof fn law_directory_notice(host: Seq<char>, a: Seq<char>, b: Seq<char>)
    requires
        !a.contains(' '),
        a.len() > 0,
    ensures
        directory_notice(host, a) == "\x1b]7;file://"@ + host + a + seq!['\x07'],
        spaces_encoded(a + seq![' '] + b) == a + seq!['%', '2', '0'] + spaces_encoded(b),
        directory_notice(host, Seq::empty()).len() == 0,
{
    reveal_strlit("\x07");
    reveal_strlit("%20");
    assert("\x07"@ =~= seq!['\x07']);
    assert("%20"@ =~= seq!['%', '2', '0']);
    lemma_encoded_plain(a);
    let s = seq![' '];
    lemma_encoded_concat(a, s);
    lemma_encoded_concat(a + s, b);
    assert(s.drop_last() =~= Seq::<char>::empty());
    assert(spaces_encoded(s) =~= "%20"@) by {
        reveal_with_fuel(spaces_encoded, 2);
    }
}

/// The characters of base64, in the order of their numbers.
pub proof fn law_base64_alphabet(n: int)
    requires
        0 <= n < 64,
    ensures
        base64_char(n)
            == "ABCDEFGHIJKLMNOPQRSTUVWXYZabcdefghijklmnopqrstuvwxyz0123456789+/"@[n],
{
    reveal_strlit("ABCDEFGHIJKLMNOPQRSTUVWXYZabcdefghijklmnopqrstuvwxyz0123456789+/");
}

/// Three bytes are four characters of base64, whose numbers stand for the same number, the first
/// one the highest; a rest of one or two bytes is filled up.
pub proof fn law_base64_groups(a: u8, b: u8, c: u8, rest: Seq<u8>) -> (n: (int, int, int, int))
    ensures
        0 <= n.0 < 64 && 0 <= n.1 < 64 && 0 <= n.2 < 64 && 0 <= n.3 < 64,
        (a * 256 + b) * 256 + c == ((n.0 * 64 + n.1) * 64 + n.2) * 64 + n.3,
        base64(seq![a, b, c] + rest, 0).take(4) == seq![
            base64_char(n.0),
            base64_char(n.1),
            base64_char(n.2),
            base64_char(n.3),
        ],
        base64(seq![a], 0).len() == 4 && base64(seq![a], 0)[2] == '=' && base64(seq![a], 0)[3]
            == '=',
        base64(seq![a, b], 0).len() == 4 && base64(seq![a, b], 0)[3] == '=',
        base64(Seq::empty(), 0).len() == 0,
{
    let s = seq![a, b, c] + rest;
    assert(s[0] == a && s[1] == b && s[2] == c);
    let n0 = a as int / 4;
    let n1 = (a as int % 4) * 16 + b as int / 16;
    let n2 = (b as int % 16) * 4 + c as int / 64;
    let n3 = c as int % 64;
    assert(base64(s, 0).take(4) =~= seq![
        base64_char(n0),
        base64_char(n1),
        base64_char(n2),
        base64_char(n3),
    ]);
    (n0, n1, n2, n3)
}

} // verus!
