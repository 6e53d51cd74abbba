//! What each key does to the line at the prompt.
use vstd::prelude::*;

use crate::alias::AliasView;
use crate::editor::{normal_key, ActionView, PromptView};
use crate::history::HistoryView;
use crate::input::{Key, KeyEvent};
use crate::line::{first_newline, last_newline, lemma_last_newline, word_end, word_start};
use crate::text::{
    joined, lemma_span_front, lemma_trim_back, span_front, spec_is_whitespace, starts_with,
    trim_back, trimmed_end,
};

verus! {

/// A key leaves these texts on both sides of the cursor and in the kill ring, and asks for
/// nothing but to show them. Where the history was walked to stays as it was.
pub open spec fn leaves(
    r: (PromptView, ActionView),
    p: PromptView,
    before: Seq<char>,
    after: Seq<char>,
    kill: Seq<char>,
) -> bool {
    &&& r.1 is Continue
    &&& r.0.line.before == before
    &&& r.0.line.after == after
    &&& r.0.line.kill == kill
    &&& r.0.back == p.back
    &&& r.0.saved == p.saved
}

/// The key is `c` with the control key.
pub open spec fn is_ctrl(key: KeyEvent, c: char) -> bool {
    key.key == Key::Char(c) && key.mods.ctrl
}

/// The key is `c` with the alt key.
pub open spec fn is_alt(key: KeyEvent, c: char) -> bool {
    key.key == Key::Char(c) && !key.mods.ctrl && key.mods.alt
}

/// Blanks and line ends are white space; letters, digits and signs are none.
pub proof fn law_white_space(c: char)
    ensures
        c == ' ' || c == '\t' || c == '\n' || c == '\r' ==> spec_is_whitespace(c),
        '!' <= c <= '~' ==> !spec_is_whitespace(c),
{
}

/// Ctrl+A and Home go to the beginning of the line.
pub proof fn law_home(key: KeyEvent, p: PromptView, h: HistoryView, al: Seq<AliasView>)
    requires
        is_ctrl(key, 'a') || key.key is Home,
    ensures
        leaves(
            normal_key(key, p, h, al),
            p,
            Seq::empty(),
            p.line.before + p.line.after,
            p.line.kill,
        ),
{
    let t = p.line.before + p.line.after;
    assert(t.take(0) =~= Seq::empty());
    assert(t.skip(0) =~= t);
}

/// Ctrl+E and End go to the end of the line.
pub proof fn law_end(key: KeyEvent, p: PromptView, h: HistoryView, al: Seq<AliasView>)
    requires
        is_ctrl(key, 'e') || key.key is End,
    ensures
        leaves(
            normal_key(key, p, h, al),
            p,
            p.line.before + p.line.after,
            Seq::empty(),
            p.line.kill,
        ),
{
    let t = p.line.before + p.line.after;
    assert(t.take(t.len() as int) =~= t);
    assert(t.skip(t.len() as int) =~= Seq::empty());
}

/// Ctrl+K kills what stands behind the cursor.
pub proof fn law_kill_to_end(key: KeyEvent, p: PromptView, h: HistoryView, al: Seq<AliasView>)
    requires
        is_ctrl(key, 'k'),
    ensures
        leaves(
            normal_key(key, p, h, al),
            p,
            p.line.before,
            Seq::empty(),
            if p.line.after.len() > 0 {
                p.line.after
            } else {
                p.line.kill
            },
        ),
{
    if p.line.after.len() == 0 {
        assert(p.line.after =~= Seq::empty());
    }
}

/// Ctrl+U kills what stands before the cursor.
pub proof fn law_kill_to_start(key: KeyEvent, p: PromptView, h: HistoryView, al: Seq<AliasView>)
    requires
        is_ctrl(key, 'u'),
    ensures
        leaves(
            normal_key(key, p, h, al),
            p,
            Seq::empty(),
            p.line.after,
            if p.line.before.len() > 0 {
                p.line.before
            } else {
                p.line.kill
            },
        ),
{
    if p.line.before.len() == 0 {
        assert(p.line.before =~= Seq::empty());
    }
}

/// Ctrl+Y puts the killed text before the cursor, and keeps it.
pub proof fn law_yank(key: KeyEvent, p: PromptView, h: HistoryView, al: Seq<AliasView>)
    requires
        is_ctrl(key, 'y'),
    ensures
        leaves(
            normal_key(key, p, h, al),
            p,
            p.line.before + p.line.kill,
            p.line.after,
            p.line.kill,
        ),
{
}

/// Ctrl+D deletes the character behind the cursor, and leaves the shell on an empty line. Delete
/// deletes it too.
pub proof fn law_delete_forward(key: KeyEvent, p: PromptView, h: HistoryView, al: Seq<AliasView>)
    requires
        is_ctrl(key, 'd') || key.key is Delete && !key.mods.ctrl,
    ensures
        ({
            let r = normal_key(key, p, h, al);
            if key.key is Char && p.line.before.len() == 0 && p.line.after.len() == 0 {
                r.1 is Exit && r.0 == p
            } else if p.line.after.len() == 0 {
                leaves(r, p, p.line.before, p.line.after, p.line.kill)
            } else {
                leaves(r, p, p.line.before, p.line.after.skip(1), p.line.kill)
            }
        }),
{
    assert(p.line.after.len() > 0 ==> p.line.after.drop_first() =~= p.line.after.skip(1));
    assert(p.line.text().len() == p.line.before.len() + p.line.after.len());
}

/// Backspace deletes the character before the cursor. The line is no longer one of the history.
pub proof fn law_backspace(key: KeyEvent, p: PromptView, h: HistoryView, al: Seq<AliasView>)
    requires
        key.key is Backspace,
        !key.mods.ctrl,
    ensures
        ({
            let r = normal_key(key, p, h, al);
            &&& r.1 is Continue
            &&& r.0.line.after == p.line.after
            &&& r.0.line.kill == p.line.kill
            &&& r.0.back is None
            &&& r.0.line.before == if p.line.before.len() > 0 {
                p.line.before.take(p.line.before.len() - 1)
            } else {
                p.line.before
            }
        }),
{
    let b = p.line.before;
    assert(b.len() > 0 ==> b.drop_last() =~= b.take(b.len() - 1));
}

/// Left and Right move by one character; the text stays. At the end of a line Right takes up
/// what the history suggests.
pub proof fn law_left_right(key: KeyEvent, p: PromptView, h: HistoryView, al: Seq<AliasView>)
    requires
        key.key is Left || key.key is Right,
        !key.mods.ctrl,
        !key.mods.alt,
    ensures
        ({
            let r = normal_key(key, p, h, al);
            let b = p.line.before;
            let a = p.line.after;
            &&& key.key is Left && b.len() > 0 ==> leaves(
                r,
                p,
                b.take(b.len() - 1),
                seq![b.last()] + a,
                p.line.kill,
            )
            &&& key.key is Left && b.len() == 0 ==> leaves(r, p, b, a, p.line.kill)
            &&& key.key is Right && a.len() > 0 ==> leaves(
                r,
                p,
                b.push(a[0]),
                a.skip(1),
                p.line.kill,
            )
            &&& key.key is Right && a.len() == 0 ==> r.1 is Continue && r.0.line.after == a
                && r.0.line.kill == p.line.kill && starts_with(r.0.line.before, b)
        }),
{
    let b = p.line.before;
    let a = p.line.after;
    let t = b + a;
    if b.len() > 0 {
        assert(t.take(b.len() - 1) =~= b.take(b.len() - 1));
        assert(t.skip(b.len() - 1) =~= seq![b.last()] + a);
    }
    if a.len() > 0 {
        assert(t.take(b.len() as int + 1) =~= b.push(a[0]));
        assert(t.skip(b.len() as int + 1) =~= a.skip(1));
    } else {
        assert(t =~= b);
        assert(b.subrange(0, b.len() as int) =~= b);
        assert(a =~= Seq::empty());
        let n = h.entries.len() as int;
        if h.nth_back(t, true, 0, n) is Some {
            crate::editor::law_recalled_starts_with(h, t, 0, n);
        }
    }
}

/// From `a` to `j` the text has no white space, and from `j` to `b` nothing else.
pub open spec fn word_then_blanks(s: Seq<char>, a: int, j: int, b: int) -> bool {
    &&& a <= j <= b
    &&& forall|i: int| a <= i < j ==> !spec_is_whitespace(#[trigger] s[i])
    &&& forall|i: int| j <= i < b ==> spec_is_whitespace(#[trigger] s[i])
}

/// The word that ends `s`, with the blanks behind it, starts at `k`.
pub open spec fn last_word_starts(s: Seq<char>, k: int) -> bool {
    &&& 0 <= k <= s.len()
    &&& k == 0 || spec_is_whitespace(s[k - 1])
    &&& exists|j: int| #[trigger]
        word_then_blanks(s, k, j, s.len() as int) && (k == j ==> k == 0)
}

/// The word that starts `s`, with the blanks behind it, ends at `k`.
pub open spec fn first_word_ends(s: Seq<char>, k: int) -> bool {
    &&& 0 <= k <= s.len()
    &&& k == s.len() || !spec_is_whitespace(s[k])
    &&& exists|j: int| #[trigger]
        word_then_blanks(s, 0, j, k) && (j == k ==> k == s.len())
}

proof fn lemma_trimmed_part(s: Seq<char>, ws: bool)
    ensures
        forall|i: int|
            trim_back(s, ws) <= i < s.len() ==> spec_is_whitespace(#[trigger] s[i]) == ws,
    decreases s.len(),
{
    if s.len() > 0 && spec_is_whitespace(s.last()) == ws {
        let t = s.drop_last();
        lemma_trimmed_part(t, ws);
        lemma_trim_back(t, ws);
        assert forall|i: int| trim_back(s, ws) <= i < s.len() implies spec_is_whitespace(
            #[trigger] s[i],
        ) == ws by {
            if i < t.len() {
                assert(s[i] == t[i]);
            }
        }
    }
}

proof fn lemma_word_start(s: Seq<char>)
    ensures
        last_word_starts(s, word_start(s)),
{
    let j = trim_back(s, true);
    lemma_trim_back(s, true);
    lemma_trimmed_part(s, true);
    let t = s.take(j);
    let k = trim_back(t, false);
    lemma_trim_back(t, false);
    lemma_trimmed_part(t, false);
    assert forall|i: int| k <= i < j implies !spec_is_whitespace(#[trigger] s[i]) by {
        assert(s[i] == t[i]);
    }
    if k > 0 {
        assert(t[k - 1] == s[k - 1]);
    }
    if k == j && k > 0 {
        assert(s[j - 1] == t[k - 1]);
    }
    assert(word_then_blanks(s, k, j, s.len() as int));
}

proof fn lemma_word_end(s: Seq<char>)
    ensures
        first_word_ends(s, word_end(s)),
{
    let j = span_front(s, false);
    lemma_span_front(s, false);
    let t = s.skip(j);
    lemma_span_front(t, true);
    let k = word_end(s);
    assert forall|i: int| j <= i < k implies spec_is_whitespace(#[trigger] s[i]) by {
        assert(s[i] == t[i - j]);
    }
    if k < s.len() {
        assert(s[k] == t[k - j]);
    }
    if j == k && j < s.len() {
        assert(t[0] == s[j]);
    }
    assert(word_then_blanks(s, 0, j, k));
}

/// There is one place where the last word starts, and one where the first word ends.
pub proof fn law_words_are_told_apart(s: Seq<char>, a: int, b: int)
    ensures
        last_word_starts(s, a) && last_word_starts(s, b) ==> a == b,
        first_word_ends(s, a) && first_word_ends(s, b) ==> a == b,
{
    if last_word_starts(s, a) && last_word_starts(s, b) && a != b {
        let lo = if a < b {
            a
        } else {
            b
        };
        let hi = if a < b {
            b
        } else {
            a
        };
        let j = choose|j: int| #[trigger] word_then_blanks(s, lo, j, s.len() as int) && (lo == j ==> lo == 0);
        let m = choose|j: int| #[trigger] word_then_blanks(s, hi, j, s.len() as int) && (hi == j ==> hi == 0);
        assert(!spec_is_whitespace(s[hi]));
        assert(spec_is_whitespace(s[hi - 1]));
    }
    if first_word_ends(s, a) && first_word_ends(s, b) && a != b {
        let lo = if a < b {
            a
        } else {
            b
        };
        let hi = if a < b {
            b
        } else {
            a
        };
        let j = choose|j: int| #[trigger] word_then_blanks(s, 0, j, lo) && (j == lo ==> lo == s.len());
        let m = choose|j: int| #[trigger] word_then_blanks(s, 0, j, hi) && (j == hi ==> hi == s.len());
        assert(spec_is_whitespace(s[lo - 1]));
        assert(!spec_is_whitespace(s[lo]));
    }
}

/// Ctrl+W and Ctrl+Delete kill the word before the cursor, with the blanks behind it.
pub proof fn law_kill_word_back(
    key: KeyEvent,
    p: PromptView,
    h: HistoryView,
    al: Seq<AliasView>,
    k: int,
)
    requires
        is_ctrl(key, 'w') || key.key is Delete && key.mods.ctrl,
        last_word_starts(p.line.before, k),
        p.line.before.len() > 0,
    ensures
        ({
            let r = normal_key(key, p, h, al);
            &&& r.1 is Continue
            &&& r.0.line.before == p.line.before.take(k)
            &&& r.0.line.after == p.line.after
            &&& r.0.line.kill == p.line.before.skip(k)
        }),
{
    lemma_word_start(p.line.before);
    law_words_are_told_apart(p.line.before, k, word_start(p.line.before));
    if k == p.line.before.len() {
        let s = p.line.before;
        let j = choose|j: int| #[trigger] word_then_blanks(s, k, j, s.len() as int) && (k == j ==> k == 0);
        assert(j == k);
    }
}

/// Alt+D kills the word behind the cursor, with the blanks behind it.
pub proof fn law_kill_word_forward(
    key: KeyEvent,
    p: PromptView,
    h: HistoryView,
    al: Seq<AliasView>,
    k: int,
)
    requires
        is_alt(key, 'd'),
        first_word_ends(p.line.after, k),
        p.line.after.len() > 0,
    ensures
        leaves(
            normal_key(key, p, h, al),
            p,
            p.line.before,
            p.line.after.skip(k),
            p.line.after.take(k),
        ),
{
    lemma_word_end(p.line.after);
    law_words_are_told_apart(p.line.after, k, word_end(p.line.after));
    if k == 0 {
        let s = p.line.after;
        let j = choose|j: int| #[trigger] word_then_blanks(s, 0, j, k) && (j == k ==> k == s.len());
        assert(j == k);
    }
}

/// Ctrl+Left, Alt+Left and Alt+B move to the start of the word before the cursor.
pub proof fn law_word_left(
    key: KeyEvent,
    p: PromptView,
    h: HistoryView,
    al: Seq<AliasView>,
    k: int,
)
    requires
        is_alt(key, 'b') || key.key is Left && (key.mods.ctrl || key.mods.alt),
        last_word_starts(p.line.before, k),
    ensures
        leaves(
            normal_key(key, p, h, al),
            p,
            p.line.before.take(k),
            p.line.before.skip(k) + p.line.after,
            p.line.kill,
        ),
{
    lemma_word_start(p.line.before);
    law_words_are_told_apart(p.line.before, k, word_start(p.line.before));
    let t = p.line.before + p.line.after;
    assert(t.take(k) =~= p.line.before.take(k));
    assert(t.skip(k) =~= p.line.before.skip(k) + p.line.after);
}

/// Ctrl+Right, Alt+Right and Alt+F move behind the word after the cursor and the blanks there.
pub proof fn law_word_right(
    key: KeyEvent,
    p: PromptView,
    h: HistoryView,
    al: Seq<AliasView>,
    k: int,
)
    requires
        is_alt(key, 'f') || key.key is Right && (key.mods.ctrl || key.mods.alt),
        first_word_ends(p.line.after, k),
    ensures
        leaves(
            normal_key(key, p, h, al),
            p,
            p.line.before + p.line.after.take(k),
            p.line.after.skip(k),
            p.line.kill,
        ),
{
    lemma_word_end(p.line.after);
    law_words_are_told_apart(p.line.after, k, word_end(p.line.after));
    let t = p.line.before + p.line.after;
    let n = p.line.before.len() as int;
    assert(t.take(n + k) =~= p.line.before + p.line.after.take(k));
    assert(t.skip(n + k) =~= p.line.after.skip(k));
}

/// A character is put before the cursor. Only a space may do more: it expands an alias.
pub proof fn law_typing(
    key: KeyEvent,
    c: char,
    p: PromptView,
    h: HistoryView,
    al: Seq<AliasView>,
)
    requires
        key.key == Key::Char(c),
        !key.mods.ctrl,
        !key.mods.alt,
        c != ' ' || al.len() == 0,
    ensures
        ({
            let r = normal_key(key, p, h, al);
            &&& r.1 is Continue
            &&& r.0.line.before == p.line.before.push(c)
            &&& r.0.line.after == p.line.after
            &&& r.0.line.kill == p.line.kill
            &&& r.0.back is None
        }),
{
    assert(p.line.before + seq![c] =~= p.line.before.push(c));
    assert(crate::alias::alias_place(al, Seq::empty(), 0) is None || al.len() > 0);
}

/// Ctrl+C cancels, Ctrl+L clears the screen, Ctrl+R searches the history, Ctrl+F picks a file and
/// Ctrl+Backspace a directory; Tab completes, with `cd ` put on an empty line. The line stays.
pub proof fn law_asking_keys(key: KeyEvent, p: PromptView, h: HistoryView, al: Seq<AliasView>)
    ensures
        ({
            let r = normal_key(key, p, h, al);
            &&& is_ctrl(key, 'c') ==> r == (p, ActionView::Cancel)
            &&& is_ctrl(key, 'l') ==> r == (p, ActionView::ClearScreen)
            &&& is_ctrl(key, 'r') ==> r == (p, ActionView::StartHistorySearch)
            &&& is_ctrl(key, 'f') ==> r == (p, ActionView::StartFilePicker)
            &&& key.key is Backspace && key.mods.ctrl ==> r == (p, ActionView::StartDirPicker)
            &&& key.key is Escape ==> r == (p, ActionView::Continue)
            &&& key.key is Tab && p.line.text().len() > 0 ==> r == (
                p,
                ActionView::StartCompletion,
            )
            &&& key.key is Tab && p.line.text().len() == 0 ==> r.1 is StartCompletion
                && r.0.line.before == seq!['c', 'd', ' '] && r.0.line.after.len() == 0
        }),
{
    reveal_strlit("cd ");
    if p.line.text().len() == 0 {
        assert(p.line.before + "cd "@ =~= seq!['c', 'd', ' ']);
    }
}

/// Enter runs the line as it stands, or asks for more of it; it changes nothing.
pub proof fn law_enter(key: KeyEvent, p: PromptView, h: HistoryView, al: Seq<AliasView>)
    requires
        key.key is Enter,
    ensures
        ({
            let r = normal_key(key, p, h, al);
            &&& r.0 == p
            &&& r.1 is Continuation || r.1 == ActionView::Execute(p.line.before + p.line.after)
        }),
{
}

/// Up and Down move between the lines of a text, to the same column or to the end of a line that
/// is shorter. `u` is what stands above the line `v`, and `w` what stands below it.
pub proof fn law_up_between_lines(
    key: KeyEvent,
    p: PromptView,
    h: HistoryView,
    al: Seq<AliasView>,
    u: Seq<char>,
    v: Seq<char>,
    y: Seq<char>,
)
    requires
        key.key is Up,
        !key.mods.ctrl,
        p.line.before == u + v + seq!['\n'] + y,
        u.len() > 0 ==> u.last() == '\n',
        !v.contains('\n'),
        !y.contains('\n'),
    ensures
        ({
            let col = if y.len() <= v.len() {
                y.len() as int
            } else {
                v.len() as int
            };
            leaves(
                normal_key(key, p, h, al),
                p,
                u + v.take(col),
                v.skip(col) + seq!['\n'] + y + p.line.after,
                p.line.kill,
            )
        }),
{
    let b = p.line.before;
    let nl = (u.len() + v.len()) as int;
    lemma_last_newline(b);
    assert(b[nl] == '\n');
    assert forall|i: int| nl < i < b.len() implies b[i] != '\n' by {
        assert(b[i] == y[i - nl - 1]);
        assert(y.contains(y[i - nl - 1]));
    }
    lemma_newline_place(b, nl);
    let above = b.take(nl);
    assert(above =~= u + v);
    lemma_last_newline(above);
    assert forall|i: int| u.len() <= i < above.len() implies above[i] != '\n' by {
        assert(above[i] == v[i - u.len()]);
        assert(v.contains(v[i - u.len()]));
    }
    if u.len() > 0 {
        assert(above[u.len() - 1] == '\n');
        lemma_newline_place(above, u.len() - 1);
    } else {
        lemma_newline_place(above, -1);
    }
    let col = if y.len() <= v.len() {
        y.len() as int
    } else {
        v.len() as int
    };
    let t = b + p.line.after;
    let n = u.len() + col;
    assert(t.take(n) =~= u + v.take(col));
    assert(t.skip(n) =~= v.skip(col) + seq!['\n'] + y + p.line.after);
    assert(p.line.text().contains('\n')) by {
        assert(p.line.text()[nl] == '\n');
    }
    assert(b.contains('\n'));
}

/// The last newline of `s` stands at `k`, or nowhere.
proof fn lemma_newline_place(s: Seq<char>, k: int)
    requires
        -1 <= k < s.len(),
        k >= 0 ==> s[k] == '\n',
        forall|i: int| k < i < s.len() ==> s[i] != '\n',
    ensures
        last_newline(s) == k,
    decreases s.len(),
{
    if s.len() > 0 && s.last() != '\n' {
        lemma_newline_place(s.drop_last(), k);
    }
}

proof fn lemma_first_newline_place(s: Seq<char>, k: int)
    requires
        0 <= k <= s.len(),
        k < s.len() ==> s[k] == '\n',
        forall|i: int| 0 <= i < k ==> s[i] != '\n',
    ensures
        first_newline(s) == k,
    decreases s.len(),
{
    if s.len() > 0 && s[0] != '\n' {
        lemma_first_newline_place(s.drop_first(), k - 1);
    }
}

/// Down goes to the same column of the line below, or to its end where it is shorter.
pub proof fn law_down_between_lines(
    key: KeyEvent,
    p: PromptView,
    h: HistoryView,
    al: Seq<AliasView>,
    u: Seq<char>,
    y: Seq<char>,
    rest: Seq<char>,
    v: Seq<char>,
    w: Seq<char>,
)
    requires
        key.key is Down,
        !key.mods.ctrl,
        p.line.before == u + y,
        p.line.after == rest + seq!['\n'] + v + w,
        u.len() > 0 ==> u.last() == '\n',
        w.len() > 0 ==> w[0] == '\n',
        !y.contains('\n'),
        !rest.contains('\n'),
        !v.contains('\n'),
    ensures
        ({
            let col = if y.len() <= v.len() {
                y.len() as int
            } else {
                v.len() as int
            };
            leaves(
                normal_key(key, p, h, al),
                p,
                u + y + rest + seq!['\n'] + v.take(col),
                v.skip(col) + w,
                p.line.kill,
            )
        }),
{
    let b = p.line.before;
    let a = p.line.after;
    let e = rest.len() as int;
    assert(a[e] == '\n');
    assert forall|i: int| 0 <= i < e implies a[i] != '\n' by {
        assert(a[i] == rest[i]);
        assert(rest.contains(rest[i]));
    }
    lemma_first_newline_place(a, e);
    let below = a.skip(e + 1);
    assert(below =~= v + w);
    assert forall|i: int| 0 <= i < v.len() implies below[i] != '\n' by {
        assert(below[i] == v[i]);
        assert(v.contains(v[i]));
    }
    lemma_first_newline_place(below, v.len() as int);
    assert forall|i: int| u.len() <= i < b.len() implies b[i] != '\n' by {
        assert(b[i] == y[i - u.len()]);
        assert(y.contains(y[i - u.len()]));
    }
    if u.len() > 0 {
        assert(b[u.len() - 1] == '\n');
    }
    lemma_newline_place(b, u.len() - 1);
    let col = if y.len() <= v.len() {
        y.len() as int
    } else {
        v.len() as int
    };
    let t = b + a;
    let n = b.len() + e + 1 + col;
    assert(t.take(n) =~= u + y + rest + seq!['\n'] + v.take(col));
    assert(t.skip(n) =~= v.skip(col) + w);
    assert(t[b.len() + e] == '\n');
}

/// Entry `i` of the history is shown in this session and starts with a text.
pub open spec fn answers(h: HistoryView, i: int, typed: Seq<char>) -> bool {
    &&& 0 <= i < h.entries.len()
    &&& h.entries[i].local || h.entries[i].timestamp <= h.session_cutoff
    &&& h.entries[i].text.len() >= typed.len()
    &&& h.entries[i].text.take(typed.len() as int) == typed
}

pub proof fn lemma_latest(h: HistoryView, typed: Seq<char>, n: int)
    requires
        0 <= n <= h.entries.len(),
    ensures
        match h.nth_back(typed, true, 0, n) {
            Some(i) => i < n && answers(h, i, typed) && forall|j: int|
                i < j < n ==> !#[trigger] answers(h, j, typed),
            None => forall|j: int| j < n ==> !#[trigger] answers(h, j, typed),
        },
    decreases n,
{
    if n > 0 {
        lemma_latest(h, typed, n - 1);
        let t = h.entries[n - 1].text;
        if t.len() >= typed.len() {
            assert(t.take(typed.len() as int) =~= t.subrange(0, typed.len() as int));
        }
        assert(h.selects(typed, true, n - 1) == answers(h, n - 1, typed));
    }
}

/// Up at a line of its own recalls the latest entry that starts with what was typed, with the
/// cursor at its end; nothing changes where there is none.
pub proof fn law_up_recalls_latest(
    key: KeyEvent,
    p: PromptView,
    h: HistoryView,
    al: Seq<AliasView>,
    i: int,
)
    requires
        key.key is Up,
        !key.mods.ctrl,
        !p.line.text().contains('\n'),
        p.back is None,
        answers(h, i, p.line.text()),
        forall|j: int| i < j ==> !#[trigger] answers(h, j, p.line.text()),
    ensures
        ({
            let r = normal_key(key, p, h, al);
            &&& r.1 is Continue
            &&& r.0.line.before == h.entries[i].text
            &&& r.0.line.after.len() == 0
            &&& r.0.saved == p.line.text()
            &&& r.0.back == Some(0usize)
        }),
{
    lemma_latest(h, p.line.text(), h.entries.len() as int);
}

/// Up after that recalls the entry before it that starts with what was typed, and Down comes
/// back to it.
pub proof fn law_up_goes_further_back(
    key: KeyEvent,
    down: KeyEvent,
    p: PromptView,
    h: HistoryView,
    al: Seq<AliasView>,
    i: int,
    k: int,
)
    requires
        key.key is Up,
        !key.mods.ctrl,
        down.key is Down,
        !down.mods.ctrl,
        !p.line.text().contains('\n'),
        p.back is None,
        0 <= k < i,
        answers(h, i, p.line.text()),
        answers(h, k, p.line.text()),
        forall|j: int| k < j && j != i ==> !#[trigger] answers(h, j, p.line.text()),
        !h.entries[i].text.contains('\n'),
        !h.entries[k].text.contains('\n'),
    ensures
        ({
            let one = normal_key(key, p, h, al).0;
            let two = normal_key(key, one, h, al).0;
            &&& two.line.before == h.entries[k].text
            &&& two.line.after.len() == 0
            &&& normal_key(down, two, h, al).0.line.before == h.entries[i].text
        }),
{
    let typed = p.line.text();
    let n = h.entries.len() as int;
    law_up_recalls_latest(key, p, h, al, i);
    lemma_second(h, typed, n, i, k);
    let one = normal_key(key, p, h, al).0;
    assert(one.line.text() =~= h.entries[i].text);
    let two = normal_key(key, one, h, al).0;
    assert(two.line.text() =~= h.entries[k].text);
}

proof fn lemma_second(h: HistoryView, typed: Seq<char>, n: int, i: int, k: int)
    requires
        0 <= k < i < n <= h.entries.len(),
        answers(h, i, typed),
        answers(h, k, typed),
        forall|j: int| k < j && j != i ==> !#[trigger] answers(h, j, typed),
    ensures
        h.nth_back(typed, true, 1, n) == Some(k),
        h.nth_back(typed, true, 0, n) == Some(i),
    decreases n,
{
    let t = h.entries[n - 1].text;
    if t.len() >= typed.len() {
        assert(t.take(typed.len() as int) =~= t.subrange(0, typed.len() as int));
    }
    assert(h.selects(typed, true, n - 1) == answers(h, n - 1, typed));
    if n - 1 > i {
        lemma_second(h, typed, n - 1, i, k);
    } else {
        lemma_latest(h, typed, n - 1);
    }
}

/// A space behind the name of an alias puts the alias's words in its place.
pub proof fn law_space_expands_alias(
    key: KeyEvent,
    p: PromptView,
    h: HistoryView,
    al: Seq<AliasView>,
    i: int,
    w: Seq<char>,
)
    requires
        key.key == Key::Char(' '),
        !key.mods.ctrl,
        !key.mods.alt,
        0 <= i < al.len(),
        forall|j: int| 0 <= j < al.len() && j != i ==> (#[trigger] al[j]).name != al[i].name,
        al[i].name.len() > 0,
        forall|k: int|
            0 <= k < al[i].name.len() ==> !spec_is_whitespace(#[trigger] al[i].name[k]),
        al[i].expansion == seq![w],
        p.line.before == al[i].name,
        p.line.after.len() == 0,
    ensures
        ({
            let r = normal_key(key, p, h, al);
            &&& r.1 is Continue
            &&& r.0.line.before == w.push(' ')
            &&& r.0.line.after.len() == 0
            &&& r.0.line.kill == p.line.kill
        }),
{
    let name = al[i].name;
    let t = name.push(' ');
    let typed = p.line.insert(seq![' ']);
    assert(typed.text() =~= t);
    assert(trim_back(t, true) == name.len()) by {
        reveal_with_fuel(trim_back, 2);
        assert(t.drop_last() =~= name);
        assert(!spec_is_whitespace(name[name.len() - 1]));
    }
    assert(trimmed_end(t) =~= name);
    assert(!name.contains(' ')) by {
        if name.contains(' ') {
            let k = choose|k: int| 0 <= k < name.len() && name[k] == ' ';
            assert(!spec_is_whitespace(name[k]));
        }
    }
    lemma_span_front(t, true);
    assert(t[0] == name[0]);
    assert(span_front(t, true) == 0);
    assert(t.skip(0) =~= t);
    lemma_span_front(t, false);
    let n = span_front(t, false);
    if n < name.len() {
        assert(t[n] == name[n]);
    }
    if n > name.len() {
        assert(!spec_is_whitespace(t[name.len() as int]));
    }
    assert(t.take(n) =~= name);
    assert(t.skip(n) =~= seq![' ']);
    lemma_alias_found(al, name, i, 0);
    assert(joined(seq![w], " "@) =~= w) by {
        reveal_with_fuel(joined, 2);
    }
    assert(t.take(0) + w + seq![' '] =~= w.push(' '));
}

proof fn lemma_alias_found(al: Seq<AliasView>, name: Seq<char>, i: int, k: int)
    requires
        0 <= k <= i < al.len(),
        al[i].name == name,
        forall|j: int| 0 <= j < al.len() && j != i ==> (#[trigger] al[j]).name != name,
    ensures
        crate::alias::alias_place(al, name, k) == Some(i),
    decreases i - k,
{
    if k < i {
        assert(al[k].name != name);
        lemma_alias_found(al, name, i, k + 1);
    }
}

/// A space behind more than one word is put before the cursor like any other character.
pub proof fn law_space_in_arguments(
    key: KeyEvent,
    p: PromptView,
    h: HistoryView,
    al: Seq<AliasView>,
    i: int,
    j: int,
)
    requires
        key.key == Key::Char(' '),
        !key.mods.ctrl,
        !key.mods.alt,
        0 <= i < j < p.line.before.len(),
        p.line.before[i] == ' ',
        !spec_is_whitespace(p.line.before[j]),
    ensures
        ({
            let r = normal_key(key, p, h, al);
            &&& r.1 is Continue
            &&& r.0.line.before == p.line.before.push(' ')
            &&& r.0.line.after == p.line.after
        }),
{
    let typed = p.line.insert(seq![' ']);
    let t = typed.text();
    lemma_trim_back(t, true);
    lemma_trimmed_part(t, true);
    let n = trim_back(t, true);
    assert(t[j] == p.line.before[j]);
    assert(t[i] == ' ');
    assert(n > j);
    assert(trimmed_end(t)[i] == ' ');
    assert(p.line.before + seq![' '] =~= p.line.before.push(' '));
}

} // verus!
