//! What each key does while one of several results is picked.
use vstd::prelude::*;

use crate::history::HistoryView;
use crate::input::{Key, KeyEvent};
use crate::line::LineState;
use crate::pickers::{
    dir_key, file_action, files_key, query_edited, search_action, search_key, DirActionView,
    FileActionView, FilesView, HistActionView, SearchView,
};

verus! {

/// Down and Ctrl+N select the next match of a history search, Up and Ctrl+P the one before; at
/// the ends the selection stays. The matches, the query and the line stay.
pub proof fn law_search_steps(key: KeyEvent, a: SearchView, b: SearchView, h: HistoryView)
    requires
        search_key(key, a, b, h),
        key.key is Down || key.key is Up || key.key == Key::Char('n') && key.mods.ctrl || key.key
            == Key::Char('p') && key.mods.ctrl,
    ensures
        search_action(key, a, h) is Continue,
        b.matches == a.matches,
        b.query == a.query,
        b.saved == a.saved,
        key.key is Down || key.key == Key::Char('n') ==> b.selected == if a.selected + 1
            < a.matches.len() {
            a.selected + 1
        } else {
            a.selected
        },
        key.key is Up || key.key == Key::Char('p') ==> b.selected == if a.selected > 0 {
            a.selected - 1
        } else {
            a.selected
        },
{
}

/// Enter takes the selected match, and Escape and Ctrl+C take none; nothing else ends a search.
pub proof fn law_search_ends(key: KeyEvent, a: SearchView, h: HistoryView)
    ensures
        key.key is Enter && 0 <= a.selected < a.matches.len() ==> search_action(key, a, h)
            == HistActionView::Accept(h.entries[a.matches[a.selected].idx].text),
        key.key is Enter && a.matches.len() == 0 && a.selected == 0 ==> search_action(key, a, h)
            is Cancel,
        key.key is Escape || key.key == Key::Char('c') && key.mods.ctrl ==> search_action(key, a, h)
            is Cancel,
        !(key.key is Enter || key.key is Escape || key.key == Key::Char('c') && key.mods.ctrl)
            ==> search_action(key, a, h) is Continue,
{
}

/// A typed character goes into the query of a history search, and the first match is selected;
/// Backspace takes it out again.
pub proof fn law_search_types(
    key: KeyEvent,
    back: KeyEvent,
    c: char,
    a: SearchView,
    b: SearchView,
    d: SearchView,
    h: HistoryView,
)
    requires
        key.key == Key::Char(c),
        !key.mods.ctrl,
        !key.mods.alt,
        back.key is Backspace,
        search_key(key, a, b, h),
        search_key(back, b, d, h),
    ensures
        b.query.before == a.query.before.push(c),
        b.query.after == a.query.after,
        b.selected == 0,
        d.query.before == a.query.before,
        d.query.after == a.query.after,
        d.selected == 0,
        d.saved == a.saved,
{
    assert(a.query.before + seq![c] =~= a.query.before.push(c));
    assert(a.query.before.push(c).drop_last() =~= a.query.before);
}

/// States of a history search between which one key was pressed each time.
pub open spec fn searched(key: KeyEvent, s: Seq<SearchView>, h: HistoryView) -> bool {
    forall|i: int, j: int|
        0 <= i && j == i + 1 && j < s.len() ==> search_key(key, #[trigger] s[i], #[trigger] s[j], h)
}

/// Down, pressed as often as there are states after the first, then Enter, takes the match that
/// many places on; Up leads back to the first.
pub proof fn law_down_then_enter(
    down: KeyEvent,
    enter: KeyEvent,
    s: Seq<SearchView>,
    h: HistoryView,
)
    requires
        down.key is Down,
        enter.key is Enter,
        searched(down, s, h),
        0 < s.len() <= s[0].matches.len(),
        s[0].selected == 0,
    ensures
        s.last().selected == s.len() - 1,
        s.last().matches == s[0].matches,
        search_action(enter, s.last(), h) == HistActionView::Accept(
            h.entries[s[0].matches[s.len() - 1].idx].text,
        ),
    decreases s.len(),
{
    if s.len() > 1 {
        let r = s.drop_last();
        assert forall|i: int, j: int| 0 <= i && j == i + 1 && j < r.len() implies search_key(
            down,
            #[trigger] r[i],
            #[trigger] r[j],
            h,
        ) by {
            assert(search_key(down, s[i], s[j], h));
        }
        law_down_then_enter(down, enter, r, h);
        assert(search_key(down, s[s.len() - 2], s[s.len() - 1], h));
        law_search_steps(down, s[s.len() - 2], s[s.len() - 1], h);
    }
}

/// Up undoes Down where there is a next match, and Down undoes Up where there is one before.
pub proof fn law_search_steps_undo(
    up: KeyEvent,
    down: KeyEvent,
    a: SearchView,
    b: SearchView,
    c: SearchView,
    h: HistoryView,
)
    requires
        up.key is Up,
        down.key is Down,
        0 <= a.selected < a.matches.len(),
        search_key(down, a, b, h) && search_key(up, b, c, h) && a.selected + 1 < a.matches.len()
            || search_key(up, a, b, h) && search_key(down, b, c, h) && a.selected > 0,
    ensures
        c.selected == a.selected,
        c.matches == a.matches,
        c.query == a.query,
{
}

/// Down and Ctrl+N select the next file of a picker, Up and Ctrl+P the one before; at the ends
/// the selection stays. The files, the query and the line stay.
pub proof fn law_files_steps(key: KeyEvent, a: FilesView, b: FilesView)
    requires
        files_key(key, a, b),
        key.key is Down || key.key is Up || key.key == Key::Char('n') && key.mods.ctrl || key.key
            == Key::Char('p') && key.mods.ctrl,
    ensures
        file_action(key, a) is Continue,
        b.filtered == a.filtered,
        b.all == a.all,
        b.query == a.query,
        b.saved == a.saved,
        b.hidden == a.hidden,
        key.key is Down || key.key == Key::Char('n') ==> b.selected == if a.selected + 1
            < a.filtered.len() {
            a.selected + 1
        } else {
            a.selected
        },
        key.key is Up || key.key == Key::Char('p') ==> b.selected == if a.selected > 0 {
            a.selected - 1
        } else {
            a.selected
        },
{
}

/// Enter takes the path of the selected file, Escape and Ctrl+C take none, and Ctrl+F starts the
/// walk anew with hidden files shown, or no longer shown. Any other key lets the picking go on.
pub proof fn law_files_ends(key: KeyEvent, a: FilesView, b: FilesView)
    requires
        files_key(key, a, b),
        0 <= a.selected,
    ensures
        key.key is Enter && a.selected < a.filtered.len() ==> file_action(key, a)
            == FileActionView::Accept(a.all[a.filtered[a.selected] as int].1@),
        key.key is Enter && a.filtered.len() == 0 ==> file_action(key, a) is Cancel,
        key.key is Escape || key.key == Key::Char('c') && key.mods.ctrl ==> file_action(key, a)
            is Cancel,
        key.key == Key::Char('f') && key.mods.ctrl ==> file_action(key, a) is Restart && b.hidden
            != a.hidden && b.query == a.query && b.all.len() == 0 && b.selected == 0,
        !(key.key is Enter || key.key is Escape || key.mods.ctrl && (key.key == Key::Char('c')
            || key.key == Key::Char('f'))) ==> file_action(key, a) is Continue && b.hidden
            == a.hidden && b.all == a.all,
        b.saved == a.saved,
{
}

/// States of a picker between which one key was pressed each time.
pub open spec fn picked(key: KeyEvent, s: Seq<FilesView>) -> bool {
    forall|i: int, j: int|
        0 <= i && j == i + 1 && j < s.len() ==> files_key(key, #[trigger] s[i], #[trigger] s[j])
}

/// Down, pressed as often as there are states after the first, then Enter, takes the file that
/// many places on.
pub proof fn law_down_then_enter_files(down: KeyEvent, enter: KeyEvent, s: Seq<FilesView>)
    requires
        down.key is Down,
        enter.key is Enter,
        picked(down, s),
        0 < s.len() <= s[0].filtered.len(),
        s[0].selected == 0,
    ensures
        s.last().selected == s.len() - 1,
        s.last().filtered == s[0].filtered,
        s.last().all == s[0].all,
        file_action(enter, s.last()) == FileActionView::Accept(
            s[0].all[s[0].filtered[s.len() - 1] as int].1@,
        ),
    decreases s.len(),
{
    if s.len() > 1 {
        let r = s.drop_last();
        assert forall|i: int, j: int| 0 <= i && j == i + 1 && j < r.len() implies files_key(
            down,
            #[trigger] r[i],
            #[trigger] r[j],
        ) by {
            assert(files_key(down, s[i], s[j]));
        }
        law_down_then_enter_files(down, enter, r);
        assert(files_key(down, s[s.len() - 2], s[s.len() - 1]));
        law_files_steps(down, s[s.len() - 2], s[s.len() - 1]);
    }
}

/// A typed character goes into the query of a picker.
pub proof fn law_files_types(key: KeyEvent, c: char, a: FilesView, b: FilesView)
    requires
        key.key == Key::Char(c),
        !key.mods.ctrl,
        !key.mods.alt,
        files_key(key, a, b),
    ensures
        b.query.before == a.query.before.push(c),
        b.query.after == a.query.after,
        b.all == a.all,
        0 <= a.selected ==> b.selected == 0 || b.selected == a.selected && b.selected
            < b.filtered.len(),
{
    assert(a.query.before + seq![c] =~= a.query.before.push(c));
}

/// Among directories Down selects the next and Up the one before, Enter changes to the selected
/// one, and Escape and Ctrl+C leave; any other key does nothing.
pub proof fn law_dir_keys(key: KeyEvent, entries: Seq<Seq<char>>, selected: int)
    requires
        0 <= selected < entries.len(),
    ensures
        ({
            let r = dir_key(key, entries, selected);
            &&& key.key is Down && selected + 1 < entries.len() ==> r == (
                selected + 1,
                DirActionView::Show,
            )
            &&& key.key is Down && selected + 1 == entries.len() ==> r == (
                selected,
                DirActionView::Ignore,
            )
            &&& key.key is Up && selected > 0 ==> r == (selected - 1, DirActionView::Show)
            &&& key.key is Up && selected == 0 ==> r == (selected, DirActionView::Ignore)
            &&& key.key is Enter ==> r == (selected, DirActionView::Change(entries[selected]))
            &&& key.key is Escape || key.key == Key::Char('c') && key.mods.ctrl ==> r == (
                selected,
                DirActionView::Leave,
            )
            &&& key.key is Left || key.key is Right || key.key is Tab || key.key is Backspace
                || key.key is Char && !key.mods.ctrl ==> r == (selected, DirActionView::Ignore)
        }),
{
}

/// The place of the selection after Down was pressed `k` times among directories.
pub open spec fn dirs_stepped(down: KeyEvent, entries: Seq<Seq<char>>, k: int) -> int
    decreases k,
{
    if k <= 0 {
        0
    } else {
        dir_key(down, entries, dirs_stepped(down, entries, k - 1)).0
    }
}

/// Down, pressed `k` times, then Enter, changes to the directory `k` places on.
pub proof fn law_down_then_enter_dirs(
    down: KeyEvent,
    enter: KeyEvent,
    entries: Seq<Seq<char>>,
    k: int,
)
    requires
        down.key is Down,
        enter.key is Enter,
        0 <= k < entries.len(),
    ensures
        dirs_stepped(down, entries, k) == k,
        dir_key(enter, entries, dirs_stepped(down, entries, k)).1 == DirActionView::Change(
            entries[k],
        ),
    decreases k,
{
    if k > 0 {
        law_down_then_enter_dirs(down, enter, entries, k - 1);
    }
}

/// The editing keys work in a query as they do at the prompt: Home and End, the arrows, Backspace
/// and Delete, and what removes or brings back the text on either side of the cursor.
pub proof fn law_query_keys(key: KeyEvent, q: LineState, alt_words: bool)
    requires
        !key.mods.alt,
    ensures
        ({
            let r = query_edited(key, q, alt_words);
            let ctrl = key.mods.ctrl;
            &&& key.key is Home || key.key == Key::Char('a') && ctrl ==> r.before.len() == 0 && r.after
                == q.before + q.after
            &&& key.key is End || key.key == Key::Char('e') && ctrl ==> r.after.len() == 0 && r.before
                == q.before + q.after
            &&& key.key is Left && !ctrl && q.before.len() > 0 ==> r.before == q.before.drop_last()
                && r.after == seq![q.before.last()] + q.after
            &&& key.key is Right && !ctrl && q.after.len() > 0 ==> r.before == q.before.push(
                q.after[0],
            ) && r.after == q.after.drop_first()
            &&& key.key is Backspace && q.before.len() > 0 ==> r.before == q.before.drop_last()
                && r.after == q.after
            &&& (key.key is Delete && !ctrl || key.key == Key::Char('d') && ctrl) && q.after.len()
                > 0 ==> r.before == q.before && r.after == q.after.drop_first()
            &&& key.key == Key::Char('u') && ctrl && q.before.len() > 0 ==> r.before.len() == 0
                && r.after == q.after && r.kill == q.before
            &&& key.key == Key::Char('k') && ctrl && q.after.len() > 0 ==> r.after.len() == 0
                && r.before == q.before && r.kill == q.after
            &&& key.key == Key::Char('y') && ctrl ==> r.before == q.before + q.kill && r.after
                == q.after
            &&& key.key == Key::Char('w') && ctrl ==> r.after == q.after && (r == q || r.before
                + r.kill == q.before)
        }),
{
    let r = query_edited(key, q, alt_words);
    let t = q.text();
    assert(t =~= q.before + q.after);
    assert(t.take(0) =~= Seq::empty());
    assert(t.skip(0) =~= t);
    assert(t.take(t.len() as int) =~= t);
    assert(t.skip(t.len() as int) =~= Seq::empty());
    if q.before.len() > 0 {
        let n = q.before.len() - 1;
        assert(t.take(n) =~= q.before.drop_last());
        assert(t.skip(n) =~= seq![q.before.last()] + q.after);
    }
    if q.after.len() > 0 {
        let n = q.before.len() + 1;
        assert(t.take(n as int) =~= q.before.push(q.after[0]));
        assert(t.skip(n as int) =~= q.after.drop_first());
    }
    let s = crate::line::word_start(q.before);
    crate::text::lemma_trim_back(q.before, true);
    let i = crate::text::trim_back(q.before, true);
    crate::text::lemma_trim_back(q.before.take(i), false);
    assert(q.before.take(s) + q.before.skip(s) =~= q.before);
}

/// Words are taken out of a query, and walked over, as at the prompt.
pub proof fn law_words_of_query(
    key: KeyEvent,
    p: crate::editor::PromptView,
    h: HistoryView,
    al: Seq<crate::alias::AliasView>,
)
    requires
        key.key == Key::Char('w') && key.mods.ctrl && !key.mods.alt || (key.key == Key::Char('b')
            || key.key == Key::Char('f')) && key.mods.alt && !key.mods.ctrl,
    ensures
        query_edited(key, p.line, true) == crate::editor::normal_key(key, p, h, al).0.line,
{
}

} // verus!
