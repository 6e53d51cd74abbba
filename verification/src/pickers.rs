//! What keys do while candidates, the history, files or directories are picked from.
use vstd::prelude::*;

use crate::complete::{above, below, left_of, right_of, CompletionState};
use crate::editor::{line_end, line_home, word_left, word_right};
use crate::finder::{filter_entries, kept_selection, picker_results, walk_views};
use crate::fuzzy::{lowercased, match_views, rank_order, FuzzyMatch, MatchView};
use crate::history::{first_matches, History, HistoryView};
use crate::input::{Key, KeyEvent};
use crate::line::{LineBuffer, LineState};
use crate::sort::stable_sorted;
use crate::text::{byte_len, chars_of, matches_at, starts_with, str_len, string_of, strs};

verus! {

// -- Completion --

/// What a key asks for while candidates are shown.
#[derive(Debug, Clone, Copy, PartialEq, Eq, Structural)]
pub enum CompAction {
    Navigate,
    Accept,
    Cancel,
    /// The word has changed: candidates are looked for again.
    Refilter,
}

/// A step in the grid. With nothing selected, a step down or right selects the first candidate,
/// one up or left the last.
pub open spec fn stepped(state: CompletionState, key: Key) -> CompletionState {
    let sel = state.selected as int;
    let rows = state.rows as int;
    let n = state.comp.entries@.len() as int;
    if n == 0 {
        state
    } else if sel >= n {
        state.selecting(
            if key is Up || key is Left {
                n - 1
            } else {
                0
            },
        )
    } else {
        state.selecting(
            match key {
                Key::Up => above(sel, rows, n),
                Key::Left => left_of(sel, rows, n),
                Key::Right => right_of(sel, rows, n),
                _ => below(sel, rows, n),
            },
        )
    }
}

/// What a key does while candidates are shown for the word in `line`.
pub open spec fn completion_key(key: KeyEvent, state: CompletionState, line: LineState) -> (
    CompletionState,
    LineState,
    CompAction,
) {
    match key.key {
        Key::Up | Key::Down | Key::Tab | Key::Left | Key::Right => (
            stepped(state, key.key),
            line,
            CompAction::Navigate,
        ),
        Key::Enter => (state, line, CompAction::Accept),
        Key::Char(c) => if !key.mods.ctrl && !key.mods.alt {
            (state, line.insert(seq![c]), CompAction::Refilter)
        } else {
            (state, line, CompAction::Cancel)
        },
        Key::Backspace => if line.before.len() > 0 {
            (state, line.delete_back(), CompAction::Refilter)
        } else {
            (state, line, CompAction::Cancel)
        },
        _ => (state, line, CompAction::Cancel),
    }
}

fn step(state: &mut CompletionState, key: Key)
    requires
        old(state).comp.entries@.len() + old(state).rows <= usize::MAX,
    ensures
        *final(state) == stepped(*old(state), key),
{
    let n = state.comp.entries.len();
    if n == 0 {
        return;
    }
    if state.selected >= n {
        state.selected = match key {
            Key::Up | Key::Left => n - 1,
            _ => 0,
        };
        return;
    }
    match key {
        Key::Up => state.move_up(),
        Key::Left => state.move_left(),
        Key::Right => state.move_right(),
        _ => state.move_down(),
    }
}

/// Handle a key while candidates are shown for the word in `line`.
pub fn handle_completion_key(
    key: KeyEvent,
    state: &mut CompletionState,
    line: &mut LineBuffer,
) -> (r: CompAction)
    requires
        old(state).comp.entries@.len() + old(state).rows <= usize::MAX,
    ensures
        (*final(state), final(line)@, r) == completion_key(key, *old(state), old(line)@),
{
    match key.key {
        Key::Up | Key::Down | Key::Tab | Key::Left | Key::Right => {
            step(state, key.key);
            CompAction::Navigate
        },
        Key::Enter => CompAction::Accept,
        Key::Char(c) => {
            if !key.mods.ctrl && !key.mods.alt {
                line.insert_char(c);
                CompAction::Refilter
            } else {
                CompAction::Cancel
            }
        },
        Key::Backspace => {
            if line.delete_back() {
                CompAction::Refilter
            } else {
                proof {
                    assert(line@ == old(line)@.delete_back());
                }
                CompAction::Cancel
            }
        },
        _ => CompAction::Cancel,
    }
}

// -- Queries --

/// Whether a key may change a query.
pub open spec fn changes_query(key: KeyEvent) -> bool {
    let ctrl = key.mods.ctrl;
    let alt = key.mods.alt;
    match key.key {
        Key::Backspace | Key::Delete => true,
        Key::Char(c) => if ctrl {
            c == 'd' || c == 'u' || c == 'k' || c == 'w' || c == 'y'
        } else if alt {
            c == 'd'
        } else {
            true
        },
        _ => false,
    }
}

/// A query after a key that edits it. Where `alt_words`, Alt+B and Alt+F move by words.
pub open spec fn query_edited(key: KeyEvent, q: LineState, alt_words: bool) -> LineState {
    let ctrl = key.mods.ctrl;
    let alt = key.mods.alt;
    match key.key {
        Key::Left => if ctrl && !alt {
            word_left(q)
        } else {
            q.move_left()
        },
        Key::Right => if ctrl && !alt {
            word_right(q)
        } else {
            q.move_right()
        },
        Key::Home => line_home(q),
        Key::End => line_end(q),
        Key::Backspace => q.delete_back(),
        Key::Delete => if ctrl {
            q.kill_word_back()
        } else {
            q.delete_forward()
        },
        Key::Char(c) => if ctrl && c == 'a' {
            line_home(q)
        } else if ctrl && c == 'e' {
            line_end(q)
        } else if alt && alt_words && c == 'b' {
            word_left(q)
        } else if alt && alt_words && c == 'f' {
            word_right(q)
        } else if ctrl && c == 'd' {
            q.delete_forward()
        } else if ctrl && c == 'u' {
            q.kill_to_start()
        } else if ctrl && c == 'k' {
            q.kill_to_end()
        } else if ctrl && c == 'w' {
            q.kill_word_back()
        } else if ctrl && c == 'y' {
            q.yank()
        } else if !ctrl && alt && c == 'd' {
            q.kill_word_back()
        } else if !ctrl && !alt {
            q.insert(seq![c])
        } else {
            q
        },
        _ => q,
    }
}

fn edit_query_char(key: KeyEvent, c: char, query: &mut LineBuffer, alt_words: bool)
    requires
        key.key == Key::Char(c),
    ensures
        final(query)@ == query_edited(key, old(query)@, alt_words),
{
    let ctrl = key.mods.ctrl;
    let alt = key.mods.alt;
    if ctrl && c == 'a' {
        query.move_home();
    } else if ctrl && c == 'e' {
        query.move_end();
    } else if alt && alt_words && c == 'b' {
        query.move_word_left();
    } else if alt && alt_words && c == 'f' {
        query.move_word_right();
    } else if ctrl && c == 'd' {
        query.delete_forward();
    } else if ctrl && c == 'u' {
        query.kill_to_start();
    } else if ctrl && c == 'k' {
        query.kill_to_end();
    } else if ctrl && c == 'w' {
        query.kill_word_back();
    } else if ctrl && c == 'y' {
        query.yank();
    } else if !ctrl && alt && c == 'd' {
        query.kill_word_back();
    } else if !ctrl && !alt {
        query.insert_char(c);
    }
}

/// Edits a query. Returns whether the results have to be found again.
pub fn edit_query(key: KeyEvent, query: &mut LineBuffer, alt_words: bool) -> (r: bool)
    ensures
        final(query)@ == query_edited(key, old(query)@, alt_words),
        r == changes_query(key),
{
    let ctrl = key.mods.ctrl;
    let alt = key.mods.alt;
    match key.key {
        Key::Left => {
            if ctrl && !alt {
                query.move_word_left();
            } else {
                query.move_left();
            }
            false
        },
        Key::Right => {
            if ctrl && !alt {
                query.move_word_right();
            } else {
                query.move_right();
            }
            false
        },
        Key::Home => {
            query.move_home();
            false
        },
        Key::End => {
            query.move_end();
            false
        },
        Key::Backspace => {
            query.delete_back();
            true
        },
        Key::Delete => {
            if ctrl {
                query.kill_word_back();
            } else {
                query.delete_forward();
            }
            true
        },
        Key::Char(c) => {
            edit_query_char(key, c, query, alt_words);
            if ctrl {
                c == 'd' || c == 'u' || c == 'k' || c == 'w' || c == 'y'
            } else {
                !alt || c == 'd'
            }
        },
        _ => false,
    }
}

/// A step through results: up or Ctrl+P, down or Ctrl+N.
pub open spec fn steps_up(key: KeyEvent) -> bool {
    key.key is Up || key.key == Key::Char('p') && key.mods.ctrl
}

pub open spec fn steps_down(key: KeyEvent) -> bool {
    key.key is Down || key.key == Key::Char('n') && key.mods.ctrl
}

pub open spec fn cancels(key: KeyEvent) -> bool {
    key.key is Escape || key.key == Key::Char('c') && key.mods.ctrl
}

fn is_key(key: KeyEvent, c: char) -> (r: bool)
    ensures
        r == (key.key == Key::Char(c) && key.mods.ctrl),
{
    match key.key {
        Key::Char(k) => k == c && key.mods.ctrl,
        _ => false,
    }
}

fn is_step_up(key: KeyEvent) -> (r: bool)
    ensures
        r == steps_up(key),
{
    let up = match key.key {
        Key::Up => true,
        _ => false,
    };
    up || is_key(key, 'p')
}

fn is_step_down(key: KeyEvent) -> (r: bool)
    ensures
        r == steps_down(key),
{
    let down = match key.key {
        Key::Down => true,
        _ => false,
    };
    down || is_key(key, 'n')
}

fn is_cancel(key: KeyEvent) -> (r: bool)
    ensures
        r == cancels(key),
{
    let escape = match key.key {
        Key::Escape => true,
        _ => false,
    };
    escape || is_key(key, 'c')
}

fn is_enter(key: KeyEvent) -> (r: bool)
    ensures
        r == (key.key is Enter),
{
    match key.key {
        Key::Enter => true,
        _ => false,
    }
}

/// The selection after a step among `n` results.
pub open spec fn selection_stepped(key: KeyEvent, selected: int, n: int) -> int {
    if steps_up(key) && selected > 0 {
        selected - 1
    } else if steps_down(key) && selected + 1 < n {
        selected + 1
    } else {
        selected
    }
}

// -- Picking a directory --

/// What a key does while a directory is picked.
pub enum DirAction {
    /// Nothing.
    Ignore,
    /// The list is shown again.
    Show,
    /// The prompt comes back.
    Leave,
    /// The directory is changed, then the prompt comes back.
    Change(String),
}

pub enum DirActionView {
    Ignore,
    Show,
    Leave,
    Change(Seq<char>),
}

impl View for DirAction {
    type V = DirActionView;

    open spec fn view(&self) -> DirActionView {
        match self {
            DirAction::Ignore => DirActionView::Ignore,
            DirAction::Show => DirActionView::Show,
            DirAction::Leave => DirActionView::Leave,
            DirAction::Change(d) => DirActionView::Change(d@),
        }
    }
}

pub open spec fn dir_key(key: KeyEvent, entries: Seq<Seq<char>>, selected: int) -> (
    int,
    DirActionView,
) {
    if cancels(key) {
        (selected, DirActionView::Leave)
    } else {
        match key.key {
            Key::Enter => (
                selected,
                if 0 <= selected < entries.len() {
                    DirActionView::Change(entries[selected])
                } else {
                    DirActionView::Leave
                },
            ),
            Key::Up => if selected > 0 {
                (selected - 1, DirActionView::Show)
            } else {
                (selected, DirActionView::Ignore)
            },
            Key::Down => if selected + 1 < entries.len() {
                (selected + 1, DirActionView::Show)
            } else {
                (selected, DirActionView::Ignore)
            },
            _ => (selected, DirActionView::Ignore),
        }
    }
}

/// Handle a key while a directory is picked.
pub fn handle_dir_picker_key(key: KeyEvent, entries: &Vec<String>, selected: &mut usize) -> (r:
    DirAction)
    ensures
        (*final(selected) as int, r@) == dir_key(key, strs(entries@), *old(selected) as int),
{
    if is_cancel(key) {
        return DirAction::Leave;
    }
    let n = entries.len();
    match key.key {
        Key::Enter => {
            if *selected < n {
                assert(strs(entries@)[*selected as int] == entries@[*selected as int]@);
                DirAction::Change(entries[*selected].clone())
            } else {
                DirAction::Leave
            }
        },
        Key::Up => {
            if *selected > 0 {
                *selected = *selected - 1;
                DirAction::Show
            } else {
                DirAction::Ignore
            }
        },
        Key::Down => {
            if *selected < n && n - *selected > 1 {
                *selected = *selected + 1;
                DirAction::Show
            } else {
                DirAction::Ignore
            }
        },
        _ => DirAction::Ignore,
    }
}

// -- Picking a file --

/// What a key does while a file is picked.
pub enum FilePickerAction {
    Continue,
    /// Hidden files are shown or not: the walk starts anew.
    Restart,
    Accept(String),
    Cancel,
}

pub enum FileActionView {
    Continue,
    Restart,
    Accept(Seq<char>),
    Cancel,
}

impl View for FilePickerAction {
    type V = FileActionView;

    open spec fn view(&self) -> FileActionView {
        match self {
            FilePickerAction::Continue => FileActionView::Continue,
            FilePickerAction::Restart => FileActionView::Restart,
            FilePickerAction::Accept(p) => FileActionView::Accept(p@),
            FilePickerAction::Cancel => FileActionView::Cancel,
        }
    }
}

/// Picking a file for the line.
pub struct FilePicker {
    pub query: LineBuffer,
    /// All entries from the background walk.
    pub all_entries: Vec<(usize, String)>,
    /// Filtered + sorted results: indices into `all_entries`.
    pub filtered: Vec<usize>,
    pub selected: usize,
    pub hidden: bool,
    /// The line as it was.
    pub saved: LineBuffer,
}

#[verifier::ext_equal]
pub struct FilesView {
    pub query: LineState,
    pub all: Seq<(usize, String)>,
    pub filtered: Seq<usize>,
    pub selected: int,
    pub hidden: bool,
    pub saved: LineState,
}

impl View for FilePicker {
    type V = FilesView;

    open spec fn view(&self) -> FilesView {
        FilesView {
            query: self.query@,
            all: self.all_entries@,
            filtered: self.filtered@,
            selected: self.selected as int,
            hidden: self.hidden,
            saved: self.saved@,
        }
    }
}

impl FilePicker {
    /// Every result is one of the entries.
    pub open spec fn wf(&self) -> bool {
        forall|k: int|
            0 <= k < self.filtered@.len() ==> (#[trigger] self.filtered@[k])
                < self.all_entries@.len()
    }

    /// A picker for a line, with nothing found yet.
    pub fn start(line: &LineBuffer) -> (r: Self)
        ensures
            r.wf(),
            r.query@ == (LineState { before: Seq::empty(), after: Seq::empty(), kill: Seq::empty() }),
            r.all_entries@.len() == 0,
            r.filtered@.len() == 0,
            r.selected == 0,
            !r.hidden,
            r.saved@ == line@,
    {
        FilePicker {
            query: LineBuffer::new(),
            all_entries: Vec::new(),
            filtered: Vec::new(),
            selected: 0,
            hidden: false,
            saved: line.clone(),
        }
    }

    /// Filters the entries by the query.
    pub fn filter(&mut self)
        ensures
            final(self).wf(),
            final(self).query@ == old(self).query@,
            final(self).all_entries@ == old(self).all_entries@,
            final(self).hidden == old(self).hidden,
            final(self).saved@ == old(self).saved@,
            picker_results(
                walk_views(old(self).all_entries@),
                old(self).query@.text(),
                final(self).filtered@,
            ),
            final(self).selected == kept_selection(
                old(self).selected as int,
                final(self).filtered@.len() as int,
            ),
    {
        let mut filtered: Vec<usize> = Vec::new();
        let mut selected = self.selected;
        filter_entries(self.query.text(), &self.all_entries, &mut filtered, &mut selected);
        self.filtered = filtered;
        self.selected = selected;
    }

    /// The line with a path at the cursor.
    pub fn accepted(&self, path: &str) -> (r: LineBuffer)
        ensures
            r@ == self.saved@.insert(path@),
    {
        let mut line = self.saved.clone();
        line.insert_str(path);
        line
    }
}

/// What a key asks for while a file is picked.
pub open spec fn file_action(key: KeyEvent, p: FilesView) -> FileActionView {
    if cancels(key) {
        FileActionView::Cancel
    } else if key.key is Enter {
        if p.selected < p.filtered.len() {
            FileActionView::Accept(p.all[p.filtered[p.selected] as int].1@)
        } else {
            FileActionView::Cancel
        }
    } else if key.key == Key::Char('f') && key.mods.ctrl {
        FileActionView::Restart
    } else {
        FileActionView::Continue
    }
}

/// A key takes the picker from `a` to `b`: a changed query filters the entries again.
pub open spec fn files_key(key: KeyEvent, a: FilesView, b: FilesView) -> bool {
    let action = file_action(key, a);
    let edits = action is Continue && !(steps_up(key) || steps_down(key));
    &&& b.saved == a.saved
    &&& if action is Restart {
        &&& b.hidden == !a.hidden
        &&& b.query == a.query
        &&& b.all.len() == 0
        &&& b.filtered.len() == 0
        &&& b.selected == 0
    } else {
        &&& b.hidden == a.hidden
        &&& b.all == a.all
        &&& if edits {
            b.query == query_edited(key, a.query, false)
        } else {
            b.query == a.query
        }
        &&& if edits && changes_query(key) {
            &&& picker_results(walk_views(a.all), b.query.text(), b.filtered)
            &&& b.selected == kept_selection(a.selected, b.filtered.len() as int)
        } else {
            &&& b.filtered == a.filtered
            &&& b.selected == (if action is Continue {
                selection_stepped(key, a.selected, a.filtered.len() as int)
            } else {
                a.selected
            })
        }
    }
}

/// Handle a key while a file is picked.
pub fn handle_file_picker_key(key: KeyEvent, p: &mut FilePicker) -> (r: FilePickerAction)
    requires
        old(p).wf(),
    ensures
        final(p).wf(),
        r@ == file_action(key, old(p)@),
        files_key(key, old(p)@, final(p)@),
{
    if is_cancel(key) {
        return FilePickerAction::Cancel;
    }
    let n = p.filtered.len();
    if is_enter(key) {
        return if p.selected < n {
            let entry = p.filtered[p.selected];
            FilePickerAction::Accept(p.all_entries[entry].1.clone())
        } else {
            FilePickerAction::Cancel
        };
    }
    if is_step_up(key) {
        if p.selected > 0 {
            p.selected = p.selected - 1;
        }
        return FilePickerAction::Continue;
    }
    if is_step_down(key) {
        if p.selected < n && n - p.selected > 1 {
            p.selected = p.selected + 1;
        }
        return FilePickerAction::Continue;
    }
    if is_key(key, 'f') {
        p.hidden = !p.hidden;
        p.all_entries = Vec::new();
        p.filtered = Vec::new();
        p.selected = 0;
        return FilePickerAction::Restart;
    }
    if edit_query(key, &mut p.query, false) {
        p.filter();
    }
    FilePickerAction::Continue
}

// -- Searching the history --

/// How many matches are shown.
pub const SEARCH_LIMIT: usize = 200;

/// What a key does while the history is searched.
pub enum HistAction {
    Continue,
    Accept(String),
    Cancel,
}

pub enum HistActionView {
    Continue,
    Accept(Seq<char>),
    Cancel,
}

impl View for HistAction {
    type V = HistActionView;

    open spec fn view(&self) -> HistActionView {
        match self {
            HistAction::Continue => HistActionView::Continue,
            HistAction::Accept(t) => HistActionView::Accept(t@),
            HistAction::Cancel => HistActionView::Cancel,
        }
    }
}

/// Candidates for a query of the given number of bytes.
struct Narrowed {
    len: usize,
    candidates: Vec<usize>,
}

/// A search of the history.
pub struct HistorySearch {
    query: LineBuffer,
    matches: Vec<FuzzyMatch>,
    selected: usize,
    /// The line as it was.
    saved_line: String,
    /// Entries among which a longer query is searched for.
    candidates: Vec<usize>,
    /// The candidates of the starts of the query.
    candidate_stack: Vec<Narrowed>,
}

#[verifier::ext_equal]
pub struct SearchView {
    pub query: LineState,
    pub matches: Seq<MatchView>,
    pub selected: int,
    pub saved: Seq<char>,
}

impl View for HistorySearch {
    type V = SearchView;

    closed spec fn view(&self) -> SearchView {
        SearchView {
            query: self.query@,
            matches: match_views(self.matches@),
            selected: self.selected as int,
            saved: self.saved_line@,
        }
    }
}

/// The visible entries, the latest first.
pub open spec fn visible_places(h: HistoryView) -> Seq<usize> {
    let v = h.visible_entries(h.entries.len() as int);
    Seq::new(v.len(), |i: int| v[i] as usize)
}

/// All matches of a query among some entries.
pub open spec fn matches_among(h: HistoryView, query: Seq<char>, c: Seq<usize>) -> Seq<MatchView> {
    h.subset_matches(lowercased(query), None, c, c.len() as int)
}

/// The best matches of a query among all visible entries.
pub open spec fn best_matches(h: HistoryView, query: Seq<char>, shown: Seq<MatchView>) -> bool {
    exists|sorted: Seq<MatchView>| #[trigger]
        stable_sorted(matches_among(h, query, visible_places(h)), sorted, rank_order()) && shown
            == first_matches(sorted, SEARCH_LIMIT as int)
}

/// Candidates miss no visible match of a query.
pub open spec fn complete_for(h: HistoryView, query: Seq<char>, c: Seq<usize>) -> bool {
    matches_among(h, query, c) == matches_among(h, query, visible_places(h))
}

/// Every candidate is an entry.
pub open spec fn entries_only(h: HistoryView, c: Seq<usize>) -> bool {
    forall|k: int| 0 <= k < c.len() ==> (#[trigger] c[k]) < h.entries.len()
}

/// Candidates were found for a start of the query.
spec fn narrowed_ok(h: HistoryView, text: Seq<char>, n: Narrowed) -> bool {
    &&& entries_only(h, n.candidates@)
    &&& exists|j: int|
        0 <= j <= text.len() && byte_len(#[trigger] text.take(j)) == n.len && complete_for(
            h,
            text.take(j),
            n.candidates@,
        )
}

/// The matches of a search among complete candidates are the best of all.
proof fn lemma_best(
    history: &History,
    query: Seq<char>,
    c: Seq<usize>,
    matched: Seq<usize>,
    shown: Seq<MatchView>,
)
    requires
        complete_for(history@, query, c),
        history.found_among(query, None, c, SEARCH_LIMIT as int, matched, shown),
    ensures
        best_matches(history@, query, shown),
{
}

/// What is found among entries are entries.
proof fn lemma_matched_entries(
    history: &History,
    query: Seq<char>,
    c: Seq<usize>,
    matched: Seq<usize>,
    shown: Seq<MatchView>,
)
    requires
        entries_only(history@, c),
        c.len() <= usize::MAX,
        history.found_among(query, None, c, SEARCH_LIMIT as int, matched, shown),
    ensures
        entries_only(history@, matched),
        forall|k: int|
            0 <= k < shown.len() ==> 0 <= (#[trigger] shown[k]).idx < history@.entries.len()
                && shown[k].count <= 32,
{
    let h = history@;
    let all = h.subset_matches(lowercased(query), None, c, c.len() as int);
    let f = |x: usize| x as int;
    let g = |m: MatchView| m.idx;
    crate::history::lemma_subset_members(h, lowercased(query), None, c, c.len() as int);
    lemma_counts(h, lowercased(query), c, c.len() as int);
    assert forall|k: int| 0 <= k < all.len() implies 0 <= (#[trigger] all[k]).idx
        < h.entries.len() by {
        let j = choose|j: int| 0 <= j < c.len() && all[k].idx == #[trigger] c[j];
        assert(c[j] < h.entries.len());
    }
    assert(matched.map_values(f).len() == matched.len());
    assert forall|k: int| 0 <= k < matched.len() implies (#[trigger] matched[k])
        < h.entries.len() by {
        assert(matched.map_values(f)[k] == matched[k] as int);
        assert(all.map_values(g)[k] == all[k].idx);
    }
    let sorted = choose|sorted: Seq<MatchView>| #[trigger]
        stable_sorted(all, sorted, rank_order()) && shown == first_matches(
            sorted,
            SEARCH_LIMIT as int,
        );
    lemma_subset_len(h, lowercased(query), c, c.len() as int);
    crate::sort::lemma_sorted_members(all, sorted, rank_order());
    assert forall|k: int| 0 <= k < shown.len() implies 0 <= (#[trigger] shown[k]).idx
        < h.entries.len() && shown[k].count <= 32 by {
        assert(shown[k] == sorted[k]);
        assert(all.contains(sorted[k]));
        let j = choose|j: int| 0 <= j < all.len() && all[j] == sorted[k];
        assert(0 <= all[j].idx < h.entries.len());
    }
}

proof fn lemma_counts(h: HistoryView, q: Seq<char>, c: Seq<usize>, n: int)
    requires
        0 <= n <= c.len(),
    ensures
        forall|k: int|
            0 <= k < h.subset_matches(q, None, c, n).len() ==> (#[trigger] h.subset_matches(
                q,
                None,
                c,
                n,
            )[k]).count <= 32,
    decreases n,
{
    if n > 0 {
        lemma_counts(h, q, c, n - 1);
        let before = h.subset_matches(q, None, c, n - 1);
        let all = h.subset_matches(q, None, c, n);
        assert forall|k: int| 0 <= k < all.len() implies (#[trigger] all[k]).count <= 32 by {
            if k < before.len() {
                assert(all[k] == before[k]);
            }
        }
    }
}

proof fn lemma_subset_len(h: HistoryView, q: Seq<char>, c: Seq<usize>, n: int)
    requires
        0 <= n <= c.len(),
    ensures
        h.subset_matches(q, None, c, n).len() <= n,
    decreases n,
{
    if n > 0 {
        lemma_subset_len(h, q, c, n - 1);
    }
}

/// Candidates that are complete for a query are complete for a longer one.
proof fn lemma_complete_longer(h: HistoryView, a: Seq<char>, b: Seq<char>, c: Seq<usize>)
    requires
        complete_for(h, a, c),
        entries_only(h, c),
        h.entries.len() <= usize::MAX,
    ensures
        complete_for(h, a + b, c),
{
    let all = matches_among(h, a, c);
    let m = Seq::new(all.len(), |i: int| all[i].idx as usize);
    let f = |x: usize| x as int;
    let g = |x: MatchView| x.idx;
    crate::history::lemma_subset_members(h, lowercased(a), None, c, c.len() as int);
    assert forall|k: int| 0 <= k < all.len() implies 0 <= (#[trigger] all[k]).idx
        < h.entries.len() by {
        let j = choose|j: int| 0 <= j < c.len() && all[k].idx == #[trigger] c[j];
        assert(c[j] < h.entries.len());
    }
    assert(m.map_values(f) =~= all.map_values(g));
    crate::history::law_incremental_search(h, a, b, None, c, c.len() as int, m);
    let v = visible_places(h);
    crate::history::law_incremental_search(h, a, b, None, v, v.len() as int, m);
}

/// The matches of a query among complete candidates are complete candidates.
proof fn lemma_complete_matched(h: HistoryView, a: Seq<char>, c: Seq<usize>, matched: Seq<usize>)
    requires
        complete_for(h, a, c),
        matched.map_values(|x: usize| x as int) == matches_among(h, a, c).map_values(
            |m: MatchView| m.idx,
        ),
    ensures
        complete_for(h, a, matched),
{
    crate::history::law_incremental_search(
        h,
        a,
        Seq::empty(),
        None,
        c,
        c.len() as int,
        matched,
    );
    assert(a + Seq::empty() =~= a);
}

proof fn lemma_take_bytes(s: Seq<char>, i: int, j: int)
    requires
        0 <= i <= s.len(),
        0 <= j <= s.len(),
    ensures
        byte_len(s.take(i)) == byte_len(s.take(j)) ==> i == j,
        byte_len(s.take(i)) <= byte_len(s.take(j)) ==> i <= j,
{
    if i < j {
        assert(s.take(j).take(i) =~= s.take(i));
        crate::text::lemma_byte_len_take(s.take(j), i);
    } else if j < i {
        assert(s.take(i).take(j) =~= s.take(j));
        crate::text::lemma_byte_len_take(s.take(i), j);
    }
}

impl HistorySearch {
    /// The best matches of the query are shown, and the candidates kept for a longer or a
    /// shorter query miss no match.
    pub closed spec fn wf(&self, history: &History) -> bool {
        let h = history@;
        let text = self.query@.text();
        &&& best_matches(h, text, match_views(self.matches@))
        &&& forall|k: int|
            0 <= k < self.matches@.len() ==> (#[trigger] self.matches@[k]).entry_idx
                < h.entries.len() && self.matches@[k].match_count <= 32
        &&& entries_only(h, self.candidates@)
        &&& complete_for(h, text, self.candidates@)
        &&& forall|k: int|
            0 <= k < self.candidate_stack@.len() ==> narrowed_ok(
                h,
                text,
                #[trigger] self.candidate_stack@[k],
            )
    }

    /// The best matches of the query among the visible entries are shown.
    pub proof fn lemma_shows_best(&self, history: &History)
        requires
            self.wf(history),
        ensures
            best_matches(history@, self@.query.text(), self@.matches),
            forall|k: int|
                0 <= k < self@.matches.len() ==> 0 <= (#[trigger] self@.matches[k]).idx
                    < history@.entries.len() && self@.matches[k].count <= 32,
    {
        assert forall|k: int| 0 <= k < self@.matches.len() implies 0 <= (
        #[trigger] self@.matches[k]).idx < history@.entries.len() && self@.matches[k].count
            <= 32 by {
            assert(self.matches@[k].entry_idx < history@.entries.len());
        }
    }

    pub fn query(&self) -> (r: &LineBuffer)
        ensures
            r@ == self@.query,
    {
        &self.query
    }

    pub fn matches(&self) -> (r: &Vec<FuzzyMatch>)
        ensures
            match_views(r@) == self@.matches,
    {
        &self.matches
    }

    pub fn selected(&self) -> (r: usize)
        ensures
            r == self@.selected,
    {
        self.selected
    }

    pub fn saved_line(&self) -> (r: &str)
        ensures
            r@ == self@.saved,
    {
        self.saved_line.as_str()
    }

    /// A search with an empty query: all visible entries match.
    pub fn start(history: &History, saved_line: &str) -> (r: Self)
        ensures
            r.wf(history),
            r@.query == (LineState { before: Seq::empty(), after: Seq::empty(), kill: Seq::empty() }),
            r@.selected == 0,
            r@.saved == saved_line@,
    {
        let t = chars_of(saved_line);
        let mut s = HistorySearch {
            query: LineBuffer::new(),
            matches: Vec::new(),
            selected: 0,
            saved_line: string_of(t.as_slice()),
            candidates: Vec::new(),
            candidate_stack: Vec::new(),
        };
        s.search_all(history);
        s
    }

    /// Searches all visible entries.
    fn search_all(&mut self, history: &History)
        ensures
            final(self).wf(history),
            final(self).query@ == old(self).query@,
            final(self).selected == old(self).selected,
            final(self).saved_line@ == old(self).saved_line@,
    {
        self.candidate_stack = Vec::new();
        let mut visible: Vec<usize> = Vec::new();
        history.visible_entry_indices_into(&mut visible);
        let n = history.len();
        proof {
            let v = history@.visible_entries(n as int);
            crate::history::lemma_visible_entries(history@, n as int);
            let f = |x: usize| x as int;
            assert(visible@.map_values(f).len() == visible@.len());
            assert forall|k: int| 0 <= k < visible@.len() implies visible@[k]
                == visible_places(history@)[k] by {
                assert(visible@.map_values(f)[k] == visible@[k] as int);
                assert(v[k] == visible@[k] as int);
            }
            assert(visible@ =~= visible_places(history@));
            assert forall|k: int| 0 <= k < visible@.len() implies (#[trigger] visible@[k])
                < history@.entries.len() by {
                assert(visible@.map_values(f)[k] == visible@[k] as int);
                assert(0 <= v[k] < n);
            }
        }
        let mut matched: Vec<usize> = Vec::new();
        let mut results: Vec<FuzzyMatch> = Vec::new();
        history.fuzzy_search_subset_into(
            self.query.text(),
            &visible,
            &mut matched,
            &mut results,
            SEARCH_LIMIT,
        );
        let count = visible.len();
        proof {
            let t = self.query@.text();
            lemma_best(history, t, visible@, matched@, match_views(results@));
            lemma_matched_entries(history, t, visible@, matched@, match_views(results@));
            assert forall|k: int| 0 <= k < results@.len() implies (#[trigger] results@[k]).entry_idx
                < history@.entries.len() && results@[k].match_count <= 32 by {
                assert(match_views(results@)[k] == results@[k]@);
            }
        }
        self.matches = results;
        self.candidates = visible;
    }

    /// Searches the candidates for a query that was typed on.
    fn search_longer(&mut self, history: &History, before: &str)
        requires
            entries_only(history@, old(self).candidates@),
            complete_for(history@, before@, old(self).candidates@),
            starts_with(old(self).query@.text(), before@),
            forall|k: int|
                0 <= k < old(self).candidate_stack@.len() ==> narrowed_ok(
                    history@,
                    before@,
                    #[trigger] old(self).candidate_stack@[k],
                ),
        ensures
            final(self).wf(history),
            final(self).query@ == old(self).query@,
            final(self).selected == old(self).selected,
            final(self).saved_line@ == old(self).saved_line@,
    {
        let mut base: Vec<usize> = Vec::new();
        core::mem::swap(&mut self.candidates, &mut base);
        let mut matched: Vec<usize> = Vec::new();
        let mut results: Vec<FuzzyMatch> = Vec::new();
        history.fuzzy_search_subset_into(
            self.query.text(),
            &base,
            &mut matched,
            &mut results,
            SEARCH_LIMIT,
        );
        let count = base.len();
        let entries = history.len();
        let ghost t = self.query@.text();
        let ghost a = before@;
        let ghost b = t.skip(a.len() as int);
        proof {
            assert(t.subrange(0, a.len() as int) =~= t.take(a.len() as int));
            assert(a + b =~= t);
            lemma_complete_longer(history@, a, b, base@);
            lemma_best(history, t, base@, matched@, match_views(results@));
            lemma_matched_entries(history, t, base@, matched@, match_views(results@));
            lemma_complete_matched(history@, t, base@, matched@);
            assert forall|k: int| 0 <= k < results@.len() implies (#[trigger] results@[k]).entry_idx
                < history@.entries.len() && results@[k].match_count <= 32 by {
                assert(match_views(results@)[k] == results@[k]@);
            }
        }
        let len = str_len(before);
        let ghost had = self.candidate_stack@;
        let item = Narrowed { len, candidates: base };
        proof {
            assert(t.take(a.len() as int) =~= a);
            assert(narrowed_ok(history@, t, item));
        }
        self.candidate_stack.push(item);
        proof {
            assert forall|k: int| 0 <= k < self.candidate_stack@.len() implies narrowed_ok(
                history@,
                t,
                #[trigger] self.candidate_stack@[k],
            ) by {
                if k < had.len() {
                    let e = had[k];
                    assert(narrowed_ok(history@, a, e));
                    let j = choose|j: int|
                        0 <= j <= a.len() && byte_len(#[trigger] a.take(j)) == e.len
                            && complete_for(history@, a.take(j), e.candidates@);
                    assert(t.take(j) =~= a.take(j));
                    assert(narrowed_ok(history@, t, e));
                }
            }
        }
        self.matches = results;
        self.candidates = matched;
    }

    /// Goes back to the candidates of a shorter query.
    fn search_shorter(&mut self, history: &History, before: &str)
        requires
            starts_with(before@, old(self).query@.text()),
            forall|k: int|
                0 <= k < old(self).candidate_stack@.len() ==> narrowed_ok(
                    history@,
                    before@,
                    #[trigger] old(self).candidate_stack@[k],
                ),
        ensures
            final(self).wf(history),
            final(self).query@ == old(self).query@,
            final(self).selected == old(self).selected,
            final(self).saved_line@ == old(self).saved_line@,
    {
        let new_len = str_len(self.query.text());
        let ghost t = self.query@.text();
        let ghost a = before@;
        assert(a.subrange(0, t.len() as int) =~= a.take(t.len() as int));
        while self.candidate_stack.len() > 0 && self.candidate_stack[self.candidate_stack.len()
            - 1].len > new_len
            invariant
                self.query@ == old(self).query@,
                self.selected == old(self).selected,
                self.saved_line@ == old(self).saved_line@,
                forall|k: int|
                    0 <= k < self.candidate_stack@.len() ==> narrowed_ok(
                        history@,
                        a,
                        #[trigger] self.candidate_stack@[k],
                    ),
            decreases self.candidate_stack@.len(),
        {
            let ghost had = self.candidate_stack@;
            self.candidate_stack.pop();
            assert forall|k: int| 0 <= k < self.candidate_stack@.len() implies narrowed_ok(
                history@,
                a,
                #[trigger] self.candidate_stack@[k],
            ) by {
                assert(self.candidate_stack@[k] == had[k]);
            }
        }
        let depth = self.candidate_stack.len();
        if depth == 0 || self.candidate_stack[depth - 1].len != new_len {
            self.search_all(history);
            return;
        }
        let mut k: usize = 0;
        let mut fits = true;
        while k < depth
            invariant
                k <= depth,
                depth == self.candidate_stack@.len(),
                fits ==> forall|i: int|
                    0 <= i < k ==> (#[trigger] self.candidate_stack@[i]).len <= new_len,
            decreases depth - k,
        {
            if self.candidate_stack[k].len > new_len {
                fits = false;
            }
            k += 1;
        }
        if !fits {
            self.search_all(history);
            return;
        }
        let ghost had = self.candidate_stack@;
        proof {
            assert forall|i: int| 0 <= i < had.len() implies narrowed_ok(
                history@,
                t,
                #[trigger] had[i],
            ) by {
                let e = had[i];
                assert(narrowed_ok(history@, a, e));
                let j = choose|j: int|
                    0 <= j <= a.len() && byte_len(#[trigger] a.take(j)) == e.len && complete_for(
                        history@,
                        a.take(j),
                        e.candidates@,
                    );
                lemma_take_bytes(a, j, t.len() as int);
                assert(j <= t.len());
                assert(t.take(j) =~= a.take(j));
            }
        }
        let top = self.candidate_stack.pop();
        match top {
            Some(entry) => {
                let base = entry.candidates;
                proof {
                    assert(narrowed_ok(history@, t, had[depth - 1]));
                    let j = choose|j: int|
                        0 <= j <= t.len() && byte_len(#[trigger] t.take(j)) == had[depth - 1].len
                            && complete_for(history@, t.take(j), had[depth - 1].candidates@);
                    assert(t.take(t.len() as int) =~= t);
                    lemma_take_bytes(t, j, t.len() as int);
                    assert(complete_for(history@, t, base@));
                }
                let mut matched: Vec<usize> = Vec::new();
                let mut results: Vec<FuzzyMatch> = Vec::new();
                history.fuzzy_search_subset_into(
                    self.query.text(),
                    &base,
                    &mut matched,
                    &mut results,
                    SEARCH_LIMIT,
                );
                let count = base.len();
                proof {
                    lemma_best(history, t, base@, matched@, match_views(results@));
                    lemma_matched_entries(history, t, base@, matched@, match_views(results@));
                    assert forall|i: int| 0 <= i < results@.len() implies (
                    #[trigger] results@[i]).entry_idx < history@.entries.len()
                        && results@[i].match_count <= 32 by {
                        assert(match_views(results@)[i] == results@[i]@);
                    }
                    assert forall|i: int| 0 <= i < self.candidate_stack@.len() implies narrowed_ok(
                        history@,
                        t,
                        #[trigger] self.candidate_stack@[i],
                    ) by {
                        assert(self.candidate_stack@[i] == had[i]);
                    }
                }
                self.matches = results;
                self.candidates = base;
            },
            None => {
                self.search_all(history);
            },
        }
    }

    /// Searches for the query after a change.
    fn search_again(&mut self, history: &History, before: &LineBuffer)
        requires
            entries_only(history@, old(self).candidates@),
            complete_for(history@, before@.text(), old(self).candidates@),
            forall|k: int|
                0 <= k < old(self).candidate_stack@.len() ==> narrowed_ok(
                    history@,
                    before@.text(),
                    #[trigger] old(self).candidate_stack@[k],
                ),
        ensures
            final(self).wf(history),
            final(self).query@ == old(self).query@,
            final(self).selected == old(self).selected,
            final(self).saved_line@ == old(self).saved_line@,
    {
        let prev = chars_of(before.text());
        let now = chars_of(self.query.text());
        let prev_len = str_len(before.text());
        let new_len = str_len(self.query.text());
        let at_end = before.cursor() == prev_len && self.query.cursor() == new_len;
        if at_end && new_len > prev_len && matches_at(&now, &prev, 0) {
            self.search_longer(history, before.text());
        } else if at_end && new_len < prev_len && matches_at(&prev, &now, 0) {
            self.search_shorter(history, before.text());
        } else {
            self.search_all(history);
        }
    }
}

/// What a key asks for while the history is searched.
pub open spec fn search_action(key: KeyEvent, s: SearchView, h: HistoryView) -> HistActionView {
    if cancels(key) {
        HistActionView::Cancel
    } else if key.key is Enter {
        if s.selected < s.matches.len() {
            HistActionView::Accept(h.entries[s.matches[s.selected].idx].text)
        } else {
            HistActionView::Cancel
        }
    } else {
        HistActionView::Continue
    }
}

/// A key takes the search from `a` to `b`, which shows the best matches of its query.
pub open spec fn search_key(key: KeyEvent, a: SearchView, b: SearchView, h: HistoryView) -> bool {
    let action = search_action(key, a, h);
    let edits = action is Continue && !(steps_up(key) || steps_down(key));
    &&& best_matches(h, b.query.text(), b.matches)
    &&& b.saved == a.saved
    &&& if edits {
        b.query == query_edited(key, a.query, true)
    } else {
        b.query == a.query
    }
    &&& if edits && changes_query(key) {
        b.selected == 0
    } else {
        &&& b.matches == a.matches
        &&& b.selected == (if action is Continue {
            selection_stepped(key, a.selected, a.matches.len() as int)
        } else {
            a.selected
        })
    }
}

proof fn lemma_moves_keep_text(key: KeyEvent, q: LineState, alt_words: bool)
    requires
        !changes_query(key),
    ensures
        query_edited(key, q, alt_words).text() == q.text(),
{
    crate::text::lemma_trim_back(q.before, true);
    let i = crate::text::trim_back(q.before, true);
    crate::text::lemma_trim_back(q.before.take(i), false);
    crate::text::lemma_span_front(q.after, false);
    let j = crate::text::span_front(q.after, false);
    crate::text::lemma_span_front(q.after.skip(j), true);
    crate::line::law_movement_keeps_text(q, 0);
    crate::line::law_movement_keeps_text(q, q.text().len() as int);
    crate::line::law_movement_keeps_text(q, crate::line::word_start(q.before));
    crate::line::law_movement_keeps_text(
        q,
        q.before.len() + crate::line::word_end(q.after),
    );
    assert(q.move_left().text() =~= q.text());
    assert(q.move_right().text() =~= q.text());
}

/// Handle a key while the history is searched: after every key the best matches of the query
/// among the visible entries are shown.
pub fn handle_history_search_key(key: KeyEvent, s: &mut HistorySearch, history: &History) -> (r:
    HistAction)
    requires
        old(s).wf(history),
    ensures
        final(s).wf(history),
        r@ == search_action(key, old(s)@, history@),
        search_key(key, old(s)@, final(s)@, history@),
{
    if is_cancel(key) {
        return HistAction::Cancel;
    }
    let n = s.matches.len();
    if is_enter(key) {
        return if s.selected < n {
            let m: FuzzyMatch = s.matches[s.selected];
            let t = chars_of(history.get(m.entry_idx));
            HistAction::Accept(string_of(t.as_slice()))
        } else {
            HistAction::Cancel
        };
    }
    if is_step_up(key) {
        if s.selected > 0 {
            s.selected = s.selected - 1;
        }
        return HistAction::Continue;
    }
    if is_step_down(key) {
        if s.selected < n && n - s.selected > 1 {
            s.selected = s.selected + 1;
        }
        return HistAction::Continue;
    }
    let before = s.query.clone();
    if edit_query(key, &mut s.query, true) {
        s.search_again(history, &before);
        s.selected = 0;
    } else {
        proof {
            lemma_moves_keep_text(key, before@, true);
        }
    }
    HistAction::Continue
}

} // verus!
